//! BIRD's control-socket protocol. Every reply line is a four-digit code, a separator and text: a
//! space ends the reply, a dash continues it, and a line that begins with a space continues it
//! under the code of the line ahead.

use crate::text;
use vstd::prelude::*;

verus! {

/// A reply: the code of its last line and the text of all its lines.
#[derive(Debug, PartialEq)]
pub struct Reply {
    pub code: u16,
    pub text: String,
}

impl Reply {
    /// Codes from 8000 on are errors.
    pub fn is_error(&self) -> (r: bool)
        ensures
            r == (self.code >= 8000),
    {
        self.code >= 8000
    }
}

/// The code that a line begins with: four digits and at least one more character.
pub open spec fn code_of(line: Seq<char>) -> Option<int> {
    if line.len() >= 5 && text::all_digits(line.take(4)) {
        Some(text::digits_value(line.take(4)))
    } else {
        None
    }
}

/// A line ends a reply: a code, immediately followed by a space.
pub open spec fn ends_reply(line: Seq<char>) -> bool {
    code_of(line) is Some && line[4] == ' '
}

/// A line without its code and separator, or without the space that stands for them.
pub open spec fn line_text(line: Seq<char>) -> Seq<char> {
    if code_of(line) is Some && (line[4] == ' ' || line[4] == '-') {
        line.skip(5)
    } else if line.len() > 0 && line[0] == ' ' {
        line.skip(1)
    } else {
        line
    }
}

/// The code that a line begins with.
pub fn line_code(line: &str) -> (r: Option<u16>)
    ensures
        match r {
            Some(c) => code_of(line@) == Some(c as int),
            None => code_of(line@) is None,
        },
{
    let v = text::chars_of(line);
    if v.len() < 5 {
        return None;
    }
    let head = text::copy(v.as_slice(), 0, 4);
    assert(head@ =~= line@.take(4));
    if head[0] == '+' {
        assert(!text::is_digit(line@.take(4)[0]));
        return None;
    }
    proof {
        if text::all_digits(head@) {
            lemma_four_digits(head@);
        }
    }
    match text::parse_uint(head.as_slice(), 9999) {
        Some(n) => Some(n as u16),
        None => None,
    }
}

proof fn lemma_four_digits(s: Seq<char>)
    requires
        s.len() == 4,
        text::all_digits(s),
    ensures
        text::digits_value(s) <= 9999,
{
    let a = s.drop_last();
    let b = a.drop_last();
    let c = b.drop_last();
    let d = c.drop_last();
    assert(text::is_digit(s[0]) && text::is_digit(s[1]) && text::is_digit(s[2]) && text::is_digit(
        s[3],
    ));
    assert(text::digits_value(d) == 0);
    assert(text::digits_value(c) <= 9);
    assert(text::digits_value(b) <= 99);
    assert(text::digits_value(a) <= 999);
}

/// Whether a line is the last one of a reply.
pub fn is_final_line(line: &str) -> (r: bool)
    ensures
        r == ends_reply(line@),
{
    let v = text::chars_of(line);
    v.len() >= 5 && v[4] == ' ' && line_code(line).is_some()
}

/// The text of a line.
pub fn strip_code_prefix(line: &str) -> (r: String)
    ensures
        r@ == line_text(line@),
{
    let v = text::chars_of(line);
    let n: usize = v.len();
    let start: usize = if n >= 5 && (v[4] == ' ' || v[4] == '-') && line_code(line).is_some() {
        5
    } else if n > 0 && v[0] == ' ' {
        1
    } else {
        0
    };
    let rest = text::copy(v.as_slice(), start, n);
    assert(rest@ =~= line_text(line@));
    text::string_of(rest.as_slice())
}

/// What has been read of a reply.
#[derive(Debug, PartialEq)]
pub struct Partial {
    pub code: Option<u16>,
    pub text: String,
}

/// The last code among the first `n` lines.
pub open spec fn last_code(lines: Seq<Seq<char>>) -> Option<int>
    decreases lines.len(),
{
    if lines.len() == 0 {
        None
    } else if code_of(lines.last()) is Some {
        code_of(lines.last())
    } else {
        last_code(lines.drop_last())
    }
}

/// The text of lines, one behind the other.
pub open spec fn joined(lines: Seq<Seq<char>>) -> Seq<char>
    decreases lines.len(),
{
    if lines.len() == 0 {
        Seq::empty()
    } else {
        joined(lines.drop_last()) + line_text(lines.last())
    }
}

impl Partial {
    /// These lines have been read, and none of them ended the reply.
    pub open spec fn has_read(self, lines: Seq<Seq<char>>) -> bool {
        &&& self.text@ == joined(lines)
        &&& match self.code {
            Some(c) => last_code(lines) == Some(c as int),
            None => last_code(lines) is None,
        }
    }
}

/// Nothing has been read.
pub fn start_reply() -> (p: Partial)
    ensures
        p.has_read(Seq::empty()),
{
    Partial { code: None, text: String::new() }
}

/// Reads one more line. A reply that it ends is complete: its code is that of the line, its text
/// that of all lines.
pub fn read_line(partial: &mut Partial, line: &str) -> (r: Option<Reply>)
    ensures
        r is Some <==> ends_reply(line@),
        forall|lines: Seq<Seq<char>>| #[trigger]
            old(partial).has_read(lines) ==> match r {
                Some(reply) => reply.text@ == joined(lines.push(line@)) && Some(reply.code as int)
                    == code_of(line@),
                None => final(partial).has_read(lines.push(line@)),
            },
{
    let ghost before = *partial;
    if let Some(c) = line_code(line) {
        partial.code = Some(c);
    }
    let t = strip_code_prefix(line);
    partial.text.push_str(t.as_str());
    proof {
        assert forall|lines: Seq<Seq<char>>| #[trigger] before.has_read(lines) implies partial.text@
            == joined(lines.push(line@)) && (match partial.code {
            Some(c) => last_code(lines.push(line@)) == Some(c as int),
            None => last_code(lines.push(line@)) is None,
        }) by {
            assert(lines.push(line@).drop_last() =~= lines);
        }
    }
    if is_final_line(line) {
        match partial.code {
            Some(code) => {
                let text = partial.text.clone();
                Some(Reply { code, text })
            },
            None => None,
        }
    } else {
        None
    }
}

/// Law: a line with a code and a space ends a reply, and one with a code and a hyphen goes on. Either
/// way the code is the number, and the text is what follows.
pub proof fn coded_line_reads_back(digits: Seq<char>, t: Seq<char>, last: bool)
    requires
        digits.len() == 4,
        text::all_digits(digits),
    ensures
        ({
            let line = digits + seq![
                if last {
                    ' '
                } else {
                    '-'
                },
            ] + t;
            &&& code_of(line) == Some(text::digits_value(digits))
            &&& ends_reply(line) == last
            &&& line_text(line) == t
        }),
{
    let line = digits + seq![
        if last {
            ' '
        } else {
            '-'
        },
    ] + t;
    assert(line.take(4) =~= digits);
    assert(line.skip(5) =~= t);
}

/// Law: a line that begins with a space goes on with the text behind the space.
pub proof fn continued_line_reads_back(t: Seq<char>)
    ensures
        ({
            let line = seq![' '] + t;
            &&& code_of(line) is None
            &&& !ends_reply(line)
            &&& line_text(line) == t
        }),
{
    let line = seq![' '] + t;
    assert(line.skip(1) =~= t);
    if line.len() >= 5 {
        assert(line.take(4)[0] == ' ');
        assert(!text::is_digit(line.take(4)[0]));
    }
}

/// Law: the text of a reply is that of its lines, one behind the other, whatever the first of them.
pub proof fn reply_is_its_lines(first: Seq<char>, rest: Seq<Seq<char>>)
    ensures
        joined(seq![first] + rest) == line_text(first) + joined(rest),
    decreases rest.len(),
{
    let all = seq![first] + rest;
    if rest.len() == 0 {
        assert(all.drop_last() =~= Seq::empty());
        assert(all.last() == first);
        assert(joined(all.drop_last()) =~= Seq::<char>::empty());
        assert(joined(all) =~= line_text(first) + joined(rest));
    } else {
        reply_is_its_lines(first, rest.drop_last());
        assert(all.drop_last() =~= seq![first] + rest.drop_last());
        assert(all.last() == rest.last());
        assert(joined(all) =~= line_text(first) + joined(rest));
    }
}

} // verus!
