//! Byte offsets into text.
//!
//! Text is a sequence of characters here; parsers and files count bytes. An offset is the number of
//! bytes that the characters ahead of a position take up in UTF-8.

use crate::text;
use vstd::prelude::*;
use vstd::string::*;
use vstd::utf8::*;

verus! {

/// How many bytes a character takes up.
pub open spec fn width(c: char) -> int {
    if c as u32 <= 0x7f {
        1
    } else if c as u32 <= 0x7ff {
        2
    } else if c as u32 <= 0xffff {
        3
    } else {
        4
    }
}

/// The offset of position `i`.
pub open spec fn offset(s: Seq<char>, i: int) -> int
    decreases i,
{
    if i <= 0 || i > s.len() {
        0
    } else {
        offset(s, i - 1) + width(s[i - 1])
    }
}

/// How many bytes a text takes up.
pub open spec fn size(s: Seq<char>) -> int {
    offset(s, s.len() as int)
}

/// The first position, from `i` on, whose offset is not below `byte`.
pub open spec fn position_from(s: Seq<char>, byte: int, i: int) -> int
    decreases s.len() - i,
{
    if i >= s.len() || offset(s, i) >= byte {
        i
    } else {
        position_from(s, byte, i + 1)
    }
}

/// The position at an offset.
pub open spec fn position(s: Seq<char>, byte: int) -> int {
    position_from(s, byte, 0)
}

/// A character begins at this offset, or the text ends there.
pub open spec fn is_boundary(s: Seq<char>, byte: int) -> bool {
    0 <= position(s, byte) <= s.len() && offset(s, position(s, byte)) == byte
}

/// The text between two offsets.
pub open spec fn part(s: Seq<char>, from: int, to: int) -> Seq<char> {
    s.subrange(position(s, from), position(s, to))
}

proof fn lemma_prefix(s: Seq<char>, t: Seq<char>, i: int)
    requires
        0 <= i <= s.len(),
        i <= t.len(),
        forall|k: int| 0 <= k < i ==> s[k] == t[k],
    ensures
        offset(s, i) == offset(t, i),
    decreases i,
{
    if i > 0 {
        lemma_prefix(s, t, i - 1);
    }
}

proof fn lemma_front(s: Seq<char>, i: int)
    requires
        0 < i <= s.len(),
    ensures
        offset(s, i) == width(s[0]) + offset(s.skip(1), i - 1),
    decreases i,
{
    if i > 1 {
        lemma_front(s, i - 1);
        assert(s.skip(1)[i - 2] == s[i - 1]);
    } else {
        assert(offset(s, 1) == offset(s, 0) + width(s[0]));
    }
}

proof fn lemma_scalar_width(c: char)
    ensures
        encode_scalar(c as u32).len() == width(c),
{
    char_is_scalar(c);
}

/// The size of a text is the length of its UTF-8 encoding.
pub proof fn lemma_size(s: Seq<char>)
    ensures
        size(s) == encode_utf8(s).len(),
    decreases s.len(),
{
    if s.len() > 0 {
        lemma_front(s, s.len() as int);
        lemma_size(s.skip(1));
        lemma_scalar_width(s[0]);
        assert(s.skip(1) =~= s.drop_first());
        assert(s.skip(1).len() == s.len() - 1);
    }
}

pub proof fn lemma_increasing(s: Seq<char>, i: int, j: int)
    requires
        0 <= i <= j <= s.len(),
    ensures
        offset(s, i) <= offset(s, j),
        i < j ==> offset(s, i) < offset(s, j),
        offset(s, i) >= 0,
    decreases j,
{
    if i < j {
        lemma_increasing(s, i, j - 1);
    } else if i > 0 {
        lemma_increasing(s, i - 1, j - 1);
    }
}

proof fn lemma_position_from(s: Seq<char>, byte: int, i: int, k: int)
    requires
        0 <= i <= k <= s.len(),
        offset(s, k) == byte,
    ensures
        position_from(s, byte, i) == k,
    decreases k - i,
{
    lemma_increasing(s, i, k);
    if i < k {
        lemma_position_from(s, byte, i + 1, k);
    }
}

/// The position at an offset is the one that has it.
pub proof fn lemma_position(s: Seq<char>, byte: int, k: int)
    requires
        0 <= k <= s.len(),
        offset(s, k) == byte,
    ensures
        position(s, byte) == k,
        is_boundary(s, byte),
{
    lemma_position_from(s, byte, 0, k);
}

pub proof fn lemma_position_range(s: Seq<char>, byte: int, i: int)
    requires
        0 <= i <= s.len(),
    ensures
        i <= position_from(s, byte, i) <= s.len(),
    decreases s.len() - i,
{
    if i < s.len() && offset(s, i) < byte {
        lemma_position_range(s, byte, i + 1);
    }
}

/// Offsets and positions are in the same order.
pub proof fn lemma_position_order(s: Seq<char>, a: int, b: int)
    requires
        is_boundary(s, a),
        is_boundary(s, b),
        a <= b,
    ensures
        position(s, a) <= position(s, b),
{
    if position(s, b) < position(s, a) {
        lemma_increasing(s, position(s, b), position(s, a));
    }
}

/// The start and the end of a text are boundaries.
pub proof fn lemma_ends(s: Seq<char>)
    ensures
        is_boundary(s, 0),
        position(s, 0) == 0,
        is_boundary(s, size(s)),
        position(s, size(s)) == s.len(),
{
    lemma_position(s, 0, 0);
    lemma_position(s, size(s), s.len() as int);
}

/// How many bytes a text takes up.
pub fn byte_len(s: &str) -> (r: usize)
    ensures
        r == size(s@),
{
    proof {
        lemma_size(s@);
    }
    s.as_bytes().len()
}

fn char_width(c: char) -> (r: usize)
    ensures
        r == width(c),
{
    let code: u32 = c as u32;
    if code <= 0x7f {
        1
    } else if code <= 0x7ff {
        2
    } else if code <= 0xffff {
        3
    } else {
        4
    }
}

/// The position at an offset. `None` where no character begins there.
pub fn find_position(v: &[char], byte: usize) -> (r: Option<usize>)
    ensures
        match r {
            Some(i) => i <= v@.len() && is_boundary(v@, byte as int) && position(v@, byte as int)
                == i && offset(v@, i as int) == byte,
            None => !is_boundary(v@, byte as int),
        },
{
    let mut i: usize = 0;
    let mut at: usize = 0;
    while i < v.len() && at < byte
        invariant
            i <= v@.len(),
            at == offset(v@, i as int),
            i > 0 ==> offset(v@, i - 1) < byte,
            forall|k: int| 0 <= k < i ==> #[trigger] offset(v@, k) < byte,
            position(v@, byte as int) == position_from(v@, byte as int, i as int),
        decreases v@.len() - i,
    {
        let w: usize = char_width(v[i]);
        assert(offset(v@, i + 1) == at + w);
        if byte - at < w {
            assert(position_from(v@, byte as int, i as int) == position_from(
                v@,
                byte as int,
                i + 1,
            ));
            return None;
        }
        at = at + w;
        i += 1;
    }
    if at == byte {
        proof {
            lemma_position(v@, byte as int, i as int);
        }
        Some(i)
    } else {
        None
    }
}

/// Texts that follow on each other make up the whole.
pub proof fn lemma_part_concat(s: Seq<char>, a: int, b: int, c: int)
    requires
        is_boundary(s, a),
        is_boundary(s, b),
        is_boundary(s, c),
        a <= b <= c,
    ensures
        part(s, a, b) + part(s, b, c) == part(s, a, c),
{
    lemma_position_order(s, a, b);
    lemma_position_order(s, b, c);
    assert(part(s, a, b) + part(s, b, c) =~= part(s, a, c));
}

/// The text between two positions.
pub fn cut(v: &[char], from: usize, to: usize) -> (r: String)
    requires
        from <= to <= v@.len(),
    ensures
        r@ == v@.subrange(from as int, to as int),
{
    let piece = text::copy(v, from, to);
    text::string_of(piece.as_slice())
}

} // verus!
