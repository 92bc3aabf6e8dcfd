//! What is written of an address reads back as that address.

use crate::common::addr;
use crate::common::addr::IpAddr;
use crate::common::addr::{double_colon, group, groups, groups_value, hex, hex_char, hex_groups};
use crate::common::addr::{hex_join, ipv4_format, ipv4_text, ipv6_format, ipv6_groups, ipv6_text};
use crate::common::addr::{longest_run, segments, zero_run, zeros};
use crate::common::cidr;
use crate::common::cidr::CidrError;
use crate::text;
use vstd::arithmetic::div_mod::*;
use vstd::prelude::*;

verus! {

/// Each is one group of an IPv6 address.
spec fn are_groups(g: Seq<int>) -> bool {
    forall|i: int| 0 <= i < g.len() ==> 0 <= #[trigger] g[i] < 0x1_0000
}

/// A group as it is written: digits only.
spec fn is_word(s: Seq<char>) -> bool {
    s.len() > 0 && forall|i: int| 0 <= i < s.len() ==> addr::is_hex(#[trigger] s[i])
}

proof fn lemma_hex_char(d: int)
    requires
        0 <= d < 16,
    ensures
        addr::is_hex(hex_char(d)),
        addr::hex_value(hex_char(d)) == d,
{
}

proof fn lemma_hex_value(n: int)
    requires
        0 <= n,
    ensures
        is_word(hex(n)),
        addr::hex_digits_value(hex(n)) == n,
    decreases n,
{
    let s = hex(n);
    if n < 16 {
        lemma_hex_char(n);
        assert(s.drop_last() =~= Seq::<char>::empty());
        assert(s.last() == hex_char(n));
        assert(addr::hex_digits_value(s.drop_last()) == 0);
    } else {
        lemma_hex_value(n / 16);
        lemma_hex_char(n % 16);
        assert(s.drop_last() =~= hex(n / 16));
        assert(s.last() == hex_char(n % 16));
        assert forall|i: int| 0 <= i < s.len() implies addr::is_hex(#[trigger] s[i]) by {
            if i < s.len() - 1 {
                assert(s[i] == hex(n / 16)[i]);
            }
        }
    }
}

proof fn lemma_hex_len(n: int)
    requires
        0 <= n < 0x1_0000,
    ensures
        1 <= hex(n).len() <= 4,
{
    reveal_with_fuel(hex, 5);
}

/// A group reads back.
proof fn lemma_group(n: int)
    requires
        0 <= n < 0x1_0000,
    ensures
        is_word(hex(n)),
        group(hex(n)) == Some(n),
{
    lemma_hex_value(n);
    lemma_hex_len(n);
}

/// A word is not an IPv4 address.
proof fn lemma_word_is_not_dotted(s: Seq<char>)
    requires
        is_word(s),
    ensures
        ipv4_text(s) is None,
{
    assert forall|k: int| 0 <= k < s.len() implies s[k] != '.' by {
        assert(addr::is_hex(s[k]));
    }
    text::lemma_split_last(s, '.');
}

/// Groups are written front to back just as back to front.
proof fn lemma_join_front(g: Seq<int>)
    requires
        g.len() >= 2,
    ensures
        hex_join(g) == hex(g[0]) + seq![':'] + hex_join(g.skip(1)),
    decreases g.len(),
{
    if g.len() == 2 {
        assert(g.drop_last() =~= seq![g[0]]);
        assert(g.skip(1) =~= seq![g[1]]);
        assert(hex_join(g.drop_last()) == hex(g[0]));
        assert(hex_join(g.skip(1)) == hex(g[1]));
    } else {
        let front = g.drop_last();
        lemma_join_front(front);
        assert(g.skip(1).drop_last() =~= front.skip(1));
        assert(hex_join(g) =~= hex(g[0]) + seq![':'] + hex_join(g.skip(1)));
    }
}

/// Written groups fall apart at the colons.
proof fn lemma_split_join(g: Seq<int>)
    requires
        g.len() > 0,
        are_groups(g),
    ensures
        text::split_on(hex_join(g), ':') == Seq::new(g.len(), |i: int| hex(g[i])),
    decreases g.len(),
{
    let all = Seq::new(g.len(), |i: int| hex(g[i]));
    let first = hex(g[0]);
    lemma_group(g[0]);
    assert forall|k: int| 0 <= k < first.len() implies first[k] != ':' by {
        assert(addr::is_hex(first[k]));
    }
    if g.len() == 1 {
        text::lemma_split_last(first, ':');
        assert(all =~= seq![first]);
    } else {
        let rest = g.skip(1);
        assert forall|i: int| 0 <= i < rest.len() implies 0 <= #[trigger] rest[i] < 0x1_0000 by {
            assert(rest[i] == g[i + 1]);
        }
        lemma_join_front(g);
        lemma_split_join(rest);
        text::lemma_split_step(first, hex_join(rest), ':');
        assert(seq![first] + Seq::new(rest.len(), |i: int| hex(rest[i])) =~= all);
    }
}

/// Written groups read back, wherever they stand.
proof fn lemma_groups(g: Seq<int>, ipv4_tail: bool)
    requires
        are_groups(g),
    ensures
        groups(hex_join(g), ipv4_tail) == Some(g),
{
    if g.len() > 0 {
        lemma_split_join(g);
        lemma_bounds(g);
        let parts = Seq::new(g.len(), |i: int| hex(g[i]));
        assert forall|i: int| 0 <= i < parts.len() implies group(#[trigger] parts[i]) == Some(
            g[i],
        ) by {
            assert(0 <= g[i] < 0x1_0000);
            lemma_group(g[i]);
        }
        lemma_group(g.last());
        lemma_word_is_not_dotted(parts.last());
        assert(hex_groups(parts)->0 =~= g);
    }
}

/// No two colons stand side by side, and none at an end.
spec fn is_spaced(s: Seq<char>) -> bool {
    &&& s.len() > 0
    &&& s[0] != ':'
    &&& s.last() != ':'
    &&& forall|i: int| 0 <= i < s.len() - 1 ==> !(#[trigger] s[i] == ':' && s[i + 1] == ':')
}

proof fn lemma_word_is_spaced(s: Seq<char>)
    requires
        is_word(s),
    ensures
        is_spaced(s),
{
    assert(addr::is_hex(s[0]));
    assert(addr::is_hex(s.last()));
    assert forall|i: int| 0 <= i < s.len() - 1 implies !(#[trigger] s[i] == ':' && s[i + 1] == ':')
        by {
        assert(addr::is_hex(s[i]));
    }
}

proof fn lemma_bounds(g: Seq<int>)
    requires
        g.len() > 0,
        are_groups(g),
    ensures
        is_spaced(hex_join(g)),
    decreases g.len(),
{
    lemma_group(g.last());
    lemma_word_is_spaced(hex(g.last()));
    if g.len() > 1 {
        let front = g.drop_last();
        assert forall|i: int| 0 <= i < front.len() implies 0 <= #[trigger] front[i] < 0x1_0000 by {
            assert(front[i] == g[i]);
        }
        lemma_bounds(front);
        let a = hex_join(front);
        let b = hex(g.last());
        let s = hex_join(g);
        assert(s == a + seq![':'] + b);
        assert(s[0] == a[0]);
        assert(s.last() == b.last());
        assert forall|i: int| 0 <= i < s.len() - 1 implies !(#[trigger] s[i] == ':' && s[i + 1]
            == ':') by {
            if i < a.len() - 1 {
                assert(a[i] == s[i] && a[i + 1] == s[i + 1]);
            } else if i == a.len() - 1 {
                assert(s[i] == a.last());
            } else if i == a.len() {
                assert(s[i + 1] == b[0]);
            } else {
                let k = i - a.len() - 1;
                assert(b[k] == s[i] && b[k + 1] == s[i + 1]);
            }
        }
    }
}

/// The first pair of colons.
proof fn lemma_double_colon(s: Seq<char>, from: int, k: int)
    requires
        0 <= from <= k <= s.len(),
        k < s.len() ==> k + 1 < s.len() && s[k] == ':' && s[k + 1] == ':',
        forall|i: int| from <= i < k && i + 1 < s.len() ==> !(#[trigger] s[i] == ':' && s[i + 1]
            == ':'),
    ensures
        double_colon(s, from) == k,
    decreases k - from,
{
    if from < k && from + 1 < s.len() {
        assert(!(s[from] == ':' && s[from + 1] == ':'));
        lemma_double_colon(s, from + 1, k);
    }
}

proof fn lemma_run(g: Seq<int>, i: int)
    requires
        0 <= i <= g.len(),
    ensures
        0 <= zero_run(g, i) <= g.len() - i,
        forall|k: int| i <= k < i + zero_run(g, i) ==> #[trigger] g[k] == 0,
    decreases g.len() - i,
{
    if i < g.len() && g[i] == 0 {
        lemma_run(g, i + 1);
    }
}

proof fn lemma_longest(g: Seq<int>, i: int)
    requires
        0 <= i <= g.len(),
    ensures
        i <= longest_run(g, i) <= g.len(),
    decreases g.len() - i,
{
    if i < g.len() {
        lemma_longest(g, i + 1);
    }
}

/// The groups of an address make it up.
proof fn lemma_segments(a: u128)
    ensures
        segments(a as int).len() == 8,
        are_groups(segments(a as int)),
        groups_value(segments(a as int)) == a,
{
    let x = a as int;
    let g = segments(x);
    let p1 = x / 0x1_0000;
    let p2 = x / 0x1_0000_0000;
    let p3 = x / 0x1_0000_0000_0000;
    let p4 = x / 0x1_0000_0000_0000_0000;
    let p5 = x / 0x1_0000_0000_0000_0000_0000;
    let p6 = x / 0x1_0000_0000_0000_0000_0000_0000;
    let p7 = x / 0x1_0000_0000_0000_0000_0000_0000_0000;
    lemma_div_denominator(x, 0x1_0000, 0x1_0000);
    lemma_div_denominator(x, 0x1_0000_0000, 0x1_0000);
    lemma_div_denominator(x, 0x1_0000_0000_0000, 0x1_0000);
    lemma_div_denominator(x, 0x1_0000_0000_0000_0000, 0x1_0000);
    lemma_div_denominator(x, 0x1_0000_0000_0000_0000_0000, 0x1_0000);
    lemma_div_denominator(x, 0x1_0000_0000_0000_0000_0000_0000, 0x1_0000);
    lemma_fundamental_div_mod(x, 0x1_0000);
    lemma_fundamental_div_mod(p1, 0x1_0000);
    lemma_fundamental_div_mod(p2, 0x1_0000);
    lemma_fundamental_div_mod(p3, 0x1_0000);
    lemma_fundamental_div_mod(p4, 0x1_0000);
    lemma_fundamental_div_mod(p5, 0x1_0000);
    lemma_fundamental_div_mod(p6, 0x1_0000);
    lemma_value_push(g.take(7), g[7]);
    lemma_value_push(g.take(6), g[6]);
    lemma_value_push(g.take(5), g[5]);
    lemma_value_push(g.take(4), g[4]);
    lemma_value_push(g.take(3), g[3]);
    lemma_value_push(g.take(2), g[2]);
    lemma_value_push(g.take(1), g[1]);
    lemma_value_push(g.take(0), g[0]);
    assert(g.take(7).push(g[7]) =~= g);
    assert(g.take(6).push(g[6]) =~= g.take(7));
    assert(g.take(5).push(g[5]) =~= g.take(6));
    assert(g.take(4).push(g[4]) =~= g.take(5));
    assert(g.take(3).push(g[3]) =~= g.take(4));
    assert(g.take(2).push(g[2]) =~= g.take(3));
    assert(g.take(1).push(g[1]) =~= g.take(2));
    assert(g.take(0).push(g[0]) =~= g.take(1));
    assert(groups_value(g.take(0)) == 0);
    assert(groups_value(g.take(1)) == p7);
    assert(groups_value(g.take(2)) == p6);
    assert(groups_value(g.take(3)) == p5);
    assert(groups_value(g.take(4)) == p4);
    assert(groups_value(g.take(5)) == p3);
    assert(groups_value(g.take(6)) == p2);
    assert(groups_value(g.take(7)) == p1);
    assert(0 <= p7 < 0x1_0000);
}

proof fn lemma_value_push(g: Seq<int>, n: int)
    ensures
        groups_value(g.push(n)) == 0x1_0000 * groups_value(g) + n,
{
    assert(g.push(n).drop_last() =~= g);
}

/// An address that is not IPv4-mapped reads back.
proof fn lemma_plain_reads_back(g: Seq<int>)
    requires
        g.len() == 8,
        are_groups(g),
    ensures
        ({
            let start = longest_run(g, 0);
            let n = zero_run(g, start);
            ipv6_groups(
                if n > 1 {
                    hex_join(g.take(start)) + seq![':', ':'] + hex_join(g.skip(start + n))
                } else {
                    hex_join(g)
                },
            ) == Some(g)
        }),
{
    let start = longest_run(g, 0);
    let n = zero_run(g, start);
    lemma_longest(g, 0);
    lemma_run(g, start);
    if n > 1 {
        let head = g.take(start);
        let tail = g.skip(start + n);
        assert forall|i: int| 0 <= i < head.len() implies 0 <= #[trigger] head[i] < 0x1_0000 by {
            assert(head[i] == g[i]);
        }
        assert forall|i: int| 0 <= i < tail.len() implies 0 <= #[trigger] tail[i] < 0x1_0000 by {
            assert(tail[i] == g[start + n + i]);
        }
        let a = hex_join(head);
        let b = hex_join(tail);
        let s = a + seq![':', ':'] + b;
        let k = a.len() as int;
        if start > 0 {
            lemma_bounds(head);
        }
        assert forall|i: int| 0 <= i < k && i + 1 < s.len() implies !(#[trigger] s[i] == ':' && s[i
            + 1] == ':') by {
            if i < k - 1 {
                assert(a[i] == s[i] && a[i + 1] == s[i + 1]);
            } else {
                assert(s[i] == a.last());
            }
        }
        lemma_double_colon(s, 0, k);
        assert(s.take(k) =~= a);
        assert(s.skip(k + 2) =~= b);
        lemma_groups(head, false);
        lemma_groups(tail, true);
        assert(head + zeros(8 - head.len() - tail.len()) + tail =~= g) by {
            let whole = head + zeros(8 - head.len() - tail.len()) + tail;
            assert(whole.len() == 8);
            assert forall|i: int| 0 <= i < 8 implies #[trigger] whole[i] == g[i] by {}
        }
    } else {
        let s = hex_join(g);
        lemma_bounds(g);
        assert forall|i: int| 0 <= i < s.len() && i + 1 < s.len() implies !(#[trigger] s[i] == ':'
            && s[i + 1] == ':') by {}
        lemma_double_colon(s, 0, s.len() as int);
        lemma_groups(g, true);
    }
}

/// An IPv4-mapped address reads back.
proof fn lemma_mapped_reads_back(v4: u32)
    ensures
        ipv6_text("::ffff:"@ + ipv4_format(v4 as int)) == Some(0xffff_0000_0000 + v4),
{
    reveal_strlit("::ffff:");
    let dotted = ipv4_format(v4 as int);
    let word = seq!['f', 'f', 'f', 'f'];
    let s = "::ffff:"@ + dotted;
    let rest = word + seq![':'] + dotted;
    assert("::ffff:"@ =~= seq![':', ':', 'f', 'f', 'f', 'f', ':']);
    lemma_double_colon(s, 0, 0);
    assert(s.take(0) =~= Seq::<char>::empty());
    assert(s.skip(2) =~= rest);
    lemma_dotted_chars(v4);
    assert forall|k: int| 0 <= k < dotted.len() implies dotted[k] != ':' by {
        assert(text::is_digit(dotted[k]) || dotted[k] == '.');
    }
    text::lemma_split_step(word, dotted, ':');
    text::lemma_split_last(dotted, ':');
    let parts = text::split_on(rest, ':');
    assert(parts =~= seq![word, dotted]);
    addr::ipv4_reads_back(v4);
    assert(group(word) == Some(0xffffint)) by {
        assert(word.drop_last() =~= seq!['f', 'f', 'f']);
        assert(seq!['f', 'f', 'f'].drop_last() =~= seq!['f', 'f']);
        assert(seq!['f', 'f'].drop_last() =~= seq!['f']);
        assert(seq!['f'].drop_last() =~= Seq::<char>::empty());
        reveal_with_fuel(addr::hex_digits_value, 5);
    }
    assert(parts.drop_last() =~= seq![word]);
    assert(hex_groups(parts.drop_last())->0 =~= seq![0xffffint]);
    let hi = v4 as int / 0x1_0000;
    let lo = v4 as int % 0x1_0000;
    let t = seq![0xffffint] + seq![hi, lo];
    assert(groups(rest, true) == Some(t));
    let empty = Seq::<int>::empty();
    let g = empty + zeros(5) + t;
    assert(g =~= seq![0, 0, 0, 0, 0, 0xffff, hi, lo]);
    assert(ipv6_groups(s) == Some(g));
    let z = Seq::<int>::empty();
    lemma_value_push(z, 0);
    lemma_value_push(z.push(0), 0);
    lemma_value_push(z.push(0).push(0), 0);
    lemma_value_push(z.push(0).push(0).push(0), 0);
    lemma_value_push(z.push(0).push(0).push(0).push(0), 0);
    let five = z.push(0).push(0).push(0).push(0).push(0);
    lemma_value_push(five, 0xffff);
    lemma_value_push(five.push(0xffff), hi);
    lemma_value_push(five.push(0xffff).push(hi), lo);
    assert(g =~= five.push(0xffff).push(hi).push(lo));
}

pub(crate) proof fn lemma_dotted_chars(v4: u32)
    ensures
        forall|k: int|
            0 <= k < ipv4_format(v4 as int).len() ==> text::is_digit(
                #[trigger] ipv4_format(v4 as int)[k],
            ) || ipv4_format(v4 as int)[k] == '.',
{
    let x = v4 as int;
    let (a, b, c, d) = (
        text::decimal(x / 0x100_0000),
        text::decimal(x / 0x1_0000 % 0x100),
        text::decimal(x / 0x100 % 0x100),
        text::decimal(x % 0x100),
    );
    text::decimal_reads_back(x / 0x100_0000);
    text::decimal_reads_back(x / 0x1_0000 % 0x100);
    text::decimal_reads_back(x / 0x100 % 0x100);
    text::decimal_reads_back(x % 0x100);
    let s = ipv4_format(x);
    assert forall|k: int| 0 <= k < s.len() implies text::is_digit(#[trigger] s[k]) || s[k] == '.' by {
        let (i, j, l) = (a.len() as int, a.len() + 1 + b.len(), a.len() + b.len() + 2 + c.len());
        if k < i {
            assert(s[k] == a[k] && text::is_digit(a[k]));
        } else if i < k < j {
            assert(s[k] == b[k - i - 1] && text::is_digit(b[k - i - 1]));
        } else if j < k < l {
            assert(s[k] == c[k - j - 1] && text::is_digit(c[k - j - 1]));
        } else if l < k {
            assert(s[k] == d[k - l - 1] && text::is_digit(d[k - l - 1]));
        } else {
            assert(s[k] == '.');
        }
    }
}

/// Law: an IPv6 address in its canonical form reads back as itself.
pub proof fn ipv6_reads_back(a: u128)
    ensures
        ipv6_text(ipv6_format(a as int)) == Some(a as int),
{
    let x = a as int;
    if x / 0x1_0000_0000 == 0xffff {
        lemma_fundamental_div_mod(x, 0x1_0000_0000);
        lemma_mapped_reads_back((x % 0x1_0000_0000) as u32);
    } else {
        lemma_segments(a);
        lemma_plain_reads_back(segments(x));
    }
}

/// What an IPv6 address is written with, ahead of any dotted part.
spec fn is_v6_char(c: char) -> bool {
    addr::is_hex(c) || c == ':'
}

proof fn lemma_join_chars(g: Seq<int>)
    requires
        are_groups(g),
    ensures
        forall|i: int| 0 <= i < hex_join(g).len() ==> is_v6_char(#[trigger] hex_join(g)[i]),
    decreases g.len(),
{
    if g.len() > 0 {
        let front = g.drop_last();
        assert forall|i: int| 0 <= i < front.len() implies 0 <= #[trigger] front[i] < 0x1_0000 by {
            assert(front[i] == g[i]);
        }
        lemma_join_chars(front);
        lemma_group(g.last());
        let a = hex_join(front);
        let b = hex(g.last());
        let s = hex_join(g);
        if g.len() == 1 {
            assert(s == b);
        } else {
            assert(s == a + seq![':'] + b);
            assert forall|i: int| 0 <= i < s.len() implies is_v6_char(#[trigger] s[i]) by {
                if i < a.len() {
                    assert(s[i] == a[i]);
                } else if i > a.len() {
                    assert(s[i] == b[i - a.len() - 1]);
                }
            }
        }
    }
}

/// A written IPv6 address holds no slash, and is not taken for an IPv4 address.
proof fn lemma_v6_is_not_v4(a: u128)
    ensures
        forall|i: int| 0 <= i < ipv6_format(a as int).len() ==> ipv6_format(a as int)[i] != '/',
        ipv4_text(ipv6_format(a as int)) is None,
{
    let x = a as int;
    let s = ipv6_format(x);
    if x / 0x1_0000_0000 == 0xffff {
        let v4 = (x % 0x1_0000_0000) as u32;
        lemma_dotted_chars(v4);
        reveal_strlit("::ffff:");
        let lead = seq![':', ':', 'f', 'f', 'f', 'f', ':'];
        assert("::ffff:"@ =~= lead);
        let d = ipv4_format(v4 as int);
        assert forall|i: int| 0 <= i < s.len() implies s[i] != '/' by {
            if i >= 7 {
                assert(s[i] == d[i - 7]);
            } else {
                assert(s[i] == lead[i]);
            }
        }
        let p = text::split_on(s, '.');
        let k = text::find_from(s, '.', 0);
        text::lemma_find_from(s, '.', 0);
        assert(p[0][0] == ':') by {
            assert(s[0] == lead[0]);
            assert(k > 0);
        }
        assert(!text::is_digit(p[0][0]));
        assert(addr::octet(p[0]) is None);
    } else {
        let g = segments(x);
        let start = longest_run(g, 0);
        let n = zero_run(g, start);
        lemma_segments(a);
        lemma_longest(g, 0);
        lemma_run(g, start);
        lemma_join_chars(g);
        let head = g.take(start);
        let tail = g.skip(start + n);
        assert forall|i: int| 0 <= i < head.len() implies 0 <= #[trigger] head[i] < 0x1_0000 by {
            assert(head[i] == g[i]);
        }
        assert forall|i: int| 0 <= i < tail.len() implies 0 <= #[trigger] tail[i] < 0x1_0000 by {
            assert(tail[i] == g[start + n + i]);
        }
        lemma_join_chars(head);
        lemma_join_chars(tail);
        assert forall|i: int| 0 <= i < s.len() implies is_v6_char(#[trigger] s[i]) by {
            if n > 1 {
                let h = hex_join(head);
                let t = hex_join(tail);
                if i < h.len() {
                    assert(s[i] == h[i]);
                } else if i >= h.len() + 2 {
                    assert(s[i] == t[i - h.len() - 2]);
                } else {
                    assert(s[i] == ':');
                }
            }
        }
        assert forall|i: int| 0 <= i < s.len() implies s[i] != '.' && s[i] != '/' by {
            assert(is_v6_char(s[i]));
        }
        text::lemma_split_last(s, '.');
    }
}

/// Law: an address of either family reads back as itself.
pub proof fn ip_reads_back(a: IpAddr)
    ensures
        addr::ip_text(addr::ip_format(a)) == Some(a),
{
    match a {
        IpAddr::V4(v) => addr::ipv4_reads_back(v),
        IpAddr::V6(v) => {
            ipv6_reads_back(v);
            lemma_v6_is_not_v4(v);
        },
    }
}

/// Law: an address with a prefix length reads back as itself, as long as the prefix is no longer
/// than the address.
pub proof fn cidr_reads_back(a: IpAddr, prefix: u8)
    requires
        prefix <= (if a is V4 {
            32int
        } else {
            128
        }),
    ensures
        cidr::cidr_text(cidr::cidr_format(a, prefix)) == Ok::<(IpAddr, u8), CidrError>((a, prefix)),
{
    let head = addr::ip_format(a);
    let tail = text::decimal(prefix as int);
    let s = cidr::cidr_format(a, prefix);
    ip_reads_back(a);
    match a {
        IpAddr::V4(v) => lemma_dotted_chars(v),
        IpAddr::V6(v) => lemma_v6_is_not_v4(v),
    }
    text::decimal_reads_back(prefix as int);
    let k = text::find_from(s, '/', 0);
    text::lemma_find_from(s, '/', 0);
    assert forall|i: int| 0 <= i < head.len() implies s[i] != '/' by {
        assert(s[i] == head[i]);
    }
    assert(s[head.len() as int] == '/');
    assert(k == head.len());
    assert(s.take(k) =~= head);
    assert(s.skip(k + 1) =~= tail);
}

} // verus!
