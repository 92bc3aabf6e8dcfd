//! IP and socket addresses: their text forms and their values.

use crate::text;
use vstd::arithmetic::div_mod::*;
use vstd::prelude::*;

verus! {

/// An address of either family, as the number it stands for.
#[derive(Clone, Copy, Debug, PartialEq, Eq, Structural, PartialOrd, Ord, Hash)]
pub enum IpAddr {
    V4(u32),
    V6(u128),
}

impl IpAddr {
    pub fn is_ipv4(&self) -> (r: bool)
        ensures
            r == (self is V4),
    {
        match self {
            IpAddr::V4(_) => true,
            IpAddr::V6(_) => false,
        }
    }

    /// `0.0.0.0` or `::`.
    pub fn is_unspecified(&self) -> (r: bool)
        ensures
            r == (*self == IpAddr::V4(0) || *self == IpAddr::V6(0)),
    {
        match self {
            IpAddr::V4(a) => *a == 0,
            IpAddr::V6(a) => *a == 0,
        }
    }
}

/// A transport endpoint. `scope` is the IPv6 zone, zero where there is none.
#[derive(Clone, Copy, Debug, PartialEq, Eq, Structural)]
pub struct SocketAddr {
    pub ip: IpAddr,
    pub scope: u32,
    pub port: u16,
}

/// One of the four numbers of an IPv4 address: up to three digits, no leading zero.
pub open spec fn octet(s: Seq<char>) -> Option<int> {
    if 1 <= s.len() <= 3 && text::all_digits(s) && (s.len() > 1 ==> s[0] != '0') && text::digits_value(s)
        <= 255 {
        Some(text::digits_value(s))
    } else {
        None
    }
}

/// The value of an IPv4 address in dotted form.
pub open spec fn ipv4_text(s: Seq<char>) -> Option<int> {
    let p = text::split_on(s, '.');
    if p.len() == 4 && octet(p[0]) is Some && octet(p[1]) is Some && octet(p[2]) is Some && octet(
        p[3],
    ) is Some {
        Some(
            octet(p[0])->0 * 0x100_0000 + octet(p[1])->0 * 0x1_0000 + octet(p[2])->0 * 0x100
                + octet(p[3])->0,
        )
    } else {
        None
    }
}

fn parse_octet(s: &[char]) -> (r: Option<u32>)
    ensures
        match r {
            Some(n) => octet(s@) == Some(n as int),
            None => octet(s@) is None,
        },
{
    if s.len() == 0 || s.len() > 3 || s[0] == '+' || (s.len() > 1 && s[0] == '0') {
        proof {
            if s@.len() > 0 && s@[0] == '+' {
                assert(!text::is_digit(s@[0]));
            }
        }
        return None;
    }
    match text::parse_uint(s, 255) {
        Some(n) => Some(n as u32),
        None => None,
    }
}

/// An IPv4 address in dotted form has a 32-bit value.
pub proof fn lemma_ipv4_range(s: Seq<char>)
    ensures
        ipv4_text(s) is Some ==> 0 <= ipv4_text(s)->0 <= u32::MAX,
{
    let p = text::split_on(s, '.');
    if ipv4_text(s) is Some {
        lemma_octet(p[0]);
        lemma_octet(p[1]);
        lemma_octet(p[2]);
        lemma_octet(p[3]);
    }
}

/// The IPv4 address that `s` spells.
pub fn parse_ipv4_chars(s: &[char]) -> (r: Option<u32>)
    ensures
        match r {
            Some(n) => ipv4_text(s@) == Some(n as int),
            None => ipv4_text(s@) is None,
        },
{
    let p = text::split(s, '.');
    proof {
        assert(text::pieces(p@).len() == p@.len());
        assert forall|i: int| 0 <= i < p@.len() implies #[trigger] text::pieces(p@)[i] == p@[i]@ by {}
    }
    if p.len() != 4 {
        return None;
    }
    let a = parse_octet(p[0].as_slice());
    let b = parse_octet(p[1].as_slice());
    let c = parse_octet(p[2].as_slice());
    let d = parse_octet(p[3].as_slice());
    proof {
        lemma_octet(p@[0]@);
        lemma_octet(p@[1]@);
        lemma_octet(p@[2]@);
        lemma_octet(p@[3]@);
    }
    match (a, b, c, d) {
        (Some(a), Some(b), Some(c), Some(d)) => {
            Some(a * 0x100_0000 + b * 0x1_0000 + c * 0x100 + d)
        },
        _ => None,
    }
}

proof fn lemma_octet(s: Seq<char>)
    ensures
        octet(s) is Some ==> 0 <= octet(s)->0 <= 255,
{
    if octet(s) is Some {
        text::lemma_digits_nonneg(s);
    }
}

/// The IPv4 address that `s` spells.
pub fn parse_ipv4(s: &str) -> (r: Option<u32>)
    ensures
        match r {
            Some(n) => ipv4_text(s@) == Some(n as int),
            None => ipv4_text(s@) is None,
        },
{
    let v = text::chars_of(s);
    parse_ipv4_chars(v.as_slice())
}

pub open spec fn is_hex(c: char) -> bool {
    text::is_digit(c) || 'a' <= c <= 'f' || 'A' <= c <= 'F'
}

pub open spec fn hex_value(c: char) -> int {
    if text::is_digit(c) {
        text::digit_value(c)
    } else if 'a' <= c <= 'f' {
        c as int - 'a' as int + 10
    } else {
        c as int - 'A' as int + 10
    }
}

/// The value of a string of hexadecimal digits.
pub open spec fn hex_digits_value(s: Seq<char>) -> int
    decreases s.len(),
{
    if s.len() == 0 {
        0
    } else {
        16 * hex_digits_value(s.drop_last()) + hex_value(s.last())
    }
}

/// One group of an IPv6 address: up to four hexadecimal digits.
pub open spec fn group(s: Seq<char>) -> Option<int> {
    if 1 <= s.len() <= 4 && (forall|i: int| 0 <= i < s.len() ==> is_hex(#[trigger] s[i])) {
        Some(hex_digits_value(s))
    } else {
        None
    }
}

/// The groups that `parts` spell, where each of them is one.
pub open spec fn hex_groups(parts: Seq<Seq<char>>) -> Option<Seq<int>> {
    if forall|i: int| 0 <= i < parts.len() ==> group(#[trigger] parts[i]) is Some {
        Some(Seq::new(parts.len(), |i: int| group(parts[i])->0))
    } else {
        None
    }
}

/// The groups of a colon-separated piece of an IPv6 address. Where `ipv4_tail` holds, the last
/// part may be an IPv4 address, which stands for two groups.
pub open spec fn groups(s: Seq<char>, ipv4_tail: bool) -> Option<Seq<int>> {
    if s.len() == 0 {
        Some(Seq::empty())
    } else {
        let parts = text::split_on(s, ':');
        let v4 = ipv4_text(parts.last());
        if ipv4_tail && v4 is Some {
            match hex_groups(parts.drop_last()) {
                Some(g) => Some(g + seq![v4->0 / 0x1_0000, v4->0 % 0x1_0000]),
                None => None,
            }
        } else {
            hex_groups(parts)
        }
    }
}

/// The number that a list of 16-bit groups makes up.
pub open spec fn groups_value(g: Seq<int>) -> int
    decreases g.len(),
{
    if g.len() == 0 {
        0
    } else {
        0x1_0000 * groups_value(g.drop_last()) + g.last()
    }
}

/// The index of the first `::` at or behind `from`, or the length of `s`.
pub open spec fn double_colon(s: Seq<char>, from: int) -> int
    decreases s.len() - from,
{
    if from + 1 >= s.len() {
        s.len() as int
    } else if s[from] == ':' && s[from + 1] == ':' {
        from
    } else {
        double_colon(s, from + 1)
    }
}

pub open spec fn zeros(n: int) -> Seq<int> {
    Seq::new(n as nat, |i: int| 0)
}

/// The eight groups of an IPv6 address in text form. A `::` stands for one or more zero groups.
pub open spec fn ipv6_groups(s: Seq<char>) -> Option<Seq<int>> {
    let k = double_colon(s, 0);
    if k < s.len() {
        match (groups(s.take(k), false), groups(s.skip(k + 2), true)) {
            (Some(h), Some(t)) => if h.len() + t.len() <= 7 {
                Some(h + zeros(8 - h.len() - t.len()) + t)
            } else {
                None
            },
            _ => None,
        }
    } else {
        match groups(s, true) {
            Some(g) => if g.len() == 8 {
                Some(g)
            } else {
                None
            },
            None => None,
        }
    }
}

/// The value of an IPv6 address in text form.
pub open spec fn ipv6_text(s: Seq<char>) -> Option<int> {
    match ipv6_groups(s) {
        Some(g) => Some(groups_value(g)),
        None => None,
    }
}

fn parse_group(s: &[char]) -> (r: Option<u32>)
    ensures
        match r {
            Some(n) => group(s@) == Some(n as int) && n <= 0xffff,
            None => group(s@) is None,
        },
{
    if s.len() == 0 || s.len() > 4 {
        return None;
    }
    let mut value: u32 = 0;
    let mut i: usize = 0;
    while i < s.len()
        invariant
            i <= s@.len() <= 4,
            s@.len() >= 1,
            forall|k: int| 0 <= k < i ==> is_hex(#[trigger] s@[k]),
            value as int == hex_digits_value(s@.take(i as int)),
            i == 0 ==> value == 0,
            i == 1 ==> value <= 0xf,
            i == 2 ==> value <= 0xff,
            i == 3 ==> value <= 0xfff,
            i == 4 ==> value <= 0xffff,
        decreases s@.len() - i,
    {
        let c: char = s[i];
        let d: u32 = if '0' <= c && c <= '9' {
            c as u32 - '0' as u32
        } else if 'a' <= c && c <= 'f' {
            c as u32 - 'a' as u32 + 10
        } else if 'A' <= c && c <= 'F' {
            c as u32 - 'A' as u32 + 10
        } else {
            assert(!is_hex(s@[i as int]));
            return None;
        };
        assert(s@.take(i + 1).drop_last() =~= s@.take(i as int));
        value = value * 16 + d;
        i += 1;
    }
    assert(s@.take(i as int) =~= s@);
    Some(value)
}

/// Groups as numbers.
pub open spec fn ints(v: Seq<u32>) -> Seq<int> {
    Seq::new(v.len(), |i: int| v[i] as int)
}

pub open spec fn small(v: Seq<u32>) -> bool {
    forall|i: int| 0 <= i < v.len() ==> #[trigger] v[i] <= 0xffff
}

fn parse_groups(s: &[char], ipv4_tail: bool) -> (r: Option<Vec<u32>>)
    ensures
        match r {
            Some(v) => groups(s@, ipv4_tail) == Some(ints(v@)) && small(v@),
            None => groups(s@, ipv4_tail) is None,
        },
{
    let mut out: Vec<u32> = Vec::new();
    if s.len() == 0 {
        assert(ints(out@) =~= Seq::empty());
        return Some(out);
    }
    let parts = text::split(s, ':');
    let ghost texts = text::split_on(s@, ':');
    proof {
        assert(text::pieces(parts@).len() == parts@.len());
        assert forall|i: int| 0 <= i < parts@.len() implies #[trigger] texts[i] == parts@[i]@ by {}
    }
    let last: usize = parts.len() - 1;
    let v4: Option<u32> = if ipv4_tail {
        parse_ipv4_chars(parts[last].as_slice())
    } else {
        None
    };
    let count: usize = if v4.is_some() {
        last
    } else {
        last + 1
    };
    let ghost wanted = texts.take(count as int);
    proof {
        if v4 is Some {
            assert(wanted =~= texts.drop_last());
        } else {
            assert(wanted =~= texts);
        }
    }
    let mut i: usize = 0;
    while i < count
        invariant
            i <= count <= parts@.len(),
            parts@.len() == texts.len(),
            wanted == texts.take(count as int),
            forall|k: int| 0 <= k < parts@.len() ==> #[trigger] texts[k] == parts@[k]@,
            out@.len() == i,
            small(out@),
            forall|k: int| 0 <= k < i ==> #[trigger] group(wanted[k]) == Some(out@[k] as int),
            wanted == texts || wanted == texts.drop_last(),
            wanted == texts.drop_last() ==> ipv4_tail && ipv4_text(texts.last()) is Some,
            wanted == texts ==> !(ipv4_tail && ipv4_text(texts.last()) is Some),
            groups(s@, ipv4_tail) is Some ==> hex_groups(wanted) is Some,
        decreases count - i,
    {
        match parse_group(parts[i].as_slice()) {
            Some(g) => {
                out.push(g);
            },
            None => {
                assert(group(wanted[i as int]) is None);
                return None;
            },
        }
        i += 1;
    }
    proof {
        assert(hex_groups(wanted) is Some);
        assert(ints(out@) =~= hex_groups(wanted)->0);
    }
    if let Some(a) = v4 {
        let ghost prev = out@;
        out.push(a / 0x1_0000);
        out.push(a % 0x1_0000);
        assert(ints(out@) =~= ints(prev) + seq![
            (a / 0x1_0000) as int,
            (a % 0x1_0000) as int,
        ]);
    }
    Some(out)
}

fn find_double_colon(s: &[char]) -> (r: usize)
    ensures
        r as int == double_colon(s@, 0),
        r <= s@.len(),
        r < s@.len() ==> r + 2 <= s@.len(),
{
    let mut i: usize = 0;
    while i < s.len() && i + 1 < s.len()
        invariant
            i <= s@.len(),
            double_colon(s@, 0) == double_colon(s@, i as int),
        decreases s@.len() - i,
    {
        if s[i] == ':' && s[i + 1] == ':' {
            return i;
        }
        i += 1;
    }
    s.len()
}

proof fn lemma_groups_value(g: Seq<int>, n: nat)
    requires
        g.len() == n <= 8,
        forall|i: int| 0 <= i < g.len() ==> 0 <= #[trigger] g[i] <= 0xffff,
    ensures
        0 <= groups_value(g),
        n == 0 ==> groups_value(g) == 0,
        n == 1 ==> groups_value(g) <= 0xffff,
        n == 2 ==> groups_value(g) <= 0xffff_ffff,
        n == 3 ==> groups_value(g) <= 0xffff_ffff_ffff,
        n == 4 ==> groups_value(g) <= 0xffff_ffff_ffff_ffff,
        n == 5 ==> groups_value(g) <= 0xffff_ffff_ffff_ffff_ffff,
        n == 6 ==> groups_value(g) <= 0xffff_ffff_ffff_ffff_ffff_ffff,
        n == 7 ==> groups_value(g) <= 0xffff_ffff_ffff_ffff_ffff_ffff_ffff,
        n == 8 ==> groups_value(g) <= 0xffff_ffff_ffff_ffff_ffff_ffff_ffff_ffff,
    decreases n,
{
    if n > 0 {
        assert(0 <= g[n - 1] <= 0xffff);
        lemma_groups_value(g.drop_last(), (n - 1) as nat);
    }
}

/// The number of up to eight groups.
fn value_of_groups(v: &Vec<u32>) -> (r: u128)
    requires
        v@.len() <= 8,
        small(v@),
    ensures
        r as int == groups_value(ints(v@)),
{
    let mut value: u128 = 0;
    let mut i: usize = 0;
    while i < v.len()
        invariant
            i <= v@.len() <= 8,
            small(v@),
            value as int == groups_value(ints(v@).take(i as int)),
        decreases v@.len() - i,
    {
        proof {
            let g = ints(v@).take(i + 1);
            assert(g.drop_last() =~= ints(v@).take(i as int));
            assert(g.last() == v@[i as int] as int);
            lemma_groups_value(g, (i + 1) as nat);
        }
        value = value * 0x1_0000 + v[i] as u128;
        i += 1;
    }
    assert(ints(v@).take(i as int) =~= ints(v@));
    value
}

/// The IPv6 address that `s` spells.
pub fn parse_ipv6_chars(s: &[char]) -> (r: Option<u128>)
    ensures
        match r {
            Some(n) => ipv6_text(s@) == Some(n as int),
            None => ipv6_text(s@) is None,
        },
{
    let k: usize = find_double_colon(s);
    if k < s.len() {
        let head_chars = text::copy(s, 0, k);
        let tail_chars = text::copy(s, k + 2, s.len());
        proof {
            assert(head_chars@ =~= s@.take(k as int));
            assert(tail_chars@ =~= s@.skip(k + 2));
        }
        let head = parse_groups(head_chars.as_slice(), false);
        let tail = parse_groups(tail_chars.as_slice(), true);
        match (head, tail) {
            (Some(h), Some(t)) => {
                if h.len() > 7 || t.len() > 7 - h.len() {
                    return None;
                }
                let gap: usize = 8 - h.len() - t.len();
                let mut all: Vec<u32> = Vec::new();
                let ghost wanted = ints(h@) + zeros(8 - h@.len() - t@.len()) + ints(t@);
                let mut i: usize = 0;
                while i < 8
                    invariant
                        i <= 8,
                        all@.len() == i,
                        h@.len() + gap + t@.len() == 8,
                        small(all@),
                        small(h@),
                        small(t@),
                        wanted == ints(h@) + zeros(gap as int) + ints(t@),
                        forall|j: int| 0 <= j < i ==> #[trigger] all@[j] as int == wanted[j],
                    decreases 8 - i,
                {
                    if i < h.len() {
                        all.push(h[i]);
                    } else if i < h.len() + gap {
                        all.push(0);
                    } else {
                        all.push(t[i - h.len() - gap]);
                    }
                    i += 1;
                }
                assert(ints(all@) =~= wanted);
                Some(value_of_groups(&all))
            },
            _ => None,
        }
    } else {
        match parse_groups(s, true) {
            Some(v) => {
                if v.len() == 8 {
                    Some(value_of_groups(&v))
                } else {
                    None
                }
            },
            None => None,
        }
    }
}

/// The address that `s` spells, in either family.
pub open spec fn ip_text(s: Seq<char>) -> Option<IpAddr> {
    if ipv4_text(s) is Some {
        Some(IpAddr::V4(ipv4_text(s)->0 as u32))
    } else if ipv6_text(s) is Some {
        Some(IpAddr::V6(ipv6_text(s)->0 as u128))
    } else {
        None
    }
}

/// The address that `s` spells, in either family.
pub fn parse_ip_chars(s: &[char]) -> (r: Option<IpAddr>)
    ensures
        r == ip_text(s@),
{
    if let Some(a) = parse_ipv4_chars(s) {
        return Some(IpAddr::V4(a));
    }
    match parse_ipv6_chars(s) {
        Some(a) => Some(IpAddr::V6(a)),
        None => None,
    }
}

/// The address that `s` spells, in either family.
pub fn parse_ip(s: &str) -> (r: Option<IpAddr>)
    ensures
        r == ip_text(s@),
{
    let v = text::chars_of(s);
    parse_ip_chars(v.as_slice())
}

/// An IPv4 address in dotted form.
pub open spec fn ipv4_format(a: int) -> Seq<char> {
    text::decimal(a / 0x100_0000) + seq!['.'] + text::decimal(a / 0x1_0000 % 0x100) + seq!['.']
        + text::decimal(a / 0x100 % 0x100) + seq!['.'] + text::decimal(a % 0x100)
}

/// Appends an IPv4 address in dotted form.
pub fn push_ipv4(s: &mut String, a: u32)
    ensures
        final(s)@ == old(s)@ + ipv4_format(a as int),
{
    let ghost start = s@;
    text::push_decimal(s, (a / 0x100_0000) as u64);
    s.push('.');
    text::push_decimal(s, (a / 0x1_0000 % 0x100) as u64);
    s.push('.');
    text::push_decimal(s, (a / 0x100 % 0x100) as u64);
    s.push('.');
    text::push_decimal(s, (a % 0x100) as u64);
    assert(s@ =~= start + ipv4_format(a as int));
}

/// The dotted form of an IPv4 address.
pub fn format_ipv4(a: u32) -> (s: String)
    ensures
        s@ == ipv4_format(a as int),
{
    let mut s = String::new();
    push_ipv4(&mut s, a);
    assert(s@ =~= ipv4_format(a as int));
    s
}

proof fn lemma_octet_decimal(n: int)
    requires
        0 <= n <= 255,
    ensures
        octet(text::decimal(n)) == Some(n),
        forall|k: int| 0 <= k < text::decimal(n).len() ==> text::decimal(n)[k] != '.',
{
    text::decimal_reads_back(n);
    text::lemma_decimal_len(n);
    text::lemma_decimal_zero(n);
    assert forall|k: int| 0 <= k < text::decimal(n).len() implies text::decimal(n)[k] != '.' by {
        assert(text::is_digit(text::decimal(n)[k]));
    }
}

proof fn lemma_split_four(a: Seq<char>, b: Seq<char>, c: Seq<char>, d: Seq<char>)
    requires
        forall|k: int| 0 <= k < a.len() ==> a[k] != '.',
        forall|k: int| 0 <= k < b.len() ==> b[k] != '.',
        forall|k: int| 0 <= k < c.len() ==> c[k] != '.',
        forall|k: int| 0 <= k < d.len() ==> d[k] != '.',
    ensures
        text::split_on(a + seq!['.'] + b + seq!['.'] + c + seq!['.'] + d, '.') == seq![a, b, c, d],
{
    let r2 = c + seq!['.'] + d;
    let r1 = b + seq!['.'] + r2;
    assert(a + seq!['.'] + b + seq!['.'] + c + seq!['.'] + d =~= a + seq!['.'] + r1);
    text::lemma_split_step(a, r1, '.');
    text::lemma_split_step(b, r2, '.');
    text::lemma_split_step(c, d, '.');
    text::lemma_split_last(d, '.');
    assert(text::split_on(a + seq!['.'] + r1, '.') =~= seq![a, b, c, d]);
}

proof fn lemma_four_octets(w: int, x: int, y: int, z: int)
    requires
        0 <= w <= 255,
        0 <= x <= 255,
        0 <= y <= 255,
        0 <= z <= 255,
    ensures
        ipv4_text(
            text::decimal(w) + seq!['.'] + text::decimal(x) + seq!['.'] + text::decimal(y)
                + seq!['.'] + text::decimal(z),
        ) == Some(w * 0x100_0000 + x * 0x1_0000 + y * 0x100 + z),
{
    let (a, b, c, d) = (text::decimal(w), text::decimal(x), text::decimal(y), text::decimal(z));
    lemma_octet_decimal(w);
    lemma_octet_decimal(x);
    lemma_octet_decimal(y);
    lemma_octet_decimal(z);
    lemma_split_four(a, b, c, d);
    let p = text::split_on(a + seq!['.'] + b + seq!['.'] + c + seq!['.'] + d, '.');
    assert(p[0] == a && p[1] == b && p[2] == c && p[3] == d);
}

/// Law: an IPv4 address in dotted form reads back as itself.
#[verifier::spinoff_prover]
#[verifier::rlimit(40)]
pub proof fn ipv4_reads_back(a: u32)
    ensures
        ipv4_text(ipv4_format(a as int)) == Some(a as int),
{
    let x = a as int;
    let p = x / 0x100;
    let q = p / 0x100;
    lemma_div_denominator(x, 0x100, 0x100);
    lemma_div_denominator(p, 0x100, 0x100);
    lemma_div_denominator(x, 0x1_0000, 0x100);
    lemma_four_octets(x / 0x100_0000, x / 0x1_0000 % 0x100, x / 0x100 % 0x100, x % 0x100);
    lemma_fundamental_div_mod(x, 0x100);
    lemma_fundamental_div_mod(p, 0x100);
    lemma_fundamental_div_mod(q, 0x100);
}

pub open spec fn hex_char(d: int) -> char {
    if d < 10 {
        ('0' as int + d) as char
    } else {
        ('a' as int + d - 10) as char
    }
}

/// A number in lower-case hexadecimal, without leading zeros.
pub open spec fn hex(n: int) -> Seq<char>
    decreases n,
{
    if n < 16 {
        seq![hex_char(n)]
    } else {
        hex(n / 16).push(hex_char(n % 16))
    }
}

/// Appends `n` in lower-case hexadecimal.
pub fn push_hex(s: &mut String, n: u32)
    ensures
        final(s)@ == old(s)@ + hex(n as int),
    decreases n,
{
    let ghost start = s@;
    if n >= 16 {
        push_hex(s, n / 16);
    }
    let d: u32 = n % 16;
    let c: char = if d < 10 {
        (48u8 + d as u8) as char
    } else {
        (97u8 + (d - 10) as u8) as char
    };
    s.push(c);
    assert(s@ =~= start + hex(n as int));
}

/// The eight groups of an IPv6 address, most significant first.
pub open spec fn segments(a: int) -> Seq<int> {
    seq![
        a / 0x1_0000_0000_0000_0000_0000_0000_0000,
        a / 0x1_0000_0000_0000_0000_0000_0000 % 0x1_0000,
        a / 0x1_0000_0000_0000_0000_0000 % 0x1_0000,
        a / 0x1_0000_0000_0000_0000 % 0x1_0000,
        a / 0x1_0000_0000_0000 % 0x1_0000,
        a / 0x1_0000_0000 % 0x1_0000,
        a / 0x1_0000 % 0x1_0000,
        a % 0x1_0000,
    ]
}

fn segments_of(a: u128) -> (v: Vec<u32>)
    ensures
        v@.len() == 8,
        ints(v@) == segments(a as int),
        small(v@),
{
    let mut v: Vec<u32> = Vec::new();
    v.push((a / 0x1_0000_0000_0000_0000_0000_0000_0000) as u32);
    v.push((a / 0x1_0000_0000_0000_0000_0000_0000 % 0x1_0000) as u32);
    v.push((a / 0x1_0000_0000_0000_0000_0000 % 0x1_0000) as u32);
    v.push((a / 0x1_0000_0000_0000_0000 % 0x1_0000) as u32);
    v.push((a / 0x1_0000_0000_0000 % 0x1_0000) as u32);
    v.push((a / 0x1_0000_0000 % 0x1_0000) as u32);
    v.push((a / 0x1_0000 % 0x1_0000) as u32);
    v.push((a % 0x1_0000) as u32);
    assert(ints(v@) =~= segments(a as int));
    v
}

/// How many zero groups follow one another from `i` on.
pub open spec fn zero_run(g: Seq<int>, i: int) -> int
    decreases g.len() - i,
{
    if 0 <= i < g.len() && g[i] == 0 {
        1 + zero_run(g, i + 1)
    } else {
        0
    }
}

/// Where the longest run of zero groups at or behind `i` starts; the first one among equals.
pub open spec fn longest_run(g: Seq<int>, i: int) -> int
    decreases g.len() - i,
{
    if i >= g.len() {
        g.len() as int
    } else {
        let later = longest_run(g, i + 1);
        if zero_run(g, i) >= zero_run(g, later) {
            i
        } else {
            later
        }
    }
}

/// Groups in hexadecimal, separated by colons.
pub open spec fn hex_join(g: Seq<int>) -> Seq<char>
    decreases g.len(),
{
    if g.len() == 0 {
        Seq::empty()
    } else if g.len() == 1 {
        hex(g[0])
    } else {
        hex_join(g.drop_last()) + seq![':'] + hex(g.last())
    }
}

/// An IPv6 address in its canonical text form: the first of the longest runs of two or more zero
/// groups is written `::`, and an IPv4-mapped address ends in dotted form.
pub open spec fn ipv6_format(a: int) -> Seq<char> {
    let g = segments(a);
    let start = longest_run(g, 0);
    let n = zero_run(g, start);
    if a / 0x1_0000_0000 == 0xffff {
        "::ffff:"@ + ipv4_format(a % 0x1_0000_0000)
    } else if n > 1 {
        hex_join(g.take(start)) + seq![':', ':'] + hex_join(g.skip(start + n))
    } else {
        hex_join(g)
    }
}

fn run_at(v: &Vec<u32>, i: usize) -> (n: usize)
    requires
        i <= v@.len(),
    ensures
        n as int == zero_run(ints(v@), i as int),
        i + n <= v@.len(),
    decreases v@.len() - i,
{
    if i < v.len() && v[i] == 0 {
        1 + run_at(v, i + 1)
    } else {
        0
    }
}

fn longest_from(v: &Vec<u32>, i: usize) -> (r: usize)
    requires
        i <= v@.len(),
    ensures
        r as int == longest_run(ints(v@), i as int),
        i <= r <= v@.len(),
    decreases v@.len() - i,
{
    if i >= v.len() {
        v.len()
    } else {
        let later: usize = longest_from(v, i + 1);
        if run_at(v, i) >= run_at(v, later) {
            i
        } else {
            later
        }
    }
}

fn push_hex_join(s: &mut String, v: &Vec<u32>, from: usize, to: usize)
    requires
        from <= to <= v@.len(),
    ensures
        final(s)@ == old(s)@ + hex_join(ints(v@).subrange(from as int, to as int)),
{
    let ghost start = s@;
    let mut i: usize = from;
    assert(start =~= start + hex_join(ints(v@).subrange(from as int, from as int)));
    while i < to
        invariant
            from <= i <= to <= v@.len(),
            s@ == start + hex_join(ints(v@).subrange(from as int, i as int)),
        decreases to - i,
    {
        proof {
            let g = ints(v@).subrange(from as int, i + 1);
            assert(g.drop_last() =~= ints(v@).subrange(from as int, i as int));
            assert(g.last() == v@[i as int] as int);
        }
        if i > from {
            s.push(':');
        }
        push_hex(s, v[i]);
        assert(s@ =~= start + hex_join(ints(v@).subrange(from as int, i + 1)));
        i += 1;
    }
}

/// Appends an IPv6 address in canonical form.
pub fn push_ipv6(s: &mut String, a: u128)
    ensures
        final(s)@ == old(s)@ + ipv6_format(a as int),
{
    let ghost start = s@;
    if a / 0x1_0000_0000 == 0xffff {
        s.push_str("::ffff:");
        push_ipv4(s, (a % 0x1_0000_0000) as u32);
        assert(s@ =~= start + ipv6_format(a as int));
        return;
    }
    let v = segments_of(a);
    let at: usize = longest_from(&v, 0);
    let n: usize = run_at(&v, at);
    if n > 1 {
        push_hex_join(s, &v, 0, at);
        s.push(':');
        s.push(':');
        push_hex_join(s, &v, at + n, 8);
        proof {
            let g = ints(v@);
            assert(g.subrange(0, at as int) =~= g.take(at as int));
            assert(g.subrange(at + n, 8) =~= g.skip(at + n));
            assert(s@ =~= start + ipv6_format(a as int));
        }
    } else {
        push_hex_join(s, &v, 0, 8);
        proof {
            assert(ints(v@).subrange(0, 8) =~= ints(v@));
        }
    }
}

/// The canonical text form of an IPv6 address.
pub fn format_ipv6(a: u128) -> (s: String)
    ensures
        s@ == ipv6_format(a as int),
{
    let mut s = String::new();
    push_ipv6(&mut s, a);
    assert(s@ =~= ipv6_format(a as int));
    s
}

/// An address of either family in text form.
pub open spec fn ip_format(a: IpAddr) -> Seq<char> {
    match a {
        IpAddr::V4(v) => ipv4_format(v as int),
        IpAddr::V6(v) => ipv6_format(v as int),
    }
}

/// Appends an address of either family.
pub fn push_ip(s: &mut String, a: IpAddr)
    ensures
        final(s)@ == old(s)@ + ip_format(a),
{
    match a {
        IpAddr::V4(v) => push_ipv4(s, v),
        IpAddr::V6(v) => push_ipv6(s, v),
    }
}

/// A port or zone number: digits only, no larger than `max`.
pub open spec fn plain_uint(s: Seq<char>, max: int) -> Option<int> {
    if s.len() > 0 && s[0] == '+' {
        None
    } else {
        text::uint(s, max)
    }
}

fn parse_plain_uint(s: &[char], max: u64) -> (r: Option<u64>)
    requires
        max <= 0xffff_ffff,
    ensures
        match r {
            Some(n) => plain_uint(s@, max as int) == Some(n as int) && n <= max,
            None => plain_uint(s@, max as int) is None,
        },
{
    if s.len() > 0 && s[0] == '+' {
        None
    } else {
        text::parse_uint(s, max)
    }
}

/// The endpoint that `s` spells: `a.b.c.d:port`, `[ipv6]:port` or `[ipv6%zone]:port`.
pub open spec fn socket_text(s: Seq<char>) -> Option<SocketAddr> {
    if s.len() > 0 && s[0] == '[' {
        let close = text::find_from(s, ']', 0);
        if close + 1 < s.len() && s[close + 1] == ':' {
            let inner = s.subrange(1, close);
            let zone = text::find_from(inner, '%', 0);
            let scope = if zone < inner.len() {
                plain_uint(inner.skip(zone + 1), 0xffff_ffff)
            } else {
                Some(0int)
            };
            match (ipv6_text(inner.take(zone)), scope, plain_uint(s.skip(close + 2), 0xffff)) {
                (Some(a), Some(z), Some(p)) => Some(
                    SocketAddr { ip: IpAddr::V6(a as u128), scope: z as u32, port: p as u16 },
                ),
                _ => None,
            }
        } else {
            None
        }
    } else {
        let k = text::find_from(s, ':', 0);
        if k < s.len() {
            match (ipv4_text(s.take(k)), plain_uint(s.skip(k + 1), 0xffff)) {
                (Some(a), Some(p)) => Some(
                    SocketAddr { ip: IpAddr::V4(a as u32), scope: 0, port: p as u16 },
                ),
                _ => None,
            }
        } else {
            None
        }
    }
}

/// The endpoint that `text` spells.
pub fn parse_socket(text: &str) -> (r: Option<SocketAddr>)
    ensures
        r == socket_text(text@),
{
    let v = text::chars_of(text);
    let s = v.as_slice();
    if s.len() > 0 && s[0] == '[' {
        let close: usize = text::find(s, ']', 0);
        if close >= s.len() || close + 1 >= s.len() || s[close + 1] != ':' {
            return None;
        }
        proof {
            text::lemma_find_from(s@, ']', 0);
        }
        let inner = text::copy(s, 1, close);
        let zone: usize = text::find(inner.as_slice(), '%', 0);
        let scope: Option<u64> = if zone < inner.len() {
            let z = text::copy(inner.as_slice(), zone + 1, inner.len());
            assert(z@ =~= inner@.skip(zone + 1));
            parse_plain_uint(z.as_slice(), 0xffff_ffff)
        } else {
            Some(0)
        };
        let addr = text::copy(inner.as_slice(), 0, zone);
        assert(addr@ =~= inner@.take(zone as int));
        let port = text::copy(s, close + 2, s.len());
        assert(port@ =~= s@.skip(close + 2));
        match (
            parse_ipv6_chars(addr.as_slice()),
            scope,
            parse_plain_uint(port.as_slice(), 0xffff),
        ) {
            (Some(a), Some(z), Some(p)) => Some(
                SocketAddr { ip: IpAddr::V6(a), scope: z as u32, port: p as u16 },
            ),
            _ => None,
        }
    } else {
        let k: usize = text::find(s, ':', 0);
        if k >= s.len() {
            return None;
        }
        let addr = text::copy(s, 0, k);
        assert(addr@ =~= s@.take(k as int));
        let port = text::copy(s, k + 1, s.len());
        assert(port@ =~= s@.skip(k + 1));
        match (parse_ipv4_chars(addr.as_slice()), parse_plain_uint(port.as_slice(), 0xffff)) {
            (Some(a), Some(p)) => Some(SocketAddr { ip: IpAddr::V4(a), scope: 0, port: p as u16 }),
            _ => None,
        }
    }
}

/// An endpoint in text form.
pub open spec fn socket_format(a: SocketAddr) -> Seq<char> {
    match a.ip {
        IpAddr::V4(v) => ipv4_format(v as int) + seq![':'] + text::decimal(a.port as int),
        IpAddr::V6(v) => seq!['['] + ipv6_format(v as int) + (if a.scope == 0 {
            Seq::empty()
        } else {
            seq!['%'] + text::decimal(a.scope as int)
        }) + seq![']', ':'] + text::decimal(a.port as int),
    }
}

/// The text form of an endpoint.
pub fn format_socket(a: &SocketAddr) -> (s: String)
    ensures
        s@ == socket_format(*a),
{
    let mut s = String::new();
    match a.ip {
        IpAddr::V4(v) => {
            push_ipv4(&mut s, v);
            s.push(':');
        },
        IpAddr::V6(v) => {
            s.push('[');
            push_ipv6(&mut s, v);
            if a.scope != 0 {
                s.push('%');
                text::push_decimal(&mut s, a.scope as u64);
            }
            s.push(']');
            s.push(':');
        },
    }
    text::push_decimal(&mut s, a.port as u64);
    assert(s@ =~= socket_format(*a));
    s
}

} // verus!
