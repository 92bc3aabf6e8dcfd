//! IPv4 CIDR set arithmetic.
//!
//! A [`Cidr`] is a network address and a prefix length. It stands for the block of addresses that
//! [`covers`] describes; a list of networks stands for the union of its blocks ([`covered`]).

use crate::common::addr;
use crate::common::cidr::CidrError;
use crate::text;
use vstd::arithmetic::div_mod::*;
use vstd::arithmetic::mul::*;
use vstd::arithmetic::power2::*;
use vstd::bits::*;
use vstd::prelude::*;

verus! {

/// (network address, prefix length)
pub type Cidr = (u32, u8);

/// How many addresses a block of prefix length `len` holds.
pub open spec fn size(len: int) -> int {
    pow2((32 - len) as nat) as int
}

/// The first address of the block of prefix length `len` that holds `addr`.
pub open spec fn network(addr: int, len: int) -> int {
    addr - addr % size(len)
}

/// A network: the prefix length fits and no host bit is set.
pub open spec fn wf(c: Cidr) -> bool {
    c.1 <= 32 && c.0 as int % size(c.1 as int) == 0
}

/// Every entry is a network.
pub open spec fn all_wf(nets: Seq<Cidr>) -> bool {
    forall|i: int| 0 <= i < nets.len() ==> wf(#[trigger] nets[i])
}

/// The address `a` lies in the block `c`.
pub open spec fn covers(c: Cidr, a: int) -> bool {
    c.0 <= a < c.0 + size(c.1 as int)
}

/// The address `a` lies in one of the blocks of `nets`.
pub open spec fn covered(nets: Seq<Cidr>, a: int) -> bool {
    exists|i: int| 0 <= i < nets.len() && covers(#[trigger] nets[i], a)
}

/// Two lists of networks stand for the same set of addresses.
pub open spec fn same_cover(a: Seq<Cidr>, b: Seq<Cidr>) -> bool {
    forall|x: int| #[trigger] covered(a, x) <==> covered(b, x)
}

/// The block of prefix length `len` around `c`.
pub open spec fn ancestor(c: Cidr, len: int) -> Cidr {
    (network(c.0 as int, len) as u32, len as u8)
}

/// The block that `c` is one half of.
pub open spec fn parent(c: Cidr) -> Cidr {
    ancestor(c, c.1 - 1)
}

/// The other half of the parent of `c`.
pub open spec fn sibling(c: Cidr) -> Cidr {
    let p = network(c.0 as int, c.1 - 1);
    if c.0 == p {
        ((p + size(c.1 as int)) as u32, c.1)
    } else {
        (p as u32, c.1)
    }
}

/// The order of `(u32, u8)` pairs: by address, larger blocks first.
pub open spec fn before(a: Cidr, b: Cidr) -> bool {
    a.0 < b.0 || (a.0 == b.0 && a.1 < b.1)
}

/// Strictly ascending, so without duplicates.
pub open spec fn ascending(nets: Seq<Cidr>) -> bool {
    forall|i: int, j: int| 0 <= i < j < nets.len() ==> before(#[trigger] nets[i], #[trigger] nets[j])
}

/// No two entries share an address.
pub open spec fn disjoint(nets: Seq<Cidr>) -> bool {
    forall|i: int, j: int, x: int|
        0 <= i < nets.len() && 0 <= j < nets.len() && i != j && #[trigger] covers(nets[i], x)
            ==> !#[trigger] covers(nets[j], x)
}

/// No two entries are the two halves of one block.
pub open spec fn no_siblings(nets: Seq<Cidr>) -> bool {
    forall|i: int| 0 <= i < nets.len() && (#[trigger] nets[i]).1 > 0 ==> !nets.contains(
        sibling(nets[i]),
    )
}

/// The canonical form of a set of addresses: ascending, without overlap, nothing left to merge.
pub open spec fn canonical(nets: Seq<Cidr>) -> bool {
    &&& all_wf(nets)
    &&& ascending(nets)
    &&& disjoint(nets)
    &&& no_siblings(nets)
}

/// Networks that do not overlap and that no two of can be put together.
pub open spec fn is_reduced(nets: Seq<Cidr>) -> bool {
    all_wf(nets) && disjoint(nets) && no_siblings(nets)
}

proof fn lemma_size(len: int)
    requires
        0 <= len <= 32,
    ensures
        size(len) > 0,
        size(32) == 1,
        size(0) == 0x1_0000_0000,
        len > 0 ==> size(len - 1) == 2 * size(len),
{
    lemma_pow2_pos((32 - len) as nat);
    lemma2_to64();
    if len > 0 {
        lemma_pow2_unfold((33 - len) as nat);
    }
}

proof fn lemma_multiple_below(n: int, x: int, m: int)
    requires
        m > 0,
        n % m == 0,
        n <= x < n + m,
    ensures
        n == x - x % m,
{
    lemma_fundamental_div_mod(n, m);
    lemma_mul_is_commutative(m, n / m);
    lemma_fundamental_div_mod_converse(x, m, n / m, x - n);
}

/// The facts on one network and its parent that everything else rests on.
proof fn lemma_network(x: int, len: int)
    requires
        0 <= x < 0x1_0000_0000,
        0 <= len <= 32,
    ensures
        0 <= network(x, len) <= x < network(x, len) + size(len),
        network(x, len) % size(len) == 0,
        network(x, len) + size(len) <= 0x1_0000_0000,
        len > 0 ==> network(x, len - 1) == network(network(x, len), len - 1),
        len > 0 ==> (network(x, len) == network(x, len - 1) || network(x, len) == network(
            x,
            len - 1,
        ) + size(len)),
        len > 0 ==> network(x, len - 1) % size(len) == 0,
        len > 0 ==> (network(x, len - 1) + size(len)) % size(len) == 0,
    decreases len,
{
    lemma_size(len);
    let m = size(len);
    lemma_mod_bound(x, m);
    lemma_fundamental_div_mod(x, m);
    lemma_mod_multiples_basic(x / m, m);
    assert(network(x, len) == m * (x / m));
    assert(m * (x / m) == (x / m) * m) by (nonlinear_arith);
    assert(x - x % m >= 0) by {
        lemma_div_pos_is_pos(x, m);
        lemma_mul_nonnegative(m, x / m);
    }
    if len > 0 {
        lemma_network(x, len - 1);
        let p = network(x, len - 1);
        let big = size(len - 1);
        lemma_size(len - 1);
        lemma_fundamental_div_mod(p, big);
        let k = p / big;
        assert(p == big * k);
        assert(big * k == (2 * k) * m) by (nonlinear_arith)
            requires
                big == 2 * m,
        ;
        lemma_mod_multiples_basic(2 * k, m);
        assert(p % m == 0);
        lemma_mod_multiples_basic(2 * k + 1, m);
        assert((2 * k + 1) * m == p + m) by (nonlinear_arith)
            requires
                p == (2 * k) * m,
        ;
        if x < p + m {
            lemma_multiple_below(p, x, m);
        } else {
            lemma_multiple_below(p + m, x, m);
        }
        lemma_multiple_below(p, network(x, len), big);
    } else {
        lemma_multiple_below(0, x, m);
    }
}

/// The parent of a network is a network; its block is that of the two halves.
proof fn lemma_parent(c: Cidr)
    requires
        wf(c),
        c.1 > 0,
    ensures
        wf(parent(c)),
        wf(sibling(c)),
        parent(c).0 as int == network(c.0 as int, c.1 - 1),
        parent(c).1 == c.1 - 1,
        sibling(c) != c,
        sibling(sibling(c)) == c,
        parent(sibling(c)) == parent(c),
        forall|x: int| #[trigger] covers(parent(c), x) <==> covers(c, x) || covers(sibling(c), x),
        forall|x: int| #[trigger] covers(c, x) ==> !covers(sibling(c), x),
{
    let x = c.0 as int;
    let len = c.1 as int;
    lemma_size(len);
    lemma_size(len - 1);
    lemma_network(x, len);
    lemma_network(x, len - 1);
    lemma_multiple_below(x, x, size(len));
    let s = sibling(c);
    let p = network(x, len - 1);
    assert(p + size(len - 1) <= 0x1_0000_0000);
    lemma_multiple_below(p, s.0 as int, size(len - 1));
    lemma_multiple_below(s.0 as int, s.0 as int, size(len));
}

/// Two networks that share an address are nested, and so is the shorter one's name.
proof fn lemma_nested(a: Cidr, b: Cidr, x: int)
    requires
        wf(a),
        wf(b),
        a.1 <= b.1,
        covers(a, x),
        covers(b, x),
    ensures
        network(b.0 as int, a.1 as int) == a.0,
        forall|y: int| #[trigger] covers(b, y) ==> covers(a, y),
        a.1 == b.1 ==> a == b,
    decreases b.1 - a.1,
{
    lemma_size(a.1 as int);
    lemma_size(b.1 as int);
    if a.1 == b.1 {
        lemma_multiple_below(a.0 as int, x, size(a.1 as int));
        lemma_multiple_below(b.0 as int, x, size(a.1 as int));
    } else {
        lemma_parent(b);
        let p = parent(b);
        lemma_nested(a, p, x);
        lemma_covers_own(b);
        assert(covers(p, b.0 as int));
        assert(covers(a, b.0 as int));
        lemma_multiple_below(a.0 as int, b.0 as int, size(a.1 as int));
        assert forall|y: int| #[trigger] covers(b, y) implies covers(a, y) by {
            assert(covers(p, y));
        }
    }
}

proof fn lemma_covers_own(c: Cidr)
    requires
        c.1 <= 32,
    ensures
        covers(c, c.0 as int),
{
    lemma_size(c.1 as int);
}

/// Law: for networks, `contains` says that every address of `inner` lies in `outer`.
pub proof fn contains_is_inclusion(outer: Cidr, inner: Cidr)
    requires
        wf(outer),
        wf(inner),
    ensures
        (inner.1 >= outer.1 && network(inner.0 as int, outer.1 as int) == outer.0) <==> (forall|
            x: int,
        | #[trigger]
            covers(inner, x) ==> covers(outer, x)),
{
    lemma_size(inner.1 as int);
    lemma_size(outer.1 as int);
    lemma_covers_own(inner);
    lemma_covers_own(outer);
    if inner.1 >= outer.1 && network(inner.0 as int, outer.1 as int) == outer.0 {
        lemma_network(inner.0 as int, outer.1 as int);
        lemma_nested(outer, inner, inner.0 as int);
    } else if forall|x: int| #[trigger] covers(inner, x) ==> covers(outer, x) {
        assert(covers(inner, inner.0 as int));
        if inner.1 >= outer.1 {
            lemma_nested(outer, inner, inner.0 as int);
        } else {
            lemma_nested(inner, outer, inner.0 as int);
            lemma_size_monotone(inner.1 as int, outer.1 as int);
            assert(covers(inner, inner.0 as int + size(inner.1 as int) - 1));
            assert(false);
        }
    }
}

proof fn lemma_size_monotone(a: int, b: int)
    requires
        0 <= a < b <= 32,
    ensures
        size(a) >= 2 * size(b),
    decreases b - a,
{
    lemma_size(b);
    lemma_size(b - 1);
    if a + 1 < b {
        lemma_size_monotone(a, b - 1);
    }
}

fn mask(prefix_len: u8) -> (m: u32)
    requires
        prefix_len <= 32,
    ensures
        forall|addr: u32| (#[trigger] (addr & m)) as int == network(addr as int, prefix_len as int),
{
    if prefix_len == 0 {
        proof {
            lemma_size(0);
            assert forall|addr: u32| (#[trigger] (addr & 0u32)) as int == network(
                addr as int,
                0,
            ) by {
                assert(addr & 0u32 == 0) by (bit_vector);
                lemma_network(addr as int, 0);
            }
        }
        0
    } else {
        let k: u8 = 32 - prefix_len;
        let m: u32 = u32::MAX << k;
        proof {
            lemma_size(prefix_len as int);
            assert forall|addr: u32| (#[trigger] (addr & m)) as int == network(
                addr as int,
                prefix_len as int,
            ) by {
                let w: u32 = k as u32;
                assert(addr & (u32::MAX << k) == (addr >> w) << w) by (bit_vector)
                    requires
                        k < 32,
                        w == k as u32,
                ;
                let q: u32 = addr >> w;
                assert((q << w) == addr - (addr - (q << w))  && (q << w) <= addr && q <= (u32::MAX >> w)) by (bit_vector)
                    requires
                        q == addr >> w,
                        w < 32,
                ;
                lemma_u32_shr_is_div(addr, w);
                lemma_fundamental_div_mod(addr as int, size(prefix_len as int));
                assert(q * pow2(w as nat) == size(prefix_len as int) * (addr as int / size(prefix_len as int)))
                    by (nonlinear_arith)
                    requires
                        size(prefix_len as int) == pow2(w as nat),
                        q as int == addr as int / size(prefix_len as int),
                ;
                lemma_mod_bound(addr as int, size(prefix_len as int));
                lemma_u32_shl_is_mul(q, w);
            }
        }
        m
    }
}

/// The network address of the block of length `prefix_len` that holds `addr`.
pub fn network_addr(addr: u32, prefix_len: u8) -> (r: u32)
    requires
        prefix_len <= 32,
    ensures
        r as int == network(addr as int, prefix_len as int),
{
    addr & mask(prefix_len)
}

/// Whether `inner` is a subnet of (or the same network as) `outer`.
pub fn contains(outer: Cidr, inner: Cidr) -> (r: bool)
    requires
        outer.1 <= 32 || inner.1 < outer.1,
    ensures
        r == (inner.1 >= outer.1 && network(inner.0 as int, outer.1 as int) == outer.0),
{
    inner.1 >= outer.1 && network_addr(inner.0, outer.1) == outer.0
}

/// What `address_exclude` returns: for each prefix length on the way from `net` down to `exclude`,
/// the half that does not hold `exclude`.
pub open spec fn excluded(net: Cidr, exclude: Cidr) -> Seq<Cidr> {
    Seq::new(
        (if net.1 < exclude.1 {
            exclude.1 - net.1
        } else {
            0
        }) as nat,
        |k: int| sibling(ancestor(exclude, net.1 + 1 + k)),
    )
}

proof fn lemma_ancestor(c: Cidr, len: int)
    requires
        c.1 <= 32,
        0 <= len <= c.1,
    ensures
        wf(ancestor(c, len)),
        ancestor(c, len).0 == network(c.0 as int, len),
        ancestor(c, len).1 == len,
        covers(ancestor(c, len), c.0 as int),
        wf(c) && len == c.1 ==> ancestor(c, len) == c,
        0 < len ==> parent(ancestor(c, len)) == ancestor(c, len - 1),
{
    lemma_size(len);
    lemma_network(c.0 as int, len);
    if wf(c) && len == c.1 {
        lemma_multiple_below(c.0 as int, c.0 as int, size(len));
    }
}

/// The block of `c` lies in every block around it.
proof fn lemma_target_in_child(c: Cidr, len: int)
    requires
        c.1 <= 32,
        0 <= len <= c.1,
    ensures
        forall|x: int|
            #[trigger] covers(ancestor(c, c.1 as int), x) ==> covers(ancestor(c, len), x),
{
    lemma_ancestor(c, len);
    lemma_ancestor(c, c.1 as int);
    lemma_nested(ancestor(c, len), ancestor(c, c.1 as int), c.0 as int);
}

/// Splits `net` into the minimal set of subnets that cover `net` but exclude `exclude`, largest
/// first.
pub fn address_exclude(net: Cidr, exclude: Cidr) -> (out: Vec<Cidr>)
    requires
        net.1 <= exclude.1 <= 32,
        network(exclude.0 as int, net.1 as int) == net.0,
    ensures
        out@ == excluded(net, exclude),
{
    if net.1 >= exclude.1 {
        return Vec::new();
    }
    let mut out: Vec<Cidr> = Vec::new();
    let mut current = net;
    proof {
        lemma_ancestor(exclude, net.1 as int);
    }
    while current.1 < exclude.1
        invariant
            exclude.1 <= 32,
            net.1 <= current.1 <= exclude.1,
            current == ancestor(exclude, current.1 as int),
            wf(current),
            out@.len() == current.1 - net.1,
            forall|k: int|
                0 <= k < out@.len() ==> #[trigger] out@[k] == sibling(
                    ancestor(exclude, net.1 + 1 + k),
                ),
        decreases exclude.1 - current.1,
    {
        let child_len: u8 = current.1 + 1;
        proof {
            lemma_size(child_len as int);
            lemma_size(current.1 as int);
            assert(1u32 << (32 - child_len) == 1 * pow2((32 - child_len) as nat)) by {
                let w: u32 = (32 - child_len) as u32;
                lemma_u32_pow2_no_overflow(w as nat);
                lemma_u32_shl_is_mul(1u32, w);
                assert(1u32 << w == 1u32 << (32 - child_len));
            }
            lemma_ancestor(exclude, child_len as int);
            lemma_ancestor(exclude, current.1 as int);
            lemma_parent(ancestor(exclude, child_len as int));
            lemma_network(exclude.0 as int, child_len as int);
            lemma_network(exclude.0 as int, current.1 as int);
        }
        let half_size: u32 = 1u32 << (32 - child_len);
        let lower = (current.0, child_len);
        let upper = (current.0.wrapping_add(half_size), child_len);
        if contains(lower, exclude) {
            out.push(upper);
            current = lower;
        } else {
            out.push(lower);
            current = upper;
        }
    }
    out
}

/// Law: `address_exclude` leaves exactly the addresses of `net` that are not in the block of
/// `exclude`, each in one network only.
pub proof fn address_exclude_is_difference(net: Cidr, exclude: Cidr)
    requires
        net.1 <= exclude.1 <= 32,
        network(exclude.0 as int, net.1 as int) == net.0,
    ensures
        all_wf(excluded(net, exclude)),
        disjoint(excluded(net, exclude)),
        forall|x: int|
            #[trigger] covered(excluded(net, exclude), x) <==> covers(net, x) && !covers(
                ancestor(exclude, exclude.1 as int),
                x,
            ),
    decreases exclude.1 - net.1,
{
    let out = excluded(net, exclude);
    lemma_ancestor(exclude, net.1 as int);
    if net.1 < exclude.1 {
        let child = ancestor(exclude, net.1 + 1);
        lemma_ancestor(exclude, net.1 + 1);
        lemma_parent(child);
        lemma_target_in_child(exclude, net.1 + 1);
        address_exclude_is_difference(child, exclude);
        let rest = excluded(child, exclude);
        assert(out =~= seq![sibling(child)] + rest);
        assert(parent(child) == net);
        assert forall|x: int| #[trigger] covered(out, x) <==> covers(net, x) && !covers(
            ancestor(exclude, exclude.1 as int),
            x,
        ) by {
            if covered(out, x) {
                let i = choose|i: int| 0 <= i < out.len() && covers(#[trigger] out[i], x);
                if i > 0 {
                    assert(covers(rest[i - 1], x));
                    assert(covered(rest, x));
                    assert(covers(child, x));
                } else {
                    assert(covers(sibling(child), x));
                    assert(covers(sibling(sibling(child)), x) ==> !covers(child, x));
                    lemma_parent(sibling(child));
                    assert(!covers(child, x));
                }
                assert(covers(parent(child), x));
            }
            if covers(net, x) && !covers(ancestor(exclude, exclude.1 as int), x) {
                assert(covers(parent(child), x));
                if covers(child, x) {
                    assert(covered(rest, x));
                    let i = choose|i: int| 0 <= i < rest.len() && covers(#[trigger] rest[i], x);
                    assert(covers(out[i + 1], x));
                } else {
                    assert(covers(out[0], x));
                }
            }
        }
        assert forall|i: int| 0 <= i < out.len() implies wf(#[trigger] out[i]) by {
            if i > 0 {
                assert(out[i] == rest[i - 1]);
            }
        }
        assert forall|i: int, j: int, x: int|
            0 <= i < out.len() && 0 <= j < out.len() && i != j && #[trigger] covers(out[i], x)
            implies !#[trigger] covers(out[j], x) by {
            lemma_parent(sibling(child));
            if i > 0 && j > 0 {
                assert(out[i] == rest[i - 1] && out[j] == rest[j - 1]);
            } else if i == 0 {
                if covers(out[j], x) {
                    assert(covers(rest[j - 1], x));
                    assert(covered(rest, x));
                    assert(covers(child, x));
                }
            } else {
                assert(covers(rest[i - 1], x));
                assert(covered(rest, x));
                assert(covers(child, x));
            }
        }
    } else {
        assert(out.len() == 0);
        assert(net == ancestor(exclude, exclude.1 as int));
    }
}

fn is_before(a: Cidr, b: Cidr) -> (r: bool)
    ensures
        r == before(a, b),
{
    a.0 < b.0 || (a.0 == b.0 && a.1 < b.1)
}

/// Puts `c` at its place in the ascending list `v`, unless it is there already.
fn insert_ascending(v: &mut Vec<Cidr>, c: Cidr)
    requires
        ascending(old(v)@),
    ensures
        ascending(final(v)@),
        final(v)@.len() == old(v)@.len() + (if old(v)@.contains(c) {
            0int
        } else {
            1
        }),
        forall|x: Cidr| #[trigger] final(v)@.contains(x) <==> x == c || old(v)@.contains(x),
{
    let mut i: usize = 0;
    while i < v.len() && is_before(v[i], c)
        invariant
            i <= v.len(),
            forall|k: int| 0 <= k < i ==> before(#[trigger] v@[k], c),
        decreases v.len() - i,
    {
        i += 1;
    }
    if i < v.len() && v[i].0 == c.0 && v[i].1 == c.1 {
        assert(v@[i as int] == c);
        return;
    }
    let ghost prev = v@;
    v.insert(i, c);
    proof {
        assert forall|k: int| i <= k < prev.len() implies before(c, #[trigger] prev[k]) by {
            assert(before(c, prev[i as int]));
        }
        assert forall|x: Cidr| #[trigger] v@.contains(x) <==> x == c || prev.contains(x) by {
            if x == c {
                assert(v@[i as int] == c);
            }
            if prev.contains(x) {
                let k = choose|k: int| 0 <= k < prev.len() && prev[k] == x;
                if k < i {
                    assert(v@[k] == x);
                } else {
                    assert(v@[k + 1] == x);
                }
            }
            if v@.contains(x) && x != c {
                let k = choose|k: int| 0 <= k < v@.len() && v@[k] == x;
                if k < i {
                    assert(prev[k] == x);
                } else {
                    assert(prev[k - 1] == x);
                }
            }
        }
    }
}

/// The entries of `nets` in ascending order, each once.
fn sorted(nets: &[Cidr]) -> (out: Vec<Cidr>)
    ensures
        ascending(out@),
        out@.len() <= nets@.len(),
        forall|x: Cidr| #[trigger] out@.contains(x) <==> nets@.contains(x),
{
    let mut out: Vec<Cidr> = Vec::new();
    let mut i: usize = 0;
    while i < nets.len()
        invariant
            i <= nets.len(),
            ascending(out@),
            out@.len() <= i,
            forall|x: Cidr| #[trigger] out@.contains(x) <==> nets@.take(i as int).contains(x),
        decreases nets.len() - i,
    {
        insert_ascending(&mut out, nets[i]);
        proof {
            let before_it = nets@.take(i as int);
            let after_it = nets@.take(i + 1);
            assert(after_it =~= before_it.push(nets@[i as int]));
            assert forall|x: Cidr| after_it.contains(x) <==> x == nets@[i as int]
                || before_it.contains(x) by {
                if before_it.contains(x) {
                    let k = choose|k: int| 0 <= k < before_it.len() && before_it[k] == x;
                    assert(after_it[k] == x);
                }
                if x == nets@[i as int] {
                    assert(after_it[i as int] == x);
                }
                if after_it.contains(x) && x != nets@[i as int] {
                    let k = choose|k: int| 0 <= k < after_it.len() && after_it[k] == x;
                    assert(before_it[k] == x);
                }
            }
        }
        i += 1;
    }
    assert(nets@.take(i as int) =~= nets@);
    out
}

/// Some other, larger entry of `nets` holds `n`.
pub open spec fn subsumed(nets: Seq<Cidr>, n: Cidr) -> bool {
    exists|k: int|
        0 <= k < nets.len() && (#[trigger] nets[k]).1 < n.1 && network(
            n.0 as int,
            nets[k].1 as int,
        ) == nets[k].0
}

/// Every entry lies in one that nothing larger holds.
proof fn lemma_top(nets: Seq<Cidr>, n: Cidr) -> (m: Cidr)
    requires
        all_wf(nets),
        nets.contains(n),
    ensures
        nets.contains(m),
        !subsumed(nets, m),
        forall|x: int| #[trigger] covers(n, x) ==> covers(m, x),
    decreases n.1,
{
    let i = choose|i: int| 0 <= i < nets.len() && nets[i] == n;
    assert(wf(nets[i]));
    if subsumed(nets, n) {
        let k = choose|k: int|
            0 <= k < nets.len() && (#[trigger] nets[k]).1 < n.1 && network(
                n.0 as int,
                nets[k].1 as int,
            ) == nets[k].0;
        let outer = nets[k];
        assert(wf(outer));
        contains_is_inclusion(outer, n);
        lemma_top(nets, outer)
    } else {
        n
    }
}

/// The entries of `nets` that no larger entry holds.
fn maximal(nets: &Vec<Cidr>) -> (out: Vec<Cidr>)
    requires
        all_wf(nets@),
        ascending(nets@),
    ensures
        all_wf(out@),
        ascending(out@),
        disjoint(out@),
        same_cover(nets@, out@),
{
    let mut out: Vec<Cidr> = Vec::new();
    let mut i: usize = 0;
    while i < nets.len()
        invariant
            i <= nets.len(),
            all_wf(nets@),
            ascending(nets@),
            ascending(out@),
            forall|x: Cidr|
                #[trigger] out@.contains(x) <==> nets@.take(i as int).contains(x) && !subsumed(
                    nets@,
                    x,
                ),
        decreases nets.len() - i,
    {
        let n = nets[i];
        let mut found = false;
        let mut k: usize = 0;
        assert(wf(nets@[i as int]));
        while k < nets.len()
            invariant
                k <= nets.len(),
                all_wf(nets@),
                n.1 <= 32,
                found == exists|j: int|
                    0 <= j < k && (#[trigger] nets@[j]).1 < n.1 && network(
                        n.0 as int,
                        nets@[j].1 as int,
                    ) == nets@[j].0,
            decreases nets.len() - k,
        {
            let other = nets[k];
            assert(wf(nets@[k as int]));
            if other.1 < n.1 && contains(other, n) {
                found = true;
            }
            k += 1;
        }
        let ghost prev = out@;
        if !found {
            proof {
                assert forall|j: int| 0 <= j < prev.len() implies before(#[trigger] prev[j], n) by {
                    assert(prev.contains(prev[j]));
                    let q = choose|q: int| 0 <= q < i && nets@.take(i as int)[q] == prev[j];
                    assert(before(nets@[q], nets@[i as int]));
                }
            }
            out.push(n);
        }
        proof {
            assert(found == subsumed(nets@, n));
            let a = nets@.take(i as int);
            let b = nets@.take(i + 1);
            assert(b =~= a.push(n));
            assert forall|x: Cidr| #[trigger] out@.contains(x) <==> b.contains(x) && !subsumed(
                nets@,
                x,
            ) by {
                if b.contains(x) {
                    let q = choose|q: int| 0 <= q < b.len() && b[q] == x;
                    if q < i {
                        assert(a[q] == x);
                    }
                }
                if a.contains(x) {
                    let q = choose|q: int| 0 <= q < a.len() && a[q] == x;
                    assert(b[q] == x);
                }
                assert(b[i as int] == n);
                if !found {
                    assert(out@[prev.len() as int] == n);
                    if prev.contains(x) {
                        let q = choose|q: int| 0 <= q < prev.len() && prev[q] == x;
                        assert(out@[q] == x);
                    }
                    if out@.contains(x) && x != n {
                        let q = choose|q: int| 0 <= q < out@.len() && out@[q] == x;
                        assert(prev[q] == x);
                    }
                }
            }
        }
        i += 1;
    }
    proof {
        assert(nets@.take(i as int) =~= nets@);
        assert forall|j: int| 0 <= j < out@.len() implies wf(#[trigger] out@[j]) by {
            assert(out@.contains(out@[j]));
        }
        assert forall|p: int, q: int, x: int|
            0 <= p < out@.len() && 0 <= q < out@.len() && p != q && #[trigger] covers(out@[p], x)
            implies !#[trigger] covers(out@[q], x) by {
            let a = out@[p];
            let b = out@[q];
            assert(out@.contains(a) && out@.contains(b));
            if covers(b, x) {
                if a.1 <= b.1 {
                    lemma_nested(a, b, x);
                } else {
                    lemma_nested(b, a, x);
                }
                if p < q {
                    assert(before(out@[p], out@[q]));
                } else {
                    assert(before(out@[q], out@[p]));
                }
                assert(a != b);
                let ia = choose|k: int| 0 <= k < nets@.len() && nets@[k] == a;
                let ib = choose|k: int| 0 <= k < nets@.len() && nets@[k] == b;
                if a.1 < b.1 {
                    assert(subsumed(nets@, b));
                } else {
                    assert(subsumed(nets@, a));
                }
            }
        }
        assert forall|x: int| #[trigger] covered(nets@, x) <==> covered(out@, x) by {
            if covered(nets@, x) {
                let k = choose|k: int| 0 <= k < nets@.len() && covers(#[trigger] nets@[k], x);
                assert(nets@.contains(nets@[k]));
                let m = lemma_top(nets@, nets@[k]);
                assert(out@.contains(m));
                let q = choose|q: int| 0 <= q < out@.len() && out@[q] == m;
                assert(covers(out@[q], x));
            }
            if covered(out@, x) {
                let k = choose|k: int| 0 <= k < out@.len() && covers(#[trigger] out@[k], x);
                assert(out@.contains(out@[k]));
                let q = choose|q: int| 0 <= q < nets@.len() && nets@[q] == out@[k];
                assert(covers(nets@[q], x));
            }
        }
    }
    out
}

/// What one merging pass makes of the entry `d`: its parent where the other half is there too.
spec fn merge_target(nets: Seq<Cidr>, d: Cidr) -> Cidr {
    if d.1 > 0 && nets.contains(sibling(d)) {
        parent(d)
    } else {
        d
    }
}

fn sibling_of(c: Cidr) -> (r: (Cidr, Cidr))
    requires
        wf(c),
        c.1 > 0,
    ensures
        r.0 == sibling(c),
        r.1 == parent(c),
{
    let (addr, len) = c;
    let parent_addr: u32 = network_addr(addr, len - 1);
    proof {
        lemma_parent(c);
        lemma_size(len as int);
        lemma_size(len - 1);
        lemma_network(addr as int, len as int);
        lemma_network(addr as int, len - 1);
        assert(1u32 << (32 - len) == pow2((32 - len) as nat)) by {
            let w: u32 = (32 - len) as u32;
            lemma_u32_pow2_no_overflow(w as nat);
            lemma_u32_shl_is_mul(1u32, w);
            assert(1u32 << w == 1u32 << (32 - len));
        }
    }
    let half_size: u32 = 1u32 << (32 - len);
    if addr == parent_addr {
        let other: u32 = parent_addr + half_size;
        ((other, len), (parent_addr, len - 1))
    } else {
        ((parent_addr, len), (parent_addr, len - 1))
    }
}

/// `m` is what the merging pass makes of the entry at `k`.
spec fn made_of(nets: Seq<Cidr>, m: Cidr, k: int) -> bool {
    0 <= k < nets.len() && m == merge_target(nets, nets[k])
}

spec fn is_made(nets: Seq<Cidr>, m: Cidr) -> bool {
    exists|k: int| made_of(nets, m, k)
}

/// `out` holds what the merging pass makes of the entries of `nets`, and nothing else.
spec fn is_pass(nets: Seq<Cidr>, out: Seq<Cidr>) -> bool {
    &&& all_wf(nets)
    &&& ascending(nets)
    &&& disjoint(nets)
    &&& ascending(out)
    &&& forall|k: int|
        0 <= k < nets.len() ==> out.contains(merge_target(nets, #[trigger] nets[k]))
    &&& forall|i: int|
        0 <= i < out.len() ==> is_made(nets, #[trigger] out[i])
}

proof fn lemma_pass_wf(nets: Seq<Cidr>, out: Seq<Cidr>)
    requires
        is_pass(nets, out),
    ensures
        all_wf(out),
{
    assert forall|i: int| 0 <= i < out.len() implies wf(#[trigger] out[i]) by {
        let k = choose|k: int| made_of(nets, out[i], k);
        assert(wf(nets[k]));
        if nets[k].1 > 0 {
            lemma_parent(nets[k]);
        }
    }
}

proof fn lemma_pass_cover(nets: Seq<Cidr>, out: Seq<Cidr>)
    requires
        is_pass(nets, out),
    ensures
        same_cover(nets, out),
{
    assert forall|x: int| #[trigger] covered(nets, x) <==> covered(out, x) by {
        if covered(nets, x) {
            let k = choose|k: int| 0 <= k < nets.len() && covers(#[trigger] nets[k], x);
            let t = merge_target(nets, nets[k]);
            assert(wf(nets[k]));
            if nets[k].1 > 0 {
                lemma_parent(nets[k]);
            }
            assert(covers(t, x));
            assert(out.contains(t));
            let q = choose|q: int| 0 <= q < out.len() && out[q] == t;
            assert(covers(out[q], x));
        }
        if covered(out, x) {
            let q = choose|q: int| 0 <= q < out.len() && covers(#[trigger] out[q], x);
            let k = choose|k: int| made_of(nets, out[q], k);
            let r = lemma_source_entry(nets, k, x);
            assert(covers(nets[r], x));
        }
    }
}

proof fn lemma_pass_disjoint(nets: Seq<Cidr>, out: Seq<Cidr>)
    requires
        is_pass(nets, out),
    ensures
        disjoint(out),
{
    assert forall|p: int, q: int, x: int|
        0 <= p < out.len() && 0 <= q < out.len() && p != q && #[trigger] covers(out[p], x)
        implies !#[trigger] covers(out[q], x) by {
        if covers(out[q], x) {
            let kp = choose|k: int| made_of(nets, out[p], k);
            let kq = choose|k: int| made_of(nets, out[q], k);
            let a = lemma_source_entry(nets, kp, x);
            let b = lemma_source_entry(nets, kq, x);
            // both entries hold `x`, so they are one entry, with one target
            if a != b {
                assert(covers(nets[a], x));
                assert(!covers(nets[b], x));
            }
            assert(out[p] == out[q]);
            if p < q {
                assert(before(out[p], out[q]));
            } else {
                assert(before(out[q], out[p]));
            }
        }
    }
}

proof fn lemma_pass_no_siblings(nets: Seq<Cidr>, out: Seq<Cidr>)
    requires
        is_pass(nets, out),
        forall|k: int|
            0 <= k < nets.len() ==> merge_target(nets, #[trigger] nets[k]) == nets[k],
    ensures
        no_siblings(out),
{
    assert forall|i: int| 0 <= i < out.len() && (#[trigger] out[i]).1 > 0 implies !out.contains(
        sibling(out[i]),
    ) by {
        let k = choose|k: int| made_of(nets, out[i], k);
        assert(nets[k] == out[i]);
        let s = sibling(out[i]);
        if out.contains(s) {
            let q = choose|q: int| 0 <= q < out.len() && out[q] == s;
            let k2 = choose|k: int| made_of(nets, out[q], k);
            assert(nets[k2] == s);
            assert(nets.contains(s));
            assert(wf(nets[k]));
            lemma_parent(nets[k]);
            assert(merge_target(nets, nets[k]) == parent(nets[k]));
        }
    }
}

/// An address of an entry's target lies in an entry with the same target.
proof fn lemma_source_entry(nets: Seq<Cidr>, k: int, x: int) -> (r: int)
    requires
        all_wf(nets),
        0 <= k < nets.len(),
        covers(merge_target(nets, nets[k]), x),
    ensures
        0 <= r < nets.len(),
        covers(nets[r], x),
        merge_target(nets, nets[r]) == merge_target(nets, nets[k]),
{
    let d = nets[k];
    assert(wf(nets[k]));
    if d.1 > 0 && nets.contains(sibling(d)) {
        lemma_parent(d);
        if covers(d, x) {
            k
        } else {
            let p = choose|p: int| 0 <= p < nets.len() && nets[p] == sibling(d);
            assert(nets.contains(d));
            p
        }
    } else {
        k
    }
}

fn holds(nets: &Vec<Cidr>, c: Cidr) -> (r: bool)
    ensures
        r == nets@.contains(c),
{
    let mut i: usize = 0;
    while i < nets.len()
        invariant
            i <= nets.len(),
            forall|k: int| 0 <= k < i ==> #[trigger] nets@[k] != c,
        decreases nets.len() - i,
    {
        if nets[i].0 == c.0 && nets[i].1 == c.1 {
            assert(nets@[i as int] == c);
            return true;
        }
        i += 1;
    }
    false
}

/// One merging pass: each pair of halves becomes the block they fill. The flag says whether there
/// was such a pair.
#[verifier::spinoff_prover]
#[verifier::rlimit(60)]
fn merge_pass(nets: &Vec<Cidr>) -> (r: (Vec<Cidr>, bool))
    requires
        all_wf(nets@),
        ascending(nets@),
        disjoint(nets@),
    ensures
        all_wf(r.0@),
        ascending(r.0@),
        disjoint(r.0@),
        same_cover(nets@, r.0@),
        r.1 ==> r.0@.len() < nets@.len(),
        !r.1 ==> no_siblings(r.0@),
{
    let mut out: Vec<Cidr> = Vec::new();
    let mut changed = false;
    let mut i: usize = 0;
    while i < nets.len()
        invariant
            i <= nets@.len(),
            all_wf(nets@),
            ascending(out@),
            out@.len() <= i,
            forall|k: int| 0 <= k < i ==> out@.contains(merge_target(nets@, #[trigger] nets@[k])),
            forall|m: int|
                0 <= m < out@.len() ==> is_made(nets@, #[trigger] out@[m]),
            !changed ==> forall|k: int|
                0 <= k < i ==> merge_target(nets@, #[trigger] nets@[k]) == nets@[k],
            changed ==> exists|k: int|
                0 <= k < nets@.len() && (#[trigger] nets@[k]).1 > 0 && nets@.contains(
                    sibling(nets@[k]),
                ),
            forall|a: int, b: int|
                0 <= a < b < i && merge_target(nets@, #[trigger] nets@[a]) == merge_target(
                    nets@,
                    #[trigger] nets@[b],
                ) ==> out@.len() < i,
        decreases nets.len() - i,
    {
        let c = nets[i];
        assert(wf(nets@[i as int]));
        let ghost prev = out@;
        let mut target = c;
        if c.1 > 0 {
            let (other, whole) = sibling_of(c);
            if holds(nets, other) {
                target = whole;
                changed = true;
            }
        }
        assert(target == merge_target(nets@, c));
        insert_ascending(&mut out, target);
        proof {
            assert forall|k: int| 0 <= k < i + 1 implies out@.contains(
                merge_target(nets@, #[trigger] nets@[k]),
            ) by {}
            assert forall|m: int| 0 <= m < out@.len() implies is_made(
                nets@,
                #[trigger] out@[m],
            ) by {
                assert(out@.contains(out@[m]));
                if out@[m] == target {
                    assert(made_of(nets@, out@[m], i as int));
                } else {
                    assert(prev.contains(out@[m]));
                    let q = choose|q: int| 0 <= q < prev.len() && prev[q] == out@[m];
                    let k = choose|k: int| made_of(nets@, prev[q], k);
                    assert(made_of(nets@, out@[m], k));
                }
            }
            assert forall|a: int, b: int|
                0 <= a < b < i + 1 && merge_target(nets@, #[trigger] nets@[a]) == merge_target(
                    nets@,
                    #[trigger] nets@[b],
                ) implies out@.len() < i + 1 by {
                if b == i {
                    assert(prev.contains(merge_target(nets@, nets@[a])));
                }
            }
        }
        i += 1;
    }
    proof {
        assert(is_pass(nets@, out@));
        lemma_pass_wf(nets@, out@);
        lemma_pass_cover(nets@, out@);
        lemma_pass_disjoint(nets@, out@);
        if changed {
            let a = choose|k: int|
                0 <= k < nets@.len() && (#[trigger] nets@[k]).1 > 0 && nets@.contains(
                    sibling(nets@[k]),
                );
            let b = choose|k: int| 0 <= k < nets@.len() && nets@[k] == sibling(nets@[a]);
            assert(wf(nets@[a]));
            lemma_parent(nets@[a]);
            assert(nets@.contains(nets@[a]));
            assert(merge_target(nets@, nets@[a]) == merge_target(nets@, nets@[b]));
            if a < b {
                assert(out@.len() < i);
            } else {
                assert(out@.len() < i);
            }
        } else {
            lemma_pass_no_siblings(nets@, out@);
        }
    }
    (out, changed)
}

/// Merges networks into the canonical list with the same addresses.
fn merge_networks(nets: &Vec<Cidr>) -> (out: Vec<Cidr>)
    requires
        all_wf(nets@),
        ascending(nets@),
    ensures
        canonical(out@),
        same_cover(nets@, out@),
{
    let mut current = maximal(nets);
    loop
        invariant
            all_wf(current@),
            ascending(current@),
            disjoint(current@),
            same_cover(nets@, current@),
        ensures
            canonical(current@),
            same_cover(nets@, current@),
        decreases current@.len(),
    {
        let ghost prev = current@;
        let (merged, changed) = merge_pass(&current);
        current = merged;
        proof {
            assert forall|x: int| #[trigger] covered(nets@, x) <==> covered(current@, x) by {
                assert(covered(nets@, x) <==> covered(prev, x));
                assert(covered(prev, x) <==> covered(current@, x));
            }
        }
        if !changed {
            break;
        }
    }
    current
}

/// The address `x` lies in one of the entries of `nets` that are networks.
pub open spec fn network_covered(nets: Seq<Cidr>, x: int) -> bool {
    exists|i: int| 0 <= i < nets.len() && wf(#[trigger] nets[i]) && covers(nets[i], x)
}

/// `out` is the canonical list `merged` of what the networks of `nets` cover, together with the
/// entries that have host bits set: those merge with nothing, and stay unless a larger network of
/// `nets` holds them.
pub open spec fn is_collapse(nets: Seq<Cidr>, merged: Seq<Cidr>, out: Seq<Cidr>) -> bool {
    &&& canonical(merged)
    &&& forall|x: int| #[trigger] covered(merged, x) <==> network_covered(nets, x)
    &&& ascending(out)
    &&& forall|c: Cidr| #[trigger]
        out.contains(c) <==> merged.contains(c) || (!wf(c) && nets.contains(c) && !subsumed(
            nets,
            c,
        ))
}

/// `out` is what `nets` collapses to.
pub open spec fn collapses_to(nets: Seq<Cidr>, out: Seq<Cidr>) -> bool {
    exists|merged: Seq<Cidr>| #[trigger] is_collapse(nets, merged, out)
}

fn is_network(c: Cidr) -> (r: bool)
    requires
        c.1 <= 32,
    ensures
        r == wf(c),
{
    proof {
        lemma_size(c.1 as int);
        lemma_network(c.0 as int, c.1 as int);
        if wf(c) {
            lemma_multiple_below(c.0 as int, c.0 as int, size(c.1 as int));
        }
    }
    network_addr(c.0, c.1) == c.0
}

fn is_subsumed(nets: &Vec<Cidr>, n: Cidr) -> (r: bool)
    requires
        forall|i: int| 0 <= i < nets@.len() ==> (#[trigger] nets@[i]).1 <= 32,
    ensures
        r == subsumed(nets@, n),
{
    let mut k: usize = 0;
    while k < nets.len()
        invariant
            k <= nets.len(),
            forall|i: int| 0 <= i < nets@.len() ==> (#[trigger] nets@[i]).1 <= 32,
            forall|j: int|
                0 <= j < k ==> !((#[trigger] nets@[j]).1 < n.1 && network(
                    n.0 as int,
                    nets@[j].1 as int,
                ) == nets@[j].0),
        decreases nets.len() - k,
    {
        let other = nets[k];
        assert(nets@[k as int].1 <= 32);
        if other.1 < n.1 && contains(other, n) {
            return true;
        }
        k += 1;
    }
    false
}

/// Merges overlapping, subsumed and sibling-adjacent networks into their minimal covering set.
pub fn collapse(nets: &[Cidr]) -> (out: Vec<Cidr>)
    requires
        forall|i: int| 0 <= i < nets@.len() ==> (#[trigger] nets@[i]).1 <= 32,
    ensures
        collapses_to(nets@, out@),
        all_wf(nets@) ==> canonical(out@) && same_cover(nets@, out@),
{
    let all = sorted(nets);
    proof {
        assert forall|i: int| 0 <= i < all@.len() implies (#[trigger] all@[i]).1 <= 32 by {
            assert(all@.contains(all@[i]));
            let k = choose|k: int| 0 <= k < nets@.len() && nets@[k] == all@[i];
            assert(nets@[k].1 <= 32);
        }
    }
    let mut networks: Vec<Cidr> = Vec::new();
    let mut i: usize = 0;
    while i < all.len()
        invariant
            i <= all.len(),
            ascending(all@),
            forall|k: int| 0 <= k < all@.len() ==> (#[trigger] all@[k]).1 <= 32,
            ascending(networks@),
            all_wf(networks@),
            forall|c: Cidr| #[trigger]
                networks@.contains(c) <==> wf(c) && all@.take(i as int).contains(c),
        decreases all.len() - i,
    {
        let c = all[i];
        assert(all@[i as int].1 <= 32);
        let ghost prev = networks@;
        if is_network(c) {
            proof {
                assert forall|j: int| 0 <= j < prev.len() implies before(#[trigger] prev[j], c) by {
                    assert(prev.contains(prev[j]));
                    let q = choose|q: int| 0 <= q < i && all@.take(i as int)[q] == prev[j];
                    assert(before(all@[q], all@[i as int]));
                }
            }
            networks.push(c);
        }
        proof {
            lemma_take_push(all@, i as int);
            lemma_contains_push(prev, c);
        }
        i += 1;
    }
    assert(all@.take(i as int) =~= all@);
    let mut out = merge_networks(&networks);
    let ghost merged = out@;
    let mut j: usize = 0;
    while j < all.len()
        invariant
            j <= all.len(),
            ascending(all@),
            forall|k: int| 0 <= k < all@.len() ==> (#[trigger] all@[k]).1 <= 32,
            ascending(out@),
            forall|c: Cidr| #[trigger]
                out@.contains(c) <==> merged.contains(c) || (!wf(c) && all@.take(
                    j as int,
                ).contains(c) && !subsumed(all@, c)),
            all_wf(all@) ==> out@ == merged,
        decreases all.len() - j,
    {
        let c = all[j];
        assert(all@[j as int].1 <= 32);
        if !is_network(c) && !is_subsumed(&all, c) {
            insert_ascending(&mut out, c);
        }
        proof {
            lemma_take_push(all@, j as int);
        }
        j += 1;
    }
    proof {
        assert(all@.take(j as int) =~= all@);
        lemma_collapse(nets@, all@, networks@, merged, out@);
    }
    out
}

pub proof fn lemma_take_push(s: Seq<Cidr>, i: int)
    requires
        0 <= i < s.len(),
    ensures
        forall|c: Cidr| #[trigger]
            s.take(i + 1).contains(c) <==> c == s[i] || s.take(i).contains(c),
{
    assert(s.take(i + 1) =~= s.take(i).push(s[i]));
    lemma_contains_push(s.take(i), s[i]);
}

proof fn lemma_contains_push(s: Seq<Cidr>, d: Cidr)
    ensures
        forall|c: Cidr| #[trigger] s.push(d).contains(c) <==> c == d || s.contains(c),
{
    assert forall|c: Cidr| #[trigger] s.push(d).contains(c) <==> c == d || s.contains(c) by {
        if s.contains(c) {
            let k = choose|k: int| 0 <= k < s.len() && s[k] == c;
            assert(s.push(d)[k] == c);
        }
        if c == d {
            assert(s.push(d)[s.len() as int] == c);
        }
        if s.push(d).contains(c) && c != d {
            let k = choose|k: int| 0 <= k < s.push(d).len() && s.push(d)[k] == c;
            assert(s[k] == c);
        }
    }
}

proof fn lemma_same_entries(a: Seq<Cidr>, b: Seq<Cidr>)
    requires
        forall|c: Cidr| #[trigger] a.contains(c) <==> b.contains(c),
    ensures
        forall|n: Cidr| #[trigger] subsumed(a, n) ==> subsumed(b, n),
        forall|x: int| #[trigger] network_covered(a, x) ==> network_covered(b, x),
        all_wf(a) ==> all_wf(b),
{
    assert forall|n: Cidr| #[trigger] subsumed(a, n) implies subsumed(b, n) by {
        let k = choose|k: int|
            0 <= k < a.len() && (#[trigger] a[k]).1 < n.1 && network(n.0 as int, a[k].1 as int)
                == a[k].0;
        assert(a.contains(a[k]));
        let q = choose|q: int| 0 <= q < b.len() && b[q] == a[k];
        assert(b[q].1 < n.1);
    }
    assert forall|x: int| #[trigger] network_covered(a, x) implies network_covered(b, x) by {
        let k = choose|k: int| 0 <= k < a.len() && wf(#[trigger] a[k]) && covers(a[k], x);
        assert(a.contains(a[k]));
        let q = choose|q: int| 0 <= q < b.len() && b[q] == a[k];
        assert(wf(b[q]) && covers(b[q], x));
    }
    if all_wf(a) {
        assert forall|i: int| 0 <= i < b.len() implies wf(#[trigger] b[i]) by {
            assert(b.contains(b[i]));
            assert(a.contains(b[i]));
            let q = choose|q: int| 0 <= q < a.len() && a[q] == b[i];
            assert(wf(a[q]));
        }
    }
}

proof fn lemma_collapse(
    nets: Seq<Cidr>,
    all: Seq<Cidr>,
    networks: Seq<Cidr>,
    merged: Seq<Cidr>,
    out: Seq<Cidr>,
)
    requires
        forall|c: Cidr| #[trigger] all.contains(c) <==> nets.contains(c),
        forall|c: Cidr| #[trigger] networks.contains(c) <==> wf(c) && all.contains(c),
        canonical(merged),
        same_cover(networks, merged),
        ascending(out),
        forall|c: Cidr| #[trigger]
            out.contains(c) <==> merged.contains(c) || (!wf(c) && all.contains(c) && !subsumed(
                all,
                c,
            )),
        all_wf(all) ==> out == merged,
    ensures
        collapses_to(nets, out),
        all_wf(nets) ==> canonical(out) && same_cover(nets, out),
{
    lemma_same_entries(all, nets);
    lemma_same_entries(nets, all);
    assert forall|x: int| #[trigger] covered(merged, x) <==> network_covered(nets, x) by {
        assert(covered(networks, x) <==> covered(merged, x));
        if covered(networks, x) {
            let k = choose|k: int| 0 <= k < networks.len() && covers(#[trigger] networks[k], x);
            assert(networks.contains(networks[k]));
            let q = choose|q: int| 0 <= q < all.len() && all[q] == networks[k];
            assert(wf(all[q]) && covers(all[q], x));
            assert(network_covered(all, x));
        }
        if network_covered(nets, x) {
            assert(network_covered(all, x));
            let k = choose|k: int| 0 <= k < all.len() && wf(#[trigger] all[k]) && covers(all[k], x);
            assert(all.contains(all[k]));
            assert(networks.contains(all[k]));
            let q = choose|q: int| 0 <= q < networks.len() && networks[q] == all[k];
            assert(covers(networks[q], x));
        }
    }
    assert(is_collapse(nets, merged, out));
    if all_wf(nets) {
        assert forall|x: int| #[trigger] covered(nets, x) <==> covered(out, x) by {
            assert(covered(merged, x) <==> network_covered(nets, x));
            if covered(nets, x) {
                let k = choose|k: int| 0 <= k < nets.len() && covers(#[trigger] nets[k], x);
                assert(wf(nets[k]) && covers(nets[k], x));
            }
        }
    }
}

/// No block larger than an entry of a canonical list fits into what the list covers around it.
proof fn lemma_no_room(nets: Seq<Cidr>, i: int, d: Cidr)
    requires
        is_reduced(nets),
        0 <= i < nets.len(),
        wf(d),
        covers(d, nets[i].0 as int),
        forall|x: int| #[trigger] covers(d, x) ==> covered(nets, x),
    ensures
        nets[i].1 <= d.1,
    decreases 32 - nets[i].1,
{
    if d.1 < nets[i].1 {
        let e = nets[i];
        assert(wf(nets[i]));
        lemma_parent(e);
        let s = sibling(e);
        lemma_parent(s);
        lemma_covers_own(e);
        lemma_covers_own(s);
        assert(covers(parent(e), e.0 as int));
        lemma_nested(d, parent(e), e.0 as int);
        assert(covers(parent(e), s.0 as int));
        assert(covers(d, s.0 as int));
        assert(covered(nets, s.0 as int));
        let k = choose|k: int| 0 <= k < nets.len() && covers(#[trigger] nets[k], s.0 as int);
        let f = nets[k];
        assert(wf(nets[k]));
        if f.1 < e.1 {
            lemma_nested(f, parent(s), s.0 as int);
            assert(covers(f, e.0 as int));
            assert(covers(nets[i], e.0 as int));
            assert(k != i ==> !covers(nets[k], e.0 as int));
        } else if f.1 == e.1 {
            lemma_nested(f, s, s.0 as int);
            assert(nets.contains(sibling(nets[i])));
        } else {
            lemma_nested(s, f, s.0 as int);
            lemma_covers_own(f);
            assert(covers(s, f.0 as int));
            assert(covers(parent(s), f.0 as int));
            assert(covers(d, f.0 as int));
            lemma_no_room(nets, k, d);
        }
    }
}

proof fn lemma_ascending_unique(a: Seq<Cidr>, b: Seq<Cidr>, k: int)
    requires
        ascending(a),
        ascending(b),
        forall|x: Cidr| #[trigger] a.contains(x) <==> b.contains(x),
        0 <= k <= a.len(),
        k <= b.len(),
        a.take(k) == b.take(k),
    ensures
        a == b,
    decreases a.len() - k,
{
    if k < a.len() {
        assert(a.contains(a[k]));
        assert(b.contains(a[k]));
        let j = choose|j: int| 0 <= j < b.len() && b[j] == a[k];
        if j < k {
            assert(a.take(k)[j] == b.take(k)[j]);
            assert(before(a[j], a[k]));
        }
        assert(b.contains(b[k]));
        assert(a.contains(b[k]));
        let q = choose|q: int| 0 <= q < a.len() && a[q] == b[k];
        if q < k {
            assert(a.take(k)[q] == b.take(k)[q]);
            assert(before(b[q], b[k]));
        }
        if k < j {
            assert(before(b[k], b[j]));
        }
        if k < q {
            assert(before(a[k], a[q]));
        }
        assert(a[k] == b[k]);
        assert(a.take(k + 1) =~= a.take(k).push(a[k]));
        assert(b.take(k + 1) =~= b.take(k).push(b[k]));
        lemma_ascending_unique(a, b, k + 1);
    } else if k < b.len() {
        assert(b.contains(b[k]));
        assert(a.contains(b[k]));
        let q = choose|q: int| 0 <= q < a.len() && a[q] == b[k];
        assert(a.take(k)[q] == b.take(k)[q]);
        assert(before(b[q], b[k]));
    } else {
        assert(a =~= a.take(k));
        assert(b =~= b.take(k));
    }
}

proof fn lemma_canonical_entry(a: Seq<Cidr>, b: Seq<Cidr>, i: int)
    requires
        canonical(a),
        canonical(b),
        same_cover(a, b),
        0 <= i < a.len(),
    ensures
        b.contains(a[i]),
{
    let c = a[i];
    assert(wf(a[i]));
    lemma_covers_own(c);
    let x = c.0 as int;
    assert(covers(a[i], x));
    assert(covered(a, x));
    assert(covered(b, x));
    let j = choose|j: int| 0 <= j < b.len() && covers(#[trigger] b[j], x);
    let d = b[j];
    assert(wf(b[j]));
    lemma_covers_own(d);
    if d.1 < c.1 {
        assert forall|y: int| #[trigger] covers(d, y) implies covered(a, y) by {
            assert(covers(b[j], y));
            assert(covered(b, y));
        }
        lemma_no_room(a, i, d);
    } else if c.1 < d.1 {
        lemma_nested(c, d, x);
        assert(covers(c, d.0 as int));
        assert forall|y: int| #[trigger] covers(c, y) implies covered(b, y) by {
            assert(covers(a[i], y));
            assert(covered(a, y));
        }
        lemma_no_room(b, j, c);
    } else {
        lemma_nested(c, d, x);
    }
}

/// Law: a set of addresses has one canonical list. So `collapse` gives the same result for any two
/// lists that stand for the same addresses, and leaves a list that it has made as it is.
pub proof fn canonical_is_unique(a: Seq<Cidr>, b: Seq<Cidr>)
    requires
        canonical(a),
        canonical(b),
        same_cover(a, b),
    ensures
        a == b,
{
    assert forall|x: Cidr| #[trigger] a.contains(x) <==> b.contains(x) by {
        if a.contains(x) {
            let i = choose|i: int| 0 <= i < a.len() && a[i] == x;
            lemma_canonical_entry(a, b, i);
        }
        if b.contains(x) {
            let i = choose|i: int| 0 <= i < b.len() && b[i] == x;
            assert(same_cover(b, a)) by {
                assert forall|y: int| #[trigger] covered(b, y) <==> covered(a, y) by {
                    assert(covered(a, y) <==> covered(b, y));
                }
            }
            lemma_canonical_entry(b, a, i);
        }
    }
    assert(a.take(0) =~= b.take(0));
    lemma_ascending_unique(a, b, 0);
}

/// Law: what a list collapses to depends on its entries alone, not on their order or number.
pub proof fn collapse_is_unique(nets: Seq<Cidr>, other: Seq<Cidr>, a: Seq<Cidr>, b: Seq<Cidr>)
    requires
        forall|c: Cidr| #[trigger] nets.contains(c) <==> other.contains(c),
        collapses_to(nets, a),
        collapses_to(other, b),
    ensures
        a == b,
{
    let ma = choose|m: Seq<Cidr>| #[trigger] is_collapse(nets, m, a);
    let mb = choose|m: Seq<Cidr>| #[trigger] is_collapse(other, m, b);
    lemma_same_entries(nets, other);
    lemma_same_entries(other, nets);
    assert forall|x: int| #[trigger] covered(ma, x) <==> covered(mb, x) by {
        assert(covered(ma, x) <==> network_covered(nets, x));
        assert(covered(mb, x) <==> network_covered(other, x));
    }
    canonical_is_unique(ma, mb);
    assert(a.take(0) =~= b.take(0));
    assert forall|c: Cidr| #[trigger] a.contains(c) <==> b.contains(c) by {
        assert(subsumed(nets, c) <==> subsumed(other, c));
        assert(nets.contains(c) <==> other.contains(c));
    }
    lemma_ascending_unique(a, b, 0);
}

/// Law: no list of networks with the same addresses is shorter than the canonical one.
pub proof fn canonical_is_minimal(a: Seq<Cidr>, nets: Seq<Cidr>)
    requires
        canonical(a),
        all_wf(nets),
        same_cover(a, nets),
    ensures
        a.len() <= nets.len(),
{
    lemma_reduced_is_minimal(a, nets);
}

/// Law: no list of networks that covers a network without another inside it is shorter than what
/// `address_exclude` gives.
pub proof fn address_exclude_is_minimal(net: Cidr, exclude: Cidr, nets: Seq<Cidr>)
    requires
        net.1 <= exclude.1 <= 32,
        network(exclude.0 as int, net.1 as int) == net.0,
        all_wf(nets),
        same_cover(excluded(net, exclude), nets),
    ensures
        excluded(net, exclude).len() <= nets.len(),
{
    let out = excluded(net, exclude);
    address_exclude_is_difference(net, exclude);
    assert forall|i: int| 0 <= i < out.len() && (#[trigger] out[i]).1 > 0 implies !out.contains(
        sibling(out[i]),
    ) by {
        let c = ancestor(exclude, net.1 + 1 + i);
        lemma_ancestor(exclude, net.1 + 1 + i);
        lemma_parent(c);
        assert(out[i] == sibling(c));
        let s = sibling(out[i]);
        if out.contains(s) {
            let k = choose|k: int| 0 <= k < out.len() && out[k] == s;
            lemma_ancestor(exclude, net.1 + 1 + k);
            lemma_parent(ancestor(exclude, net.1 + 1 + k));
            assert(out[k].1 == net.1 + 1 + k);
            assert(s.1 == out[i].1);
            assert(k == i);
            lemma_parent(out[i]);
            lemma_covers_own(out[i]);
        }
    }
    lemma_reduced_is_minimal(out, nets);
}

proof fn lemma_reduced_is_minimal(a: Seq<Cidr>, nets: Seq<Cidr>)
    requires
        is_reduced(a),
        all_wf(nets),
        same_cover(a, nets),
    ensures
        a.len() <= nets.len(),
{
    let inside = |i: int, j: int|
        0 <= j < nets.len() && forall|y: int| #[trigger] covers(nets[j], y) ==> covers(a[i], y);
    let pick = |i: int| choose|j: int| #[trigger] inside(i, j);
    assert forall|i: int| 0 <= i < a.len() implies inside(i, #[trigger] pick(i)) by {
        let c = a[i];
        assert(wf(a[i]));
        lemma_covers_own(c);
        let x = c.0 as int;
        assert(covers(a[i], x));
        assert(covered(a, x));
        assert(covered(nets, x));
        let j = choose|j: int| 0 <= j < nets.len() && covers(#[trigger] nets[j], x);
        let d = nets[j];
        assert(wf(nets[j]));
        if d.1 < c.1 {
            assert forall|y: int| #[trigger] covers(d, y) implies covered(a, y) by {
                assert(covers(nets[j], y));
                assert(covered(nets, y));
            }
            lemma_no_room(a, i, d);
        }
        lemma_nested(c, d, x);
        assert(inside(i, j));
    }
    let picks = Seq::new(a.len(), pick);
    assert forall|p: int, q: int| 0 <= p < picks.len() && 0 <= q < picks.len() && p != q implies
    picks[p] != picks[q] by {
        assert(inside(p, pick(p)));
        assert(inside(q, pick(q)));
        if picks[p] == picks[q] {
            let c = nets[picks[p]];
            assert(wf(nets[picks[p]]));
            lemma_covers_own(c);
            assert(covers(a[p], c.0 as int));
            assert(covers(a[q], c.0 as int));
        }
    }
    assert(picks.no_duplicates());
    picks.unique_seq_to_set();
    let range = vstd::set_lib::set_int_range(0, nets.len() as int);
    vstd::set_lib::lemma_int_range(0, nets.len() as int);
    assert(picks.to_set().subset_of(range)) by {
        assert forall|j: int| picks.to_set().contains(j) implies range.contains(j) by {
            let i = choose|i: int| 0 <= i < picks.len() && picks[i] == j;
            assert(inside(i, pick(i)));
        }
    }
    vstd::set_lib::lemma_len_subset(picks.to_set(), range);
}

/// The address and the prefix length that `s` spells: `<addr>/<prefix>`, IPv4 only.
pub open spec fn v4_cidr_text(s: Seq<char>) -> Result<(u32, u8), CidrError> {
    let k = text::find_from(s, '/', 0);
    if k >= s.len() {
        Err(CidrError::MissingSlash)
    } else {
        match (addr::ipv4_text(s.take(k)), text::uint(s.skip(k + 1), 255)) {
            (None, _) => Err(CidrError::InvalidAddress),
            (_, None) => Err(CidrError::InvalidPrefix),
            (Some(a), Some(p)) => if p > 32 {
                Err(CidrError::PrefixTooLong)
            } else {
                Ok((a as u32, p as u8))
            },
        }
    }
}

/// Parses an IPv4 CIDR.
pub fn parse_cidr(cidr: &str) -> (r: Result<(u32, u8), CidrError>)
    ensures
        r == v4_cidr_text(cidr@),
        r matches Ok(c) ==> c.1 <= 32,
{
    let v = text::chars_of(cidr);
    let k: usize = text::find(v.as_slice(), '/', 0);
    if k >= v.len() {
        return Err(CidrError::MissingSlash);
    }
    let head = text::copy(v.as_slice(), 0, k);
    assert(head@ =~= cidr@.take(k as int));
    let tail = text::copy(v.as_slice(), k + 1, v.len());
    assert(tail@ =~= cidr@.skip(k + 1));
    let a: u32 = match addr::parse_ipv4_chars(head.as_slice()) {
        Some(a) => a,
        None => {
            return Err(CidrError::InvalidAddress);
        },
    };
    let p: u64 = match text::parse_uint(tail.as_slice(), 255) {
        Some(p) => p,
        None => {
            return Err(CidrError::InvalidPrefix);
        },
    };
    if p > 32 {
        return Err(CidrError::PrefixTooLong);
    }
    Ok((a, p as u8))
}

/// The link-local address with the low 32 bits of another address.
pub open spec fn link_local(a: u128) -> u128 {
    (0xfe80_0000_0000_0000_0000_0000_0000_0000 + a % 0x1_0000_0000) as u128
}

/// A node's deterministic link-local address: `fe80::` with the low 32 bits of its IPv6 loopback.
pub fn link_local_from_loopback(ipv6_loopback: u128) -> (r: u128)
    ensures
        r == link_local(ipv6_loopback),
        r == 0xfe80_0000_0000_0000_0000_0000_0000_0000 + ipv6_loopback % 0x1_0000_0000,
{
    0xfe80_0000_0000_0000_0000_0000_0000_0000 + ipv6_loopback % 0x1_0000_0000
}

/// What a list collapses to has prefix lengths that fit, where its own do.
pub proof fn lemma_collapse_bounds(nets: Seq<Cidr>, out: Seq<Cidr>)
    requires
        forall|i: int| 0 <= i < nets.len() ==> (#[trigger] nets[i]).1 <= 32,
        collapses_to(nets, out),
    ensures
        forall|i: int| 0 <= i < out.len() ==> (#[trigger] out[i]).1 <= 32,
{
    let m = choose|m: Seq<Cidr>| #[trigger] is_collapse(nets, m, out);
    assert forall|i: int| 0 <= i < out.len() implies (#[trigger] out[i]).1 <= 32 by {
        assert(out.contains(out[i]));
        if m.contains(out[i]) {
            let k = choose|k: int| 0 <= k < m.len() && m[k] == out[i];
            assert(wf(m[k]));
        } else {
            let k = choose|k: int| 0 <= k < nets.len() && nets[k] == out[i];
            assert(nets[k].1 <= 32);
        }
    }
}

/// Nothing collapses to nothing.
pub proof fn lemma_collapse_empty(nets: Seq<Cidr>, out: Seq<Cidr>)
    requires
        forall|c: Cidr| !nets.contains(c),
        collapses_to(nets, out),
    ensures
        out.len() == 0,
{
    let m = choose|m: Seq<Cidr>| #[trigger] is_collapse(nets, m, out);
    if nets.len() > 0 {
        assert(nets.contains(nets[0]));
    }
    if out.len() > 0 {
        assert(out.contains(out[0]));
        assert(m.contains(out[0]));
        let k = choose|k: int| 0 <= k < m.len() && m[k] == out[0];
        assert(wf(m[k]));
        lemma_covers_own(m[k]);
        assert(covers(m[k], m[k].0 as int));
        assert(covered(m, m[k].0 as int));
        assert(network_covered(nets, m[k].0 as int));
    }
}

/// The block of a network is the network.
pub proof fn lemma_network_self(c: Cidr)
    requires
        wf(c),
    ensures
        ancestor(c, c.1 as int) == c,
{
    lemma_ancestor(c, c.1 as int);
}

/// Of two networks that share an address, one contains the other.
pub proof fn lemma_overlap_nested(a: Cidr, b: Cidr, x: int)
    requires
        wf(a),
        wf(b),
        covers(a, x),
        covers(b, x),
    ensures
        (a.1 >= b.1 && network(a.0 as int, b.1 as int) == b.0) || (b.1 >= a.1 && network(
            b.0 as int,
            a.1 as int,
        ) == a.0),
{
    if a.1 <= b.1 {
        lemma_nested(a, b, x);
    } else {
        lemma_nested(b, a, x);
    }
}

} // verus!
