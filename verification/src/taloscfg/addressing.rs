//! A node's addresses: a network's own bits, with the node's identity in the host bits.

use vstd::arithmetic::div_mod::*;
use vstd::arithmetic::mul::*;
use vstd::arithmetic::power2::*;
use vstd::prelude::*;

verus! {

/// The address in the network of `network` whose host bits, the last `host_bits`, are those of
/// `id`.
pub open spec fn with_host(network: int, host_bits: int, id: int) -> int {
    network - network % (pow2(host_bits as nat) as int) + id % (pow2(host_bits as nat) as int)
}

/// Two to the power of `k`.
fn power(k: u32) -> (r: u128)
    requires
        k < 128,
    ensures
        r == pow2(k as nat),
{
    let mut r: u128 = 1;
    let mut i: u32 = 0;
    proof {
        lemma2_to64();
    }
    while i < k
        invariant
            i <= k < 128,
            r == pow2(i as nat),
        decreases k - i,
    {
        proof {
            lemma_pow2_unfold((i + 1) as nat);
            lemma2_to64();
            lemma2_to64_rest();
            lemma_pow2_adds(64, 63);
            if i < 127 - 1 {
                lemma_pow2_strictly_increases((i + 1) as nat, 127);
            }
        }
        r = r * 2;
        i += 1;
    }
    r
}

/// A network's bits and host bits that fit below it make an address that fits as well.
proof fn lemma_fits(network: int, host_bits: nat, bits: nat, id: int)
    requires
        host_bits <= bits,
        0 <= network < pow2(bits),
    ensures
        0 <= with_host(network, host_bits as int, id) < pow2(bits),
        network % (pow2(host_bits) as int) >= 0,
        network - network % (pow2(host_bits) as int) >= 0,
{
    let size = pow2(host_bits) as int;
    lemma_pow2_pos(host_bits);
    lemma_pow2_pos((bits - host_bits) as nat);
    lemma_pow2_adds(host_bits, (bits - host_bits) as nat);
    let m = pow2((bits - host_bits) as nat) as int;
    lemma_fundamental_div_mod(network, size);
    lemma_mod_bound(network, size);
    lemma_mod_bound(id, size);
    let q = network / size;
    assert(q < m) by (nonlinear_arith)
        requires
            size > 0,
            network < size * m,
            network == size * q + network % size,
            network % size >= 0,
    ;
    assert(size * q + size <= size * m) by (nonlinear_arith)
        requires
            size > 0,
            q < m,
    ;
    assert(q >= 0) by (nonlinear_arith)
        requires
            network >= 0,
            q == network / size,
            size > 0,
    ;
    assert(size * q >= 0) by (nonlinear_arith)
        requires
            size > 0,
            q >= 0,
    ;
}

/// The network's bits with the low bits of `node_id` in the host portion.
pub fn ipv4_loopback(network: u32, prefix_len: u8, node_id: u32) -> (r: u32)
    requires
        prefix_len <= 32,
    ensures
        r == with_host(network as int, 32 - prefix_len, node_id as int),
{
    let size: u128 = power(32 - prefix_len as u32);
    proof {
        lemma2_to64();
        lemma_pow2_pos((32 - prefix_len) as nat);
        lemma_fits(network as int, (32 - prefix_len) as nat, 32, node_id as int);
    }
    let net: u128 = network as u128;
    let id: u128 = node_id as u128;
    (net - net % size + id % size) as u32
}

/// The network's bits with the 32 bits of `node_id` at the end of the host portion.
pub fn ipv6_loopback(network: u128, prefix_len: u8, node_id: u32) -> (r: u128)
    requires
        prefix_len <= 128,
    ensures
        r == with_host(network as int, 128 - prefix_len, node_id as int),
{
    proof {
        lemma2_to64();
        lemma2_to64_rest();
        lemma_pow2_adds(64, 64);
        lemma_pow2_pos((128 - prefix_len) as nat);
        lemma_fits(network as int, (128 - prefix_len) as nat, 128, node_id as int);
    }
    if prefix_len == 0 {
        proof {
            lemma_small_mod(network as nat, pow2(128));
            lemma_small_mod(node_id as nat, pow2(128));
        }
        return node_id as u128;
    }
    let size: u128 = power(128 - prefix_len as u32);
    let id: u128 = node_id as u128;
    network - network % size + id % size
}

pub proof fn lemma_ipv6_fits(network: u128, prefix_len: u8, id: u32)
    requires
        prefix_len <= 128,
    ensures
        0 <= with_host(network as int, 128 - prefix_len, id as int) <= u128::MAX,
{
    lemma2_to64();
    lemma2_to64_rest();
    lemma_pow2_adds(64, 64);
    lemma_fits(network as int, (128 - prefix_len) as nat, 128, id as int);
}

/// Law: a derived address stays in the network it was derived from.
pub proof fn derived_address_is_in_network(network: int, host_bits: int, id: int)
    requires
        0 <= host_bits,
    ensures
        ({
            let size = pow2(host_bits as nat) as int;
            let r = with_host(network, host_bits, id);
            r - r % size == network - network % size && r % size == id % size
        }),
{
    let size = pow2(host_bits as nat) as int;
    lemma_pow2_pos(host_bits as nat);
    lemma_fundamental_div_mod(network, size);
    lemma_mod_bound(id, size);
    let q = network / size;
    let r = with_host(network, host_bits, id);
    assert(r == q * size + id % size) by {
        lemma_mul_is_commutative(q, size);
    }
    lemma_fundamental_div_mod_converse(r, size, q, id % size);
}

/// Law: where the host portion holds a whole identity, nodes with distinct identities get distinct
/// addresses.
pub proof fn distinct_nodes_have_distinct_loopbacks(
    network: u128,
    prefix_len: u8,
    a: u32,
    b: u32,
)
    requires
        prefix_len <= 96,
        a != b,
    ensures
        with_host(network as int, 128 - prefix_len, a as int) != with_host(
            network as int,
            128 - prefix_len,
            b as int,
        ),
{
    lemma2_to64();
    if prefix_len < 96 {
        lemma_pow2_strictly_increases(32, (128 - prefix_len) as nat);
    }
    lemma_small_mod(a as nat, pow2((128 - prefix_len) as nat));
    lemma_small_mod(b as nat, pow2((128 - prefix_len) as nat));
}

} // verus!
