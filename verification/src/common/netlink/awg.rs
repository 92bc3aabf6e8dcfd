//! What goes over AmneziaWG's own generic netlink family: the attributes of a device and of its
//! peers, as plain values.

use crate::common::addr::{IpAddr, SocketAddr};
use crate::common::keys;
use crate::common::keys::KeyError;
use crate::common::obfuscation::Obfuscation;
use vstd::prelude::*;

verus! {

/// The message types of stock WireGuard, which a header that is not obfuscated carries.
pub const REAL_H1: u32 = 1;

pub const REAL_H2: u32 = 2;

pub const REAL_H3: u32 = 3;

pub const REAL_H4: u32 = 4;

/// One route that a peer accepts traffic from and gets traffic for.
#[derive(Clone, Copy, Debug, PartialEq, Eq, Structural)]
pub struct AllowedIp {
    pub addr: IpAddr,
    pub prefix: u8,
}

/// An attribute of one peer in a request.
#[derive(Debug, PartialEq)]
pub enum PeerAttr {
    PublicKey([u8; 32]),
    Flags(u32),
    AllowedIps(Vec<AllowedIp>),
    /// A flag attribute: its presence says that header protection is on.
    AdvancedSecurity,
    Endpoint(SocketAddr),
    PersistentKeepaliveRange(u32),
}

/// An attribute of a device in a request.
#[derive(Debug, PartialEq)]
pub enum DeviceAttr {
    IfName(String),
    PrivateKey([u8; 32]),
    ListenPort(u16),
    Peers(Vec<Vec<PeerAttr>>),
    JC(u16),
    Jmin(u16),
    Jmax(u16),
    S1(u16),
    S2(u16),
    S3(u16),
    S4(u16),
    H1Range(u64),
    H2Range(u64),
    H3Range(u64),
    H4Range(u64),
    I1(String),
    I2(String),
    I3(String),
    I4(String),
    I5(String),
    HeaderProtectionKey([u8; 32]),
    ContentPaddingAddition(u32),
    RekeyAfterTime(u32),
    RekeyTimeout(u32),
    RejectAfterTime(u32),
    KeepaliveTimeout(u32),
    MaxHandshakeAttempts(u32),
    RandomTrailers(bool),
    DisableCookies(bool),
}

/// A range of header values on the wire: the upper end in the upper half, the lower end in the
/// lower half.
pub open spec fn range(lo: u32, hi: u32) -> u64 {
    (hi * 0x1_0000_0000 + lo) as u64
}

/// Packs a range of header values.
pub fn u32_range_pack(lo: u32, hi: u32) -> (r: u64)
    ensures
        r == range(lo, hi),
        r == hi * 0x1_0000_0000 + lo,
{
    hi as u64 * 0x1_0000_0000 + lo as u64
}

pub open spec fn or_u16(o: Option<u16>) -> u16 {
    match o {
        Some(v) => v,
        None => 0,
    }
}

pub open spec fn header(o: Option<u32>, stock: u32) -> u64 {
    match o {
        Some(v) => range(v, v),
        None => range(stock, stock),
    }
}

pub open spec fn maybe<T>(o: Option<T>, f: spec_fn(T) -> DeviceAttr) -> Seq<DeviceAttr> {
    match o {
        Some(v) => seq![f(v)],
        None => Seq::empty(),
    }
}

/// Junk and header attributes, one for each knob: an unset knob is sent as the kernel module's own
/// default, since an omitted attribute would leave an earlier value in place.
pub open spec fn junk_attrs(o: Obfuscation) -> Seq<DeviceAttr> {
    seq![
        DeviceAttr::JC(or_u16(o.jc)),
        DeviceAttr::Jmin(or_u16(o.jmin)),
        DeviceAttr::Jmax(or_u16(o.jmax)),
        DeviceAttr::S1(or_u16(o.s1)),
        DeviceAttr::S2(or_u16(o.s2)),
        DeviceAttr::S3(or_u16(o.s3)),
        DeviceAttr::S4(or_u16(o.s4)),
        DeviceAttr::H1Range(header(o.h1, REAL_H1)),
        DeviceAttr::H2Range(header(o.h2, REAL_H2)),
        DeviceAttr::H3Range(header(o.h3, REAL_H3)),
        DeviceAttr::H4Range(header(o.h4, REAL_H4)),
    ]
}

/// Decoy attributes, for the knobs that are set.
pub open spec fn decoy_attrs(o: Obfuscation) -> Seq<DeviceAttr> {
    maybe(o.i1, |v: String| DeviceAttr::I1(v))
        + maybe(o.i2, |v: String| DeviceAttr::I2(v))
        + maybe(o.i3, |v: String| DeviceAttr::I3(v))
        + maybe(o.i4, |v: String| DeviceAttr::I4(v))
        + maybe(o.i5, |v: String| DeviceAttr::I5(v))
}

/// The header protection key, where one is set.
pub open spec fn protection_attrs(o: Obfuscation) -> Seq<DeviceAttr> {
    match o.header_protection_key {
        Some(k) => seq![DeviceAttr::HeaderProtectionKey(keys::key_of(k@)->Ok_0)],
        None => Seq::empty(),
    }
}

/// Timing attributes, for the knobs that are set.
pub open spec fn timing_attrs(o: Obfuscation) -> Seq<DeviceAttr> {
    maybe(o.content_padding_addition, |v: u32| DeviceAttr::ContentPaddingAddition(v))
        + maybe(o.rekey_after_time, |v: u32| DeviceAttr::RekeyAfterTime(v))
        + maybe(o.rekey_timeout, |v: u32| DeviceAttr::RekeyTimeout(v))
        + maybe(o.reject_after_time, |v: u32| DeviceAttr::RejectAfterTime(v))
        + maybe(o.keepalive_timeout, |v: u32| DeviceAttr::KeepaliveTimeout(v))
        + maybe(o.max_handshake_attempts, |v: u32| DeviceAttr::MaxHandshakeAttempts(v))
}

/// The two switches, sent in any case: an omitted one would stay as it was.
pub open spec fn switch_attrs(o: Obfuscation) -> Seq<DeviceAttr> {
    seq![
        DeviceAttr::RandomTrailers(o.random_trailers == Some(true)),
        DeviceAttr::DisableCookies(o.disable_cookies == Some(true)),
    ]
}

/// Everything that obfuscation adds to a device request.
pub open spec fn obfuscation_attrs(o: Obfuscation) -> Seq<DeviceAttr> {
    junk_attrs(o) + decoy_attrs(o) + protection_attrs(o) + timing_attrs(o) + switch_attrs(o)
}

fn unwrap_u16(o: Option<u16>) -> (r: u16)
    ensures
        r == or_u16(o),
{
    match o {
        Some(v) => v,
        None => 0,
    }
}

fn packed_header(o: Option<u32>, stock: u32) -> (r: u64)
    ensures
        r == header(o, stock),
{
    let v: u32 = match o {
        Some(v) => v,
        None => stock,
    };
    u32_range_pack(v, v)
}

fn push_junk(attrs: &mut Vec<DeviceAttr>, o: &Obfuscation)
    ensures
        final(attrs)@ == old(attrs)@ + junk_attrs(*o),
{
    let ghost start = attrs@;
    attrs.push(DeviceAttr::JC(unwrap_u16(o.jc)));
    attrs.push(DeviceAttr::Jmin(unwrap_u16(o.jmin)));
    attrs.push(DeviceAttr::Jmax(unwrap_u16(o.jmax)));
    attrs.push(DeviceAttr::S1(unwrap_u16(o.s1)));
    attrs.push(DeviceAttr::S2(unwrap_u16(o.s2)));
    attrs.push(DeviceAttr::S3(unwrap_u16(o.s3)));
    attrs.push(DeviceAttr::S4(unwrap_u16(o.s4)));
    attrs.push(DeviceAttr::H1Range(packed_header(o.h1, REAL_H1)));
    attrs.push(DeviceAttr::H2Range(packed_header(o.h2, REAL_H2)));
    attrs.push(DeviceAttr::H3Range(packed_header(o.h3, REAL_H3)));
    attrs.push(DeviceAttr::H4Range(packed_header(o.h4, REAL_H4)));
    assert(attrs@ =~= start + junk_attrs(*o));
}

fn push_decoys(attrs: &mut Vec<DeviceAttr>, o: &Obfuscation)
    ensures
        final(attrs)@ == old(attrs)@ + decoy_attrs(*o),
{
    let ghost start = attrs@;
    if let Some(v) = &o.i1 {
        attrs.push(DeviceAttr::I1(v.clone()));
    }
    let ghost p0 = maybe(o.i1, |v: String| DeviceAttr::I1(v));
    assert(attrs@ =~= start + p0);
    if let Some(v) = &o.i2 {
        attrs.push(DeviceAttr::I2(v.clone()));
    }
    let ghost p1 = p0 + maybe(o.i2, |v: String| DeviceAttr::I2(v));
    assert(attrs@ =~= start + p1);
    if let Some(v) = &o.i3 {
        attrs.push(DeviceAttr::I3(v.clone()));
    }
    let ghost p2 = p1 + maybe(o.i3, |v: String| DeviceAttr::I3(v));
    assert(attrs@ =~= start + p2);
    if let Some(v) = &o.i4 {
        attrs.push(DeviceAttr::I4(v.clone()));
    }
    let ghost p3 = p2 + maybe(o.i4, |v: String| DeviceAttr::I4(v));
    assert(attrs@ =~= start + p3);
    if let Some(v) = &o.i5 {
        attrs.push(DeviceAttr::I5(v.clone()));
    }
    let ghost p4 = p3 + maybe(o.i5, |v: String| DeviceAttr::I5(v));
    assert(attrs@ =~= start + p4);
}

fn push_timing(attrs: &mut Vec<DeviceAttr>, o: &Obfuscation)
    ensures
        final(attrs)@ == old(attrs)@ + timing_attrs(*o),
{
    let ghost start = attrs@;
    if let Some(v) = &o.content_padding_addition {
        attrs.push(DeviceAttr::ContentPaddingAddition(*v));
    }
    let ghost p0 = maybe(o.content_padding_addition, |v: u32| DeviceAttr::ContentPaddingAddition(v));
    assert(attrs@ =~= start + p0);
    if let Some(v) = &o.rekey_after_time {
        attrs.push(DeviceAttr::RekeyAfterTime(*v));
    }
    let ghost p1 = p0 + maybe(o.rekey_after_time, |v: u32| DeviceAttr::RekeyAfterTime(v));
    assert(attrs@ =~= start + p1);
    if let Some(v) = &o.rekey_timeout {
        attrs.push(DeviceAttr::RekeyTimeout(*v));
    }
    let ghost p2 = p1 + maybe(o.rekey_timeout, |v: u32| DeviceAttr::RekeyTimeout(v));
    assert(attrs@ =~= start + p2);
    if let Some(v) = &o.reject_after_time {
        attrs.push(DeviceAttr::RejectAfterTime(*v));
    }
    let ghost p3 = p2 + maybe(o.reject_after_time, |v: u32| DeviceAttr::RejectAfterTime(v));
    assert(attrs@ =~= start + p3);
    if let Some(v) = &o.keepalive_timeout {
        attrs.push(DeviceAttr::KeepaliveTimeout(*v));
    }
    let ghost p4 = p3 + maybe(o.keepalive_timeout, |v: u32| DeviceAttr::KeepaliveTimeout(v));
    assert(attrs@ =~= start + p4);
    if let Some(v) = &o.max_handshake_attempts {
        attrs.push(DeviceAttr::MaxHandshakeAttempts(*v));
    }
    let ghost p5 = p4 + maybe(o.max_handshake_attempts, |v: u32| DeviceAttr::MaxHandshakeAttempts(v));
    assert(attrs@ =~= start + p5);
}

fn is_on(o: Option<bool>) -> (r: bool)
    ensures
        r == (o == Some(true)),
{
    match o {
        Some(v) => v,
        None => false,
    }
}

/// Appends every device-level obfuscation attribute. Fails only where the header protection key
/// is not a key; the attributes ahead of it are then there, and nothing behind it is.
pub fn push_obfuscation_attrs(attrs: &mut Vec<DeviceAttr>, o: &Obfuscation) -> (r: Result<
    (),
    KeyError,
>)
    ensures
        match r {
            Ok(_) => (o.header_protection_key matches Some(k) ==> keys::key_of(k@) is Ok)
                && final(attrs)@ == old(attrs)@ + obfuscation_attrs(*o),
            Err(e) => o.header_protection_key is Some && keys::key_of(o.header_protection_key->0@)
                == Err::<[u8; 32], KeyError>(e) && final(attrs)@ == old(attrs)@ + junk_attrs(*o)
                + decoy_attrs(*o),
        },
{
    let ghost start = attrs@;
    push_junk(attrs, o);
    push_decoys(attrs, o);
    if let Some(key) = &o.header_protection_key {
        match keys::decode_key(key.as_str()) {
            Ok(k) => attrs.push(DeviceAttr::HeaderProtectionKey(k)),
            Err(e) => {
                return Err(e);
            },
        }
    }
    assert(attrs@ =~= start + junk_attrs(*o) + decoy_attrs(*o) + protection_attrs(*o));
    push_timing(attrs, o);
    attrs.push(DeviceAttr::RandomTrailers(is_on(o.random_trailers)));
    attrs.push(DeviceAttr::DisableCookies(is_on(o.disable_cookies)));
    assert(attrs@ =~= start + obfuscation_attrs(*o));
    Ok(())
}

pub open spec fn is_switch(a: DeviceAttr) -> bool {
    a is RandomTrailers || a is DisableCookies
}

/// A request for a module that refused the two switches: the same attributes without them, in
/// the same order.
pub fn without_switches(attrs: Vec<DeviceAttr>) -> (out: Vec<DeviceAttr>)
    ensures
        out@ == attrs@.filter(|a: DeviceAttr| !is_switch(a)),
{
    let ghost all = attrs@;
    let ghost keep = |a: DeviceAttr| !is_switch(a);
    let mut rest = attrs;
    let mut out: Vec<DeviceAttr> = Vec::new();
    let n: usize = rest.len();
    let mut i: usize = 0;
    let mut reversed: Vec<DeviceAttr> = Vec::new();
    while i < n
        invariant
            i <= n == all.len(),
            rest@ == all.take(n - i),
            reversed@.len() == i,
            forall|k: int| 0 <= k < i ==> #[trigger] reversed@[k] == all[n - 1 - k],
        decreases n - i,
    {
        match rest.pop() {
            Some(a) => reversed.push(a),
            None => {},
        }
        assert(rest@ =~= all.take(n - i - 1));
        i += 1;
    }
    let mut j: usize = 0;
    while j < n
        invariant
            j <= n == all.len(),
            reversed@.len() == n - j,
            keep == (|a: DeviceAttr| !is_switch(a)),
            forall|k: int| 0 <= k < n - j ==> #[trigger] reversed@[k] == all[n - 1 - k],
            out@ == all.take(j as int).filter(keep),
        decreases n - j,
    {
        let ghost a0 = all[j as int];
        proof {
            reveal(Seq::filter);
            assert(all.take(j + 1).drop_last() =~= all.take(j as int));
        }
        match reversed.pop() {
            Some(a) => {
                let on = match &a {
                    DeviceAttr::RandomTrailers(_) => true,
                    DeviceAttr::DisableCookies(_) => true,
                    _ => false,
                };
                if !on {
                    out.push(a);
                }
            },
            None => {},
        }
        j += 1;
    }
    assert(all.take(n as int) =~= all);
    out
}

} // verus!
