//! What a device request says of each setting.

use crate::awg::config::InterfaceEntry;
use crate::awg::interface;
use crate::common::keys;
use crate::common::netlink::awg;
use crate::common::netlink::awg::DeviceAttr;
use crate::common::obfuscation::Obfuscation;
use vstd::prelude::*;

verus! {

/// What stands in two lists put together.
proof fn lemma_either(a: Seq<DeviceAttr>, b: Seq<DeviceAttr>, x: DeviceAttr)
    ensures
        (a + b).contains(x) <==> a.contains(x) || b.contains(x),
{
    let s = a + b;
    if a.contains(x) {
        let k = choose|k: int| 0 <= k < a.len() && a[k] == x;
        assert(s[k] == x);
    }
    if b.contains(x) {
        let k = choose|k: int| 0 <= k < b.len() && b[k] == x;
        assert(s[a.len() + k] == x);
    }
    if s.contains(x) {
        let k = choose|k: int| 0 <= k < s.len() && s[k] == x;
        if k < a.len() {
            assert(a[k] == x);
        } else {
            assert(b[k - a.len()] == x);
        }
    }
}

/// What stands in a list of one or none.
proof fn lemma_maybe<T>(o: Option<T>, f: spec_fn(T) -> DeviceAttr, x: DeviceAttr)
    ensures
        awg::maybe(o, f).contains(x) <==> o is Some && x == f(o->0),
{
    if o is Some {
        assert(awg::maybe(o, f)[0] == f(o->0));
    }
}

/// What stands among the junk and header attributes.
proof fn lemma_junk(o: Obfuscation, x: DeviceAttr)
    ensures
        awg::junk_attrs(o).contains(x) <==> (false
            || x == DeviceAttr::JC(awg::or_u16(o.jc))
            || x == DeviceAttr::Jmin(awg::or_u16(o.jmin))
            || x == DeviceAttr::Jmax(awg::or_u16(o.jmax))
            || x == DeviceAttr::S1(awg::or_u16(o.s1))
            || x == DeviceAttr::S2(awg::or_u16(o.s2))
            || x == DeviceAttr::S3(awg::or_u16(o.s3))
            || x == DeviceAttr::S4(awg::or_u16(o.s4))
            || x == DeviceAttr::H1Range(awg::header(o.h1, 1))
            || x == DeviceAttr::H2Range(awg::header(o.h2, 2))
            || x == DeviceAttr::H3Range(awg::header(o.h3, 3))
            || x == DeviceAttr::H4Range(awg::header(o.h4, 4))
        ),
{
    let s = awg::junk_attrs(o);
    assert(s[0] == DeviceAttr::JC(awg::or_u16(o.jc)));
    assert(s[1] == DeviceAttr::Jmin(awg::or_u16(o.jmin)));
    assert(s[2] == DeviceAttr::Jmax(awg::or_u16(o.jmax)));
    assert(s[3] == DeviceAttr::S1(awg::or_u16(o.s1)));
    assert(s[4] == DeviceAttr::S2(awg::or_u16(o.s2)));
    assert(s[5] == DeviceAttr::S3(awg::or_u16(o.s3)));
    assert(s[6] == DeviceAttr::S4(awg::or_u16(o.s4)));
    assert(s[7] == DeviceAttr::H1Range(awg::header(o.h1, 1)));
    assert(s[8] == DeviceAttr::H2Range(awg::header(o.h2, 2)));
    assert(s[9] == DeviceAttr::H3Range(awg::header(o.h3, 3)));
    assert(s[10] == DeviceAttr::H4Range(awg::header(o.h4, 4)));
    if s.contains(x) {
        let k = choose|k: int| 0 <= k < s.len() && s[k] == x;
        assert(k == 0 || k == 1 || k == 2 || k == 3 || k == 4 || k == 5 || k == 6 || k == 7 || k == 8 || k == 9 || k == 10);
    }
}

/// What stands among the decoy attributes.
proof fn lemma_decoys(o: Obfuscation, x: DeviceAttr)
    ensures
        awg::decoy_attrs(o).contains(x) <==> (false
            || (o.i1 is Some && x == DeviceAttr::I1(o.i1->0))
            || (o.i2 is Some && x == DeviceAttr::I2(o.i2->0))
            || (o.i3 is Some && x == DeviceAttr::I3(o.i3->0))
            || (o.i4 is Some && x == DeviceAttr::I4(o.i4->0))
            || (o.i5 is Some && x == DeviceAttr::I5(o.i5->0))
        ),
{
    let m0 = awg::maybe(o.i1, |v: String| DeviceAttr::I1(v));
    lemma_maybe(o.i1, |v: String| DeviceAttr::I1(v), x);
    let m1 = awg::maybe(o.i2, |v: String| DeviceAttr::I2(v));
    lemma_maybe(o.i2, |v: String| DeviceAttr::I2(v), x);
    let m2 = awg::maybe(o.i3, |v: String| DeviceAttr::I3(v));
    lemma_maybe(o.i3, |v: String| DeviceAttr::I3(v), x);
    let m3 = awg::maybe(o.i4, |v: String| DeviceAttr::I4(v));
    lemma_maybe(o.i4, |v: String| DeviceAttr::I4(v), x);
    let m4 = awg::maybe(o.i5, |v: String| DeviceAttr::I5(v));
    lemma_maybe(o.i5, |v: String| DeviceAttr::I5(v), x);
    lemma_either(m0, m1, x);
    lemma_either(m0 + m1, m2, x);
    lemma_either(m0 + m1 + m2, m3, x);
    lemma_either(m0 + m1 + m2 + m3, m4, x);
}

/// What stands among the timing attributes.
proof fn lemma_timing(o: Obfuscation, x: DeviceAttr)
    ensures
        awg::timing_attrs(o).contains(x) <==> (false
            || (o.content_padding_addition is Some && x == DeviceAttr::ContentPaddingAddition(o.content_padding_addition->0))
            || (o.rekey_after_time is Some && x == DeviceAttr::RekeyAfterTime(o.rekey_after_time->0))
            || (o.rekey_timeout is Some && x == DeviceAttr::RekeyTimeout(o.rekey_timeout->0))
            || (o.reject_after_time is Some && x == DeviceAttr::RejectAfterTime(o.reject_after_time->0))
            || (o.keepalive_timeout is Some && x == DeviceAttr::KeepaliveTimeout(o.keepalive_timeout->0))
            || (o.max_handshake_attempts is Some && x == DeviceAttr::MaxHandshakeAttempts(o.max_handshake_attempts->0))
        ),
{
    let m0 = awg::maybe(o.content_padding_addition, |v: u32| DeviceAttr::ContentPaddingAddition(v));
    lemma_maybe(o.content_padding_addition, |v: u32| DeviceAttr::ContentPaddingAddition(v), x);
    let m1 = awg::maybe(o.rekey_after_time, |v: u32| DeviceAttr::RekeyAfterTime(v));
    lemma_maybe(o.rekey_after_time, |v: u32| DeviceAttr::RekeyAfterTime(v), x);
    let m2 = awg::maybe(o.rekey_timeout, |v: u32| DeviceAttr::RekeyTimeout(v));
    lemma_maybe(o.rekey_timeout, |v: u32| DeviceAttr::RekeyTimeout(v), x);
    let m3 = awg::maybe(o.reject_after_time, |v: u32| DeviceAttr::RejectAfterTime(v));
    lemma_maybe(o.reject_after_time, |v: u32| DeviceAttr::RejectAfterTime(v), x);
    let m4 = awg::maybe(o.keepalive_timeout, |v: u32| DeviceAttr::KeepaliveTimeout(v));
    lemma_maybe(o.keepalive_timeout, |v: u32| DeviceAttr::KeepaliveTimeout(v), x);
    let m5 = awg::maybe(o.max_handshake_attempts, |v: u32| DeviceAttr::MaxHandshakeAttempts(v));
    lemma_maybe(o.max_handshake_attempts, |v: u32| DeviceAttr::MaxHandshakeAttempts(v), x);
    lemma_either(m0, m1, x);
    lemma_either(m0 + m1, m2, x);
    lemma_either(m0 + m1 + m2, m3, x);
    lemma_either(m0 + m1 + m2 + m3, m4, x);
    lemma_either(m0 + m1 + m2 + m3 + m4, m5, x);
}

/// What stands in a device request.
proof fn lemma_request(iface: InterfaceEntry, x: DeviceAttr)
    ensures
        interface::identity(iface).contains(x) <==> (x == DeviceAttr::IfName(iface.name) || x
            == DeviceAttr::PrivateKey(keys::key_of(iface.private_key@)->Ok_0) || x
            == DeviceAttr::ListenPort(iface.listen_port) || awg::junk_attrs(
            iface.obfuscation,
        ).contains(x) || awg::decoy_attrs(iface.obfuscation).contains(x) || (
        iface.obfuscation.header_protection_key is Some && x == DeviceAttr::HeaderProtectionKey(
            keys::key_of(iface.obfuscation.header_protection_key->0@)->Ok_0,
        )) || awg::timing_attrs(iface.obfuscation).contains(x) || x == DeviceAttr::RandomTrailers(
            iface.obfuscation.random_trailers == Some(true),
        ) || x == DeviceAttr::DisableCookies(iface.obfuscation.disable_cookies == Some(true))),
{
    let o = iface.obfuscation;
    let head = seq![
        DeviceAttr::IfName(iface.name),
        DeviceAttr::PrivateKey(keys::key_of(iface.private_key@)->Ok_0),
        DeviceAttr::ListenPort(iface.listen_port),
    ];
    assert(head.contains(x) <==> x == head[0] || x == head[1] || x == head[2]) by {
        if head.contains(x) {
            let k = choose|k: int| 0 <= k < head.len() && head[k] == x;
            assert(k == 0 || k == 1 || k == 2);
        }
    }
    let p = awg::protection_attrs(o);
    assert(p.contains(x) <==> o.header_protection_key is Some && x
        == DeviceAttr::HeaderProtectionKey(
        keys::key_of(o.header_protection_key->0@)->Ok_0,
    )) by {
        if o.header_protection_key is Some {
            assert(p[0] == DeviceAttr::HeaderProtectionKey(
                keys::key_of(o.header_protection_key->0@)->Ok_0,
            ));
        }
    }
    let w = awg::switch_attrs(o);
    assert(w.contains(x) <==> x == w[0] || x == w[1]) by {
        if w.contains(x) {
            let k = choose|k: int| 0 <= k < w.len() && w[k] == x;
            assert(k == 0 || k == 1);
        }
    }
    let j = awg::junk_attrs(o);
    let d = awg::decoy_attrs(o);
    let t = awg::timing_attrs(o);
    lemma_either(j, d, x);
    lemma_either(j + d, p, x);
    lemma_either(j + d + p, t, x);
    lemma_either(j + d + p + t, w, x);
    lemma_either(head, awg::obfuscation_attrs(o), x);
}

/// Law: a device request carries each junk setting under its own name, and zero for one that is
/// unset, so that nothing stays from an earlier request.
pub proof fn junk_settings_reach_the_device(iface: InterfaceEntry, n: u16)
    ensures
        ({
            let r = interface::identity(iface);
            let o = iface.obfuscation;
            &&& r.contains(DeviceAttr::JC(n)) <==> n == (if o.jc is Some {
                o.jc->0
            } else {
                0
            })
            &&& r.contains(DeviceAttr::Jmin(n)) <==> n == (if o.jmin is Some {
                o.jmin->0
            } else {
                0
            })
            &&& r.contains(DeviceAttr::Jmax(n)) <==> n == (if o.jmax is Some {
                o.jmax->0
            } else {
                0
            })
            &&& r.contains(DeviceAttr::S1(n)) <==> n == (if o.s1 is Some {
                o.s1->0
            } else {
                0
            })
            &&& r.contains(DeviceAttr::S2(n)) <==> n == (if o.s2 is Some {
                o.s2->0
            } else {
                0
            })
            &&& r.contains(DeviceAttr::S3(n)) <==> n == (if o.s3 is Some {
                o.s3->0
            } else {
                0
            })
            &&& r.contains(DeviceAttr::S4(n)) <==> n == (if o.s4 is Some {
                o.s4->0
            } else {
                0
            })
        }),
{
    let o = iface.obfuscation;
    lemma_request(iface, DeviceAttr::JC(n));
    lemma_junk(o, DeviceAttr::JC(n));
    lemma_decoys(o, DeviceAttr::JC(n));
    lemma_timing(o, DeviceAttr::JC(n));
    lemma_request(iface, DeviceAttr::Jmin(n));
    lemma_junk(o, DeviceAttr::Jmin(n));
    lemma_decoys(o, DeviceAttr::Jmin(n));
    lemma_timing(o, DeviceAttr::Jmin(n));
    lemma_request(iface, DeviceAttr::Jmax(n));
    lemma_junk(o, DeviceAttr::Jmax(n));
    lemma_decoys(o, DeviceAttr::Jmax(n));
    lemma_timing(o, DeviceAttr::Jmax(n));
    lemma_request(iface, DeviceAttr::S1(n));
    lemma_junk(o, DeviceAttr::S1(n));
    lemma_decoys(o, DeviceAttr::S1(n));
    lemma_timing(o, DeviceAttr::S1(n));
    lemma_request(iface, DeviceAttr::S2(n));
    lemma_junk(o, DeviceAttr::S2(n));
    lemma_decoys(o, DeviceAttr::S2(n));
    lemma_timing(o, DeviceAttr::S2(n));
    lemma_request(iface, DeviceAttr::S3(n));
    lemma_junk(o, DeviceAttr::S3(n));
    lemma_decoys(o, DeviceAttr::S3(n));
    lemma_timing(o, DeviceAttr::S3(n));
    lemma_request(iface, DeviceAttr::S4(n));
    lemma_junk(o, DeviceAttr::S4(n));
    lemma_decoys(o, DeviceAttr::S4(n));
    lemma_timing(o, DeviceAttr::S4(n));
}

/// Law: a device request carries each header setting under its own name, as a range of one value, and
/// the value of plain WireGuard, which numbers its headers from one, for one that is unset.
pub proof fn header_settings_reach_the_device(iface: InterfaceEntry, n: u64)
    ensures
        ({
            let r = interface::identity(iface);
            let o = iface.obfuscation;
            &&& r.contains(DeviceAttr::H1Range(n)) <==> n == (if o.h1 is Some {
                o.h1->0 * 0x1_0000_0001
            } else {
                1int * 0x1_0000_0001
            })
            &&& r.contains(DeviceAttr::H2Range(n)) <==> n == (if o.h2 is Some {
                o.h2->0 * 0x1_0000_0001
            } else {
                2int * 0x1_0000_0001
            })
            &&& r.contains(DeviceAttr::H3Range(n)) <==> n == (if o.h3 is Some {
                o.h3->0 * 0x1_0000_0001
            } else {
                3int * 0x1_0000_0001
            })
            &&& r.contains(DeviceAttr::H4Range(n)) <==> n == (if o.h4 is Some {
                o.h4->0 * 0x1_0000_0001
            } else {
                4int * 0x1_0000_0001
            })
        }),
{
    let o = iface.obfuscation;
    lemma_request(iface, DeviceAttr::H1Range(n));
    lemma_junk(o, DeviceAttr::H1Range(n));
    lemma_decoys(o, DeviceAttr::H1Range(n));
    lemma_timing(o, DeviceAttr::H1Range(n));
    lemma_request(iface, DeviceAttr::H2Range(n));
    lemma_junk(o, DeviceAttr::H2Range(n));
    lemma_decoys(o, DeviceAttr::H2Range(n));
    lemma_timing(o, DeviceAttr::H2Range(n));
    lemma_request(iface, DeviceAttr::H3Range(n));
    lemma_junk(o, DeviceAttr::H3Range(n));
    lemma_decoys(o, DeviceAttr::H3Range(n));
    lemma_timing(o, DeviceAttr::H3Range(n));
    lemma_request(iface, DeviceAttr::H4Range(n));
    lemma_junk(o, DeviceAttr::H4Range(n));
    lemma_decoys(o, DeviceAttr::H4Range(n));
    lemma_timing(o, DeviceAttr::H4Range(n));
}

/// Law: a device request carries each timing setting that is set, under its own name, and no other.
pub proof fn timing_settings_reach_the_device(iface: InterfaceEntry, n: u32)
    ensures
        ({
            let r = interface::identity(iface);
            let o = iface.obfuscation;
            &&& r.contains(DeviceAttr::ContentPaddingAddition(n)) <==> o.content_padding_addition == Some(n)
            &&& r.contains(DeviceAttr::RekeyAfterTime(n)) <==> o.rekey_after_time == Some(n)
            &&& r.contains(DeviceAttr::RekeyTimeout(n)) <==> o.rekey_timeout == Some(n)
            &&& r.contains(DeviceAttr::RejectAfterTime(n)) <==> o.reject_after_time == Some(n)
            &&& r.contains(DeviceAttr::KeepaliveTimeout(n)) <==> o.keepalive_timeout == Some(n)
            &&& r.contains(DeviceAttr::MaxHandshakeAttempts(n)) <==> o.max_handshake_attempts == Some(n)
        }),
{
    let o = iface.obfuscation;
    lemma_request(iface, DeviceAttr::ContentPaddingAddition(n));
    lemma_junk(o, DeviceAttr::ContentPaddingAddition(n));
    lemma_decoys(o, DeviceAttr::ContentPaddingAddition(n));
    lemma_timing(o, DeviceAttr::ContentPaddingAddition(n));
    lemma_request(iface, DeviceAttr::RekeyAfterTime(n));
    lemma_junk(o, DeviceAttr::RekeyAfterTime(n));
    lemma_decoys(o, DeviceAttr::RekeyAfterTime(n));
    lemma_timing(o, DeviceAttr::RekeyAfterTime(n));
    lemma_request(iface, DeviceAttr::RekeyTimeout(n));
    lemma_junk(o, DeviceAttr::RekeyTimeout(n));
    lemma_decoys(o, DeviceAttr::RekeyTimeout(n));
    lemma_timing(o, DeviceAttr::RekeyTimeout(n));
    lemma_request(iface, DeviceAttr::RejectAfterTime(n));
    lemma_junk(o, DeviceAttr::RejectAfterTime(n));
    lemma_decoys(o, DeviceAttr::RejectAfterTime(n));
    lemma_timing(o, DeviceAttr::RejectAfterTime(n));
    lemma_request(iface, DeviceAttr::KeepaliveTimeout(n));
    lemma_junk(o, DeviceAttr::KeepaliveTimeout(n));
    lemma_decoys(o, DeviceAttr::KeepaliveTimeout(n));
    lemma_timing(o, DeviceAttr::KeepaliveTimeout(n));
    lemma_request(iface, DeviceAttr::MaxHandshakeAttempts(n));
    lemma_junk(o, DeviceAttr::MaxHandshakeAttempts(n));
    lemma_decoys(o, DeviceAttr::MaxHandshakeAttempts(n));
    lemma_timing(o, DeviceAttr::MaxHandshakeAttempts(n));
}

/// Law: a device request carries each decoy that is set, under its own name, and no other.
pub proof fn decoys_reach_the_device(iface: InterfaceEntry, s: String)
    ensures
        ({
            let r = interface::identity(iface);
            let o = iface.obfuscation;
            &&& r.contains(DeviceAttr::I1(s)) <==> o.i1 == Some(s)
            &&& r.contains(DeviceAttr::I2(s)) <==> o.i2 == Some(s)
            &&& r.contains(DeviceAttr::I3(s)) <==> o.i3 == Some(s)
            &&& r.contains(DeviceAttr::I4(s)) <==> o.i4 == Some(s)
            &&& r.contains(DeviceAttr::I5(s)) <==> o.i5 == Some(s)
        }),
{
    let o = iface.obfuscation;
    lemma_request(iface, DeviceAttr::I1(s));
    lemma_junk(o, DeviceAttr::I1(s));
    lemma_decoys(o, DeviceAttr::I1(s));
    lemma_timing(o, DeviceAttr::I1(s));
    lemma_request(iface, DeviceAttr::I2(s));
    lemma_junk(o, DeviceAttr::I2(s));
    lemma_decoys(o, DeviceAttr::I2(s));
    lemma_timing(o, DeviceAttr::I2(s));
    lemma_request(iface, DeviceAttr::I3(s));
    lemma_junk(o, DeviceAttr::I3(s));
    lemma_decoys(o, DeviceAttr::I3(s));
    lemma_timing(o, DeviceAttr::I3(s));
    lemma_request(iface, DeviceAttr::I4(s));
    lemma_junk(o, DeviceAttr::I4(s));
    lemma_decoys(o, DeviceAttr::I4(s));
    lemma_timing(o, DeviceAttr::I4(s));
    lemma_request(iface, DeviceAttr::I5(s));
    lemma_junk(o, DeviceAttr::I5(s));
    lemma_decoys(o, DeviceAttr::I5(s));
    lemma_timing(o, DeviceAttr::I5(s));
}

/// Law: a device request carries the name, the key and the port of its interface, the header
/// protection key where there is one, and each of the two switches, on exactly where it is set to be.
pub proof fn identity_reaches_the_device(iface: InterfaceEntry, s: String, k: [u8; 32], p: u16, b: bool)
    ensures
        ({
            let r = interface::identity(iface);
            let o = iface.obfuscation;
            &&& r.contains(DeviceAttr::IfName(s)) <==> s == iface.name
            &&& r.contains(DeviceAttr::PrivateKey(k)) <==> k == keys::key_of(
                iface.private_key@,
            )->Ok_0
            &&& r.contains(DeviceAttr::ListenPort(p)) <==> p == iface.listen_port
            &&& r.contains(DeviceAttr::HeaderProtectionKey(k)) <==> o.header_protection_key is Some
                && k == keys::key_of(o.header_protection_key->0@)->Ok_0
            &&& r.contains(DeviceAttr::RandomTrailers(b)) <==> b == (o.random_trailers == Some(true))
            &&& r.contains(DeviceAttr::DisableCookies(b)) <==> b == (o.disable_cookies == Some(true))
        }),
{
    let o = iface.obfuscation;
    lemma_request(iface, DeviceAttr::IfName(s));
    lemma_junk(o, DeviceAttr::IfName(s));
    lemma_decoys(o, DeviceAttr::IfName(s));
    lemma_timing(o, DeviceAttr::IfName(s));
    lemma_request(iface, DeviceAttr::PrivateKey(k));
    lemma_junk(o, DeviceAttr::PrivateKey(k));
    lemma_decoys(o, DeviceAttr::PrivateKey(k));
    lemma_timing(o, DeviceAttr::PrivateKey(k));
    lemma_request(iface, DeviceAttr::ListenPort(p));
    lemma_junk(o, DeviceAttr::ListenPort(p));
    lemma_decoys(o, DeviceAttr::ListenPort(p));
    lemma_timing(o, DeviceAttr::ListenPort(p));
    lemma_request(iface, DeviceAttr::HeaderProtectionKey(k));
    lemma_junk(o, DeviceAttr::HeaderProtectionKey(k));
    lemma_decoys(o, DeviceAttr::HeaderProtectionKey(k));
    lemma_timing(o, DeviceAttr::HeaderProtectionKey(k));
    lemma_request(iface, DeviceAttr::RandomTrailers(b));
    lemma_junk(o, DeviceAttr::RandomTrailers(b));
    lemma_decoys(o, DeviceAttr::RandomTrailers(b));
    lemma_timing(o, DeviceAttr::RandomTrailers(b));
    lemma_request(iface, DeviceAttr::DisableCookies(b));
    lemma_junk(o, DeviceAttr::DisableCookies(b));
    lemma_decoys(o, DeviceAttr::DisableCookies(b));
    lemma_timing(o, DeviceAttr::DisableCookies(b));
}

} // verus!
