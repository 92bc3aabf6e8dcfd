//! AmneziaWG's device-level obfuscation parameters.

use vstd::prelude::*;

verus! {

/// Every knob is optional: what is unset stays at the kernel module's own default.
#[derive(Debug, PartialEq)]
pub struct Obfuscation {
    /// How many junk packets to send before the handshake.
    pub jc: Option<u16>,
    /// The smallest size of a junk packet.
    pub jmin: Option<u16>,
    /// The largest size of a junk packet.
    pub jmax: Option<u16>,
    /// Junk size for handshake initiations.
    pub s1: Option<u16>,
    /// Junk size for handshake responses.
    pub s2: Option<u16>,
    /// Junk size for cookie replies.
    pub s3: Option<u16>,
    /// Junk size for transport packets.
    pub s4: Option<u16>,
    /// Magic header of handshake initiations.
    pub h1: Option<u32>,
    /// Magic header of handshake responses.
    pub h2: Option<u32>,
    /// Magic header of cookie replies.
    pub h3: Option<u32>,
    /// Magic header of transport packets.
    pub h4: Option<u32>,
    /// Header specs of the decoy packets sent alongside real traffic.
    pub i1: Option<String>,
    pub i2: Option<String>,
    pub i3: Option<String>,
    pub i4: Option<String>,
    pub i5: Option<String>,
    /// Base64 key that encrypts the packet header; in effect for peers with advanced security.
    pub header_protection_key: Option<String>,
    /// Protocol timing and padding constants that stock WireGuard hardcodes.
    pub content_padding_addition: Option<u32>,
    pub rekey_after_time: Option<u32>,
    pub rekey_timeout: Option<u32>,
    pub reject_after_time: Option<u32>,
    pub keepalive_timeout: Option<u32>,
    pub max_handshake_attempts: Option<u32>,
    /// Appends a random-length trailer to outgoing packets.
    pub random_trailers: Option<bool>,
    /// Suppresses cookie replies.
    pub disable_cookies: Option<bool>,
}

/// Nothing is set.
pub open spec fn unset() -> Obfuscation {
    Obfuscation {
        jc: None,
        jmin: None,
        jmax: None,
        s1: None,
        s2: None,
        s3: None,
        s4: None,
        h1: None,
        h2: None,
        h3: None,
        h4: None,
        i1: None,
        i2: None,
        i3: None,
        i4: None,
        i5: None,
        header_protection_key: None,
        content_padding_addition: None,
        rekey_after_time: None,
        rekey_timeout: None,
        reject_after_time: None,
        keepalive_timeout: None,
        max_handshake_attempts: None,
        random_trailers: None,
        disable_cookies: None,
    }
}

impl Default for Obfuscation {
    fn default() -> (r: Self)
        ensures
            r == unset(),
    {
        Obfuscation {
            jc: None,
            jmin: None,
            jmax: None,
            s1: None,
            s2: None,
            s3: None,
            s4: None,
            h1: None,
            h2: None,
            h3: None,
            h4: None,
            i1: None,
            i2: None,
            i3: None,
            i4: None,
            i5: None,
            header_protection_key: None,
            content_padding_addition: None,
            rekey_after_time: None,
            rekey_timeout: None,
            reject_after_time: None,
            keepalive_timeout: None,
            max_handshake_attempts: None,
            random_trailers: None,
            disable_cookies: None,
        }
    }
}

impl Clone for Obfuscation {
    fn clone(&self) -> (r: Self)
        ensures
            r == *self,
    {
        Obfuscation {
            jc: self.jc,
            jmin: self.jmin,
            jmax: self.jmax,
            s1: self.s1,
            s2: self.s2,
            s3: self.s3,
            s4: self.s4,
            h1: self.h1,
            h2: self.h2,
            h3: self.h3,
            h4: self.h4,
            i1: copy_text(&self.i1),
            i2: copy_text(&self.i2),
            i3: copy_text(&self.i3),
            i4: copy_text(&self.i4),
            i5: copy_text(&self.i5),
            header_protection_key: copy_text(&self.header_protection_key),
            content_padding_addition: self.content_padding_addition,
            rekey_after_time: self.rekey_after_time,
            rekey_timeout: self.rekey_timeout,
            reject_after_time: self.reject_after_time,
            keepalive_timeout: self.keepalive_timeout,
            max_handshake_attempts: self.max_handshake_attempts,
            random_trailers: self.random_trailers,
            disable_cookies: self.disable_cookies,
        }
    }
}

/// A copy of an optional string.
pub fn copy_text(o: &Option<String>) -> (r: Option<String>)
    ensures
        r == *o,
{
    match o {
        Some(s) => Some(s.clone()),
        None => None,
    }
}

/// The first value that is set.
pub open spec fn first_set<T>(a: Option<T>, b: Option<T>) -> Option<T> {
    if a is Some {
        a
    } else {
        b
    }
}

/// The second value, where the first is not set.
pub open spec fn unless_set<T>(a: Option<T>, b: Option<T>) -> Option<T> {
    if a is Some {
        None
    } else {
        b
    }
}

/// `a` over `b`: each parameter from `a`, or where `a` leaves it unset, from `b`.
pub open spec fn over(a: Obfuscation, b: Obfuscation) -> Obfuscation {
    Obfuscation {
        jc: first_set(a.jc, b.jc),
        jmin: first_set(a.jmin, b.jmin),
        jmax: first_set(a.jmax, b.jmax),
        s1: first_set(a.s1, b.s1),
        s2: first_set(a.s2, b.s2),
        s3: first_set(a.s3, b.s3),
        s4: first_set(a.s4, b.s4),
        h1: first_set(a.h1, b.h1),
        h2: first_set(a.h2, b.h2),
        h3: first_set(a.h3, b.h3),
        h4: first_set(a.h4, b.h4),
        i1: first_set(a.i1, b.i1),
        i2: first_set(a.i2, b.i2),
        i3: first_set(a.i3, b.i3),
        i4: first_set(a.i4, b.i4),
        i5: first_set(a.i5, b.i5),
        header_protection_key: first_set(a.header_protection_key, b.header_protection_key),
        content_padding_addition: first_set(a.content_padding_addition, b.content_padding_addition),
        rekey_after_time: first_set(a.rekey_after_time, b.rekey_after_time),
        rekey_timeout: first_set(a.rekey_timeout, b.rekey_timeout),
        reject_after_time: first_set(a.reject_after_time, b.reject_after_time),
        keepalive_timeout: first_set(a.keepalive_timeout, b.keepalive_timeout),
        max_handshake_attempts: first_set(a.max_handshake_attempts, b.max_handshake_attempts),
        random_trailers: first_set(a.random_trailers, b.random_trailers),
        disable_cookies: first_set(a.disable_cookies, b.disable_cookies),
    }
}

/// What `b` sets and `a` leaves unset.
pub open spec fn beyond(a: Obfuscation, b: Obfuscation) -> Obfuscation {
    Obfuscation {
        jc: unless_set(a.jc, b.jc),
        jmin: unless_set(a.jmin, b.jmin),
        jmax: unless_set(a.jmax, b.jmax),
        s1: unless_set(a.s1, b.s1),
        s2: unless_set(a.s2, b.s2),
        s3: unless_set(a.s3, b.s3),
        s4: unless_set(a.s4, b.s4),
        h1: unless_set(a.h1, b.h1),
        h2: unless_set(a.h2, b.h2),
        h3: unless_set(a.h3, b.h3),
        h4: unless_set(a.h4, b.h4),
        i1: unless_set(a.i1, b.i1),
        i2: unless_set(a.i2, b.i2),
        i3: unless_set(a.i3, b.i3),
        i4: unless_set(a.i4, b.i4),
        i5: unless_set(a.i5, b.i5),
        header_protection_key: unless_set(a.header_protection_key, b.header_protection_key),
        content_padding_addition: unless_set(a.content_padding_addition, b.content_padding_addition),
        rekey_after_time: unless_set(a.rekey_after_time, b.rekey_after_time),
        rekey_timeout: unless_set(a.rekey_timeout, b.rekey_timeout),
        reject_after_time: unless_set(a.reject_after_time, b.reject_after_time),
        keepalive_timeout: unless_set(a.keepalive_timeout, b.keepalive_timeout),
        max_handshake_attempts: unless_set(a.max_handshake_attempts, b.max_handshake_attempts),
        random_trailers: unless_set(a.random_trailers, b.random_trailers),
        disable_cookies: unless_set(a.disable_cookies, b.disable_cookies),
    }
}

fn pick<T: Copy>(a: Option<T>, b: Option<T>) -> (r: Option<T>)
    ensures
        r == first_set(a, b),
{
    if a.is_some() {
        a
    } else {
        b
    }
}

fn pick_text(a: &Option<String>, b: &Option<String>) -> (r: Option<String>)
    ensures
        r == first_set(*a, *b),
{
    if a.is_some() {
        copy_text(a)
    } else {
        copy_text(b)
    }
}

fn rest<T: Copy>(a: Option<T>, b: Option<T>) -> (r: Option<T>)
    ensures
        r == unless_set(a, b),
{
    if a.is_some() {
        None
    } else {
        b
    }
}

fn rest_text(a: &Option<String>, b: &Option<String>) -> (r: Option<String>)
    ensures
        r == unless_set(*a, *b),
{
    if a.is_some() {
        None
    } else {
        copy_text(b)
    }
}

/// Layers `a` over `b`, parameter by parameter.
pub fn layer(a: &Obfuscation, b: &Obfuscation) -> (r: Obfuscation)
    ensures
        r == over(*a, *b),
{
    Obfuscation {
        jc: pick(a.jc, b.jc),
        jmin: pick(a.jmin, b.jmin),
        jmax: pick(a.jmax, b.jmax),
        s1: pick(a.s1, b.s1),
        s2: pick(a.s2, b.s2),
        s3: pick(a.s3, b.s3),
        s4: pick(a.s4, b.s4),
        h1: pick(a.h1, b.h1),
        h2: pick(a.h2, b.h2),
        h3: pick(a.h3, b.h3),
        h4: pick(a.h4, b.h4),
        i1: pick_text(&a.i1, &b.i1),
        i2: pick_text(&a.i2, &b.i2),
        i3: pick_text(&a.i3, &b.i3),
        i4: pick_text(&a.i4, &b.i4),
        i5: pick_text(&a.i5, &b.i5),
        header_protection_key: pick_text(&a.header_protection_key, &b.header_protection_key),
        content_padding_addition: pick(a.content_padding_addition, b.content_padding_addition),
        rekey_after_time: pick(a.rekey_after_time, b.rekey_after_time),
        rekey_timeout: pick(a.rekey_timeout, b.rekey_timeout),
        reject_after_time: pick(a.reject_after_time, b.reject_after_time),
        keepalive_timeout: pick(a.keepalive_timeout, b.keepalive_timeout),
        max_handshake_attempts: pick(a.max_handshake_attempts, b.max_handshake_attempts),
        random_trailers: pick(a.random_trailers, b.random_trailers),
        disable_cookies: pick(a.disable_cookies, b.disable_cookies),
    }
}

/// The parameters that `b` sets and `a` does not.
pub fn remainder(a: &Obfuscation, b: &Obfuscation) -> (r: Obfuscation)
    ensures
        r == beyond(*a, *b),
{
    Obfuscation {
        jc: rest(a.jc, b.jc),
        jmin: rest(a.jmin, b.jmin),
        jmax: rest(a.jmax, b.jmax),
        s1: rest(a.s1, b.s1),
        s2: rest(a.s2, b.s2),
        s3: rest(a.s3, b.s3),
        s4: rest(a.s4, b.s4),
        h1: rest(a.h1, b.h1),
        h2: rest(a.h2, b.h2),
        h3: rest(a.h3, b.h3),
        h4: rest(a.h4, b.h4),
        i1: rest_text(&a.i1, &b.i1),
        i2: rest_text(&a.i2, &b.i2),
        i3: rest_text(&a.i3, &b.i3),
        i4: rest_text(&a.i4, &b.i4),
        i5: rest_text(&a.i5, &b.i5),
        header_protection_key: rest_text(&a.header_protection_key, &b.header_protection_key),
        content_padding_addition: rest(a.content_padding_addition, b.content_padding_addition),
        rekey_after_time: rest(a.rekey_after_time, b.rekey_after_time),
        rekey_timeout: rest(a.rekey_timeout, b.rekey_timeout),
        reject_after_time: rest(a.reject_after_time, b.reject_after_time),
        keepalive_timeout: rest(a.keepalive_timeout, b.keepalive_timeout),
        max_handshake_attempts: rest(a.max_handshake_attempts, b.max_handshake_attempts),
        random_trailers: rest(a.random_trailers, b.random_trailers),
        disable_cookies: rest(a.disable_cookies, b.disable_cookies),
    }
}

/// Whether nothing is set.
pub fn is_unset(o: &Obfuscation) -> (r: bool)
    ensures
        r == (*o == unset()),
{
    o.jc.is_none()
        && o.jmin.is_none()
        && o.jmax.is_none()
        && o.s1.is_none()
        && o.s2.is_none()
        && o.s3.is_none()
        && o.s4.is_none()
        && o.h1.is_none()
        && o.h2.is_none()
        && o.h3.is_none()
        && o.h4.is_none()
        && o.i1.is_none()
        && o.i2.is_none()
        && o.i3.is_none()
        && o.i4.is_none()
        && o.i5.is_none()
        && o.header_protection_key.is_none()
        && o.content_padding_addition.is_none()
        && o.rekey_after_time.is_none()
        && o.rekey_timeout.is_none()
        && o.reject_after_time.is_none()
        && o.keepalive_timeout.is_none()
        && o.max_handshake_attempts.is_none()
        && o.random_trailers.is_none()
        && o.disable_cookies.is_none()
}

/// Law: layering is associative, so a stack of layers has one reading.
pub proof fn layering_is_associative(a: Obfuscation, b: Obfuscation, c: Obfuscation)
    ensures
        over(a, over(b, c)) == over(over(a, b), c),
{
    let x = over(a, over(b, c));
    let y = over(over(a, b), c);
    assert(x.jc == y.jc);
    assert(x.jmin == y.jmin);
    assert(x.jmax == y.jmax);
    assert(x.s1 == y.s1);
    assert(x.s2 == y.s2);
    assert(x.s3 == y.s3);
    assert(x.s4 == y.s4);
    assert(x.h1 == y.h1);
    assert(x.h2 == y.h2);
    assert(x.h3 == y.h3);
    assert(x.h4 == y.h4);
    assert(x.i1 == y.i1);
    assert(x.i2 == y.i2);
    assert(x.i3 == y.i3);
    assert(x.i4 == y.i4);
    assert(x.i5 == y.i5);
    assert(x.header_protection_key == y.header_protection_key);
    assert(x.content_padding_addition == y.content_padding_addition);
    assert(x.rekey_after_time == y.rekey_after_time);
    assert(x.rekey_timeout == y.rekey_timeout);
    assert(x.reject_after_time == y.reject_after_time);
    assert(x.keepalive_timeout == y.keepalive_timeout);
    assert(x.max_handshake_attempts == y.max_handshake_attempts);
    assert(x.random_trailers == y.random_trailers);
    assert(x.disable_cookies == y.disable_cookies);
}

/// Law: of two layers, the upper one decides each parameter that it sets, and the lower one the
/// others.
pub proof fn upper_layer_decides(a: Obfuscation, b: Obfuscation)
    ensures
        over(a, b).jc == (if a.jc is Some {
            a.jc
        } else {
            b.jc
        }),
        over(a, b).jmin == (if a.jmin is Some {
            a.jmin
        } else {
            b.jmin
        }),
        over(a, b).jmax == (if a.jmax is Some {
            a.jmax
        } else {
            b.jmax
        }),
        over(a, b).s1 == (if a.s1 is Some {
            a.s1
        } else {
            b.s1
        }),
        over(a, b).s2 == (if a.s2 is Some {
            a.s2
        } else {
            b.s2
        }),
        over(a, b).s3 == (if a.s3 is Some {
            a.s3
        } else {
            b.s3
        }),
        over(a, b).s4 == (if a.s4 is Some {
            a.s4
        } else {
            b.s4
        }),
        over(a, b).h1 == (if a.h1 is Some {
            a.h1
        } else {
            b.h1
        }),
        over(a, b).h2 == (if a.h2 is Some {
            a.h2
        } else {
            b.h2
        }),
        over(a, b).h3 == (if a.h3 is Some {
            a.h3
        } else {
            b.h3
        }),
        over(a, b).h4 == (if a.h4 is Some {
            a.h4
        } else {
            b.h4
        }),
        over(a, b).i1 == (if a.i1 is Some {
            a.i1
        } else {
            b.i1
        }),
        over(a, b).i2 == (if a.i2 is Some {
            a.i2
        } else {
            b.i2
        }),
        over(a, b).i3 == (if a.i3 is Some {
            a.i3
        } else {
            b.i3
        }),
        over(a, b).i4 == (if a.i4 is Some {
            a.i4
        } else {
            b.i4
        }),
        over(a, b).i5 == (if a.i5 is Some {
            a.i5
        } else {
            b.i5
        }),
        over(a, b).header_protection_key == (if a.header_protection_key is Some {
            a.header_protection_key
        } else {
            b.header_protection_key
        }),
        over(a, b).content_padding_addition == (if a.content_padding_addition is Some {
            a.content_padding_addition
        } else {
            b.content_padding_addition
        }),
        over(a, b).rekey_after_time == (if a.rekey_after_time is Some {
            a.rekey_after_time
        } else {
            b.rekey_after_time
        }),
        over(a, b).rekey_timeout == (if a.rekey_timeout is Some {
            a.rekey_timeout
        } else {
            b.rekey_timeout
        }),
        over(a, b).reject_after_time == (if a.reject_after_time is Some {
            a.reject_after_time
        } else {
            b.reject_after_time
        }),
        over(a, b).keepalive_timeout == (if a.keepalive_timeout is Some {
            a.keepalive_timeout
        } else {
            b.keepalive_timeout
        }),
        over(a, b).max_handshake_attempts == (if a.max_handshake_attempts is Some {
            a.max_handshake_attempts
        } else {
            b.max_handshake_attempts
        }),
        over(a, b).random_trailers == (if a.random_trailers is Some {
            a.random_trailers
        } else {
            b.random_trailers
        }),
        over(a, b).disable_cookies == (if a.disable_cookies is Some {
            a.disable_cookies
        } else {
            b.disable_cookies
        }),
{
}

/// Law: what a layer adds to another is what the other leaves unset.
pub proof fn addition_is_what_is_unset(a: Obfuscation, b: Obfuscation)
    ensures
        beyond(a, b).jc == (if a.jc is Some {
            None
        } else {
            b.jc
        }),
        beyond(a, b).jmin == (if a.jmin is Some {
            None
        } else {
            b.jmin
        }),
        beyond(a, b).jmax == (if a.jmax is Some {
            None
        } else {
            b.jmax
        }),
        beyond(a, b).s1 == (if a.s1 is Some {
            None
        } else {
            b.s1
        }),
        beyond(a, b).s2 == (if a.s2 is Some {
            None
        } else {
            b.s2
        }),
        beyond(a, b).s3 == (if a.s3 is Some {
            None
        } else {
            b.s3
        }),
        beyond(a, b).s4 == (if a.s4 is Some {
            None
        } else {
            b.s4
        }),
        beyond(a, b).h1 == (if a.h1 is Some {
            None
        } else {
            b.h1
        }),
        beyond(a, b).h2 == (if a.h2 is Some {
            None
        } else {
            b.h2
        }),
        beyond(a, b).h3 == (if a.h3 is Some {
            None
        } else {
            b.h3
        }),
        beyond(a, b).h4 == (if a.h4 is Some {
            None
        } else {
            b.h4
        }),
        beyond(a, b).i1 == (if a.i1 is Some {
            None
        } else {
            b.i1
        }),
        beyond(a, b).i2 == (if a.i2 is Some {
            None
        } else {
            b.i2
        }),
        beyond(a, b).i3 == (if a.i3 is Some {
            None
        } else {
            b.i3
        }),
        beyond(a, b).i4 == (if a.i4 is Some {
            None
        } else {
            b.i4
        }),
        beyond(a, b).i5 == (if a.i5 is Some {
            None
        } else {
            b.i5
        }),
        beyond(a, b).header_protection_key == (if a.header_protection_key is Some {
            None
        } else {
            b.header_protection_key
        }),
        beyond(a, b).content_padding_addition == (if a.content_padding_addition is Some {
            None
        } else {
            b.content_padding_addition
        }),
        beyond(a, b).rekey_after_time == (if a.rekey_after_time is Some {
            None
        } else {
            b.rekey_after_time
        }),
        beyond(a, b).rekey_timeout == (if a.rekey_timeout is Some {
            None
        } else {
            b.rekey_timeout
        }),
        beyond(a, b).reject_after_time == (if a.reject_after_time is Some {
            None
        } else {
            b.reject_after_time
        }),
        beyond(a, b).keepalive_timeout == (if a.keepalive_timeout is Some {
            None
        } else {
            b.keepalive_timeout
        }),
        beyond(a, b).max_handshake_attempts == (if a.max_handshake_attempts is Some {
            None
        } else {
            b.max_handshake_attempts
        }),
        beyond(a, b).random_trailers == (if a.random_trailers is Some {
            None
        } else {
            b.random_trailers
        }),
        beyond(a, b).disable_cookies == (if a.disable_cookies is Some {
            None
        } else {
            b.disable_cookies
        }),
{
}

/// Law: a layer and what another adds to it say together what the two layers say.
pub proof fn addition_fills_the_gaps(a: Obfuscation, b: Obfuscation)
    ensures
        over(a, beyond(a, b)) == over(a, b),
{
    let x = over(a, beyond(a, b));
    let y = over(a, b);
    assert(x.jc == y.jc);
    assert(x.jmin == y.jmin);
    assert(x.jmax == y.jmax);
    assert(x.s1 == y.s1);
    assert(x.s2 == y.s2);
    assert(x.s3 == y.s3);
    assert(x.s4 == y.s4);
    assert(x.h1 == y.h1);
    assert(x.h2 == y.h2);
    assert(x.h3 == y.h3);
    assert(x.h4 == y.h4);
    assert(x.i1 == y.i1);
    assert(x.i2 == y.i2);
    assert(x.i3 == y.i3);
    assert(x.i4 == y.i4);
    assert(x.i5 == y.i5);
    assert(x.header_protection_key == y.header_protection_key);
    assert(x.content_padding_addition == y.content_padding_addition);
    assert(x.rekey_after_time == y.rekey_after_time);
    assert(x.rekey_timeout == y.rekey_timeout);
    assert(x.reject_after_time == y.reject_after_time);
    assert(x.keepalive_timeout == y.keepalive_timeout);
    assert(x.max_handshake_attempts == y.max_handshake_attempts);
    assert(x.random_trailers == y.random_trailers);
    assert(x.disable_cookies == y.disable_cookies);
}

} // verus!
