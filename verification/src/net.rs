//! Plain-value model of the addresses the engine works with: IPv4 as four
//! octets, IPv6 as eight 16-bit segments, socket addresses with an optional
//! IPv6 scope id; address classification; and the canonical text forms used
//! inside SSDP messages.

use vstd::prelude::*;

verus! {

/// An IP address held as plain values.
#[derive(Clone, Copy, Debug, PartialEq, Eq)]
pub enum IpAddress {
    V4([u8; 4]),
    V6([u16; 8]),
}

/// A socket address. `scope` is the IPv6 zone id (interface index); it is 0
/// for IPv4 and for unscoped IPv6 addresses.
#[derive(Clone, Copy, Debug, PartialEq, Eq)]
pub enum SockAddr {
    V4 { ip: [u8; 4], port: u16 },
    V6 { ip: [u16; 8], port: u16, scope: u32 },
}

impl SockAddr {
    /// The same address with any IPv6 zone id cleared, as used in `Host:`
    /// headers.
    pub fn addr_no_scope(&self) -> (r: SockAddr)
        ensures
            r == spec_addr_no_scope(*self),
    {
        match *self {
            SockAddr::V4 { ip, port } => SockAddr::V4 { ip, port },
            SockAddr::V6 { ip, port, scope: _ } => SockAddr::V6 { ip, port, scope: 0 },
        }
    }
}

pub open spec fn spec_addr_no_scope(sa: SockAddr) -> SockAddr {
    match sa {
        SockAddr::V4 { ip, port } => SockAddr::V4 { ip, port },
        SockAddr::V6 { ip, port, scope } => SockAddr::V6 { ip, port, scope: 0 },
    }
}

// ------------------------------------------------------------------
// Classification
// ------------------------------------------------------------------

pub open spec fn spec_v4_is_loopback(ip: [u8; 4]) -> bool {
    ip@[0] == 127
}

/// RFC 1918 private space: 10/8, 172.16/12, 192.168/16.
pub open spec fn spec_v4_is_private(ip: [u8; 4]) -> bool {
    ||| ip@[0] == 10
    ||| (ip@[0] == 172 && 16 <= ip@[1] && ip@[1] <= 31)
    ||| (ip@[0] == 192 && ip@[1] == 168)
}

pub open spec fn spec_v6_is_loopback(ip: [u16; 8]) -> bool {
    ip@[0] == 0 && ip@[1] == 0 && ip@[2] == 0 && ip@[3] == 0 && ip@[4] == 0 && ip@[5] == 0
        && ip@[6] == 0 && ip@[7] == 1
}

/// Link-local iff the first segment is 0xfe80 and segments 2-4 are zero.
pub open spec fn spec_v6_is_link_local(ip: [u16; 8]) -> bool {
    ip@[0] == 0xfe80 && ip@[1] == 0 && ip@[2] == 0 && ip@[3] == 0
}

pub fn v4_is_loopback(ip: &[u8; 4]) -> (r: bool)
    ensures
        r == spec_v4_is_loopback(*ip),
{
    ip[0] == 127
}

pub fn v4_is_private(ip: &[u8; 4]) -> (r: bool)
    ensures
        r == spec_v4_is_private(*ip),
{
    ip[0] == 10 || (ip[0] == 172 && 16 <= ip[1] && ip[1] <= 31) || (ip[0] == 192 && ip[1] == 168)
}

pub fn v6_is_loopback(ip: &[u16; 8]) -> (r: bool)
    ensures
        r == spec_v6_is_loopback(*ip),
{
    ip[0] == 0 && ip[1] == 0 && ip[2] == 0 && ip[3] == 0 && ip[4] == 0 && ip[5] == 0 && ip[6] == 0
        && ip[7] == 1
}

/// An IPv6 address is link-local iff its first 16-bit segment is 0xfe80 and
/// segments 2-4 are zero.
pub fn ipv6_is_link_local(ip: &[u16; 8]) -> (r: bool)
    ensures
        r == spec_v6_is_link_local(*ip),
{
    ip[0] == 0xfe80 && ip[1] == 0 && ip[2] == 0 && ip[3] == 0
}

/// Addresses the engine advertises and responds on: private non-loopback
/// IPv4, and non-loopback IPv6.
pub open spec fn spec_eligible(ip: IpAddress) -> bool {
    match ip {
        IpAddress::V4(o) => spec_v4_is_private(o) && !spec_v4_is_loopback(o),
        IpAddress::V6(s) => !spec_v6_is_loopback(s),
    }
}

pub fn eligible(ip: &IpAddress) -> (r: bool)
    ensures
        r == spec_eligible(*ip),
{
    match ip {
        IpAddress::V4(o) => v4_is_private(o) && !v4_is_loopback(o),
        IpAddress::V6(s) => !v6_is_loopback(s),
    }
}

// ------------------------------------------------------------------
// Text forms
// ------------------------------------------------------------------

/// Decimal digits of `v >= 0`, most significant first, no leading zeros.
pub open spec fn dec_digits(v: int) -> Seq<u8>
    decreases v,
{
    if v < 10 {
        seq![(48 + v) as u8]
    } else {
        dec_digits(v / 10) + seq![(48 + v % 10) as u8]
    }
}

pub open spec fn hex_digit(v: int) -> u8 {
    if v < 10 {
        (48 + v) as u8
    } else {
        (87 + v) as u8
    }
}

/// Lower-case hex digits of `v >= 0`, most significant first, no leading
/// zeros.
pub open spec fn hex_digits(v: int) -> Seq<u8>
    decreases v,
{
    if v < 16 {
        seq![hex_digit(v)]
    } else {
        hex_digits(v / 16) + seq![hex_digit(v % 16)]
    }
}

/// Appends the decimal text of `v`.
pub fn append_dec_u32(out: &mut Vec<u8>, v: u32)
    ensures
        final(out)@ == old(out)@ + dec_digits(v as int),
    decreases v,
{
    if v < 10 {
        out.push(48 + (v as u8));
        assert(final(out)@ =~= old(out)@ + dec_digits(v as int));
    } else {
        append_dec_u32(out, v / 10);
        out.push(48 + ((v % 10) as u8));
        assert(final(out)@ =~= old(out)@ + dec_digits(v as int));
    }
}

/// Appends the lower-case hex text of `v`.
pub fn append_hex_u16(out: &mut Vec<u8>, v: u16)
    ensures
        final(out)@ == old(out)@ + hex_digits(v as int),
    decreases v,
{
    if v < 16 {
        let d: u8 = if v < 10 {
            48 + (v as u8)
        } else {
            87 + (v as u8)
        };
        out.push(d);
        assert(final(out)@ =~= old(out)@ + hex_digits(v as int));
    } else {
        append_hex_u16(out, v / 16);
        let r: u16 = v % 16;
        let d: u8 = if r < 10 {
            48 + (r as u8)
        } else {
            87 + (r as u8)
        };
        out.push(d);
        assert(final(out)@ =~= old(out)@ + hex_digits(v as int));
    }
}

/// Dotted-quad text of an IPv4 address.
pub open spec fn v4_text(ip: [u8; 4]) -> Seq<u8> {
    dec_digits(ip@[0] as int) + seq![46u8] + dec_digits(ip@[1] as int) + seq![46u8] + dec_digits(
        ip@[2] as int,
    ) + seq![46u8] + dec_digits(ip@[3] as int)
}

pub fn append_v4_text(out: &mut Vec<u8>, ip: &[u8; 4])
    ensures
        final(out)@ == old(out)@ + v4_text(*ip),
{
    append_dec_u32(out, ip[0] as u32);
    out.push(46);
    append_dec_u32(out, ip[1] as u32);
    out.push(46);
    append_dec_u32(out, ip[2] as u32);
    out.push(46);
    append_dec_u32(out, ip[3] as u32);
    assert(final(out)@ =~= old(out)@ + v4_text(*ip));
}

/// Length of the run of zero segments starting at `i`.
pub open spec fn zrun(s: Seq<u16>, i: int) -> int
    decreases s.len() - i,
{
    if i < 0 || i >= s.len() || s[i] != 0 {
        0
    } else {
        1 + zrun(s, i + 1)
    }
}

/// Start of the longest (leftmost on ties) run of zero segments in
/// `s[i..]`; `s.len()` when there is none.
pub open spec fn best_zrun_start(s: Seq<u16>, i: int) -> int
    decreases s.len() - i,
{
    if i >= s.len() {
        i
    } else {
        let rest = best_zrun_start(s, i + 1);
        if zrun(s, i) >= zrun(s, rest) {
            i
        } else {
            rest
        }
    }
}

pub proof fn lemma_zrun_bounds(s: Seq<u16>, i: int)
    requires
        0 <= i <= s.len(),
    ensures
        0 <= zrun(s, i) <= s.len() - i,
    decreases s.len() - i,
{
    if i < s.len() && s[i] == 0 {
        lemma_zrun_bounds(s, i + 1);
    }
}

pub proof fn lemma_best_zrun_bounds(s: Seq<u16>, i: int)
    requires
        0 <= i <= s.len(),
    ensures
        i <= best_zrun_start(s, i) <= s.len(),
    decreases s.len() - i,
{
    if i < s.len() {
        lemma_best_zrun_bounds(s, i + 1);
    }
}

/// Hex segments joined with `:`.
pub open spec fn join_colon(s: Seq<u16>) -> Seq<u8>
    decreases s.len(),
{
    if s.len() == 0 {
        Seq::empty()
    } else if s.len() == 1 {
        hex_digits(s[0] as int)
    } else {
        join_colon(s.drop_last()) + seq![58u8] + hex_digits(s.last() as int)
    }
}

/// RFC 5952 text of an IPv6 address: lower-case hex segments, the longest
/// (leftmost on ties) run of two or more zero segments compressed to `::`.
pub open spec fn v6_text(ip: [u16; 8]) -> Seq<u8> {
    let b = best_zrun_start(ip@, 0);
    let z = zrun(ip@, b);
    if z >= 2 {
        join_colon(ip@.subrange(0, b)) + seq![58u8, 58u8] + join_colon(
            ip@.subrange(b + z, ip@.len() as int),
        )
    } else {
        join_colon(ip@)
    }
}

fn zrun_at(s: &[u16; 8], i: usize) -> (r: usize)
    requires
        i <= 8,
    ensures
        r == zrun(s@, i as int),
{
    let mut j: usize = i;
    while j < 8
        invariant
            i <= j <= 8,
            s@.len() == 8,
            zrun(s@, i as int) == j - i + zrun(s@, j as int),
        decreases 8 - j,
    {
        if s[j] != 0 {
            proof {
                assert(zrun(s@, j as int) == 0);
            }
            return j - i;
        }
        j = j + 1;
        proof {
            lemma_zrun_bounds(s@, j as int);
        }
    }
    j - i
}

fn best_start(s: &[u16; 8]) -> (b: usize)
    ensures
        b == best_zrun_start(s@, 0),
        b <= 8,
{
    let mut best: usize = 8;
    let mut i: usize = 8;
    while i > 0
        invariant
            i <= 8,
            best <= 8,
            s@.len() == 8,
            best == best_zrun_start(s@, i as int),
        decreases i,
    {
        i = i - 1;
        let zi = zrun_at(s, i);
        let zb = zrun_at(s, best);
        if zi >= zb {
            best = i;
        }
    }
    best
}

fn append_join_colon(out: &mut Vec<u8>, s: &[u16; 8], a: usize, b: usize)
    requires
        a <= b <= 8,
    ensures
        final(out)@ == old(out)@ + join_colon(s@.subrange(a as int, b as int)),
{
    let mut i: usize = a;
    while i < b
        invariant
            a <= i <= b <= 8,
            s@.len() == 8,
            out@ == old(out)@ + join_colon(s@.subrange(a as int, i as int)),
        decreases b - i,
    {
        if i > a {
            out.push(58);
        }
        append_hex_u16(out, s[i]);
        i = i + 1;
        proof {
            let sub = s@.subrange(a as int, i as int);
            assert(sub.drop_last() =~= s@.subrange(a as int, i - 1));
            if i - 1 == a {
                assert(sub.len() == 1);
            }
            assert(out@ =~= old(out)@ + join_colon(sub));
        }
    }
}

/// Appends the RFC 5952 text of an IPv6 address.
pub fn append_v6_text(out: &mut Vec<u8>, ip: &[u16; 8])
    ensures
        final(out)@ == old(out)@ + v6_text(*ip),
{
    let b = best_start(ip);
    let z = zrun_at(ip, b);
    proof {
        lemma_zrun_bounds(ip@, b as int);
    }
    if z >= 2 {
        append_join_colon(out, ip, 0, b);
        out.push(58);
        out.push(58);
        append_join_colon(out, ip, b + z, 8);
        assert(final(out)@ =~= old(out)@ + v6_text(*ip));
    } else {
        append_join_colon(out, ip, 0, 8);
        proof {
            assert(ip@.subrange(0, 8) =~= ip@);
        }
    }
}

/// Bytes that can stand anywhere in a header value: printable ASCII, no
/// whitespace.
pub open spec fn text_clean(s: Seq<u8>) -> bool {
    forall|k: int| 0 <= k < s.len() ==> 33 <= #[trigger] s[k] && s[k] <= 126
}

pub proof fn lemma_dec_digits_clean(v: int)
    requires
        v >= 0,
    ensures
        text_clean(dec_digits(v)),
        dec_digits(v).len() > 0,
    decreases v,
{
    if v >= 10 {
        lemma_dec_digits_clean(v / 10);
        let a = dec_digits(v / 10);
        let s = dec_digits(v);
        assert forall|k: int| 0 <= k < s.len() implies 33 <= #[trigger] s[k] && s[k] <= 126 by {
            if k < a.len() {
                assert(s[k] == a[k]);
            }
        }
    }
}

pub proof fn lemma_hex_digits_clean(v: int)
    requires
        v >= 0,
    ensures
        text_clean(hex_digits(v)),
        hex_digits(v).len() > 0,
    decreases v,
{
    if v >= 16 {
        lemma_hex_digits_clean(v / 16);
        let a = hex_digits(v / 16);
        let s = hex_digits(v);
        assert forall|k: int| 0 <= k < s.len() implies 33 <= #[trigger] s[k] && s[k] <= 126 by {
            if k < a.len() {
                assert(s[k] == a[k]);
            }
        }
    }
}

pub proof fn lemma_v4_text_clean(ip: [u8; 4])
    ensures
        text_clean(v4_text(ip)),
        v4_text(ip).len() > 0,
{
    lemma_dec_digits_clean(ip@[0] as int);
    lemma_dec_digits_clean(ip@[1] as int);
    lemma_dec_digits_clean(ip@[2] as int);
    lemma_dec_digits_clean(ip@[3] as int);
    let d0 = dec_digits(ip@[0] as int);
    let d1 = dec_digits(ip@[1] as int);
    let d2 = dec_digits(ip@[2] as int);
    let d3 = dec_digits(ip@[3] as int);
    let s = v4_text(ip);
    assert forall|k: int| 0 <= k < s.len() implies 33 <= #[trigger] s[k] && s[k] <= 126 by {
        if k < d0.len() {
            assert(s[k] == d0[k]);
        } else if k == d0.len() {
            assert(s[k] == 46);
        } else if k < d0.len() + 1 + d1.len() {
            assert(s[k] == d1[k - d0.len() - 1]);
        } else if k == d0.len() + 1 + d1.len() {
            assert(s[k] == 46);
        } else if k < d0.len() + d1.len() + 2 + d2.len() {
            assert(s[k] == d2[k - d0.len() - d1.len() - 2]);
        } else if k == d0.len() + d1.len() + 2 + d2.len() {
            assert(s[k] == 46);
        } else {
            assert(s[k] == d3[k - d0.len() - d1.len() - d2.len() - 3]);
        }
    }
}

pub proof fn lemma_join_colon_clean(s: Seq<u16>)
    ensures
        text_clean(join_colon(s)),
    decreases s.len(),
{
    if s.len() == 1 {
        lemma_hex_digits_clean(s[0] as int);
    } else if s.len() > 1 {
        lemma_join_colon_clean(s.drop_last());
        lemma_hex_digits_clean(s.last() as int);
        let a = join_colon(s.drop_last());
        let h = hex_digits(s.last() as int);
        let t = join_colon(s);
        assert forall|k: int| 0 <= k < t.len() implies 33 <= #[trigger] t[k] && t[k] <= 126 by {
            if k < a.len() {
                assert(t[k] == a[k]);
            } else if k == a.len() {
                assert(t[k] == 58);
            } else {
                assert(t[k] == h[k - a.len() - 1]);
            }
        }
    }
}

pub proof fn lemma_v6_text_clean(ip: [u16; 8])
    ensures
        text_clean(v6_text(ip)),
{
    let b = best_zrun_start(ip@, 0);
    let z = zrun(ip@, b);
    lemma_best_zrun_bounds(ip@, 0);
    lemma_zrun_bounds(ip@, b);
    if z >= 2 {
        lemma_join_colon_clean(ip@.subrange(0, b));
        lemma_join_colon_clean(ip@.subrange(b + z, ip@.len() as int));
        let a = join_colon(ip@.subrange(0, b));
        let c = join_colon(ip@.subrange(b + z, ip@.len() as int));
        let t = v6_text(ip);
        assert forall|k: int| 0 <= k < t.len() implies 33 <= #[trigger] t[k] && t[k] <= 126 by {
            if k < a.len() {
                assert(t[k] == a[k]);
            } else if k < a.len() + 2 {
                assert(t[k] == 58);
            } else {
                assert(t[k] == c[k - a.len() - 2]);
            }
        }
    } else {
        lemma_join_colon_clean(ip@);
    }
}

/// The text of an address in a URL host position is non-empty printable
/// ASCII without whitespace: it fits in a header value.
pub proof fn lemma_host_text_clean(ip: IpAddress)
    ensures
        text_clean(host_text(ip)),
        host_text(ip).len() > 0,
{
    match ip {
        IpAddress::V4(o) => {
            lemma_v4_text_clean(o);
        },
        IpAddress::V6(s) => {
            lemma_v6_text_clean(s);
            let v = v6_text(s);
            let t = host_text(ip);
            assert forall|k: int| 0 <= k < t.len() implies 33 <= #[trigger] t[k] && t[k] <= 126 by {
                if k == 0 {
                    assert(t[k] == 91);
                } else if k < 1 + v.len() {
                    assert(t[k] == v[k - 1]);
                } else {
                    assert(t[k] == 93);
                }
            }
        },
    }
}

/// Text of an IP address as it stands in a URL host position: dotted quad,
/// or a bracketed IPv6 form.
pub open spec fn host_text(ip: IpAddress) -> Seq<u8> {
    match ip {
        IpAddress::V4(o) => v4_text(o),
        IpAddress::V6(s) => seq![91u8] + v6_text(s) + seq![93u8],
    }
}

pub fn append_host_text(out: &mut Vec<u8>, ip: &IpAddress)
    ensures
        final(out)@ == old(out)@ + host_text(*ip),
{
    match ip {
        IpAddress::V4(o) => {
            append_v4_text(out, o);
        },
        IpAddress::V6(s) => {
            out.push(91);
            append_v6_text(out, s);
            out.push(93);
            assert(final(out)@ =~= old(out)@ + host_text(*ip));
        },
    }
}

/// Text of a socket address without any zone id, as used in `Host:`
/// headers: `a.b.c.d:port` or `[v6]:port`.
pub open spec fn sock_text(sa: SockAddr) -> Seq<u8> {
    match sa {
        SockAddr::V4 { ip, port } => v4_text(ip) + seq![58u8] + dec_digits(port as int),
        SockAddr::V6 { ip, port, scope } => seq![91u8] + v6_text(ip) + seq![93u8, 58u8]
            + dec_digits(port as int),
    }
}

pub fn append_sock_text(out: &mut Vec<u8>, sa: &SockAddr)
    ensures
        final(out)@ == old(out)@ + sock_text(*sa),
{
    match sa {
        SockAddr::V4 { ip, port } => {
            append_v4_text(out, ip);
            out.push(58);
            append_dec_u32(out, *port as u32);
            assert(final(out)@ =~= old(out)@ + sock_text(*sa));
        },
        SockAddr::V6 { ip, port, scope: _ } => {
            out.push(91);
            append_v6_text(out, ip);
            out.push(93);
            out.push(58);
            append_dec_u32(out, *port as u32);
            assert(final(out)@ =~= old(out)@ + sock_text(*sa));
        },
    }
}

} // verus!
