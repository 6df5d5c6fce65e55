//! The interface table as plain values, eligibility of addresses for
//! advertising, the multicast groups to join per interface, and the routing
//! helper that picks the local address a peer is reached from.

use vstd::prelude::*;

use crate::net::{
    eligible, spec_eligible, spec_v4_is_loopback, spec_v4_is_private, spec_v6_is_link_local,
    spec_v6_is_loopback, v4_is_loopback, v4_is_private, v6_is_loopback, ipv6_is_link_local,
    IpAddress,
};

verus! {

/// One address of a network interface, with its netmask when the system
/// reports one.
#[derive(Clone, Copy, Debug)]
pub struct NicAddr {
    pub ip: IpAddress,
    pub netmask: Option<IpAddress>,
}

/// Ghost model of one interface.
#[verifier::ext_equal]
pub struct NicModel {
    pub index: u32,
    pub addrs: Seq<NicAddr>,
}

/// One network interface: its OS index and its addresses.
pub struct NicInfo {
    pub index: u32,
    pub addrs: Vec<NicAddr>,
}

impl View for NicInfo {
    type V = NicModel;

    open spec fn view(&self) -> NicModel {
        NicModel { index: self.index, addrs: self.addrs@ }
    }
}

impl DeepView for NicInfo {
    type V = NicModel;

    open spec fn deep_view(&self) -> NicModel {
        self@
    }
}

// ------------------------------------------------------------------
// Multicast groups
// ------------------------------------------------------------------

pub open spec fn spec_mcast_v4() -> [u8; 4] {
    [239u8, 255, 255, 250]
}

pub open spec fn spec_mcast_v6_link_local() -> [u16; 8] {
    [0xff02u16, 0, 0, 0, 0, 0, 0, 0xc]
}

pub open spec fn spec_mcast_v6_site_local() -> [u16; 8] {
    [0xff05u16, 0, 0, 0, 0, 0, 0, 0xc]
}

pub const SSDP_PORT: u16 = 1900;

/// The IPv4 SSDP multicast group, 239.255.255.250.
pub fn mcast_v4() -> (r: [u8; 4])
    ensures
        r == spec_mcast_v4(),
{
    [239u8, 255, 255, 250]
}

/// The link-local IPv6 SSDP multicast group, ff02::c.
pub fn mcast_v6_link_local() -> (r: [u16; 8])
    ensures
        r == spec_mcast_v6_link_local(),
{
    [0xff02u16, 0, 0, 0, 0, 0, 0, 0xc]
}

/// The site-local IPv6 SSDP multicast group, ff05::c.
pub fn mcast_v6_site_local() -> (r: [u16; 8])
    ensures
        r == spec_mcast_v6_site_local(),
{
    [0xff05u16, 0, 0, 0, 0, 0, 0, 0xc]
}

// ------------------------------------------------------------------
// Membership plans
// ------------------------------------------------------------------

/// The IPv4 addresses of one interface that warrant a group membership:
/// private and not loopback.
pub open spec fn nic_v4_members(addrs: Seq<NicAddr>) -> Seq<[u8; 4]>
    decreases addrs.len(),
{
    if addrs.len() == 0 {
        Seq::empty()
    } else {
        nic_v4_members(addrs.drop_last()) + (match addrs.last().ip {
            IpAddress::V4(o) => if spec_v4_is_private(o) && !spec_v4_is_loopback(o) {
                seq![o]
            } else {
                Seq::empty()
            },
            IpAddress::V6(_) => Seq::empty(),
        })
    }
}

pub open spec fn all_v4_members(nics: Seq<NicModel>) -> Seq<[u8; 4]>
    decreases nics.len(),
{
    if nics.len() == 0 {
        Seq::empty()
    } else {
        all_v4_members(nics.drop_last()) + nic_v4_members(nics.last().addrs)
    }
}

/// The interface addresses on which to join 239.255.255.250: the
/// unspecified address first (the kernel picks a NIC), then every private
/// non-loopback IPv4 address.
pub open spec fn spec_v4_memberships(nics: Seq<NicModel>) -> Seq<[u8; 4]> {
    seq![[0u8, 0, 0, 0]] + all_v4_members(nics)
}

/// Plans the IPv4 multicast memberships.
pub fn plan_v4_memberships(nics: &Vec<NicInfo>) -> (r: Vec<[u8; 4]>)
    ensures
        r@ == spec_v4_memberships(nics.deep_view()),
{
    let mut out: Vec<[u8; 4]> = Vec::new();
    out.push([0u8, 0, 0, 0]);
    proof {
        assert(out@ =~= seq![[0u8, 0, 0, 0]] + all_v4_members(
            nics.deep_view().subrange(0, 0),
        ));
    }
    let mut i: usize = 0;
    while i < nics.len()
        invariant
            i <= nics.len(),
            out@ == seq![[0u8, 0, 0, 0]] + all_v4_members(nics.deep_view().subrange(0, i as int)),
        decreases nics.len() - i,
    {
        let nic = &nics[i];
        let mut j: usize = 0;
        while j < nic.addrs.len()
            invariant
                i < nics.len(),
                j <= nic.addrs.len(),
                nic == nics@[i as int],
                out@ == seq![[0u8, 0, 0, 0]] + all_v4_members(nics.deep_view().subrange(0, i as int))
                    + nic_v4_members(nic.addrs@.subrange(0, j as int)),
            decreases nic.addrs.len() - j,
        {
            let a = nic.addrs[j];
            match a.ip {
                IpAddress::V4(o) => {
                    if v4_is_private(&o) && !v4_is_loopback(&o) {
                        out.push(o);
                    }
                },
                IpAddress::V6(_) => {},
            }
            j = j + 1;
            proof {
                let sub = nic.addrs@.subrange(0, j as int);
                assert(sub.drop_last() =~= nic.addrs@.subrange(0, j - 1));
                assert(sub.last() == nic.addrs@[j - 1]);
                assert(out@ =~= seq![[0u8, 0, 0, 0]] + all_v4_members(
                    nics.deep_view().subrange(0, i as int),
                ) + nic_v4_members(sub));
            }
        }
        i = i + 1;
        proof {
            let sub = nics.deep_view().subrange(0, i as int);
            assert(sub.drop_last() =~= nics.deep_view().subrange(0, i - 1));
            assert(sub.last() == nics.deep_view()[i - 1]);
            assert(nic.addrs@.subrange(0, nic.addrs@.len() as int) =~= nic.addrs@);
            assert(out@ =~= seq![[0u8, 0, 0, 0]] + all_v4_members(sub));
        }
    }
    proof {
        assert(nics.deep_view().subrange(0, nics.deep_view().len() as int) =~= nics.deep_view());
    }
    out
}

/// One planned IPv6 group membership: the group to join on the interface
/// with this index.
#[derive(Clone, Copy, Debug)]
pub struct V6Membership {
    pub index: u32,
    pub group: [u16; 8],
}

/// Whether some address of the interface is a non-loopback link-local IPv6
/// address.
pub open spec fn nic_has_v6_link_local(addrs: Seq<NicAddr>) -> bool {
    exists|k: int|
        0 <= k < addrs.len() && ((#[trigger] addrs[k]).ip matches IpAddress::V6(s)
            && !spec_v6_is_loopback(s) && spec_v6_is_link_local(s))
}

/// Whether some address of the interface is a non-loopback IPv6 address
/// that is not link-local.
pub open spec fn nic_has_v6_site_local(addrs: Seq<NicAddr>) -> bool {
    exists|k: int|
        0 <= k < addrs.len() && ((#[trigger] addrs[k]).ip matches IpAddress::V6(s)
            && !spec_v6_is_loopback(s) && !spec_v6_is_link_local(s))
}

pub open spec fn nic_v6_members(nic: NicModel) -> Seq<V6Membership> {
    (if nic_has_v6_link_local(nic.addrs) {
        seq![V6Membership { index: nic.index, group: spec_mcast_v6_link_local() }]
    } else {
        Seq::empty()
    }) + (if nic_has_v6_site_local(nic.addrs) {
        seq![V6Membership { index: nic.index, group: spec_mcast_v6_site_local() }]
    } else {
        Seq::empty()
    })
}

/// The IPv6 memberships to join: per interface, ff02::c when it has a
/// link-local address and ff05::c when it has any other non-loopback
/// address.
pub open spec fn spec_v6_memberships(nics: Seq<NicModel>) -> Seq<V6Membership>
    decreases nics.len(),
{
    if nics.len() == 0 {
        Seq::empty()
    } else {
        spec_v6_memberships(nics.drop_last()) + nic_v6_members(nics.last())
    }
}

fn nic_v6_flags(addrs: &Vec<NicAddr>) -> (r: (bool, bool))
    ensures
        r.0 == nic_has_v6_link_local(addrs@),
        r.1 == nic_has_v6_site_local(addrs@),
{
    let mut has_ll = false;
    let mut has_sl = false;
    let mut k: usize = 0;
    while k < addrs.len()
        invariant
            k <= addrs.len(),
            has_ll == exists|m: int|
                0 <= m < k && ((#[trigger] addrs@[m]).ip matches IpAddress::V6(s)
                    && !spec_v6_is_loopback(s) && spec_v6_is_link_local(s)),
            has_sl == exists|m: int|
                0 <= m < k && ((#[trigger] addrs@[m]).ip matches IpAddress::V6(s)
                    && !spec_v6_is_loopback(s) && !spec_v6_is_link_local(s)),
        decreases addrs.len() - k,
    {
        let a = addrs[k];
        match a.ip {
            IpAddress::V6(s) => {
                if !v6_is_loopback(&s) {
                    if ipv6_is_link_local(&s) {
                        has_ll = true;
                    } else {
                        has_sl = true;
                    }
                }
            },
            IpAddress::V4(_) => {},
        }
        k = k + 1;
    }
    (has_ll, has_sl)
}

/// Plans the IPv6 multicast memberships.
pub fn plan_v6_memberships(nics: &Vec<NicInfo>) -> (r: Vec<V6Membership>)
    ensures
        r@ == spec_v6_memberships(nics.deep_view()),
{
    let mut out: Vec<V6Membership> = Vec::new();
    let mut i: usize = 0;
    proof {
        assert(out@ =~= spec_v6_memberships(nics.deep_view().subrange(0, 0)));
    }
    while i < nics.len()
        invariant
            i <= nics.len(),
            out@ == spec_v6_memberships(nics.deep_view().subrange(0, i as int)),
        decreases nics.len() - i,
    {
        let nic = &nics[i];
        let (has_ll, has_sl) = nic_v6_flags(&nic.addrs);
        if has_ll {
            out.push(V6Membership { index: nic.index, group: mcast_v6_link_local() });
        }
        if has_sl {
            out.push(V6Membership { index: nic.index, group: mcast_v6_site_local() });
        }
        i = i + 1;
        proof {
            let sub = nics.deep_view().subrange(0, i as int);
            assert(sub.drop_last() =~= nics.deep_view().subrange(0, i - 1));
            assert(sub.last() == nics.deep_view()[i - 1]);
            assert(out@ =~= spec_v6_memberships(sub));
        }
    }
    proof {
        assert(nics.deep_view().subrange(0, nics.deep_view().len() as int) =~= nics.deep_view());
    }
    out
}

// ------------------------------------------------------------------
// Routing: the local address a peer is reached from
// ------------------------------------------------------------------

pub open spec fn mask_match_v4(a: [u8; 4], m: [u8; 4], p: [u8; 4]) -> bool {
    (a@[0] & m@[0]) == (p@[0] & m@[0]) && (a@[1] & m@[1]) == (p@[1] & m@[1]) && (a@[2] & m@[2])
        == (p@[2] & m@[2]) && (a@[3] & m@[3]) == (p@[3] & m@[3])
}

pub open spec fn mask_match_v6(a: [u16; 8], m: [u16; 8], p: [u16; 8]) -> bool {
    (a@[0] & m@[0]) == (p@[0] & m@[0]) && (a@[1] & m@[1]) == (p@[1] & m@[1]) && (a@[2] & m@[2])
        == (p@[2] & m@[2]) && (a@[3] & m@[3]) == (p@[3] & m@[3]) && (a@[4] & m@[4]) == (p@[4]
        & m@[4]) && (a@[5] & m@[5]) == (p@[5] & m@[5]) && (a@[6] & m@[6]) == (p@[6] & m@[6]) && (
    a@[7] & m@[7]) == (p@[7] & m@[7])
}

/// Whether this interface address lies on the same subnet as the peer (and
/// is eligible for advertising at all).
pub open spec fn addr_reaches(na: NicAddr, peer: IpAddress) -> bool {
    spec_eligible(na.ip) && match (na.ip, na.netmask, peer) {
        (IpAddress::V4(a), Some(IpAddress::V4(m)), IpAddress::V4(p)) => mask_match_v4(a, m, p),
        (IpAddress::V6(a), Some(IpAddress::V6(m)), IpAddress::V6(p)) => mask_match_v6(a, m, p),
        _ => false,
    }
}

pub open spec fn pick_from_addrs(addrs: Seq<NicAddr>, peer: IpAddress) -> Option<IpAddress>
    decreases addrs.len(),
{
    if addrs.len() == 0 {
        None
    } else if addr_reaches(addrs[0], peer) {
        Some(addrs[0].ip)
    } else {
        pick_from_addrs(addrs.subrange(1, addrs.len() as int), peer)
    }
}

/// The local address used to reach `peer`: the first eligible interface
/// address on the same subnet, in table order.
pub open spec fn spec_pick_local_ip(nics: Seq<NicModel>, peer: IpAddress) -> Option<IpAddress>
    decreases nics.len(),
{
    if nics.len() == 0 {
        None
    } else {
        match pick_from_addrs(nics[0].addrs, peer) {
            Some(ip) => Some(ip),
            None => spec_pick_local_ip(nics.subrange(1, nics.len() as int), peer),
        }
    }
}

fn addr_reaches_exec(na: &NicAddr, peer: &IpAddress) -> (r: bool)
    ensures
        r == addr_reaches(*na, *peer),
{
    if !eligible(&na.ip) {
        return false;
    }
    match (na.ip, na.netmask, peer) {
        (IpAddress::V4(a), Some(IpAddress::V4(m)), IpAddress::V4(p)) => {
            (a[0] & m[0]) == (p[0] & m[0]) && (a[1] & m[1]) == (p[1] & m[1]) && (a[2] & m[2]) == (
            p[2] & m[2]) && (a[3] & m[3]) == (p[3] & m[3])
        },
        (IpAddress::V6(a), Some(IpAddress::V6(m)), IpAddress::V6(p)) => {
            (a[0] & m[0]) == (p[0] & m[0]) && (a[1] & m[1]) == (p[1] & m[1]) && (a[2] & m[2]) == (
            p[2] & m[2]) && (a[3] & m[3]) == (p[3] & m[3]) && (a[4] & m[4]) == (p[4] & m[4]) && (
            a[5] & m[5]) == (p[5] & m[5]) && (a[6] & m[6]) == (p[6] & m[6]) && (a[7] & m[7]) == (
            p[7] & m[7])
        },
        _ => false,
    }
}

fn pick_from_addrs_exec(addrs: &Vec<NicAddr>, peer: &IpAddress) -> (r: Option<IpAddress>)
    ensures
        r == pick_from_addrs(addrs@, *peer),
{
    let mut j: usize = 0;
    proof {
        assert(addrs@.subrange(0, addrs@.len() as int) =~= addrs@);
    }
    while j < addrs.len()
        invariant
            j <= addrs.len(),
            pick_from_addrs(addrs@, *peer) == pick_from_addrs(
                addrs@.subrange(j as int, addrs@.len() as int),
                *peer,
            ),
        decreases addrs.len() - j,
    {
        let a = addrs[j];
        proof {
            let sub = addrs@.subrange(j as int, addrs@.len() as int);
            assert(sub[0] == addrs@[j as int]);
            assert(sub.subrange(1, sub.len() as int) =~= addrs@.subrange(
                j + 1,
                addrs@.len() as int,
            ));
        }
        if addr_reaches_exec(&a, peer) {
            return Some(a.ip);
        }
        j = j + 1;
    }
    None
}

/// Picks the local address a unicast packet to `peer` would leave from.
pub fn pick_local_ip(nics: &Vec<NicInfo>, peer: &IpAddress) -> (r: Option<IpAddress>)
    ensures
        r == spec_pick_local_ip(nics.deep_view(), *peer),
{
    let mut i: usize = 0;
    proof {
        assert(nics.deep_view().subrange(0, nics.deep_view().len() as int) =~= nics.deep_view());
    }
    while i < nics.len()
        invariant
            i <= nics.len(),
            spec_pick_local_ip(nics.deep_view(), *peer) == spec_pick_local_ip(
                nics.deep_view().subrange(i as int, nics.deep_view().len() as int),
                *peer,
            ),
        decreases nics.len() - i,
    {
        proof {
            let sub = nics.deep_view().subrange(i as int, nics.deep_view().len() as int);
            assert(sub[0] == nics.deep_view()[i as int]);
            assert(sub.subrange(1, sub.len() as int) =~= nics.deep_view().subrange(
                i + 1,
                nics.deep_view().len() as int,
            ));
        }
        let nic = &nics[i];
        if let Some(ip) = pick_from_addrs_exec(&nic.addrs, peer) {
            return Some(ip);
        }
        i = i + 1;
    }
    None
}

} // verus!
