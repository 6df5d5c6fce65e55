//! One broadcast pass: the datagrams to multicast over every eligible
//! interface address, deduplicated on the `(payload, interface index,
//! destination)` key, exactly one datagram per distinct key.

use vstd::prelude::*;

use crate::codec::{
    discover_man, format_msearch, format_notify, msearch_bytes, notify_bytes, spec_discover_man,
    spec_media_server_kind, spec_nts_alive, spec_nts_byebye, nts_alive, nts_byebye,
    upnp_kind_media_server,
};
use crate::config::{location_bytes, ConfigModel, RunnerConfig};
use crate::iface::{
    mcast_v4, mcast_v6_link_local, mcast_v6_site_local, spec_mcast_v4, spec_mcast_v6_link_local,
    spec_mcast_v6_site_local, NicAddr, NicInfo, NicModel, SSDP_PORT,
};
use crate::net::{
    append_sock_text, eligible, ipv6_is_link_local, sock_text, spec_addr_no_scope, spec_eligible,
    spec_v6_is_link_local, IpAddress, SockAddr,
};
use crate::text::bytes_eq;

verus! {

/// Which burst a pass belongs to.
#[derive(Clone, Copy, Debug, PartialEq, Eq, Structural)]
pub enum PassKind {
    /// Periodic `ssdp:alive` NOTIFY.
    Alive,
    /// Terminal `ssdp:byebye` NOTIFY.
    Byebye,
    /// The one startup M-SEARCH probe.
    Probe,
}

/// Ghost model of one outgoing datagram.
#[verifier::ext_equal]
pub struct DatagramModel {
    pub payload: Seq<u8>,
    pub iface_index: u32,
    pub dest: SockAddr,
    pub local_ip: IpAddress,
}

/// One datagram to send: its bytes, the interface it leaves on (index and
/// local address, for `IP_MULTICAST_IF` and the IPv6 zone), and its
/// destination.
pub struct OutDatagram {
    pub payload: Vec<u8>,
    pub iface_index: u32,
    pub dest: SockAddr,
    pub local_ip: IpAddress,
}

impl View for OutDatagram {
    type V = DatagramModel;

    open spec fn view(&self) -> DatagramModel {
        DatagramModel {
            payload: self.payload@,
            iface_index: self.iface_index,
            dest: self.dest,
            local_ip: self.local_ip,
        }
    }
}

impl DeepView for OutDatagram {
    type V = DatagramModel;

    open spec fn deep_view(&self) -> DatagramModel {
        self@
    }
}

/// The deduplication key: payload bytes, interface index, destination.
pub open spec fn same_key(a: DatagramModel, b: DatagramModel) -> bool {
    a.payload == b.payload && a.iface_index == b.iface_index && a.dest == b.dest
}

pub open spec fn has_key(s: Seq<DatagramModel>, x: DatagramModel) -> bool {
    exists|k: int| 0 <= k < s.len() && #[trigger] same_key(s[k], x)
}

/// The multicast destination for a send from `ip` on interface `index`:
/// the IPv4 group, or the link- or site-local IPv6 group zoned to the
/// interface.
pub open spec fn spec_target_dest(index: u32, ip: IpAddress) -> SockAddr {
    match ip {
        IpAddress::V4(_) => SockAddr::V4 { ip: spec_mcast_v4(), port: SSDP_PORT },
        IpAddress::V6(s) => SockAddr::V6 {
            ip: if spec_v6_is_link_local(s) {
                spec_mcast_v6_link_local()
            } else {
                spec_mcast_v6_site_local()
            },
            port: SSDP_PORT,
            scope: index,
        },
    }
}

/// The bytes sent to one target during a pass.
pub open spec fn pass_payload(cfg: ConfigModel, pk: PassKind, index: u32, ip: IpAddress) -> Seq<
    u8,
> {
    let host = sock_text(spec_addr_no_scope(spec_target_dest(index, ip)));
    match pk {
        PassKind::Alive => notify_bytes(
            cfg.usn,
            cfg.server,
            host,
            location_bytes(cfg, ip),
            spec_media_server_kind(),
            spec_nts_alive(),
        ),
        PassKind::Byebye => notify_bytes(
            cfg.usn,
            cfg.server,
            host,
            location_bytes(cfg, ip),
            spec_media_server_kind(),
            spec_nts_byebye(),
        ),
        PassKind::Probe => msearch_bytes(host, spec_media_server_kind(), spec_discover_man()),
    }
}

pub open spec fn spec_datagram(cfg: ConfigModel, pk: PassKind, index: u32, ip: IpAddress)
    -> DatagramModel {
    DatagramModel {
        payload: pass_payload(cfg, pk, index, ip),
        iface_index: index,
        dest: spec_target_dest(index, ip),
        local_ip: ip,
    }
}

/// The eligible `(interface index, address)` pairs of one interface, in
/// table order.
pub open spec fn nic_pass_items(index: u32, addrs: Seq<NicAddr>) -> Seq<(u32, IpAddress)>
    decreases addrs.len(),
{
    if addrs.len() == 0 {
        Seq::empty()
    } else {
        nic_pass_items(index, addrs.drop_last()) + (if spec_eligible(addrs.last().ip) {
            seq![(index, addrs.last().ip)]
        } else {
            Seq::empty()
        })
    }
}

/// All eligible `(interface index, address)` pairs of the table.
pub open spec fn pass_items(nics: Seq<NicModel>) -> Seq<(u32, IpAddress)>
    decreases nics.len(),
{
    if nics.len() == 0 {
        Seq::empty()
    } else {
        pass_items(nics.drop_last()) + nic_pass_items(nics.last().index, nics.last().addrs)
    }
}

pub open spec fn map_items(cfg: ConfigModel, pk: PassKind, items: Seq<(u32, IpAddress)>) -> Seq<
    DatagramModel,
> {
    items.map_values(|it: (u32, IpAddress)| spec_datagram(cfg, pk, it.0, it.1))
}

/// Keeps the first datagram of each key, in order.
pub open spec fn dedup(items: Seq<DatagramModel>) -> Seq<DatagramModel>
    decreases items.len(),
{
    if items.len() == 0 {
        Seq::empty()
    } else {
        let d = dedup(items.drop_last());
        if has_key(d, items.last()) {
            d
        } else {
            d.push(items.last())
        }
    }
}

/// The datagrams of one broadcast pass over the interface table.
pub open spec fn spec_pass(cfg: ConfigModel, pk: PassKind, nics: Seq<NicModel>) -> Seq<
    DatagramModel,
> {
    dedup(map_items(cfg, pk, pass_items(nics)))
}

// ------------------------------------------------------------------
// Laws of deduplication
// ------------------------------------------------------------------

pub proof fn lemma_dedup_unique(items: Seq<DatagramModel>)
    ensures
        forall|k1: int, k2: int|
            0 <= k1 < k2 < dedup(items).len() ==> !same_key(dedup(items)[k1], dedup(items)[k2]),
    decreases items.len(),
{
    if items.len() > 0 {
        lemma_dedup_unique(items.drop_last());
        let d = dedup(items.drop_last());
        let full = dedup(items);
        if !has_key(d, items.last()) {
            assert forall|k1: int, k2: int| 0 <= k1 < k2 < full.len() implies !same_key(
                full[k1],
                full[k2],
            ) by {
                if k2 == d.len() {
                    assert(!same_key(d[k1], items.last()));
                } else {
                    assert(full[k1] == d[k1] && full[k2] == d[k2]);
                }
            }
        }
    }
}

pub proof fn lemma_dedup_covers(items: Seq<DatagramModel>)
    ensures
        forall|j: int| 0 <= j < items.len() ==> has_key(dedup(items), #[trigger] items[j]),
    decreases items.len(),
{
    if items.len() > 0 {
        lemma_dedup_covers(items.drop_last());
        let prev = items.drop_last();
        let d = dedup(prev);
        let full = dedup(items);
        assert forall|j: int| 0 <= j < items.len() implies has_key(full, #[trigger] items[j]) by {
            if j < items.len() - 1 {
                assert(prev[j] == items[j]);
                assert(has_key(d, prev[j]));
                let k = choose|k: int| 0 <= k < d.len() && #[trigger] same_key(d[k], prev[j]);
                assert(full[k] == d[k]);
                assert(same_key(full[k], items[j]));
            } else {
                if has_key(d, items.last()) {
                    let k = choose|k: int|
                        0 <= k < d.len() && #[trigger] same_key(d[k], items.last());
                    assert(full[k] == d[k]);
                    assert(same_key(full[k], items[j]));
                } else {
                    assert(full[d.len() as int] == items.last());
                    assert(same_key(full[d.len() as int], items[j]));
                }
            }
        }
    }
}

// ------------------------------------------------------------------
// The executable pass builder
// ------------------------------------------------------------------

fn sock_eq(a: &SockAddr, b: &SockAddr) -> (r: bool)
    ensures
        r == (*a == *b),
{
    match (a, b) {
        (SockAddr::V4 { ip: ai, port: ap }, SockAddr::V4 { ip: bi, port: bp }) => {
            let e = ai[0] == bi[0] && ai[1] == bi[1] && ai[2] == bi[2] && ai[3] == bi[3] && ap
                == bp;
            proof {
                if e {
                    assert(*ai =~= *bi);
                }
            }
            e
        },
        (
            SockAddr::V6 { ip: ai, port: ap, scope: asc },
            SockAddr::V6 { ip: bi, port: bp, scope: bsc },
        ) => {
            let e = ai[0] == bi[0] && ai[1] == bi[1] && ai[2] == bi[2] && ai[3] == bi[3] && ai[4]
                == bi[4] && ai[5] == bi[5] && ai[6] == bi[6] && ai[7] == bi[7] && ap == bp && asc
                == bsc;
            proof {
                if e {
                    assert(*ai =~= *bi);
                }
            }
            e
        },
        _ => false,
    }
}

fn pass_has_key(out: &Vec<OutDatagram>, d: &OutDatagram) -> (r: bool)
    ensures
        r == has_key(out.deep_view(), d@),
{
    let mut k: usize = 0;
    while k < out.len()
        invariant
            k <= out.len(),
            forall|m: int| 0 <= m < k ==> !same_key(out.deep_view()[m], d@),
        decreases out.len() - k,
    {
        let c = &out[k];
        if c.iface_index == d.iface_index && sock_eq(&c.dest, &d.dest) && bytes_eq(
            c.payload.as_slice(),
            d.payload.as_slice(),
        ) {
            proof {
                assert(same_key(out.deep_view()[k as int], d@));
            }
            return true;
        }
        k = k + 1;
    }
    false
}

/// Builds the single datagram for one target.
fn make_datagram(cfg: &RunnerConfig, pk: PassKind, index: u32, ip: IpAddress) -> (d: OutDatagram)
    ensures
        d@ == spec_datagram(cfg@, pk, index, ip),
{
    let dest = match ip {
        IpAddress::V4(_) => SockAddr::V4 { ip: mcast_v4(), port: SSDP_PORT },
        IpAddress::V6(s) => SockAddr::V6 {
            ip: if ipv6_is_link_local(&s) {
                mcast_v6_link_local()
            } else {
                mcast_v6_site_local()
            },
            port: SSDP_PORT,
            scope: index,
        },
    };
    let no_scope = dest.addr_no_scope();
    let mut host: Vec<u8> = Vec::new();
    append_sock_text(&mut host, &no_scope);
    let payload = match pk {
        PassKind::Alive => {
            let location = cfg.render_location(&ip);
            format_notify(
                cfg.usn.as_slice(),
                cfg.server_string.as_slice(),
                host.as_slice(),
                location.as_slice(),
                upnp_kind_media_server(),
                nts_alive(),
            )
        },
        PassKind::Byebye => {
            let location = cfg.render_location(&ip);
            format_notify(
                cfg.usn.as_slice(),
                cfg.server_string.as_slice(),
                host.as_slice(),
                location.as_slice(),
                upnp_kind_media_server(),
                nts_byebye(),
            )
        },
        PassKind::Probe => format_msearch(host.as_slice(), upnp_kind_media_server(), discover_man()),
    };
    OutDatagram { payload, iface_index: index, dest, local_ip: ip }
}

/// Builds one broadcast pass: one datagram per eligible interface address,
/// with duplicate `(payload, interface index, destination)` keys dropped.
pub fn build_pass(cfg: &RunnerConfig, pk: PassKind, nics: &Vec<NicInfo>) -> (out: Vec<OutDatagram>)
    ensures
        out.deep_view() == spec_pass(cfg@, pk, nics.deep_view()),
{
    let mut out: Vec<OutDatagram> = Vec::new();
    proof {
        assert(pass_items(nics.deep_view().subrange(0, 0)) =~= Seq::<(u32, IpAddress)>::empty());
        assert(map_items(cfg@, pk, Seq::empty()) =~= Seq::<DatagramModel>::empty());
        assert(out.deep_view() =~= dedup(
            map_items(cfg@, pk, pass_items(nics.deep_view().subrange(0, 0))),
        ));
    }
    let mut i: usize = 0;
    while i < nics.len()
        invariant
            i <= nics.len(),
            out.deep_view() == dedup(
                map_items(cfg@, pk, pass_items(nics.deep_view().subrange(0, i as int))),
            ),
        decreases nics.len() - i,
    {
        let nic = &nics[i];
        let index = nic.index;
        let mut j: usize = 0;
        proof {
            assert(nic_pass_items(index, nic.addrs@.subrange(0, 0)) =~= Seq::<(
                u32,
                IpAddress,
            )>::empty());
            assert(pass_items(nics.deep_view().subrange(0, i as int)) + Seq::<(
                u32,
                IpAddress,
            )>::empty() =~= pass_items(nics.deep_view().subrange(0, i as int)));
        }
        while j < nic.addrs.len()
            invariant
                i < nics.len(),
                j <= nic.addrs.len(),
                nic == nics@[i as int],
                index == nic.index,
                out.deep_view() == dedup(
                    map_items(
                        cfg@,
                        pk,
                        pass_items(nics.deep_view().subrange(0, i as int)) + nic_pass_items(
                            index,
                            nic.addrs@.subrange(0, j as int),
                        ),
                    ),
                ),
            decreases nic.addrs.len() - j,
        {
            let ghost items = pass_items(nics.deep_view().subrange(0, i as int)) + nic_pass_items(
                index,
                nic.addrs@.subrange(0, j as int),
            );
            let a = nic.addrs[j];
            proof {
                let sub = nic.addrs@.subrange(0, j + 1);
                assert(sub.drop_last() =~= nic.addrs@.subrange(0, j as int));
                assert(sub.last() == nic.addrs@[j as int]);
            }
            if eligible(&a.ip) {
                let d = make_datagram(cfg, pk, index, a.ip);
                let ghost items2 = items.push((index, a.ip));
                proof {
                    assert(pass_items(nics.deep_view().subrange(0, i as int)) + nic_pass_items(
                        index,
                        nic.addrs@.subrange(0, j + 1),
                    ) =~= items2);
                    assert(map_items(cfg@, pk, items2) =~= map_items(cfg@, pk, items).push(d@));
                    assert(map_items(cfg@, pk, items).push(d@).drop_last() =~= map_items(
                        cfg@,
                        pk,
                        items,
                    ));
                }
                if !pass_has_key(&out, &d) {
                    let ghost old_out = out.deep_view();
                    out.push(d);
                    proof {
                        assert(out.deep_view() =~= old_out.push(
                            map_items(cfg@, pk, items).push(d@).last(),
                        ));
                    }
                }
            } else {
                proof {
                    assert(pass_items(nics.deep_view().subrange(0, i as int)) + nic_pass_items(
                        index,
                        nic.addrs@.subrange(0, j + 1),
                    ) =~= items);
                }
            }
            j = j + 1;
        }
        i = i + 1;
        proof {
            let sub = nics.deep_view().subrange(0, i as int);
            assert(sub.drop_last() =~= nics.deep_view().subrange(0, i - 1));
            assert(sub.last() == nics.deep_view()[i - 1]);
            assert(nic.addrs@.subrange(0, nic.addrs@.len() as int) =~= nic.addrs@);
            assert(pass_items(nics.deep_view().subrange(0, i - 1)) + nic_pass_items(
                index,
                nic.addrs@,
            ) =~= pass_items(sub));
        }
    }
    proof {
        assert(nics.deep_view().subrange(0, nics.deep_view().len() as int) =~= nics.deep_view());
    }
    out
}

// ------------------------------------------------------------------
// Laws of a pass
// ------------------------------------------------------------------

/// No two datagrams of one pass share the `(payload, interface index,
/// destination)` key.
pub proof fn lemma_pass_unique(cfg: ConfigModel, pk: PassKind, nics: Seq<NicModel>)
    ensures
        forall|k1: int, k2: int|
            0 <= k1 < k2 < spec_pass(cfg, pk, nics).len() ==> !same_key(
                spec_pass(cfg, pk, nics)[k1],
                spec_pass(cfg, pk, nics)[k2],
            ),
{
    lemma_dedup_unique(map_items(cfg, pk, pass_items(nics)));
}

proof fn lemma_nic_pass_items_complete(index: u32, addrs: Seq<NicAddr>)
    ensures
        forall|j: int|
            0 <= j < addrs.len() && spec_eligible((#[trigger] addrs[j]).ip) ==> nic_pass_items(
                index,
                addrs,
            ).contains((index, addrs[j].ip)),
    decreases addrs.len(),
{
    if addrs.len() > 0 {
        lemma_nic_pass_items_complete(index, addrs.drop_last());
        let prev = addrs.drop_last();
        let full = nic_pass_items(index, addrs);
        let part = nic_pass_items(index, prev);
        assert forall|j: int|
            0 <= j < addrs.len() && spec_eligible((#[trigger] addrs[j]).ip) implies full.contains(
            (index, addrs[j].ip),
        ) by {
            if j < addrs.len() - 1 {
                assert(prev[j] == addrs[j]);
                assert(part.contains((index, prev[j].ip)));
                let m = choose|m: int| 0 <= m < part.len() && part[m] == (index, prev[j].ip);
                assert(full[m] == part[m]);
                assert(full.contains((index, addrs[j].ip)));
            } else {
                assert(full[part.len() as int] == (index, addrs.last().ip));
                assert(full.contains((index, addrs[j].ip)));
            }
        }
    }
}

proof fn lemma_pass_items_complete(nics: Seq<NicModel>)
    ensures
        forall|i: int, j: int|
            0 <= i < nics.len() && 0 <= j < nics[i].addrs.len() && spec_eligible(
                (#[trigger] nics[i].addrs[j]).ip,
            ) ==> pass_items(nics).contains((nics[i].index, nics[i].addrs[j].ip)),
    decreases nics.len(),
{
    if nics.len() > 0 {
        lemma_pass_items_complete(nics.drop_last());
        let prev = nics.drop_last();
        let full = pass_items(nics);
        let part = pass_items(prev);
        let tail = nic_pass_items(nics.last().index, nics.last().addrs);
        assert forall|i: int, j: int|
            0 <= i < nics.len() && 0 <= j < nics[i].addrs.len() && spec_eligible(
                (#[trigger] nics[i].addrs[j]).ip,
            ) implies full.contains((nics[i].index, nics[i].addrs[j].ip)) by {
            if i < nics.len() - 1 {
                assert(prev[i] == nics[i]);
                assert(part.contains((prev[i].index, prev[i].addrs[j].ip)));
                let m = choose|m: int|
                    0 <= m < part.len() && part[m] == (prev[i].index, prev[i].addrs[j].ip);
                assert(full[m] == part[m]);
                assert(full.contains((nics[i].index, nics[i].addrs[j].ip)));
            } else {
                lemma_nic_pass_items_complete(nics.last().index, nics.last().addrs);
                assert(tail.contains((nics.last().index, nics.last().addrs[j].ip)));
                let m = choose|m: int|
                    0 <= m < tail.len() && tail[m] == (nics.last().index, nics.last().addrs[j].ip);
                assert(full[part.len() + m] == tail[m]);
                assert(full.contains((nics[i].index, nics[i].addrs[j].ip)));
            }
        }
    }
}

proof fn lemma_dedup_sound(items: Seq<DatagramModel>)
    ensures
        forall|k: int|
            0 <= k < dedup(items).len() ==> items.contains(#[trigger] dedup(items)[k]),
    decreases items.len(),
{
    if items.len() > 0 {
        lemma_dedup_sound(items.drop_last());
        let prev = items.drop_last();
        let d = dedup(prev);
        let full = dedup(items);
        assert forall|k: int| 0 <= k < full.len() implies items.contains(#[trigger] full[k]) by {
            if k < d.len() {
                assert(full[k] == d[k]);
                assert(prev.contains(d[k]));
                let m = choose|m: int| 0 <= m < prev.len() && prev[m] == d[k];
                assert(items[m] == prev[m]);
                assert(items.contains(full[k]));
            } else {
                assert(full[k] == items[items.len() - 1]);
                assert(items.contains(full[k]));
            }
        }
    }
}

/// Whether an `(interface index, address)` pair names an eligible address
/// of this interface.
pub open spec fn addr_item_of(index: u32, addrs: Seq<NicAddr>, it: (u32, IpAddress)) -> bool {
    exists|j: int|
        0 <= j < addrs.len() && spec_eligible((#[trigger] addrs[j]).ip) && it == (
            index,
            addrs[j].ip,
        )
}

/// Whether an `(interface index, address)` pair names an eligible address
/// of the table.
pub open spec fn from_eligible_addr(nics: Seq<NicModel>, it: (u32, IpAddress)) -> bool {
    exists|i: int, j: int|
        0 <= i < nics.len() && 0 <= j < nics[i].addrs.len() && spec_eligible(
            (#[trigger] nics[i].addrs[j]).ip,
        ) && it == (nics[i].index, nics[i].addrs[j].ip)
}

proof fn lemma_nic_pass_items_sound(index: u32, addrs: Seq<NicAddr>)
    ensures
        forall|m: int|
            0 <= m < nic_pass_items(index, addrs).len() ==> addr_item_of(
                index,
                addrs,
                #[trigger] nic_pass_items(index, addrs)[m],
            ),
    decreases addrs.len(),
{
    if addrs.len() > 0 {
        lemma_nic_pass_items_sound(index, addrs.drop_last());
        let prev = addrs.drop_last();
        let part = nic_pass_items(index, prev);
        let full = nic_pass_items(index, addrs);
        assert forall|m: int| 0 <= m < full.len() implies addr_item_of(
            index,
            addrs,
            #[trigger] full[m],
        ) by {
            if m < part.len() {
                assert(full[m] == part[m]);
                assert(addr_item_of(index, prev, part[m]));
                let j = choose|j: int|
                    0 <= j < prev.len() && spec_eligible((#[trigger] prev[j]).ip) && part[m] == (
                        index,
                        prev[j].ip,
                    );
                assert(addrs[j] == prev[j]);
                assert(addr_item_of(index, addrs, full[m]));
            } else {
                assert(spec_eligible(addrs.last().ip));
                assert(full[m] == (index, addrs[addrs.len() - 1].ip));
                assert(addr_item_of(index, addrs, full[m]));
            }
        }
    }
}

proof fn lemma_pass_items_sound(nics: Seq<NicModel>)
    ensures
        forall|m: int|
            0 <= m < pass_items(nics).len() ==> from_eligible_addr(
                nics,
                #[trigger] pass_items(nics)[m],
            ),
    decreases nics.len(),
{
    if nics.len() > 0 {
        lemma_pass_items_sound(nics.drop_last());
        let prev = nics.drop_last();
        let part = pass_items(prev);
        let tail = nic_pass_items(nics.last().index, nics.last().addrs);
        let full = pass_items(nics);
        assert forall|m: int| 0 <= m < full.len() implies from_eligible_addr(
            nics,
            #[trigger] full[m],
        ) by {
            if m < part.len() {
                assert(full[m] == part[m]);
                assert(from_eligible_addr(prev, part[m]));
                let (i, j) = choose|i: int, j: int|
                    0 <= i < prev.len() && 0 <= j < prev[i].addrs.len() && spec_eligible(
                        (#[trigger] prev[i].addrs[j]).ip,
                    ) && part[m] == (prev[i].index, prev[i].addrs[j].ip);
                assert(nics[i] == prev[i]);
                assert(from_eligible_addr(nics, full[m]));
            } else {
                lemma_nic_pass_items_sound(nics.last().index, nics.last().addrs);
                assert(full[m] == tail[m - part.len()]);
                assert(addr_item_of(nics.last().index, nics.last().addrs, tail[m - part.len()]));
                let j = choose|j: int|
                    0 <= j < nics.last().addrs.len() && spec_eligible(
                        (#[trigger] nics.last().addrs[j]).ip,
                    ) && tail[m - part.len()] == (nics.last().index, nics.last().addrs[j].ip);
                assert(nics[nics.len() - 1] == nics.last());
                assert(from_eligible_addr(nics, full[m]));
            }
        }
    }
}

/// Every datagram of a pass goes out on an eligible interface address of
/// the table: the engine never advertises on a loopback or otherwise
/// excluded address.
pub proof fn lemma_pass_sound(cfg: ConfigModel, pk: PassKind, nics: Seq<NicModel>)
    ensures
        forall|k: int|
            0 <= k < spec_pass(cfg, pk, nics).len() ==> exists|it: (u32, IpAddress)|
                from_eligible_addr(nics, it) && #[trigger] spec_pass(cfg, pk, nics)[k]
                    == spec_datagram(cfg, pk, it.0, it.1),
{
    let items = pass_items(nics);
    let mapped = map_items(cfg, pk, items);
    lemma_dedup_sound(mapped);
    lemma_pass_items_sound(nics);
    let full = spec_pass(cfg, pk, nics);
    assert forall|k: int| 0 <= k < full.len() implies exists|it: (u32, IpAddress)|
        from_eligible_addr(nics, it) && #[trigger] full[k] == spec_datagram(
            cfg,
            pk,
            it.0,
            it.1,
        ) by {
        assert(mapped.contains(full[k]));
        let m = choose|m: int| 0 <= m < mapped.len() && mapped[m] == full[k];
        let it = items[m];
        assert(mapped[m] == spec_datagram(cfg, pk, it.0, it.1));
        assert(from_eligible_addr(nics, it));
        assert(from_eligible_addr(nics, it) && full[k] == spec_datagram(cfg, pk, it.0, it.1));
    }
}

/// Every eligible interface address is covered by a pass: some datagram of
/// the pass carries exactly the key of that address's target.
pub proof fn lemma_pass_covers(cfg: ConfigModel, pk: PassKind, nics: Seq<NicModel>)
    ensures
        forall|i: int, j: int|
            0 <= i < nics.len() && 0 <= j < nics[i].addrs.len() && spec_eligible(
                (#[trigger] nics[i].addrs[j]).ip,
            ) ==> has_key(
                spec_pass(cfg, pk, nics),
                spec_datagram(cfg, pk, nics[i].index, nics[i].addrs[j].ip),
            ),
{
    lemma_pass_items_complete(nics);
    let items = pass_items(nics);
    let mapped = map_items(cfg, pk, items);
    lemma_dedup_covers(mapped);
    assert forall|i: int, j: int|
        0 <= i < nics.len() && 0 <= j < nics[i].addrs.len() && spec_eligible(
            (#[trigger] nics[i].addrs[j]).ip,
        ) implies has_key(
        spec_pass(cfg, pk, nics),
        spec_datagram(cfg, pk, nics[i].index, nics[i].addrs[j].ip),
    ) by {
        let pair = (nics[i].index, nics[i].addrs[j].ip);
        assert(items.contains(pair));
        let m = choose|m: int| 0 <= m < items.len() && items[m] == pair;
        assert(mapped[m] == spec_datagram(cfg, pk, pair.0, pair.1));
        assert(has_key(dedup(mapped), mapped[m]));
    }
}

} // verus!
