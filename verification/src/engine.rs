//! The engine's entry points: enumerate the interface table, plan group
//! memberships, build broadcast passes, and answer inbound datagrams.

use vstd::prelude::*;

use network_interface::NetworkInterfaceConfig;

use crate::codec::{
    response_bytes, spec_matches_media_server, spec_parse, try_parse_ssdp, MessageModel,
    SsdpMessage,
};
use crate::config::{location_bytes, ConfigModel, RunnerConfig};
use crate::iface::{
    pick_local_ip, plan_v4_memberships, plan_v6_memberships, spec_pick_local_ip,
    spec_v4_memberships, spec_v6_memberships, NicAddr, NicInfo, NicModel, V6Membership,
};
use crate::net::IpAddress;
use crate::pass::{build_pass, spec_pass, OutDatagram, PassKind};

verus! {

/// The interface table could not be read.
#[derive(Clone, Copy, Debug, PartialEq, Eq, Structural)]
pub enum InterfaceEnumError {
    Unavailable,
}

/// Relies on `network_interface::NetworkInterface::show` to read the OS
/// interface table; the result depends on the machine's state, so nothing
/// is assumed of the list beyond its shape, which the conversion to
/// [`NicInfo`] carries over field by field.
#[verifier::external_body]
fn list_nics() -> (r: Result<Vec<NicInfo>, InterfaceEnumError>) {
    match network_interface::NetworkInterface::show() {
        Ok(nics) => Ok(nics.into_iter().map(|n| NicInfo {
            index: n.index,
            addrs: n.addr.into_iter().map(|a| match a {
                network_interface::Addr::V4(v) => NicAddr {
                    ip: IpAddress::V4(v.ip.octets()),
                    netmask: v.netmask.map(|m| IpAddress::V4(m.octets())) },
                network_interface::Addr::V6(v) => NicAddr {
                    ip: IpAddress::V6(v.ip.segments()),
                    netmask: v.netmask.map(|m| IpAddress::V6(m.segments())) },
            }).collect() }).collect()),
        Err(_) => Err(InterfaceEnumError::Unavailable),
    }
}

/// What answering a datagram from `peer` yields: the 200 OK response
/// exactly when the datagram parses as an M-SEARCH for this MediaServer
/// and a local address reaching the peer exists, with the description URL
/// rewritten to that address and `St`/`Usn` echoing the probe's `ST`.
pub open spec fn spec_response(
    cfg: ConfigModel,
    nics: Seq<NicModel>,
    buf: Seq<u8>,
    peer: IpAddress,
) -> Option<Seq<u8>> {
    match spec_parse(buf) {
        Ok(MessageModel::MSearch(m)) => if spec_matches_media_server(m) {
            match spec_pick_local_ip(nics, peer) {
                Some(ip) => Some(
                    response_bytes(cfg.usn, cfg.server, location_bytes(cfg, ip), m.st),
                ),
                None => None,
            }
        } else {
            None
        },
        _ => None,
    }
}

/// Answers one inbound datagram against a given interface table: the
/// unicast reply to send back to the peer, or nothing.
pub fn process_incoming_message(
    cfg: &RunnerConfig,
    nics: &Vec<NicInfo>,
    buf: &[u8],
    peer: &IpAddress,
) -> (r: Option<Vec<u8>>)
    ensures
        r matches Some(v) ==> spec_response(cfg@, nics.deep_view(), buf@, *peer) == Some(v@),
        r is None ==> spec_response(cfg@, nics.deep_view(), buf@, *peer) is None,
{
    let m = match try_parse_ssdp(buf) {
        Ok(SsdpMessage::MSearch(m)) => m,
        Ok(_) => {
            return None;
        },
        Err(_) => {
            return None;
        },
    };
    if !m.matches_media_server() {
        return None;
    }
    let ip = match pick_local_ip(nics, peer) {
        Some(ip) => ip,
        None => {
            return None;
        },
    };
    let location = cfg.render_location(&ip);
    Some(
        crate::codec::format_discover_response(
            cfg.usn.as_slice(),
            cfg.server_string.as_slice(),
            location.as_slice(),
            m.st.as_slice(),
        ),
    )
}

/// Reads the interface table and answers one inbound datagram with it.
/// Whatever table the system reports, the reply is the one
/// [`spec_response`] gives for that table.
pub fn respond_to_datagram(cfg: &RunnerConfig, buf: &[u8], peer: &IpAddress) -> (r: Option<Vec<u8>>)
    ensures
        r matches Some(v) ==> exists|nics: Seq<NicModel>|
            spec_response(cfg@, nics, buf@, *peer) == Some(v@),
{
    let nics = match list_nics() {
        Ok(nics) => nics,
        Err(_) => {
            return None;
        },
    };
    let r = process_incoming_message(cfg, &nics, buf, peer);
    proof {
        match &r {
            Some(v) => {
                assert(spec_response(cfg@, nics.deep_view(), buf@, *peer) == Some(v@));
            },
            None => {},
        }
    }
    r
}

/// Reads the interface table and builds one broadcast pass over it.
/// Whatever table the system reports, the pass is exactly
/// [`spec_pass`] of it: one datagram per distinct key, every eligible
/// address covered.
pub fn build_current_pass(cfg: &RunnerConfig, pk: PassKind) -> (r: Result<
    Vec<OutDatagram>,
    InterfaceEnumError,
>)
    ensures
        r matches Ok(v) ==> exists|nics: Seq<NicModel>| v.deep_view() == spec_pass(cfg@, pk, nics),
        r matches Err(e) ==> e == InterfaceEnumError::Unavailable,
{
    let nics = match list_nics() {
        Ok(nics) => nics,
        Err(_) => {
            return Err(InterfaceEnumError::Unavailable);
        },
    };
    let out = build_pass(cfg, pk, &nics);
    proof {
        assert(out.deep_view() == spec_pass(cfg@, pk, nics.deep_view()));
    }
    Ok(out)
}

/// Reads the interface table and plans the IPv4 group memberships for it.
pub fn plan_current_v4_memberships() -> (r: Result<Vec<[u8; 4]>, InterfaceEnumError>)
    ensures
        r matches Ok(v) ==> exists|nics: Seq<NicModel>| v@ == spec_v4_memberships(nics),
{
    let nics = match list_nics() {
        Ok(nics) => nics,
        Err(_) => {
            return Err(InterfaceEnumError::Unavailable);
        },
    };
    let out = plan_v4_memberships(&nics);
    proof {
        assert(out@ == spec_v4_memberships(nics.deep_view()));
    }
    Ok(out)
}

/// Reads the interface table and plans the IPv6 group memberships for it.
pub fn plan_current_v6_memberships() -> (r: Result<Vec<V6Membership>, InterfaceEnumError>)
    ensures
        r matches Ok(v) ==> exists|nics: Seq<NicModel>| v@ == spec_v6_memberships(nics),
{
    let nics = match list_nics() {
        Ok(nics) => nics,
        Err(_) => {
            return Err(InterfaceEnumError::Unavailable);
        },
    };
    let out = plan_v6_memberships(&nics);
    proof {
        assert(out@ == spec_v6_memberships(nics.deep_view()));
    }
    Ok(out)
}

} // verus!
