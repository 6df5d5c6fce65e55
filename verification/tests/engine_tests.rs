use upnp_serve::config::RunnerConfig;
use upnp_serve::engine::{
    build_current_pass, plan_current_v4_memberships, plan_current_v6_memberships,
    process_incoming_message, respond_to_datagram,
};
use upnp_serve::iface::{plan_v4_memberships, plan_v6_memberships, NicAddr, NicInfo};
use upnp_serve::net::{
    append_host_text, append_sock_text, append_v4_text, append_v6_text, ipv6_is_link_local,
    IpAddress, SockAddr,
};
use upnp_serve::pass::{build_pass, PassKind};
use upnp_serve::shutdown::ShutdownGate;

fn config() -> RunnerConfig {
    RunnerConfig {
        usn: b"uuid:abc".to_vec(),
        server_string: b"Linux/6 UPnP/1.1 X/1".to_vec(),
        location_prefix: b"http://".to_vec(),
        location_suffix: b":8200/dev.xml".to_vec(),
        notify_interval_ms: 60_000,
    }
}

fn lan_nics() -> Vec<NicInfo> {
    vec![NicInfo {
        index: 2,
        addrs: vec![NicAddr {
            ip: IpAddress::V4([192, 168, 1, 10]),
            netmask: Some(IpAddress::V4([255, 255, 255, 0])),
        }],
    }]
}

#[test]
fn discovery_match_emits_exact_response() {
    let cfg = config();
    let nics = lan_nics();
    let probe = b"M-SEARCH * HTTP/1.1\r\nHOST: 239.255.255.250:1900\r\nMAN: \"ssdp:discover\"\r\nMX: 2\r\nST: urn:schemas-upnp-org:device:MediaServer:1\r\n\r\n";
    let peer = IpAddress::V4([192, 168, 1, 50]);
    let r = process_incoming_message(&cfg, &nics, probe, &peer).expect("a reply is owed");
    let expected = b"HTTP/1.1 200 OK\r\nCache-Control: max-age=75\r\nExt: \r\nLocation: http://192.168.1.10:8200/dev.xml\r\nServer: Linux/6 UPnP/1.1 X/1\r\nSt: urn:schemas-upnp-org:device:MediaServer:1\r\nUsn: uuid:abc::urn:schemas-upnp-org:device:MediaServer:1\r\nContent-Length: 0\r\n\r\n";
    assert_eq!(r, expected.to_vec());
}

#[test]
fn non_matching_st_draws_no_reply() {
    let cfg = config();
    let nics = lan_nics();
    let probe = b"M-SEARCH * HTTP/1.1\r\nHOST: 239.255.255.250:1900\r\nMAN: \"ssdp:discover\"\r\nMX: 2\r\nST: urn:schemas-upnp-org:device:Printer:1\r\n\r\n";
    let peer = IpAddress::V4([192, 168, 1, 50]);
    assert!(process_incoming_message(&cfg, &nics, probe, &peer).is_none());
}

#[test]
fn unquoted_man_draws_no_reply() {
    let cfg = config();
    let nics = lan_nics();
    let probe = b"M-SEARCH * HTTP/1.1\r\nHOST: 239.255.255.250:1900\r\nMAN: ssdp:discover\r\nMX: 2\r\nST: upnp:rootdevice\r\n\r\n";
    let peer = IpAddress::V4([192, 168, 1, 50]);
    assert!(process_incoming_message(&cfg, &nics, probe, &peer).is_none());
}

#[test]
fn missing_st_draws_no_reply() {
    let cfg = config();
    let nics = lan_nics();
    let probe = b"M-SEARCH * HTTP/1.1\r\nHOST: 239.255.255.250:1900\r\nMAN: \"ssdp:discover\"\r\nMX: 2\r\n\r\n";
    let peer = IpAddress::V4([192, 168, 1, 50]);
    assert!(process_incoming_message(&cfg, &nics, probe, &peer).is_none());
}

#[test]
fn peer_off_subnet_draws_no_reply() {
    let cfg = config();
    let nics = lan_nics();
    let probe = b"M-SEARCH * HTTP/1.1\r\nHOST: 239.255.255.250:1900\r\nMAN: \"ssdp:discover\"\r\nMX: 2\r\nST: upnp:rootdevice\r\n\r\n";
    let peer = IpAddress::V4([10, 9, 9, 9]);
    assert!(process_incoming_message(&cfg, &nics, probe, &peer).is_none());
}

#[test]
fn alive_pass_covers_both_interfaces() {
    let cfg = config();
    let nics = vec![
        NicInfo {
            index: 2,
            addrs: vec![NicAddr { ip: IpAddress::V4([192, 168, 1, 10]), netmask: None }],
        },
        NicInfo {
            index: 3,
            addrs: vec![NicAddr { ip: IpAddress::V4([10, 0, 0, 5]), netmask: None }],
        },
    ];
    let pass = build_pass(&cfg, PassKind::Alive, &nics);
    assert_eq!(pass.len(), 2);
    let p0 = String::from_utf8(pass[0].payload.clone()).unwrap();
    let p1 = String::from_utf8(pass[1].payload.clone()).unwrap();
    assert!(p0.contains("NTS: ssdp:alive\r\n"));
    assert!(p1.contains("NTS: ssdp:alive\r\n"));
    assert!(p0.contains("Location: http://192.168.1.10:8200/dev.xml\r\n"));
    assert!(p1.contains("Location: http://10.0.0.5:8200/dev.xml\r\n"));
    assert!(p0.contains("Host: 239.255.255.250:1900\r\n"));
    assert_eq!(pass[0].iface_index, 2);
    assert_eq!(pass[1].iface_index, 3);
    assert_eq!(pass[0].dest, SockAddr::V4 { ip: [239, 255, 255, 250], port: 1900 });
}

#[test]
fn duplicate_keys_are_sent_once() {
    let cfg = config();
    let addr = NicAddr { ip: IpAddress::V4([192, 168, 1, 10]), netmask: None };
    let nics = vec![NicInfo { index: 2, addrs: vec![addr, addr] }];
    let pass = build_pass(&cfg, PassKind::Alive, &nics);
    assert_eq!(pass.len(), 1);
}

#[test]
fn loopback_and_public_v4_are_excluded() {
    let cfg = config();
    let nics = vec![NicInfo {
        index: 1,
        addrs: vec![
            NicAddr { ip: IpAddress::V4([127, 0, 0, 1]), netmask: None },
            NicAddr { ip: IpAddress::V4([8, 8, 8, 8]), netmask: None },
        ],
    }];
    let pass = build_pass(&cfg, PassKind::Alive, &nics);
    assert!(pass.is_empty());
}

#[test]
fn byebye_pass_says_byebye() {
    let cfg = config();
    let nics = lan_nics();
    let pass = build_pass(&cfg, PassKind::Byebye, &nics);
    assert_eq!(pass.len(), 1);
    let p = String::from_utf8(pass[0].payload.clone()).unwrap();
    assert!(p.contains("NTS: ssdp:byebye\r\n"));
}

#[test]
fn v6_pass_targets_scoped_groups() {
    let cfg = config();
    let nics = vec![NicInfo {
        index: 7,
        addrs: vec![
            NicAddr {
                ip: IpAddress::V6([0xfe80, 0, 0, 0, 0, 0, 0, 1]),
                netmask: None,
            },
            NicAddr {
                ip: IpAddress::V6([0x2001, 0xdb8, 0, 0, 0, 0, 0, 1]),
                netmask: None,
            },
        ],
    }];
    let pass = build_pass(&cfg, PassKind::Alive, &nics);
    assert_eq!(pass.len(), 2);
    assert_eq!(
        pass[0].dest,
        SockAddr::V6 { ip: [0xff02, 0, 0, 0, 0, 0, 0, 0xc], port: 1900, scope: 7 },
    );
    assert_eq!(
        pass[1].dest,
        SockAddr::V6 { ip: [0xff05, 0, 0, 0, 0, 0, 0, 0xc], port: 1900, scope: 7 },
    );
    let p0 = String::from_utf8(pass[0].payload.clone()).unwrap();
    assert!(p0.contains("Host: [ff02::c]:1900\r\n"));
    assert!(p0.contains("Location: http://[fe80::1]:8200/dev.xml\r\n"));
}

#[test]
fn probe_pass_formats_msearch() {
    let cfg = config();
    let nics = lan_nics();
    let pass = build_pass(&cfg, PassKind::Probe, &nics);
    assert_eq!(pass.len(), 1);
    let expected = b"M-SEARCH * HTTP/1.1\r\nHOST: 239.255.255.250:1900\r\nST: urn:schemas-upnp-org:device:MediaServer:1\r\nMAN: \"ssdp:discover\"\r\nMX: 2\r\n\r\n";
    assert_eq!(pass[0].payload, expected.to_vec());
}

#[test]
fn v4_membership_plan_starts_unspecified() {
    let nics = vec![NicInfo {
        index: 1,
        addrs: vec![
            NicAddr { ip: IpAddress::V4([192, 168, 1, 10]), netmask: None },
            NicAddr { ip: IpAddress::V4([127, 0, 0, 1]), netmask: None },
            NicAddr { ip: IpAddress::V4([8, 8, 8, 8]), netmask: None },
        ],
    }];
    let plan = plan_v4_memberships(&nics);
    assert_eq!(plan, vec![[0, 0, 0, 0], [192, 168, 1, 10]]);
}

#[test]
fn v6_membership_plan_joins_per_scope() {
    let nics = vec![
        NicInfo {
            index: 4,
            addrs: vec![NicAddr {
                ip: IpAddress::V6([0xfe80, 0, 0, 0, 0, 0, 0, 1]),
                netmask: None,
            }],
        },
        NicInfo {
            index: 5,
            addrs: vec![NicAddr {
                ip: IpAddress::V6([0x2001, 0xdb8, 0, 0, 0, 0, 0, 1]),
                netmask: None,
            }],
        },
        NicInfo {
            index: 6,
            addrs: vec![NicAddr {
                ip: IpAddress::V6([0, 0, 0, 0, 0, 0, 0, 1]),
                netmask: None,
            }],
        },
    ];
    let plan = plan_v6_memberships(&nics);
    assert_eq!(plan.len(), 2);
    assert_eq!(plan[0].index, 4);
    assert_eq!(plan[0].group, [0xff02, 0, 0, 0, 0, 0, 0, 0xc]);
    assert_eq!(plan[1].index, 5);
    assert_eq!(plan[1].group, [0xff05, 0, 0, 0, 0, 0, 0, 0xc]);
}

#[test]
fn shutdown_claims_byebye_exactly_once() {
    let mut gate = ShutdownGate::new();
    assert!(gate.claim_byebye());
    assert!(!gate.claim_byebye());
    assert!(!gate.claim_byebye());
}

#[test]
fn link_local_classification() {
    assert!(ipv6_is_link_local(&[0xfe80, 0, 0, 0, 0, 0, 0, 1]));
    assert!(!ipv6_is_link_local(&[0xfe80, 0, 0, 1, 0, 0, 0, 1]));
    assert!(!ipv6_is_link_local(&[0x2001, 0xdb8, 0, 0, 0, 0, 0, 1]));
}

#[test]
fn v4_text_renders_dotted_quad() {
    let mut out: Vec<u8> = Vec::new();
    append_v4_text(&mut out, &[192, 168, 1, 10]);
    assert_eq!(out, b"192.168.1.10".to_vec());
}

#[test]
fn v6_text_compresses_longest_leftmost_zero_run() {
    let cases: Vec<([u16; 8], &str)> = vec![
        ([0xff02, 0, 0, 0, 0, 0, 0, 0xc], "ff02::c"),
        ([0xfe80, 0, 0, 0, 0, 0, 0, 1], "fe80::1"),
        ([0, 0, 0, 0, 0, 0, 0, 1], "::1"),
        ([0, 0, 0, 0, 0, 0, 0, 0], "::"),
        ([1, 0, 0, 2, 0, 0, 0, 3], "1:0:0:2::3"),
        ([1, 0, 0, 2, 0, 0, 3, 4], "1::2:0:0:3:4"),
        ([1, 2, 3, 4, 5, 6, 7, 8], "1:2:3:4:5:6:7:8"),
        ([0x2001, 0xdb8, 0, 1, 1, 1, 1, 1], "2001:db8:0:1:1:1:1:1"),
    ];
    for (segs, expected) in cases {
        let mut out: Vec<u8> = Vec::new();
        append_v6_text(&mut out, &segs);
        assert_eq!(String::from_utf8(out).unwrap(), expected, "segments {:?}", segs);
    }
}

#[test]
fn sock_text_drops_the_zone() {
    let sa = SockAddr::V6 { ip: [0xff02, 0, 0, 0, 0, 0, 0, 0xc], port: 1900, scope: 7 };
    let mut out: Vec<u8> = Vec::new();
    append_sock_text(&mut out, &sa.addr_no_scope());
    assert_eq!(out, b"[ff02::c]:1900".to_vec());
    let mut out2: Vec<u8> = Vec::new();
    append_host_text(&mut out2, &IpAddress::V4([10, 0, 0, 5]));
    assert_eq!(out2, b"10.0.0.5".to_vec());
}

#[test]
fn v6_peer_routes_by_prefix() {
    let cfg = config();
    let nics = vec![NicInfo {
        index: 9,
        addrs: vec![NicAddr {
            ip: IpAddress::V6([0xfe80, 0, 0, 0, 0, 0, 0, 0x10]),
            netmask: Some(IpAddress::V6([0xffff, 0xffff, 0xffff, 0xffff, 0, 0, 0, 0])),
        }],
    }];
    let probe = b"M-SEARCH * HTTP/1.1\r\nHOST: [ff02::c]:1900\r\nMAN: \"ssdp:discover\"\r\nMX: 1\r\nST: upnp:rootdevice\r\n\r\n";
    let peer = IpAddress::V6([0xfe80, 0, 0, 0, 0, 0, 0, 0x99]);
    let r = process_incoming_message(&cfg, &nics, probe, &peer).expect("a reply is owed");
    let text = String::from_utf8(r).unwrap();
    assert!(text.contains("Location: http://[fe80::10]:8200/dev.xml\r\n"));
    assert!(text.contains("St: upnp:rootdevice\r\n"));
    assert!(text.contains("Usn: uuid:abc::upnp:rootdevice\r\n"));
}

#[test]
fn live_interface_table_plans_are_consistent() {
    if let Ok(plan) = plan_current_v4_memberships() {
        assert!(!plan.is_empty());
        assert_eq!(plan[0], [0, 0, 0, 0]);
    }
    let _ = plan_current_v6_memberships();
    let cfg = config();
    if let Ok(pass) = build_current_pass(&cfg, PassKind::Alive) {
        for a in 0..pass.len() {
            for b in (a + 1)..pass.len() {
                let same = pass[a].payload == pass[b].payload
                    && pass[a].iface_index == pass[b].iface_index
                    && pass[a].dest == pass[b].dest;
                assert!(!same, "duplicate key in one pass");
            }
        }
    }
    let probe = b"M-SEARCH * HTTP/1.1\r\nHOST: 239.255.255.250:1900\r\nMAN: \"ssdp:discover\"\r\nMX: 2\r\nST: upnp:rootdevice\r\n\r\n";
    if let Some(r) = respond_to_datagram(&cfg, probe, &IpAddress::V4([192, 168, 1, 50])) {
        assert!(r.starts_with(b"HTTP/1.1 200 OK\r\n"));
    }
}
