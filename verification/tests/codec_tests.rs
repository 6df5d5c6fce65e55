use upnp_serve::codec::{
    format_discover_response, format_msearch, format_notify, try_parse_ssdp, ParseError,
    SsdpMessage,
};

fn parse_msearch(buf: &[u8]) -> upnp_serve::codec::SsdpMSearchRequest {
    match try_parse_ssdp(buf) {
        Ok(SsdpMessage::MSearch(m)) => m,
        other => panic!("expected an M-SEARCH, got {:?}", other.is_ok()),
    }
}

#[test]
fn parses_msearch_with_all_headers() {
    let buf = b"M-SEARCH * HTTP/1.1\r\nHOST: 239.255.255.250:1900\r\nMAN: \"ssdp:discover\"\r\nMX: 2\r\nST: urn:schemas-upnp-org:device:MediaServer:1\r\n\r\n";
    let m = parse_msearch(buf);
    assert_eq!(m.host, b"239.255.255.250:1900".to_vec());
    assert_eq!(m.man, b"\"ssdp:discover\"".to_vec());
    assert_eq!(m.st, b"urn:schemas-upnp-org:device:MediaServer:1".to_vec());
    assert!(m.matches_media_server());
}

#[test]
fn header_names_are_case_insensitive() {
    let buf = b"M-SEARCH * HTTP/1.1\r\nhost: x\r\nman: \"ssdp:discover\"\r\nst: upnp:rootdevice\r\n\r\n";
    let m = parse_msearch(buf);
    assert_eq!(m.host, b"x".to_vec());
    assert_eq!(m.st, b"upnp:rootdevice".to_vec());
    assert!(m.matches_media_server());
}

#[test]
fn last_header_occurrence_wins() {
    let buf = b"M-SEARCH * HTTP/1.1\r\nHOST: a\r\nHOST: b\r\nMAN: m\r\nST: s\r\n\r\n";
    let m = parse_msearch(buf);
    assert_eq!(m.host, b"b".to_vec());
}

#[test]
fn missing_st_is_missing_headers() {
    let buf = b"M-SEARCH * HTTP/1.1\r\nHOST: 239.255.255.250:1900\r\nMAN: \"ssdp:discover\"\r\nMX: 2\r\n\r\n";
    assert!(matches!(try_parse_ssdp(buf), Err(ParseError::MissingHeaders)));
}

#[test]
fn unterminated_message_is_malformed() {
    let buf = b"M-SEARCH * HTTP/1.1\r\nHOST: x\r\n";
    assert!(matches!(try_parse_ssdp(buf), Err(ParseError::Malformed)));
}

#[test]
fn header_line_without_colon_is_malformed() {
    let buf = b"M-SEARCH * HTTP/1.1\r\nnocolonhere\r\n\r\n";
    assert!(matches!(try_parse_ssdp(buf), Err(ParseError::Malformed)));
}

#[test]
fn http_response_is_ignored_variant() {
    let buf = b"HTTP/1.1 200 OK\r\nSt: upnp:rootdevice\r\n\r\n";
    match try_parse_ssdp(buf) {
        Ok(SsdpMessage::Response(hs)) => {
            assert_eq!(hs.len(), 1);
            assert_eq!(hs[0].name, b"St".to_vec());
            assert_eq!(hs[0].value, b"upnp:rootdevice".to_vec());
        },
        _ => panic!("expected a response"),
    }
}

#[test]
fn notify_request_is_other_request() {
    let buf = b"NOTIFY * HTTP/1.1\r\nHOST: 239.255.255.250:1900\r\n\r\n";
    assert!(matches!(try_parse_ssdp(buf), Ok(SsdpMessage::OtherRequest)));
}

#[test]
fn unquoted_man_does_not_match() {
    let buf = b"M-SEARCH * HTTP/1.1\r\nHOST: x\r\nMAN: ssdp:discover\r\nST: upnp:rootdevice\r\n\r\n";
    let m = parse_msearch(buf);
    assert!(!m.matches_media_server());
}

#[test]
fn printer_st_does_not_match() {
    let buf = b"M-SEARCH * HTTP/1.1\r\nHOST: x\r\nMAN: \"ssdp:discover\"\r\nST: urn:schemas-upnp-org:device:Printer:1\r\n\r\n";
    let m = parse_msearch(buf);
    assert!(!m.matches_media_server());
}

#[test]
fn notify_text_is_exact() {
    let r = format_notify(
        b"uuid:abc",
        b"Linux/6 UPnP/1.1 X/1",
        b"239.255.255.250:1900",
        b"http://192.168.1.10:8200/dev.xml",
        b"urn:schemas-upnp-org:device:MediaServer:1",
        b"ssdp:alive",
    );
    let expected = b"NOTIFY * HTTP/1.1\r\nHost: 239.255.255.250:1900\r\nCache-Control: max-age=75\r\nLocation: http://192.168.1.10:8200/dev.xml\r\nNT: urn:schemas-upnp-org:device:MediaServer:1\r\nNTS: ssdp:alive\r\nServer: Linux/6 UPnP/1.1 X/1\r\nUSN: uuid:abc::urn:schemas-upnp-org:device:MediaServer:1\r\n\r\n";
    assert_eq!(r, expected.to_vec());
}

#[test]
fn discover_response_text_is_exact() {
    let r = format_discover_response(
        b"uuid:abc",
        b"Linux/6 UPnP/1.1 X/1",
        b"http://192.168.1.10:8200/dev.xml",
        b"urn:schemas-upnp-org:device:MediaServer:1",
    );
    let expected = b"HTTP/1.1 200 OK\r\nCache-Control: max-age=75\r\nExt: \r\nLocation: http://192.168.1.10:8200/dev.xml\r\nServer: Linux/6 UPnP/1.1 X/1\r\nSt: urn:schemas-upnp-org:device:MediaServer:1\r\nUsn: uuid:abc::urn:schemas-upnp-org:device:MediaServer:1\r\nContent-Length: 0\r\n\r\n";
    assert_eq!(r, expected.to_vec());
}

#[test]
fn msearch_format_parse_round_trip() {
    let host = b"239.255.255.250:1900";
    let st = b"urn:schemas-upnp-org:device:MediaServer:1";
    let man = b"\"ssdp:discover\"";
    let formatted = format_msearch(host, st, man);
    let expected = b"M-SEARCH * HTTP/1.1\r\nHOST: 239.255.255.250:1900\r\nST: urn:schemas-upnp-org:device:MediaServer:1\r\nMAN: \"ssdp:discover\"\r\nMX: 2\r\n\r\n";
    assert_eq!(formatted, expected.to_vec());
    let m = parse_msearch(&formatted);
    assert_eq!(m.host, host.to_vec());
    assert_eq!(m.man, man.to_vec());
    assert_eq!(m.st, st.to_vec());
}

#[test]
fn value_whitespace_is_stripped() {
    let buf = b"M-SEARCH * HTTP/1.1\r\nHOST:   spaced\r\nMAN: m\r\nST: s\r\n\r\n";
    let m = parse_msearch(buf);
    assert_eq!(m.host, b"spaced".to_vec());
}
