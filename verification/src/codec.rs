//! The SSDP codec: parses inbound datagrams into a tagged message model and
//! renders the outbound NOTIFY, M-SEARCH and search-response texts.
//!
//! A datagram is HTTP-over-UDP text: lines terminated by CRLF, the header
//! section terminated by an empty line. A datagram beginning with `HTTP/` is
//! a response; anything else is a request, and an `M-SEARCH` request must
//! carry `HOST`, `MAN` and `ST` headers (scanned case-insensitively, the
//! last occurrence winning) to parse. Header values have leading spaces and
//! tabs stripped.

use vstd::prelude::*;
use vstd::string::StringSliceAdditionalSpecFns;

use crate::text::{
    append_ascii, append_bytes, ascii, bytes_eq, bytes_eq_ci, copy_range, eq_ci, find_byte,
    find_byte_from,
};

verus! {

/// Ghost model of a parsed M-SEARCH: the three recognized header values.
#[verifier::ext_equal]
pub struct MSearchModel {
    pub host: Seq<u8>,
    pub man: Seq<u8>,
    pub st: Seq<u8>,
}

/// Ghost model of a parsed datagram.
pub enum MessageModel {
    MSearch(MSearchModel),
    OtherRequest,
    Response(Seq<(Seq<u8>, Seq<u8>)>),
}

/// A parsed M-SEARCH request: the values of its `HOST`, `MAN` and `ST`
/// headers, byte for byte (leading whitespace stripped).
pub struct SsdpMSearchRequest {
    pub host: Vec<u8>,
    pub man: Vec<u8>,
    pub st: Vec<u8>,
}

impl View for SsdpMSearchRequest {
    type V = MSearchModel;

    open spec fn view(&self) -> MSearchModel {
        MSearchModel { host: self.host@, man: self.man@, st: self.st@ }
    }
}

/// One parsed header: name and value.
pub struct SsdpHeader {
    pub name: Vec<u8>,
    pub value: Vec<u8>,
}

impl View for SsdpHeader {
    type V = (Seq<u8>, Seq<u8>);

    open spec fn view(&self) -> (Seq<u8>, Seq<u8>) {
        (self.name@, self.value@)
    }
}

impl DeepView for SsdpHeader {
    type V = (Seq<u8>, Seq<u8>);

    open spec fn deep_view(&self) -> (Seq<u8>, Seq<u8>) {
        self@
    }
}

/// A parsed datagram.
pub enum SsdpMessage {
    /// An M-SEARCH probe: the only variant the engine acts on.
    MSearch(SsdpMSearchRequest),
    /// Some other request; ignored.
    OtherRequest,
    /// An HTTP response (another device's reply); ignored.
    Response(Vec<SsdpHeader>),
}

impl View for SsdpMessage {
    type V = MessageModel;

    open spec fn view(&self) -> MessageModel {
        match self {
            SsdpMessage::MSearch(m) => MessageModel::MSearch(m@),
            SsdpMessage::OtherRequest => MessageModel::OtherRequest,
            SsdpMessage::Response(hs) => MessageModel::Response(hs.deep_view()),
        }
    }
}

/// Why a datagram failed to parse.
#[derive(Clone, Copy, Debug, PartialEq, Eq, Structural)]
pub enum ParseError {
    /// Not a CRLF-terminated header section, or a malformed request or
    /// header line.
    Malformed,
    /// An M-SEARCH without all of `HOST`, `MAN` and `ST`.
    MissingHeaders,
}

// ------------------------------------------------------------------
// Specification of parsing
// ------------------------------------------------------------------

/// Splits `s[pos..]` into CRLF-terminated lines up to the first empty line;
/// `cur` accumulates the line under way. `None` when no empty line ends the
/// section.
pub open spec fn split_msg(s: Seq<u8>, pos: int, cur: Seq<u8>) -> Option<Seq<Seq<u8>>>
    decreases s.len() - pos,
{
    if pos < 0 || pos >= s.len() {
        None
    } else if pos + 1 < s.len() && s[pos] == 13 && s[pos + 1] == 10 {
        if cur.len() == 0 {
            Some(seq![])
        } else {
            match split_msg(s, pos + 2, Seq::empty()) {
                Some(rest) => Some(seq![cur] + rest),
                None => None,
            }
        }
    } else {
        split_msg(s, pos + 1, cur.push(s[pos]))
    }
}

/// Strips leading spaces and tabs.
pub open spec fn strip_ws(s: Seq<u8>) -> Seq<u8>
    decreases s.len(),
{
    if s.len() > 0 && (s[0] == 32 || s[0] == 9) {
        strip_ws(s.subrange(1, s.len() as int))
    } else {
        s
    }
}

/// A header line: a non-empty name before the first `:`, then the value.
pub open spec fn header_of(line: Seq<u8>) -> Option<(Seq<u8>, Seq<u8>)> {
    match find_byte_from(line, 58, 0) {
        Some(j) => if j == 0 {
            None
        } else {
            Some((line.subrange(0, j), strip_ws(line.subrange(j + 1, line.len() as int))))
        },
        None => None,
    }
}

/// All lines parsed as headers, in order.
pub open spec fn headers_of(lines: Seq<Seq<u8>>) -> Option<Seq<(Seq<u8>, Seq<u8>)>>
    decreases lines.len(),
{
    if lines.len() == 0 {
        Some(seq![])
    } else {
        match header_of(lines[0]) {
            Some(h) => match headers_of(lines.subrange(1, lines.len() as int)) {
                Some(t) => Some(seq![h] + t),
                None => None,
            },
            None => None,
        }
    }
}

/// The value of the last header whose name equals `name` case-insensitively.
pub open spec fn lookup_last(hs: Seq<(Seq<u8>, Seq<u8>)>, name: Seq<u8>) -> Option<Seq<u8>>
    decreases hs.len(),
{
    if hs.len() == 0 {
        None
    } else if eq_ci(hs.last().0, name) {
        Some(hs.last().1)
    } else {
        lookup_last(hs.drop_last(), name)
    }
}

pub open spec fn starts_with(s: Seq<u8>, p: Seq<u8>) -> bool {
    p.len() <= s.len() && s.subrange(0, p.len() as int) == p
}

/// What parsing a datagram yields.
pub open spec fn spec_parse(s: Seq<u8>) -> Result<MessageModel, ParseError> {
    match split_msg(s, 0, Seq::empty()) {
        None => Err(ParseError::Malformed),
        Some(lines) => if lines.len() == 0 {
            Err(ParseError::Malformed)
        } else {
            match headers_of(lines.subrange(1, lines.len() as int)) {
                None => Err(ParseError::Malformed),
                Some(hs) => if starts_with(s, ascii("HTTP/"@)) {
                    Ok(MessageModel::Response(hs))
                } else {
                    match find_byte_from(lines[0], 32, 0) {
                        None => Err(ParseError::Malformed),
                        Some(j) => if j == 0 {
                            Err(ParseError::Malformed)
                        } else if lines[0].subrange(0, j) == ascii("M-SEARCH"@) {
                            match (
                                lookup_last(hs, ascii("host"@)),
                                lookup_last(hs, ascii("man"@)),
                                lookup_last(hs, ascii("st"@)),
                            ) {
                                (Some(h), Some(m), Some(t)) => Ok(
                                    MessageModel::MSearch(MSearchModel { host: h, man: m, st: t }),
                                ),
                                _ => Err(ParseError::MissingHeaders),
                            }
                        } else {
                            Ok(MessageModel::OtherRequest)
                        },
                    }
                },
            }
        },
    }
}

// ------------------------------------------------------------------
// The executable parser
// ------------------------------------------------------------------

proof fn lemma_bytes_deep(v: Vec<u8>)
    ensures
        v.deep_view() == v@,
{
    assert(v.deep_view() =~= v@);
}

fn split_message(buf: &[u8]) -> (r: Option<Vec<Vec<u8>>>)
    ensures
        r matches Some(v) ==> split_msg(buf@, 0, Seq::empty()) == Some(v.deep_view()),
        r is None ==> split_msg(buf@, 0, Seq::empty()) is None,
{
    let mut lines: Vec<Vec<u8>> = Vec::new();
    let mut cur: Vec<u8> = Vec::new();
    let mut pos: usize = 0;
    proof {
        assert(lines.deep_view() =~= Seq::<Seq<u8>>::empty());
        match split_msg(buf@, 0, Seq::empty()) {
            Some(rest) => {
                assert(lines.deep_view() + rest =~= rest);
            },
            None => {},
        }
    }
    while pos < buf.len()
        invariant
            pos <= buf.len(),
            (split_msg(buf@, pos as int, cur@) matches Some(rest) ==> split_msg(
                buf@,
                0,
                Seq::empty(),
            ) == Some(lines.deep_view() + rest)),
            (split_msg(buf@, pos as int, cur@) is None ==> split_msg(buf@, 0, Seq::empty())
                is None),
        decreases buf.len() - pos,
    {
        if pos + 1 < buf.len() && buf[pos] == 13 && buf[pos + 1] == 10 {
            if cur.len() == 0 {
                proof {
                    assert(split_msg(buf@, pos as int, cur@) == Some(Seq::<Seq<u8>>::empty()));
                    assert(lines.deep_view() + Seq::<Seq<u8>>::empty() =~= lines.deep_view());
                }
                return Some(lines);
            }
            let ghost old_lines = lines.deep_view();
            let ghost old_cur = cur@;
            lines.push(cur);
            cur = Vec::new();
            pos = pos + 2;
            proof {
                lemma_bytes_deep(lines@[lines@.len() - 1]);
                assert(lines.deep_view() =~= old_lines.push(old_cur));
                match split_msg(buf@, pos as int, cur@) {
                    Some(rest) => {
                        assert(old_lines + (seq![old_cur] + rest) =~= lines.deep_view() + rest);
                    },
                    None => {},
                }
            }
        } else {
            let b = buf[pos];
            cur.push(b);
            pos = pos + 1;
        }
    }
    None
}

fn parse_header_line(line: &Vec<u8>) -> (r: Option<SsdpHeader>)
    ensures
        r matches Some(h) ==> header_of(line@) == Some(h@),
        r is None ==> header_of(line@) is None,
{
    let j = match find_byte(line.as_slice(), 58, 0) {
        Some(j) => j,
        None => {
            return None;
        },
    };
    if j == 0 {
        return None;
    }
    let name = copy_range(line.as_slice(), 0, j);
    let len = line.len();
    let mut k: usize = j + 1;
    while k < len && (line[k] == 32 || line[k] == 9)
        invariant
            j + 1 <= k <= len,
            len == line.len(),
            strip_ws(line@.subrange(j + 1, len as int)) == strip_ws(
                line@.subrange(k as int, len as int),
            ),
        decreases len - k,
    {
        proof {
            let s = line@.subrange(k as int, len as int);
            assert(s.subrange(1, s.len() as int) =~= line@.subrange(k + 1, len as int));
        }
        k = k + 1;
    }
    proof {
        let s = line@.subrange(k as int, len as int);
        assert(strip_ws(s) == s);
    }
    let value = copy_range(line.as_slice(), k, len);
    Some(SsdpHeader { name, value })
}

fn parse_headers(lines: &Vec<Vec<u8>>) -> (r: Option<Vec<SsdpHeader>>)
    requires
        lines.len() >= 1,
    ensures
        r matches Some(v) ==> headers_of(
            lines.deep_view().subrange(1, lines.deep_view().len() as int),
        ) == Some(v.deep_view()),
        r is None ==> headers_of(lines.deep_view().subrange(1, lines.deep_view().len() as int))
            is None,
{
    let ghost hlines = lines.deep_view().subrange(1, lines.deep_view().len() as int);
    let mut hs: Vec<SsdpHeader> = Vec::new();
    let mut i: usize = 1;
    proof {
        assert(hs.deep_view() =~= Seq::<(Seq<u8>, Seq<u8>)>::empty());
        match headers_of(hlines) {
            Some(rest) => {
                assert(hs.deep_view() + rest =~= rest);
            },
            None => {},
        }
    }
    while i < lines.len()
        invariant
            1 <= i <= lines.len(),
            hlines == lines.deep_view().subrange(1, lines.deep_view().len() as int),
            (headers_of(lines.deep_view().subrange(i as int, lines.deep_view().len() as int))
                matches Some(rest) ==> headers_of(hlines) == Some(hs.deep_view() + rest)),
            (headers_of(lines.deep_view().subrange(i as int, lines.deep_view().len() as int))
                is None ==> headers_of(hlines) is None),
        decreases lines.len() - i,
    {
        let ghost suffix = lines.deep_view().subrange(i as int, lines.deep_view().len() as int);
        proof {
            lemma_bytes_deep(lines@[i as int]);
            assert(suffix[0] == lines.deep_view()[i as int]);
            assert(suffix.subrange(1, suffix.len() as int) =~= lines.deep_view().subrange(
                i + 1,
                lines.deep_view().len() as int,
            ));
        }
        let h = match parse_header_line(&lines[i]) {
            Some(h) => h,
            None => {
                return None;
            },
        };
        let ghost old_hs = hs.deep_view();
        let ghost hm = h@;
        hs.push(h);
        i = i + 1;
        proof {
            assert(hs.deep_view() =~= old_hs.push(hm));
            match headers_of(lines.deep_view().subrange(i as int, lines.deep_view().len() as int)) {
                Some(rest) => {
                    assert(old_hs + (seq![hm] + rest) =~= hs.deep_view() + rest);
                },
                None => {},
            }
        }
    }
    proof {
        let empty_suffix = lines.deep_view().subrange(i as int, lines.deep_view().len() as int);
        assert(empty_suffix.len() == 0);
        assert(hs.deep_view() + Seq::<(Seq<u8>, Seq<u8>)>::empty() =~= hs.deep_view());
    }
    Some(hs)
}

fn lookup_header(hs: &Vec<SsdpHeader>, name: &[u8]) -> (r: Option<Vec<u8>>)
    ensures
        r matches Some(v) ==> lookup_last(hs.deep_view(), name@) == Some(v@),
        r is None ==> lookup_last(hs.deep_view(), name@) is None,
{
    let mut i: usize = hs.len();
    proof {
        assert(hs.deep_view().subrange(0, i as int) =~= hs.deep_view());
    }
    while i > 0
        invariant
            i <= hs.len(),
            lookup_last(hs.deep_view(), name@) == lookup_last(
                hs.deep_view().subrange(0, i as int),
                name@,
            ),
        decreases i,
    {
        proof {
            let sub = hs.deep_view().subrange(0, i as int);
            assert(sub.last() == hs.deep_view()[i - 1]);
            assert(sub.drop_last() =~= hs.deep_view().subrange(0, i - 1));
        }
        if bytes_eq_ci(hs[i - 1].name.as_slice(), name) {
            let v = &hs[i - 1].value;
            let out = copy_range(v.as_slice(), 0, v.len());
            proof {
                assert(out@ =~= v@);
            }
            return Some(out);
        }
        i = i - 1;
    }
    None
}

/// Parses a datagram. The result agrees with [`spec_parse`] on the bytes.
pub fn try_parse_ssdp(buf: &[u8]) -> (r: Result<SsdpMessage, ParseError>)
    ensures
        r matches Ok(m) ==> spec_parse(buf@) == Ok::<MessageModel, ParseError>(m@),
        r matches Err(e) ==> spec_parse(buf@) == Err::<MessageModel, ParseError>(e),
{
    let lines = match split_message(buf) {
        Some(l) => l,
        None => {
            return Err(ParseError::Malformed);
        },
    };
    if lines.len() == 0 {
        return Err(ParseError::Malformed);
    }
    let hs = match parse_headers(&lines) {
        Some(h) => h,
        None => {
            return Err(ParseError::Malformed);
        },
    };
    let is_response = buf.len() >= 5 && buf[0] == 72 && buf[1] == 84 && buf[2] == 84 && buf[3]
        == 80 && buf[4] == 47;
    proof {
        reveal_strlit("HTTP/");
        let p = ascii("HTTP/"@);
        assert(p.len() == 5 && p[0] == 72 && p[1] == 84 && p[2] == 84 && p[3] == 80 && p[4] == 47);
        if buf@.len() >= 5 {
            assert(buf@.subrange(0, 5)[0] == buf@[0]);
            assert(buf@.subrange(0, 5)[1] == buf@[1]);
            assert(buf@.subrange(0, 5)[2] == buf@[2]);
            assert(buf@.subrange(0, 5)[3] == buf@[3]);
            assert(buf@.subrange(0, 5)[4] == buf@[4]);
            if is_response {
                assert(buf@.subrange(0, 5) =~= p);
            }
        }
        assert(is_response == starts_with(buf@, p));
    }
    if is_response {
        return Ok(SsdpMessage::Response(hs));
    }
    let rl = &lines[0];
    proof {
        lemma_bytes_deep(lines@[0]);
        assert(rl@ == lines.deep_view()[0]);
    }
    let j = match find_byte(rl.as_slice(), 32, 0) {
        Some(j) => j,
        None => {
            return Err(ParseError::Malformed);
        },
    };
    if j == 0 {
        return Err(ParseError::Malformed);
    }
    let method = copy_range(rl.as_slice(), 0, j);
    proof {
        reveal_strlit("M-SEARCH");
        assert("M-SEARCH".is_ascii());
        vstd::string::is_ascii_spec_bytes("M-SEARCH");
        assert("M-SEARCH".spec_bytes() =~= ascii("M-SEARCH"@));
    }
    if !bytes_eq(method.as_slice(), "M-SEARCH".as_bytes()) {
        return Ok(SsdpMessage::OtherRequest);
    }
    proof {
        reveal_strlit("host");
        reveal_strlit("man");
        reveal_strlit("st");
        assert("host".is_ascii());
        assert("man".is_ascii());
        assert("st".is_ascii());
        vstd::string::is_ascii_spec_bytes("host");
        vstd::string::is_ascii_spec_bytes("man");
        vstd::string::is_ascii_spec_bytes("st");
        assert("host".spec_bytes() =~= ascii("host"@));
        assert("man".spec_bytes() =~= ascii("man"@));
        assert("st".spec_bytes() =~= ascii("st"@));
    }
    let host = lookup_header(&hs, "host".as_bytes());
    let man = lookup_header(&hs, "man".as_bytes());
    let st = lookup_header(&hs, "st".as_bytes());
    match (host, man, st) {
        (Some(host), Some(man), Some(st)) => Ok(
            SsdpMessage::MSearch(SsdpMSearchRequest { host, man, st }),
        ),
        _ => Err(ParseError::MissingHeaders),
    }
}

// ------------------------------------------------------------------
// Matching
// ------------------------------------------------------------------

pub open spec fn spec_root_device_kind() -> Seq<u8> {
    ascii("upnp:rootdevice"@)
}

pub open spec fn spec_media_server_kind() -> Seq<u8> {
    ascii("urn:schemas-upnp-org:device:MediaServer:1"@)
}

pub open spec fn spec_discover_man() -> Seq<u8> {
    ascii("\"ssdp:discover\""@)
}

/// A probe asks for this MediaServer iff `MAN` is the quoted
/// `"ssdp:discover"` and `ST` names the root device or a MediaServer.
pub open spec fn spec_matches_media_server(m: MSearchModel) -> bool {
    m.man == spec_discover_man() && (m.st == spec_root_device_kind() || m.st
        == spec_media_server_kind())
}

/// The literal `upnp:rootdevice`.
pub fn upnp_kind_root_device() -> (r: &'static [u8])
    ensures
        r@ == spec_root_device_kind(),
{
    proof {
        reveal_strlit("upnp:rootdevice");
        assert("upnp:rootdevice".is_ascii());
        vstd::string::is_ascii_spec_bytes("upnp:rootdevice");
        assert("upnp:rootdevice".spec_bytes() =~= ascii("upnp:rootdevice"@));
    }
    "upnp:rootdevice".as_bytes()
}

/// The literal `urn:schemas-upnp-org:device:MediaServer:1`.
pub fn upnp_kind_media_server() -> (r: &'static [u8])
    ensures
        r@ == spec_media_server_kind(),
{
    proof {
        reveal_strlit("urn:schemas-upnp-org:device:MediaServer:1");
        assert("urn:schemas-upnp-org:device:MediaServer:1".is_ascii());
        vstd::string::is_ascii_spec_bytes("urn:schemas-upnp-org:device:MediaServer:1");
        assert("urn:schemas-upnp-org:device:MediaServer:1".spec_bytes() =~= ascii(
            "urn:schemas-upnp-org:device:MediaServer:1"@,
        ));
    }
    "urn:schemas-upnp-org:device:MediaServer:1".as_bytes()
}

pub open spec fn spec_nts_alive() -> Seq<u8> {
    ascii("ssdp:alive"@)
}

pub open spec fn spec_nts_byebye() -> Seq<u8> {
    ascii("ssdp:byebye"@)
}

/// The literal `ssdp:alive`.
pub fn nts_alive() -> (r: &'static [u8])
    ensures
        r@ == spec_nts_alive(),
{
    proof {
        reveal_strlit("ssdp:alive");
        assert("ssdp:alive".is_ascii());
        vstd::string::is_ascii_spec_bytes("ssdp:alive");
        assert("ssdp:alive".spec_bytes() =~= ascii("ssdp:alive"@));
    }
    "ssdp:alive".as_bytes()
}

/// The literal `ssdp:byebye`.
pub fn nts_byebye() -> (r: &'static [u8])
    ensures
        r@ == spec_nts_byebye(),
{
    proof {
        reveal_strlit("ssdp:byebye");
        assert("ssdp:byebye".is_ascii());
        vstd::string::is_ascii_spec_bytes("ssdp:byebye");
        assert("ssdp:byebye".spec_bytes() =~= ascii("ssdp:byebye"@));
    }
    "ssdp:byebye".as_bytes()
}

/// The literal `"ssdp:discover"`, quotes included.
pub fn discover_man() -> (r: &'static [u8])
    ensures
        r@ == spec_discover_man(),
{
    proof {
        reveal_strlit("\"ssdp:discover\"");
        assert("\"ssdp:discover\"".is_ascii());
        vstd::string::is_ascii_spec_bytes("\"ssdp:discover\"");
        assert("\"ssdp:discover\"".spec_bytes() =~= ascii("\"ssdp:discover\""@));
    }
    "\"ssdp:discover\"".as_bytes()
}

impl SsdpMSearchRequest {
    /// Whether this probe targets the advertised MediaServer.
    pub fn matches_media_server(&self) -> (r: bool)
        ensures
            r == spec_matches_media_server(self@),
    {
        proof {
            reveal_strlit("\"ssdp:discover\"");
            assert("\"ssdp:discover\"".is_ascii());
            vstd::string::is_ascii_spec_bytes("\"ssdp:discover\"");
            assert("\"ssdp:discover\"".spec_bytes() =~= ascii("\"ssdp:discover\""@));
        }
        if !bytes_eq(self.man.as_slice(), "\"ssdp:discover\"".as_bytes()) {
            return false;
        }
        bytes_eq(self.st.as_slice(), upnp_kind_root_device()) || bytes_eq(
            self.st.as_slice(),
            upnp_kind_media_server(),
        )
    }
}

// ------------------------------------------------------------------
// Formatting
// ------------------------------------------------------------------

/// The NOTIFY advertisement text.
pub open spec fn notify_bytes(
    usn: Seq<u8>,
    server: Seq<u8>,
    host: Seq<u8>,
    location: Seq<u8>,
    kind: Seq<u8>,
    nts: Seq<u8>,
) -> Seq<u8> {
    ascii("NOTIFY * HTTP/1.1\r\nHost: "@) + host + ascii(
        "\r\nCache-Control: max-age=75\r\nLocation: "@,
    ) + location + ascii("\r\nNT: "@) + kind + ascii("\r\nNTS: "@) + nts + ascii("\r\nServer: "@)
        + server + ascii("\r\nUSN: "@) + usn + ascii("::"@) + kind + ascii("\r\n\r\n"@)
}

/// The 200 OK unicast reply to a matching M-SEARCH.
pub open spec fn response_bytes(
    usn: Seq<u8>,
    server: Seq<u8>,
    location: Seq<u8>,
    st: Seq<u8>,
) -> Seq<u8> {
    ascii("HTTP/1.1 200 OK\r\nCache-Control: max-age=75\r\nExt: \r\nLocation: "@) + location
        + ascii("\r\nServer: "@) + server + ascii("\r\nSt: "@) + st + ascii("\r\nUsn: "@) + usn
        + ascii("::"@) + st + ascii("\r\nContent-Length: 0\r\n\r\n"@)
}

/// The M-SEARCH probe text the engine itself sends once at startup.
pub open spec fn msearch_bytes(host: Seq<u8>, st: Seq<u8>, man: Seq<u8>) -> Seq<u8> {
    ascii("M-SEARCH * HTTP/1.1\r\nHOST: "@) + host + ascii("\r\nST: "@) + st + ascii("\r\nMAN: "@)
        + man + ascii("\r\nMX: 2\r\n\r\n"@)
}

/// Renders a NOTIFY advertisement.
pub fn format_notify(
    usn: &[u8],
    server: &[u8],
    host: &[u8],
    location: &[u8],
    kind: &[u8],
    nts: &[u8],
) -> (r: Vec<u8>)
    ensures
        r@ == notify_bytes(usn@, server@, host@, location@, kind@, nts@),
{
    proof {
        reveal_strlit("NOTIFY * HTTP/1.1\r\nHost: ");
        reveal_strlit("\r\nCache-Control: max-age=75\r\nLocation: ");
        reveal_strlit("\r\nNT: ");
        reveal_strlit("\r\nNTS: ");
        reveal_strlit("\r\nServer: ");
        reveal_strlit("\r\nUSN: ");
        reveal_strlit("::");
        reveal_strlit("\r\n\r\n");
    }
    let mut out: Vec<u8> = Vec::new();
    append_ascii(&mut out, "NOTIFY * HTTP/1.1\r\nHost: ");
    append_bytes(&mut out, host);
    append_ascii(&mut out, "\r\nCache-Control: max-age=75\r\nLocation: ");
    append_bytes(&mut out, location);
    append_ascii(&mut out, "\r\nNT: ");
    append_bytes(&mut out, kind);
    append_ascii(&mut out, "\r\nNTS: ");
    append_bytes(&mut out, nts);
    append_ascii(&mut out, "\r\nServer: ");
    append_bytes(&mut out, server);
    append_ascii(&mut out, "\r\nUSN: ");
    append_bytes(&mut out, usn);
    append_ascii(&mut out, "::");
    append_bytes(&mut out, kind);
    append_ascii(&mut out, "\r\n\r\n");
    proof {
        assert(out@ =~= notify_bytes(usn@, server@, host@, location@, kind@, nts@));
    }
    out
}

/// Renders the 200 OK reply to a matching probe.
pub fn format_discover_response(usn: &[u8], server: &[u8], location: &[u8], st: &[u8]) -> (r: Vec<
    u8,
>)
    ensures
        r@ == response_bytes(usn@, server@, location@, st@),
{
    proof {
        reveal_strlit("HTTP/1.1 200 OK\r\nCache-Control: max-age=75\r\nExt: \r\nLocation: ");
        reveal_strlit("\r\nServer: ");
        reveal_strlit("\r\nSt: ");
        reveal_strlit("\r\nUsn: ");
        reveal_strlit("::");
        reveal_strlit("\r\nContent-Length: 0\r\n\r\n");
    }
    let mut out: Vec<u8> = Vec::new();
    append_ascii(&mut out, "HTTP/1.1 200 OK\r\nCache-Control: max-age=75\r\nExt: \r\nLocation: ");
    append_bytes(&mut out, location);
    append_ascii(&mut out, "\r\nServer: ");
    append_bytes(&mut out, server);
    append_ascii(&mut out, "\r\nSt: ");
    append_bytes(&mut out, st);
    append_ascii(&mut out, "\r\nUsn: ");
    append_bytes(&mut out, usn);
    append_ascii(&mut out, "::");
    append_bytes(&mut out, st);
    append_ascii(&mut out, "\r\nContent-Length: 0\r\n\r\n");
    proof {
        assert(out@ =~= response_bytes(usn@, server@, location@, st@));
    }
    out
}

/// Renders the startup M-SEARCH probe.
pub fn format_msearch(host: &[u8], st: &[u8], man: &[u8]) -> (r: Vec<u8>)
    ensures
        r@ == msearch_bytes(host@, st@, man@),
{
    proof {
        reveal_strlit("M-SEARCH * HTTP/1.1\r\nHOST: ");
        reveal_strlit("\r\nST: ");
        reveal_strlit("\r\nMAN: ");
        reveal_strlit("\r\nMX: 2\r\n\r\n");
    }
    let mut out: Vec<u8> = Vec::new();
    append_ascii(&mut out, "M-SEARCH * HTTP/1.1\r\nHOST: ");
    append_bytes(&mut out, host);
    append_ascii(&mut out, "\r\nST: ");
    append_bytes(&mut out, st);
    append_ascii(&mut out, "\r\nMAN: ");
    append_bytes(&mut out, man);
    append_ascii(&mut out, "\r\nMX: 2\r\n\r\n");
    proof {
        assert(out@ =~= msearch_bytes(host@, st@, man@));
    }
    out
}

} // verus!
