//! Laws relating the codec's formatter and parser: what parsing gives back
//! of a message the engine itself formatted, and exactly when a datagram
//! draws a response.

use vstd::prelude::*;

use crate::codec::{
    header_of, headers_of, lookup_last, msearch_bytes, response_bytes, spec_matches_media_server,
    spec_parse, split_msg, starts_with, strip_ws, MSearchModel, MessageModel,
};
use crate::config::{location_bytes, ConfigModel};
use crate::engine::spec_response;
use crate::iface::{spec_pick_local_ip, NicModel};
use crate::net::IpAddress;
use crate::text::{ascii, eq_ci, find_byte_from, lower_bytes};

verus! {

/// A line the splitter gives back whole: non-empty and free of CR.
pub open spec fn line_ok(l: Seq<u8>) -> bool {
    l.len() > 0 && forall|k: int| 0 <= k < l.len() ==> (#[trigger] l[k]) != 13
}

/// A header value the parser echoes byte for byte: free of CR and LF, and
/// not starting with the whitespace the parser strips.
pub open spec fn header_value_ok(v: Seq<u8>) -> bool {
    (forall|k: int| 0 <= k < v.len() ==> (#[trigger] v[k]) != 13 && v[k] != 10) && (v.len() == 0
        || (v[0] != 32 && v[0] != 9))
}

/// The header section formed by these lines: each followed by CRLF, then
/// the empty terminating line.
pub open spec fn join_crlf(lines: Seq<Seq<u8>>) -> Seq<u8>
    decreases lines.len(),
{
    if lines.len() == 0 {
        seq![13u8, 10u8]
    } else {
        lines[0] + seq![13u8, 10u8] + join_crlf(lines.subrange(1, lines.len() as int))
    }
}

proof fn lemma_find_byte_prefix(s: Seq<u8>, b: u8, pos: int, j: int)
    requires
        0 <= pos <= j < s.len(),
        s[j] == b,
        forall|k: int| pos <= k < j ==> s[k] != b,
    ensures
        find_byte_from(s, b, pos) == Some(j),
    decreases j - pos,
{
    if pos < j {
        lemma_find_byte_prefix(s, b, pos + 1, j);
    }
}

proof fn lemma_split_line(s: Seq<u8>, pos: int, cur: Seq<u8>, j: int)
    requires
        0 <= pos <= j,
        j + 1 < s.len(),
        s[j] == 13,
        s[j + 1] == 10,
        forall|k: int| pos <= k < j ==> s[k] != 13,
    ensures
        split_msg(s, pos, cur) == (if cur.len() + (j - pos) == 0 {
            Some(Seq::<Seq<u8>>::empty())
        } else {
            match split_msg(s, j + 2, Seq::<u8>::empty()) {
                Some(rest) => Some(seq![cur + s.subrange(pos, j)] + rest),
                None => None::<Seq<Seq<u8>>>,
            }
        }),
    decreases j - pos,
{
    if pos == j {
        assert(cur + s.subrange(pos, j) =~= cur);
    } else {
        assert(s[pos] != 13);
        lemma_split_line(s, pos + 1, cur.push(s[pos]), j);
        assert(cur.push(s[pos]) + s.subrange(pos + 1, j) =~= cur + s.subrange(pos, j));
    }
}

proof fn lemma_split_suffix(s: Seq<u8>, pos: int, cur: Seq<u8>)
    requires
        0 <= pos <= s.len(),
    ensures
        split_msg(s, pos, cur) == split_msg(s.subrange(pos, s.len() as int), 0, cur),
    decreases s.len() - pos,
{
    let t = s.subrange(pos, s.len() as int);
    if pos >= s.len() {
    } else if pos + 1 < s.len() && s[pos] == 13 && s[pos + 1] == 10 {
        if cur.len() == 0 {
        } else {
            lemma_split_suffix(s, pos + 2, Seq::empty());
            lemma_split_suffix(t, 2, Seq::empty());
            assert(t.subrange(2, t.len() as int) =~= s.subrange(pos + 2, s.len() as int));
        }
    } else {
        lemma_split_suffix(s, pos + 1, cur.push(s[pos]));
        lemma_split_suffix(t, 1, cur.push(s[pos]));
        assert(t.subrange(1, t.len() as int) =~= s.subrange(pos + 1, s.len() as int));
    }
}

proof fn lemma_split_join(lines: Seq<Seq<u8>>)
    requires
        forall|i: int| 0 <= i < lines.len() ==> line_ok(#[trigger] lines[i]),
    ensures
        split_msg(join_crlf(lines), 0, Seq::empty()) == Some(lines),
    decreases lines.len(),
{
    let s = join_crlf(lines);
    if lines.len() == 0 {
        assert(s == seq![13u8, 10u8]);
        assert(s[0] == 13 && s[1] == 10);
        assert(split_msg(s, 0, Seq::empty()) == Some(Seq::<Seq<u8>>::empty()));
        assert(lines =~= Seq::<Seq<u8>>::empty());
    } else {
        let l0 = lines[0];
        let tail = lines.subrange(1, lines.len() as int);
        let rest = join_crlf(tail);
        let j = l0.len() as int;
        assert(s == l0 + seq![13u8, 10u8] + rest);
        assert(s.len() == j + 2 + rest.len());
        assert((l0 + seq![13u8, 10u8])[j] == 13);
        assert((l0 + seq![13u8, 10u8])[j + 1] == 10);
        assert(s[j] == 13 && s[j + 1] == 10);
        assert(line_ok(l0));
        assert forall|k: int| 0 <= k < j implies s[k] != 13 by {
            assert(s[k] == l0[k]);
        }
        lemma_split_line(s, 0, Seq::empty(), j);
        lemma_split_suffix(s, j + 2, Seq::empty());
        assert(s.subrange(j + 2, s.len() as int) =~= rest);
        assert forall|i: int| 0 <= i < tail.len() implies line_ok(#[trigger] tail[i]) by {
            assert(tail[i] == lines[i + 1]);
        }
        lemma_split_join(tail);
        assert(split_msg(s, 0, Seq::empty()) == Some(
            seq![Seq::<u8>::empty() + s.subrange(0, j)] + tail,
        ));
        assert(Seq::<u8>::empty() + s.subrange(0, j) =~= l0);
        assert(seq![l0] + tail =~= lines);
    }
}

proof fn lemma_strip_space(x: Seq<u8>)
    requires
        x.len() == 0 || (x[0] != 32 && x[0] != 9),
    ensures
        strip_ws(seq![32u8] + x) == x,
{
    let v = seq![32u8] + x;
    assert(v[0] == 32);
    assert(v.subrange(1, v.len() as int) =~= x);
    assert(strip_ws(x) == x);
}

proof fn lemma_header_line(line: Seq<u8>, j: int)
    requires
        0 < j < line.len(),
        line[j] == 58,
        forall|k: int| 0 <= k < j ==> line[k] != 58,
    ensures
        header_of(line) == Some(
            (line.subrange(0, j), strip_ws(line.subrange(j + 1, line.len() as int))),
        ),
{
    lemma_find_byte_prefix(line, 58, 0, j);
}

proof fn lemma_eq_ci_len(a: Seq<u8>, b: Seq<u8>)
    requires
        a.len() != b.len(),
    ensures
        !eq_ci(a, b),
{
    assert(lower_bytes(a).len() == a.len());
    assert(lower_bytes(b).len() == b.len());
}

// ------------------------------------------------------------------
// Round trip of the engine's own M-SEARCH probe
// ------------------------------------------------------------------

/// Parsing a formatted M-SEARCH gives back exactly the three header
/// values that went in, for every host, search target and MAN value that
/// fits in a header (no CR or LF, no leading whitespace).
#[verifier::rlimit(100)]
pub proof fn lemma_msearch_round_trip(host: Seq<u8>, st: Seq<u8>, man: Seq<u8>)
    requires
        header_value_ok(host),
        header_value_ok(st),
        header_value_ok(man),
    ensures
        spec_parse(msearch_bytes(host, st, man)) == Ok::<MessageModel, crate::codec::ParseError>(
            MessageModel::MSearch(MSearchModel { host, man, st }),
        ),
{
    reveal_strlit("M-SEARCH * HTTP/1.1\r\nHOST: ");
    reveal_strlit("\r\nST: ");
    reveal_strlit("\r\nMAN: ");
    reveal_strlit("\r\nMX: 2\r\n\r\n");
    reveal_strlit("M-SEARCH * HTTP/1.1");
    reveal_strlit("HOST: ");
    reveal_strlit("ST: ");
    reveal_strlit("MAN: ");
    reveal_strlit("MX: 2");
    reveal_strlit("HOST");
    reveal_strlit("ST");
    reveal_strlit("MAN");
    reveal_strlit("MX");
    reveal_strlit("M-SEARCH");
    reveal_strlit("HTTP/");
    reveal_strlit("host");
    reveal_strlit("man");
    reveal_strlit("st");
    let crlf = seq![13u8, 10u8];
    let l0 = ascii("M-SEARCH * HTTP/1.1"@);
    let l1 = ascii("HOST: "@) + host;
    let l2 = ascii("ST: "@) + st;
    let l3 = ascii("MAN: "@) + man;
    let l4 = ascii("MX: 2"@);
    let lines = seq![l0, l1, l2, l3, l4];
    let s = msearch_bytes(host, st, man);

    // The formatted text is exactly these five lines joined by CRLF.
    assert(ascii("M-SEARCH * HTTP/1.1\r\nHOST: "@) =~= l0 + crlf + ascii("HOST: "@));
    assert(ascii("\r\nST: "@) =~= crlf + ascii("ST: "@));
    assert(ascii("\r\nMAN: "@) =~= crlf + ascii("MAN: "@));
    assert(ascii("\r\nMX: 2\r\n\r\n"@) =~= crlf + l4 + crlf + crlf);
    assert(seq![l4].subrange(1, 1) =~= Seq::<Seq<u8>>::empty());
    assert(join_crlf(Seq::<Seq<u8>>::empty()) == seq![13u8, 10u8]);
    assert(join_crlf(seq![l4]) =~= l4 + crlf + crlf);
    assert(seq![l3, l4].subrange(1, 2) =~= seq![l4]);
    assert(join_crlf(seq![l3, l4]) =~= l3 + crlf + (l4 + crlf + crlf));
    assert(seq![l2, l3, l4].subrange(1, 3) =~= seq![l3, l4]);
    assert(join_crlf(seq![l2, l3, l4]) =~= l2 + crlf + join_crlf(seq![l3, l4]));
    assert(seq![l1, l2, l3, l4].subrange(1, 4) =~= seq![l2, l3, l4]);
    assert(join_crlf(seq![l1, l2, l3, l4]) =~= l1 + crlf + join_crlf(seq![l2, l3, l4]));
    assert(lines.subrange(1, 5) =~= seq![l1, l2, l3, l4]);
    assert(join_crlf(lines) =~= l0 + crlf + join_crlf(seq![l1, l2, l3, l4]));
    assert(s =~= join_crlf(lines));

    // Each line is whole: non-empty, no CR.
    assert(line_ok(l0));
    assert forall|k: int| 0 <= k < l1.len() implies (#[trigger] l1[k]) != 13 by {
        if k >= 6 {
            assert(l1[k] == host[k - 6]);
        }
    }
    assert(line_ok(l1));
    assert forall|k: int| 0 <= k < l2.len() implies (#[trigger] l2[k]) != 13 by {
        if k >= 4 {
            assert(l2[k] == st[k - 4]);
        }
    }
    assert(line_ok(l2));
    assert forall|k: int| 0 <= k < l3.len() implies (#[trigger] l3[k]) != 13 by {
        if k >= 5 {
            assert(l3[k] == man[k - 5]);
        }
    }
    assert(line_ok(l3));
    assert(line_ok(l4));
    assert forall|i: int| 0 <= i < lines.len() implies line_ok(#[trigger] lines[i]) by {
        if i == 0 {
            assert(lines[i] == l0);
        } else if i == 1 {
            assert(lines[i] == l1);
        } else if i == 2 {
            assert(lines[i] == l2);
        } else if i == 3 {
            assert(lines[i] == l3);
        } else {
            assert(lines[i] == l4);
        }
    }
    lemma_split_join(lines);
    assert(split_msg(s, 0, Seq::empty()) == Some(lines));

    // Not a response: the text does not start with `HTTP/`.
    let p = ascii("HTTP/"@);
    assert(s[0] == 77 && p[0] == 72);
    if starts_with(s, p) {
        assert(s.subrange(0, 5)[0] == s[0]);
        assert(false);
    }

    // The request line: method `M-SEARCH` before the first space.
    assert(l0[8] == 32);
    assert forall|k: int| 0 <= k < 8 implies l0[k] != 32 by {}
    lemma_find_byte_prefix(l0, 32, 0, 8);
    assert(l0.subrange(0, 8) =~= ascii("M-SEARCH"@));

    // The four header lines: name before the first colon, one stripped
    // space, then the value.
    assert(l1[4] == 58 && l1[0] != 58 && l1[1] != 58 && l1[2] != 58 && l1[3] != 58);
    lemma_header_line(l1, 4);
    assert(l1.subrange(0, 4) =~= ascii("HOST"@));
    assert(l1.subrange(5, l1.len() as int) =~= seq![32u8] + host);
    lemma_strip_space(host);
    let h1 = (ascii("HOST"@), host);
    assert(header_of(l1) == Some(h1));

    assert(l2[2] == 58 && l2[0] != 58 && l2[1] != 58);
    lemma_header_line(l2, 2);
    assert(l2.subrange(0, 2) =~= ascii("ST"@));
    assert(l2.subrange(3, l2.len() as int) =~= seq![32u8] + st);
    lemma_strip_space(st);
    let h2 = (ascii("ST"@), st);
    assert(header_of(l2) == Some(h2));

    assert(l3[3] == 58 && l3[0] != 58 && l3[1] != 58 && l3[2] != 58);
    lemma_header_line(l3, 3);
    assert(l3.subrange(0, 3) =~= ascii("MAN"@));
    assert(l3.subrange(4, l3.len() as int) =~= seq![32u8] + man);
    lemma_strip_space(man);
    let h3 = (ascii("MAN"@), man);
    assert(header_of(l3) == Some(h3));

    assert(l4[2] == 58 && l4[0] != 58 && l4[1] != 58);
    lemma_header_line(l4, 2);
    assert(l4.subrange(0, 2) =~= ascii("MX"@));
    assert(l4.subrange(3, l4.len() as int) =~= seq![32u8] + seq![50u8]);
    lemma_strip_space(seq![50u8]);
    let h4 = (ascii("MX"@), seq![50u8]);
    assert(header_of(l4) == Some(h4));

    // All four parse in order.
    let hs = seq![h1, h2, h3, h4];
    assert(seq![l2, l3, l4].subrange(1, 3) =~= seq![l3, l4]);
    assert(seq![l3, l4].subrange(1, 2) =~= seq![l4]);
    assert(seq![l4].subrange(1, 1) =~= Seq::<Seq<u8>>::empty());
    assert(headers_of(Seq::<Seq<u8>>::empty()) == Some(Seq::<(Seq<u8>, Seq<u8>)>::empty()));
    assert(headers_of(seq![l4]) == Some(seq![h4] + Seq::<(Seq<u8>, Seq<u8>)>::empty()));
    assert(seq![h4] + Seq::<(Seq<u8>, Seq<u8>)>::empty() =~= seq![h4]);
    assert(headers_of(seq![l3, l4]) == Some(seq![h3] + seq![h4]));
    assert(seq![h3] + seq![h4] =~= seq![h3, h4]);
    assert(headers_of(seq![l2, l3, l4]) == Some(seq![h2] + seq![h3, h4]));
    assert(seq![h2] + seq![h3, h4] =~= seq![h2, h3, h4]);
    assert(headers_of(seq![l1, l2, l3, l4]) == Some(seq![h1] + seq![h2, h3, h4]));
    assert(seq![h1] + seq![h2, h3, h4] =~= hs);
    assert(headers_of(lines.subrange(1, 5)) == Some(hs));

    // The three lookups, last occurrence first, names case-insensitive.
    lemma_eq_ci_len(ascii("MX"@), ascii("host"@));
    lemma_eq_ci_len(ascii("MAN"@), ascii("host"@));
    lemma_eq_ci_len(ascii("ST"@), ascii("host"@));
    assert(lower_bytes(ascii("HOST"@)) =~= lower_bytes(ascii("host"@)));
    assert(hs.drop_last() =~= seq![h1, h2, h3]);
    assert(seq![h1, h2, h3].drop_last() =~= seq![h1, h2]);
    assert(seq![h1, h2].drop_last() =~= seq![h1]);
    assert(seq![h1].drop_last() =~= Seq::<(Seq<u8>, Seq<u8>)>::empty());
    assert(lookup_last(hs, ascii("host"@)) == lookup_last(seq![h1, h2, h3], ascii("host"@)));
    assert(lookup_last(seq![h1, h2, h3], ascii("host"@)) == lookup_last(
        seq![h1, h2],
        ascii("host"@),
    ));
    assert(lookup_last(seq![h1, h2], ascii("host"@)) == lookup_last(seq![h1], ascii("host"@)));
    assert(lookup_last(seq![h1], ascii("host"@)) == Some(host));
    assert(lookup_last(hs, ascii("host"@)) == Some(host));

    lemma_eq_ci_len(ascii("MX"@), ascii("man"@));
    assert(lower_bytes(ascii("MAN"@)) =~= lower_bytes(ascii("man"@)));
    assert(lookup_last(hs, ascii("man"@)) == lookup_last(seq![h1, h2, h3], ascii("man"@)));
    assert(lookup_last(seq![h1, h2, h3], ascii("man"@)) == Some(man));
    assert(lookup_last(hs, ascii("man"@)) == Some(man));

    assert(lower_bytes(ascii("MX"@))[0] == 109);
    assert(lower_bytes(ascii("st"@))[0] == 115);
    assert(!eq_ci(ascii("MX"@), ascii("st"@)));
    lemma_eq_ci_len(ascii("MAN"@), ascii("st"@));
    assert(lower_bytes(ascii("ST"@)) =~= lower_bytes(ascii("st"@)));
    assert(lookup_last(hs, ascii("st"@)) == lookup_last(seq![h1, h2, h3], ascii("st"@)));
    assert(lookup_last(seq![h1, h2, h3], ascii("st"@)) == lookup_last(seq![h1, h2], ascii("st"@)));
    assert(lookup_last(seq![h1, h2], ascii("st"@)) == Some(st));
    assert(lookup_last(hs, ascii("st"@)) == Some(st));
}

// ------------------------------------------------------------------
// The response echoes the probe
// ------------------------------------------------------------------

/// Parsing a formatted search response finds its `St:` header equal to
/// the probe's `ST` byte for byte, and its `Usn:` header equal to
/// `<usn>::<ST>`, for every value that fits in a header.
#[verifier::rlimit(100)]
pub proof fn lemma_response_headers(usn: Seq<u8>, server: Seq<u8>, location: Seq<u8>, st: Seq<u8>)
    requires
        header_value_ok(usn),
        header_value_ok(server),
        header_value_ok(location),
        header_value_ok(st),
    ensures
        spec_parse(response_bytes(usn, server, location, st)) matches Ok(
            MessageModel::Response(hs),
        ) && lookup_last(hs, ascii("st"@)) == Some(st) && lookup_last(hs, ascii("usn"@)) == Some(
            usn + ascii("::"@) + st,
        ),
{
    reveal_strlit("HTTP/1.1 200 OK\r\nCache-Control: max-age=75\r\nExt: \r\nLocation: ");
    reveal_strlit("\r\nServer: ");
    reveal_strlit("\r\nSt: ");
    reveal_strlit("\r\nUsn: ");
    reveal_strlit("::");
    reveal_strlit("\r\nContent-Length: 0\r\n\r\n");
    reveal_strlit("HTTP/1.1 200 OK");
    reveal_strlit("Cache-Control: max-age=75");
    reveal_strlit("Ext: ");
    reveal_strlit("Location: ");
    reveal_strlit("Server: ");
    reveal_strlit("St: ");
    reveal_strlit("Usn: ");
    reveal_strlit("Content-Length: 0");
    reveal_strlit("Cache-Control");
    reveal_strlit("Ext");
    reveal_strlit("Location");
    reveal_strlit("Server");
    reveal_strlit("St");
    reveal_strlit("Usn");
    reveal_strlit("Content-Length");
    reveal_strlit("max-age=75");
    reveal_strlit("HTTP/");
    reveal_strlit("st");
    reveal_strlit("usn");
    let crlf = seq![13u8, 10u8];
    let vu = usn + ascii("::"@) + st;
    let l0 = ascii("HTTP/1.1 200 OK"@);
    let l1 = ascii("Cache-Control: max-age=75"@);
    let l2 = ascii("Ext: "@);
    let l3 = ascii("Location: "@) + location;
    let l4 = ascii("Server: "@) + server;
    let l5 = ascii("St: "@) + st;
    let l6 = ascii("Usn: "@) + vu;
    let l7 = ascii("Content-Length: 0"@);
    let lines = seq![l0, l1, l2, l3, l4, l5, l6, l7];
    let s = response_bytes(usn, server, location, st);

    // The formatted text is exactly these eight lines joined by CRLF.
    assert(ascii("HTTP/1.1 200 OK\r\nCache-Control: max-age=75\r\nExt: \r\nLocation: "@) =~= l0
        + crlf + l1 + crlf + l2 + crlf + ascii("Location: "@));
    assert(ascii("\r\nServer: "@) =~= crlf + ascii("Server: "@));
    assert(ascii("\r\nSt: "@) =~= crlf + ascii("St: "@));
    assert(ascii("\r\nUsn: "@) =~= crlf + ascii("Usn: "@));
    assert(ascii("\r\nContent-Length: 0\r\n\r\n"@) =~= crlf + l7 + crlf + crlf);
    assert(l6 =~= ascii("Usn: "@) + usn + ascii("::"@) + st);
    assert(join_crlf(Seq::<Seq<u8>>::empty()) == seq![13u8, 10u8]);
    assert(seq![l7].subrange(1, 1) =~= Seq::<Seq<u8>>::empty());
    assert(join_crlf(seq![l7]) =~= l7 + crlf + crlf);
    assert(seq![l6, l7].subrange(1, 2) =~= seq![l7]);
    assert(join_crlf(seq![l6, l7]) =~= l6 + crlf + join_crlf(seq![l7]));
    assert(seq![l5, l6, l7].subrange(1, 3) =~= seq![l6, l7]);
    assert(join_crlf(seq![l5, l6, l7]) =~= l5 + crlf + join_crlf(seq![l6, l7]));
    assert(seq![l4, l5, l6, l7].subrange(1, 4) =~= seq![l5, l6, l7]);
    assert(join_crlf(seq![l4, l5, l6, l7]) =~= l4 + crlf + join_crlf(seq![l5, l6, l7]));
    assert(seq![l3, l4, l5, l6, l7].subrange(1, 5) =~= seq![l4, l5, l6, l7]);
    assert(join_crlf(seq![l3, l4, l5, l6, l7]) =~= l3 + crlf + join_crlf(seq![l4, l5, l6, l7]));
    assert(seq![l2, l3, l4, l5, l6, l7].subrange(1, 6) =~= seq![l3, l4, l5, l6, l7]);
    assert(join_crlf(seq![l2, l3, l4, l5, l6, l7]) =~= l2 + crlf + join_crlf(
        seq![l3, l4, l5, l6, l7],
    ));
    assert(seq![l1, l2, l3, l4, l5, l6, l7].subrange(1, 7) =~= seq![l2, l3, l4, l5, l6, l7]);
    assert(join_crlf(seq![l1, l2, l3, l4, l5, l6, l7]) =~= l1 + crlf + join_crlf(
        seq![l2, l3, l4, l5, l6, l7],
    ));
    assert(lines.subrange(1, 8) =~= seq![l1, l2, l3, l4, l5, l6, l7]);
    assert(join_crlf(lines) =~= l0 + crlf + join_crlf(seq![l1, l2, l3, l4, l5, l6, l7]));
    assert(s =~= join_crlf(lines));

    // Each line is whole: non-empty, no CR.
    assert(line_ok(l0));
    assert(line_ok(l1));
    assert(line_ok(l2));
    assert forall|k: int| 0 <= k < l3.len() implies (#[trigger] l3[k]) != 13 by {
        if k >= 10 {
            assert(l3[k] == location[k - 10]);
        }
    }
    assert(line_ok(l3));
    assert forall|k: int| 0 <= k < l4.len() implies (#[trigger] l4[k]) != 13 by {
        if k >= 8 {
            assert(l4[k] == server[k - 8]);
        }
    }
    assert(line_ok(l4));
    assert forall|k: int| 0 <= k < l5.len() implies (#[trigger] l5[k]) != 13 by {
        if k >= 4 {
            assert(l5[k] == st[k - 4]);
        }
    }
    assert(line_ok(l5));
    assert forall|k: int| 0 <= k < vu.len() implies (#[trigger] vu[k]) != 13 by {
        if k < usn.len() {
            assert(vu[k] == usn[k]);
        } else if k < usn.len() + 2 {
            assert(vu[k] == ascii("::"@)[k - usn.len()]);
        } else {
            assert(vu[k] == st[k - usn.len() - 2]);
        }
    }
    assert forall|k: int| 0 <= k < l6.len() implies (#[trigger] l6[k]) != 13 by {
        if k >= 5 {
            assert(l6[k] == vu[k - 5]);
        }
    }
    assert(line_ok(l6));
    assert(line_ok(l7));
    assert forall|i: int| 0 <= i < lines.len() implies line_ok(#[trigger] lines[i]) by {
        if i == 0 {
            assert(lines[i] == l0);
        } else if i == 1 {
            assert(lines[i] == l1);
        } else if i == 2 {
            assert(lines[i] == l2);
        } else if i == 3 {
            assert(lines[i] == l3);
        } else if i == 4 {
            assert(lines[i] == l4);
        } else if i == 5 {
            assert(lines[i] == l5);
        } else if i == 6 {
            assert(lines[i] == l6);
        } else {
            assert(lines[i] == l7);
        }
    }
    lemma_split_join(lines);
    assert(split_msg(s, 0, Seq::empty()) == Some(lines));

    // It is a response: the text starts with `HTTP/`.
    assert(s.subrange(0, 5) =~= ascii("HTTP/"@));
    assert(starts_with(s, ascii("HTTP/"@)));

    // The seven header lines.
    assert(l1[13] == 58);
    assert(forall|k: int| 0 <= k < 13 ==> l1[k] != 58);
    lemma_header_line(l1, 13);
    assert(l1.subrange(0, 13) =~= ascii("Cache-Control"@));
    assert(l1.subrange(14, l1.len() as int) =~= seq![32u8] + ascii("max-age=75"@));
    lemma_strip_space(ascii("max-age=75"@));
    let h1 = (ascii("Cache-Control"@), ascii("max-age=75"@));
    assert(header_of(l1) == Some(h1));

    assert(l2[3] == 58);
    assert(forall|k: int| 0 <= k < 3 ==> l2[k] != 58);
    lemma_header_line(l2, 3);
    assert(l2.subrange(0, 3) =~= ascii("Ext"@));
    assert(l2.subrange(4, l2.len() as int) =~= seq![32u8] + Seq::<u8>::empty());
    lemma_strip_space(Seq::<u8>::empty());
    let h2 = (ascii("Ext"@), Seq::<u8>::empty());
    assert(header_of(l2) == Some(h2));

    assert(l3[8] == 58);
    assert(forall|k: int| 0 <= k < 8 ==> l3[k] != 58);
    lemma_header_line(l3, 8);
    assert(l3.subrange(0, 8) =~= ascii("Location"@));
    assert(l3.subrange(9, l3.len() as int) =~= seq![32u8] + location);
    lemma_strip_space(location);
    let h3 = (ascii("Location"@), location);
    assert(header_of(l3) == Some(h3));

    assert(l4[6] == 58);
    assert(forall|k: int| 0 <= k < 6 ==> l4[k] != 58);
    lemma_header_line(l4, 6);
    assert(l4.subrange(0, 6) =~= ascii("Server"@));
    assert(l4.subrange(7, l4.len() as int) =~= seq![32u8] + server);
    lemma_strip_space(server);
    let h4 = (ascii("Server"@), server);
    assert(header_of(l4) == Some(h4));

    assert(l5[2] == 58);
    assert(forall|k: int| 0 <= k < 2 ==> l5[k] != 58);
    lemma_header_line(l5, 2);
    assert(l5.subrange(0, 2) =~= ascii("St"@));
    assert(l5.subrange(3, l5.len() as int) =~= seq![32u8] + st);
    lemma_strip_space(st);
    let h5 = (ascii("St"@), st);
    assert(header_of(l5) == Some(h5));

    assert(l6[3] == 58);
    assert(forall|k: int| 0 <= k < 3 ==> l6[k] != 58);
    lemma_header_line(l6, 3);
    assert(l6.subrange(0, 3) =~= ascii("Usn"@));
    assert(l6.subrange(4, l6.len() as int) =~= seq![32u8] + vu);
    if usn.len() == 0 {
        assert(vu[0] == 58);
    } else {
        assert(vu[0] == usn[0]);
    }
    lemma_strip_space(vu);
    let h6 = (ascii("Usn"@), vu);
    assert(header_of(l6) == Some(h6));

    assert(l7[14] == 58);
    assert(forall|k: int| 0 <= k < 14 ==> l7[k] != 58);
    lemma_header_line(l7, 14);
    assert(l7.subrange(0, 14) =~= ascii("Content-Length"@));
    assert(l7.subrange(15, l7.len() as int) =~= seq![32u8] + seq![48u8]);
    lemma_strip_space(seq![48u8]);
    let h7 = (ascii("Content-Length"@), seq![48u8]);
    assert(header_of(l7) == Some(h7));

    // All seven parse in order.
    let hs = seq![h1, h2, h3, h4, h5, h6, h7];
    assert(headers_of(Seq::<Seq<u8>>::empty()) == Some(Seq::<(Seq<u8>, Seq<u8>)>::empty()));
    assert(headers_of(seq![l7]) == Some(seq![h7] + Seq::<(Seq<u8>, Seq<u8>)>::empty()));
    assert(seq![h7] + Seq::<(Seq<u8>, Seq<u8>)>::empty() =~= seq![h7]);
    assert(headers_of(seq![l6, l7]) == Some(seq![h6] + seq![h7]));
    assert(seq![h6] + seq![h7] =~= seq![h6, h7]);
    assert(headers_of(seq![l5, l6, l7]) == Some(seq![h5] + seq![h6, h7]));
    assert(seq![h5] + seq![h6, h7] =~= seq![h5, h6, h7]);
    assert(headers_of(seq![l4, l5, l6, l7]) == Some(seq![h4] + seq![h5, h6, h7]));
    assert(seq![h4] + seq![h5, h6, h7] =~= seq![h4, h5, h6, h7]);
    assert(headers_of(seq![l3, l4, l5, l6, l7]) == Some(seq![h3] + seq![h4, h5, h6, h7]));
    assert(seq![h3] + seq![h4, h5, h6, h7] =~= seq![h3, h4, h5, h6, h7]);
    assert(headers_of(seq![l2, l3, l4, l5, l6, l7]) == Some(seq![h2] + seq![h3, h4, h5, h6, h7]));
    assert(seq![h2] + seq![h3, h4, h5, h6, h7] =~= seq![h2, h3, h4, h5, h6, h7]);
    assert(headers_of(seq![l1, l2, l3, l4, l5, l6, l7]) == Some(
        seq![h1] + seq![h2, h3, h4, h5, h6, h7],
    ));
    assert(seq![h1] + seq![h2, h3, h4, h5, h6, h7] =~= hs);
    assert(headers_of(lines.subrange(1, 8)) == Some(hs));
    assert(spec_parse(s) == Ok::<MessageModel, crate::codec::ParseError>(
        MessageModel::Response(hs),
    ));

    // The `St:` header holds the probe's ST, the `Usn:` header `usn::ST`.
    lemma_eq_ci_len(ascii("Content-Length"@), ascii("st"@));
    lemma_eq_ci_len(ascii("Usn"@), ascii("st"@));
    assert(lower_bytes(ascii("St"@)) =~= lower_bytes(ascii("st"@)));
    assert(hs.drop_last() =~= seq![h1, h2, h3, h4, h5, h6]);
    assert(seq![h1, h2, h3, h4, h5, h6].drop_last() =~= seq![h1, h2, h3, h4, h5]);
    assert(lookup_last(hs, ascii("st"@)) == lookup_last(seq![h1, h2, h3, h4, h5, h6], ascii("st"@)));
    assert(lookup_last(seq![h1, h2, h3, h4, h5, h6], ascii("st"@)) == lookup_last(
        seq![h1, h2, h3, h4, h5],
        ascii("st"@),
    ));
    assert(lookup_last(seq![h1, h2, h3, h4, h5], ascii("st"@)) == Some(st));
    assert(lookup_last(hs, ascii("st"@)) == Some(st));

    lemma_eq_ci_len(ascii("Content-Length"@), ascii("usn"@));
    assert(lower_bytes(ascii("Usn"@)) =~= lower_bytes(ascii("usn"@)));
    assert(lookup_last(hs, ascii("usn"@)) == lookup_last(
        seq![h1, h2, h3, h4, h5, h6],
        ascii("usn"@),
    ));
    assert(lookup_last(seq![h1, h2, h3, h4, h5, h6], ascii("usn"@)) == Some(vu));
    assert(lookup_last(hs, ascii("usn"@)) == Some(vu));
}

/// Every reply the engine emits parses back as a response whose `St:`
/// header echoes the probe's `ST` byte for byte and whose `Usn:` header is
/// `<usn>::<ST>`, provided the configured strings themselves fit in
/// headers.
pub proof fn lemma_emitted_response_echoes(
    cfg: ConfigModel,
    nics: Seq<NicModel>,
    buf: Seq<u8>,
    peer: IpAddress,
    r: Seq<u8>,
)
    requires
        header_value_ok(cfg.usn),
        header_value_ok(cfg.server),
        header_value_ok(cfg.location_prefix),
        header_value_ok(cfg.location_suffix),
        spec_response(cfg, nics, buf, peer) == Some(r),
    ensures
        spec_parse(buf) matches Ok(MessageModel::MSearch(ms)) && (spec_parse(r) matches Ok(
            MessageModel::Response(hs),
        ) && lookup_last(hs, ascii("st"@)) == Some(ms.st) && lookup_last(hs, ascii("usn"@))
            == Some(cfg.usn + ascii("::"@) + ms.st)),
{
    let ms = match spec_parse(buf) {
        Ok(MessageModel::MSearch(ms)) => ms,
        _ => {
            assert(false);
            arbitrary()
        },
    };
    let ip = match spec_pick_local_ip(nics, peer) {
        Some(ip) => ip,
        None => {
            assert(false);
            arbitrary()
        },
    };
    assert(r == response_bytes(cfg.usn, cfg.server, location_bytes(cfg, ip), ms.st));

    // A matching ST is one of two printable ASCII literals.
    reveal_strlit("upnp:rootdevice");
    reveal_strlit("urn:schemas-upnp-org:device:MediaServer:1");
    assert(spec_matches_media_server(ms));
    assert(header_value_ok(ms.st)) by {
        if ms.st == crate::codec::spec_root_device_kind() {
            assert(header_value_ok(ascii("upnp:rootdevice"@)));
        } else {
            assert(header_value_ok(ascii("urn:schemas-upnp-org:device:MediaServer:1"@)));
        }
    }

    // The rewritten URL fits in a header: its host part is printable
    // ASCII, and the configured parts fit by assumption.
    crate::net::lemma_host_text_clean(ip);
    let host = crate::net::host_text(ip);
    let loc = location_bytes(cfg, ip);
    assert(loc == cfg.location_prefix + host + cfg.location_suffix);
    assert forall|k: int| 0 <= k < loc.len() implies (#[trigger] loc[k]) != 13 && loc[k] != 10 by {
        if k < cfg.location_prefix.len() {
            assert(loc[k] == cfg.location_prefix[k]);
        } else if k < cfg.location_prefix.len() + host.len() {
            assert(loc[k] == host[k - cfg.location_prefix.len()]);
        } else {
            assert(loc[k] == cfg.location_suffix[k - cfg.location_prefix.len() - host.len()]);
        }
    }
    if cfg.location_prefix.len() > 0 {
        assert(loc[0] == cfg.location_prefix[0]);
    } else {
        assert(loc[0] == host[0]);
    }
    assert(header_value_ok(loc));

    lemma_response_headers(cfg.usn, cfg.server, loc, ms.st);
}

// ------------------------------------------------------------------
// When a response is owed
// ------------------------------------------------------------------

/// A reply is emitted exactly when the datagram parses as an M-SEARCH
/// whose `MAN` is the quoted `"ssdp:discover"` and whose `ST` names the
/// root device or a MediaServer, and some eligible local address reaches
/// the peer.
pub proof fn lemma_response_iff(
    cfg: ConfigModel,
    nics: Seq<NicModel>,
    buf: Seq<u8>,
    peer: IpAddress,
)
    ensures
        (spec_response(cfg, nics, buf, peer) is Some) <==> (spec_parse(buf) matches Ok(
            MessageModel::MSearch(ms),
        ) && spec_matches_media_server(ms) && spec_pick_local_ip(nics, peer) is Some),
{
}

/// The reply's `Location:` header carries the description URL with its
/// host set to the local address that reaches the peer.
pub proof fn lemma_response_location(
    cfg: ConfigModel,
    nics: Seq<NicModel>,
    buf: Seq<u8>,
    peer: IpAddress,
    ms: MSearchModel,
    ip: IpAddress,
)
    requires
        spec_parse(buf) == Ok::<MessageModel, crate::codec::ParseError>(
            MessageModel::MSearch(ms),
        ),
        spec_matches_media_server(ms),
        spec_pick_local_ip(nics, peer) == Some(ip),
    ensures
        spec_response(cfg, nics, buf, peer) == Some(
            response_bytes(cfg.usn, cfg.server, location_bytes(cfg, ip), ms.st),
        ),
{
}

} // verus!

