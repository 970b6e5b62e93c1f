//! The JSON shapes of the protocol's payloads: the clipboard-event
//! plaintext and the tagged control messages.  Encoders emit the canonical
//! byte form; parsers are specified by spec functions, with completeness
//! lemmas showing that parsing undoes encoding.

use vstd::prelude::*;
use vstd::utf8::encode_utf8;

use crate::json::{
    dec_append, dec_u64, esc, esc_append, is_digit, p_lit, p_str, p_u64, parse_lit, parse_str,
    parse_u64, lemma_p_str_esc, lemma_p_u64_dec, lemma_dec_digits,
};
use crate::strings::{ascii_bytes_of, ascii_lit, bytes_to_string, str_eq};
use crate::types::{
    ControlMessage, ControlView, EventView, Hello, PeerInfo, PeerJoined, PeerLeft, PeerList,
    PeerView, SaltExchange, ClipboardEventPlaintext,
};

verus! {

/// A JSON string value: quoted, canonically escaped UTF-8.
pub open spec fn jstr_of(s: Seq<char>) -> Seq<u8> {
    seq![0x22u8] + esc(encode_utf8(s)) + seq![0x22u8]
}

/// Append a JSON string value for `s`.
pub fn jstr_append(out: &mut Vec<u8>, s: &str)
    ensures
        final(out)@ == old(out)@ + jstr_of(s@),
{
    out.push(0x22);
    esc_append(out, s.as_bytes());
    out.push(0x22);
    proof {
        assert(out@ =~= old(out)@ + jstr_of(s@));
    }
}

/// Append an ASCII literal.
pub fn lit_append(out: &mut Vec<u8>, s: &str)
    requires
        vstd::string::is_ascii(s),
    ensures
        final(out)@ == old(out)@ + ascii_bytes_of(s@),
{
    let v = ascii_lit(s);
    out.extend_from_slice(v.as_slice());
}

/// The JSON object for one peer.
pub open spec fn peer_json(p: PeerView) -> Seq<u8> {
    ascii_bytes_of("{\"device_id\":"@) + jstr_of(p.device_id) + ascii_bytes_of(
        ",\"device_name\":"@,
    ) + jstr_of(p.device_name) + ascii_bytes_of("}"@)
}

/// The comma-separated JSON objects of a peer list, without brackets.
pub open spec fn peers_items(ps: Seq<PeerView>) -> Seq<u8>
    decreases ps.len(),
{
    if ps.len() == 0 {
        Seq::empty()
    } else if ps.len() == 1 {
        peer_json(ps[0])
    } else {
        peer_json(ps[0]) + seq![0x2Cu8] + peers_items(ps.drop_first())
    }
}

/// The JSON array of a peer list.
pub open spec fn peers_array_json(ps: Seq<PeerView>) -> Seq<u8> {
    seq![0x5Bu8] + peers_items(ps) + seq![0x5Du8]
}

/// The comma-separated JSON strings of a device-id list, without brackets.
pub open spec fn strs_items(ss: Seq<Seq<char>>) -> Seq<u8>
    decreases ss.len(),
{
    if ss.len() == 0 {
        Seq::empty()
    } else if ss.len() == 1 {
        jstr_of(ss[0])
    } else {
        jstr_of(ss[0]) + seq![0x2Cu8] + strs_items(ss.drop_first())
    }
}

/// The JSON array of a device-id list.
pub open spec fn strs_array_json(ss: Seq<Seq<char>>) -> Seq<u8> {
    seq![0x5Bu8] + strs_items(ss) + seq![0x5Du8]
}

/// The JSON object of a clipboard-event plaintext.
pub open spec fn event_json(e: EventView) -> Seq<u8> {
    ascii_bytes_of("{\"sender_device_id\":"@) + jstr_of(e.sender_device_id) + ascii_bytes_of(
        ",\"counter\":"@,
    ) + dec_u64(e.counter) + ascii_bytes_of(",\"timestamp_unix_ms\":"@) + dec_u64(
        e.timestamp_unix_ms,
    ) + ascii_bytes_of(",\"mime\":"@) + jstr_of(e.mime) + ascii_bytes_of(",\"text_utf8\":"@)
        + jstr_of(e.text_utf8) + ascii_bytes_of("}"@)
}

/// The tag naming a control variant on the wire.
pub open spec fn tag_of(c: ControlView) -> Seq<char> {
    match c {
        ControlView::Hello { .. } => "Hello"@,
        ControlView::PeerList { .. } => "PeerList"@,
        ControlView::PeerJoined { .. } => "PeerJoined"@,
        ControlView::PeerLeft { .. } => "PeerLeft"@,
        ControlView::SaltExchange { .. } => "SaltExchange"@,
        ControlView::Error { .. } => "Error"@,
    }
}

/// The JSON object carried under `"data"` for a control variant.
pub open spec fn body_json(c: ControlView) -> Seq<u8> {
    match c {
        ControlView::Hello { room_id, peer } => ascii_bytes_of("{\"room_id\":"@) + jstr_of(room_id)
            + ascii_bytes_of(",\"peer\":"@) + peer_json(peer) + ascii_bytes_of("}"@),
        ControlView::PeerList { room_id, peers } => ascii_bytes_of("{\"room_id\":"@) + jstr_of(
            room_id,
        ) + ascii_bytes_of(",\"peers\":"@) + peers_array_json(peers) + ascii_bytes_of("}"@),
        ControlView::PeerJoined { room_id, peer } => ascii_bytes_of("{\"room_id\":"@) + jstr_of(
            room_id,
        ) + ascii_bytes_of(",\"peer\":"@) + peer_json(peer) + ascii_bytes_of("}"@),
        ControlView::PeerLeft { room_id, device_id } => ascii_bytes_of("{\"room_id\":"@) + jstr_of(
            room_id,
        ) + ascii_bytes_of(",\"device_id\":"@) + jstr_of(device_id) + ascii_bytes_of("}"@),
        ControlView::SaltExchange { room_id, device_ids } => ascii_bytes_of("{\"room_id\":"@)
            + jstr_of(room_id) + ascii_bytes_of(",\"device_ids\":"@) + strs_array_json(device_ids)
            + ascii_bytes_of("}"@),
        ControlView::Error { message } => ascii_bytes_of("{\"message\":"@) + jstr_of(message)
            + ascii_bytes_of("}"@),
    }
}

/// The whole control payload: `{"type":<tag>,"data":<body>}`.
pub open spec fn control_json(c: ControlView) -> Seq<u8> {
    ascii_bytes_of("{\"type\":"@) + jstr_of(tag_of(c)) + ascii_bytes_of(",\"data\":"@) + body_json(
        c,
    ) + ascii_bytes_of("}"@)
}

/// Append the JSON object for one peer.
pub fn peer_append(out: &mut Vec<u8>, p: &PeerInfo)
    ensures
        final(out)@ == old(out)@ + peer_json(p@),
{
    proof {
        reveal_strlit("{\"device_id\":");
        reveal_strlit(",\"device_name\":");
        reveal_strlit("}");
    }
    lit_append(out, "{\"device_id\":");
    jstr_append(out, self_str(&p.device_id));
    lit_append(out, ",\"device_name\":");
    jstr_append(out, self_str(&p.device_name));
    lit_append(out, "}");
    proof {
        assert(out@ =~= old(out)@ + peer_json(p@));
    }
}

/// `String::as_str` under a name that keeps call sites readable.
fn self_str(s: &String) -> (r: &str)
    ensures
        r@ == s@,
{
    s.as_str()
}

/// Append the JSON array of a peer list.
pub fn peers_array_append(out: &mut Vec<u8>, ps: &Vec<PeerInfo>)
    ensures
        final(out)@ == old(out)@ + peers_array_json(Seq::new(ps@.len(), |i: int| ps@[i]@)),
{
    let ghost view = Seq::new(ps@.len(), |i: int| ps@[i]@);
    out.push(0x5B);
    let n = ps.len();
    let mut i: usize = 0;
    while i < n
        invariant
            0 <= i <= n,
            n == ps@.len(),
            view == Seq::new(ps@.len(), |j: int| ps@[j]@),
            out@ == old(out)@ + seq![0x5Bu8] + spec_items_prefix(view, i as int),
        decreases n - i,
    {
        if i > 0 {
            out.push(0x2C);
        }
        peer_append(out, &ps[i]);
        proof {
            lemma_items_step(view, i as int);
        }
        i = i + 1;
    }
    out.push(0x5D);
    proof {
        assert(spec_items_prefix(view, n as int) == peers_items(view)) by {
            lemma_items_prefix_full(view);
        }
        assert(out@ =~= old(out)@ + peers_array_json(view));
    }
}

/// The encoding of the first `k` items of a peer list, with the commas
/// that precede every item but the first.
pub open spec fn spec_items_prefix(ps: Seq<PeerView>, k: int) -> Seq<u8>
    decreases k,
{
    if k <= 0 {
        Seq::empty()
    } else if k == 1 {
        peer_json(ps[0])
    } else {
        spec_items_prefix(ps, k - 1) + seq![0x2Cu8] + peer_json(ps[k - 1])
    }
}

proof fn lemma_items_step(ps: Seq<PeerView>, i: int)
    requires
        0 <= i < ps.len(),
    ensures
        i == 0 ==> spec_items_prefix(ps, 1) == peer_json(ps[0]),
        i > 0 ==> spec_items_prefix(ps, i + 1) == spec_items_prefix(ps, i) + seq![0x2Cu8]
            + peer_json(ps[i]),
{
}

proof fn lemma_items_prefix_full(ps: Seq<PeerView>)
    ensures
        spec_items_prefix(ps, ps.len() as int) == peers_items(ps),
{
    lemma_items_prefix_eq(ps, ps.len() as int);
    assert(ps.take(ps.len() as int) =~= ps);
}

proof fn lemma_items_prefix_eq(ps: Seq<PeerView>, k: int)
    requires
        0 <= k <= ps.len(),
    ensures
        spec_items_prefix(ps, k) == peers_items(ps.take(k)),
    decreases k,
{
    if k > 0 {
        lemma_items_prefix_eq(ps, k - 1);
        lemma_items_snoc(ps.take(k));
        assert(ps.take(k).drop_last() =~= ps.take(k - 1));
        assert(ps.take(k).last() == ps[k - 1]);
    } else {
        assert(ps.take(0) =~= Seq::<PeerView>::empty());
    }
}

proof fn lemma_items_snoc(ps: Seq<PeerView>)
    requires
        ps.len() >= 1,
    ensures
        ps.len() == 1 ==> peers_items(ps) == peer_json(ps[0]),
        ps.len() > 1 ==> peers_items(ps) == peers_items(ps.drop_last()) + seq![0x2Cu8] + peer_json(
            ps.last(),
        ),
    decreases ps.len(),
{
    if ps.len() > 1 {
        lemma_items_snoc(ps.drop_first());
        assert(ps.drop_first().drop_last() =~= ps.drop_last().drop_first());
        if ps.len() == 2 {
            assert(ps.drop_last() =~= seq![ps[0]]);
            assert(peers_items(ps.drop_last()) == peer_json(ps[0]));
            assert(peers_items(ps) =~= peers_items(ps.drop_last()) + seq![0x2Cu8] + peer_json(
                ps.last(),
            ));
        } else {
            assert(ps.drop_last()[0] == ps[0]);
            assert(ps.drop_last().len() > 1);
            assert(peers_items(ps) =~= peers_items(ps.drop_last()) + seq![0x2Cu8] + peer_json(
                ps.last(),
            ));
        }
    }
}

/// The encoding of the first `k` strings of a device-id list.
pub open spec fn spec_strs_prefix(ss: Seq<Seq<char>>, k: int) -> Seq<u8>
    decreases k,
{
    if k <= 0 {
        Seq::empty()
    } else if k == 1 {
        jstr_of(ss[0])
    } else {
        spec_strs_prefix(ss, k - 1) + seq![0x2Cu8] + jstr_of(ss[k - 1])
    }
}

proof fn lemma_strs_snoc(ss: Seq<Seq<char>>)
    requires
        ss.len() >= 1,
    ensures
        ss.len() == 1 ==> strs_items(ss) == jstr_of(ss[0]),
        ss.len() > 1 ==> strs_items(ss) == strs_items(ss.drop_last()) + seq![0x2Cu8] + jstr_of(
            ss.last(),
        ),
    decreases ss.len(),
{
    if ss.len() > 1 {
        lemma_strs_snoc(ss.drop_first());
        assert(ss.drop_first().drop_last() =~= ss.drop_last().drop_first());
        if ss.len() == 2 {
            assert(ss.drop_last() =~= seq![ss[0]]);
            assert(strs_items(ss) =~= strs_items(ss.drop_last()) + seq![0x2Cu8] + jstr_of(
                ss.last(),
            ));
        } else {
            assert(ss.drop_last()[0] == ss[0]);
            assert(ss.drop_last().len() > 1);
            assert(strs_items(ss) =~= strs_items(ss.drop_last()) + seq![0x2Cu8] + jstr_of(
                ss.last(),
            ));
        }
    }
}

proof fn lemma_strs_prefix_eq(ss: Seq<Seq<char>>, k: int)
    requires
        0 <= k <= ss.len(),
    ensures
        spec_strs_prefix(ss, k) == strs_items(ss.take(k)),
    decreases k,
{
    if k > 0 {
        lemma_strs_prefix_eq(ss, k - 1);
        lemma_strs_snoc(ss.take(k));
        assert(ss.take(k).drop_last() =~= ss.take(k - 1));
        assert(ss.take(k).last() == ss[k - 1]);
    } else {
        assert(ss.take(0) =~= Seq::<Seq<char>>::empty());
    }
}

/// Append the JSON array of a device-id list.
pub fn strs_array_append(out: &mut Vec<u8>, ss: &Vec<String>)
    ensures
        final(out)@ == old(out)@ + strs_array_json(Seq::new(ss@.len(), |i: int| ss@[i]@)),
{
    let ghost view = Seq::new(ss@.len(), |i: int| ss@[i]@);
    out.push(0x5B);
    let n = ss.len();
    let mut i: usize = 0;
    while i < n
        invariant
            0 <= i <= n,
            n == ss@.len(),
            view == Seq::new(ss@.len(), |j: int| ss@[j]@),
            out@ == old(out)@ + seq![0x5Bu8] + spec_strs_prefix(view, i as int),
        decreases n - i,
    {
        if i > 0 {
            out.push(0x2C);
        }
        jstr_append(out, self_str(&ss[i]));
        i = i + 1;
    }
    out.push(0x5D);
    proof {
        lemma_strs_prefix_eq(view, n as int);
        assert(view.take(n as int) =~= view);
        assert(out@ =~= old(out)@ + strs_array_json(view));
    }
}

/// Encode a clipboard-event plaintext as canonical JSON bytes.
pub fn event_json_vec(e: &ClipboardEventPlaintext) -> (r: Vec<u8>)
    ensures
        r@ == event_json(e@),
{
    proof {
        reveal_strlit("{\"sender_device_id\":");
        reveal_strlit(",\"counter\":");
        reveal_strlit(",\"timestamp_unix_ms\":");
        reveal_strlit(",\"mime\":");
        reveal_strlit(",\"text_utf8\":");
        reveal_strlit("}");
    }
    let mut out: Vec<u8> = Vec::new();
    lit_append(&mut out, "{\"sender_device_id\":");
    jstr_append(&mut out, self_str(&e.sender_device_id));
    lit_append(&mut out, ",\"counter\":");
    dec_append(&mut out, e.counter);
    lit_append(&mut out, ",\"timestamp_unix_ms\":");
    dec_append(&mut out, e.timestamp_unix_ms);
    lit_append(&mut out, ",\"mime\":");
    jstr_append(&mut out, self_str(&e.mime));
    lit_append(&mut out, ",\"text_utf8\":");
    jstr_append(&mut out, self_str(&e.text_utf8));
    lit_append(&mut out, "}");
    proof {
        assert(out@ =~= event_json(e@));
    }
    out
}

/// Encode a control message as canonical JSON bytes.
pub fn control_json_vec(c: &ControlMessage) -> (r: Vec<u8>)
    ensures
        r@ == control_json(c@),
{
    proof {
        reveal_strlit("{\"type\":");
        reveal_strlit(",\"data\":");
        reveal_strlit("}");
        reveal_strlit("Hello");
        reveal_strlit("PeerList");
        reveal_strlit("PeerJoined");
        reveal_strlit("PeerLeft");
        reveal_strlit("SaltExchange");
        reveal_strlit("Error");
    }
    let mut out: Vec<u8> = Vec::new();
    lit_append(&mut out, "{\"type\":");
    match c {
        ControlMessage::Hello(_) => jstr_append(&mut out, "Hello"),
        ControlMessage::PeerList(_) => jstr_append(&mut out, "PeerList"),
        ControlMessage::PeerJoined(_) => jstr_append(&mut out, "PeerJoined"),
        ControlMessage::PeerLeft(_) => jstr_append(&mut out, "PeerLeft"),
        ControlMessage::SaltExchange(_) => jstr_append(&mut out, "SaltExchange"),
        ControlMessage::Error { .. } => jstr_append(&mut out, "Error"),
    }
    lit_append(&mut out, ",\"data\":");
    body_append(&mut out, c);
    lit_append(&mut out, "}");
    proof {
        assert(out@ =~= control_json(c@));
    }
    out
}

/// Append the `"data"` object of a control message.
fn body_append(out: &mut Vec<u8>, c: &ControlMessage)
    ensures
        final(out)@ == old(out)@ + body_json(c@),
{
    proof {
        reveal_strlit("{\"room_id\":");
        reveal_strlit(",\"peer\":");
        reveal_strlit(",\"peers\":");
        reveal_strlit(",\"device_id\":");
        reveal_strlit(",\"device_ids\":");
        reveal_strlit("{\"message\":");
        reveal_strlit("}");
    }
    match c {
        ControlMessage::Hello(h) => {
            lit_append(out, "{\"room_id\":");
            jstr_append(out, self_str(&h.room_id));
            lit_append(out, ",\"peer\":");
            peer_append(out, &h.peer);
            lit_append(out, "}");
        },
        ControlMessage::PeerList(pl) => {
            lit_append(out, "{\"room_id\":");
            jstr_append(out, self_str(&pl.room_id));
            lit_append(out, ",\"peers\":");
            peers_array_append(out, &pl.peers);
            lit_append(out, "}");
        },
        ControlMessage::PeerJoined(pj) => {
            lit_append(out, "{\"room_id\":");
            jstr_append(out, self_str(&pj.room_id));
            lit_append(out, ",\"peer\":");
            peer_append(out, &pj.peer);
            lit_append(out, "}");
        },
        ControlMessage::PeerLeft(pl) => {
            lit_append(out, "{\"room_id\":");
            jstr_append(out, self_str(&pl.room_id));
            lit_append(out, ",\"device_id\":");
            jstr_append(out, self_str(&pl.device_id));
            lit_append(out, "}");
        },
        ControlMessage::SaltExchange(se) => {
            lit_append(out, "{\"room_id\":");
            jstr_append(out, self_str(&se.room_id));
            lit_append(out, ",\"device_ids\":");
            strs_array_append(out, &se.device_ids);
            lit_append(out, "}");
        },
        ControlMessage::Error { message } => {
            lit_append(out, "{\"message\":");
            jstr_append(out, self_str(message));
            lit_append(out, "}");
        },
    }
    proof {
        assert(out@ =~= old(out)@ + body_json(c@));
    }
}


/// Spec parser for a quoted JSON string value; the result is the decoded
/// character sequence.
pub open spec fn p_jstr(s: Seq<u8>) -> Option<(Seq<char>, int)> {
    if s.len() > 0 && s[0] == 0x22 {
        match p_str(s.skip(1)) {
            Some((v, k)) => if vstd::utf8::valid_utf8(v) {
                Some((vstd::utf8::decode_utf8(v), 1 + k))
            } else {
                None
            },
            None => None,
        }
    } else {
        None
    }
}

/// A successful string parse consumes at least one byte and at most the
/// whole input.
pub proof fn lemma_p_str_bounds(s: Seq<u8>)
    ensures
        p_str(s) is Some ==> 1 <= p_str(s).unwrap().1 <= s.len(),
    decreases s.len(),
{
    if s.len() == 0 {
    } else if s[0] == 0x22 {
    } else if s[0] == 0x5C {
        if s.len() >= 2 && crate::json::short_esc(s[1]) is Some {
            lemma_p_str_bounds(s.skip(2));
        } else if s.len() >= 6 && s[1] == 0x75 && s[2] == 0x30 && s[3] == 0x30 && crate::json::hexval(
            s[4],
        ) < 16 && crate::json::hexval(s[5]) < 16 && crate::json::hexval(s[4]) * 16
            + crate::json::hexval(s[5]) < 0x20 {
            lemma_p_str_bounds(s.skip(6));
        }
    } else if s[0] >= 0x20 {
        lemma_p_str_bounds(s.skip(1));
    }
}

/// Parsing undoes string encoding.
pub proof fn lemma_p_jstr(cs: Seq<char>, rest: Seq<u8>)
    ensures
        p_jstr(jstr_of(cs) + rest) == Some((cs, jstr_of(cs).len() as int)),
{
    let s = jstr_of(cs) + rest;
    assert(s[0] == 0x22);
    assert(s.skip(1) =~= esc(encode_utf8(cs)) + seq![0x22u8] + rest);
    lemma_p_str_esc(encode_utf8(cs), rest);
    vstd::utf8::encode_utf8_valid_utf8(cs);
    vstd::utf8::encode_utf8_decode_utf8(cs);
}

/// Parse a quoted JSON string value.  Refines `p_jstr`.
pub fn parse_jstr(input: &[u8], pos: usize) -> (r: Option<(String, usize)>)
    requires
        pos <= input@.len(),
    ensures
        match r {
            Some((v, np)) => {
                &&& p_jstr(input@.skip(pos as int)) == Some((v@, (np - pos) as int))
                &&& pos < np <= input@.len()
            },
            None => p_jstr(input@.skip(pos as int)) is None,
        },
{
    let ghost s = input@.skip(pos as int);
    if pos >= input.len() || input[pos] != 0x22 {
        proof {
            if s.len() > 0 {
                assert(s[0] == input@[pos as int]);
            }
        }
        return None;
    }
    proof {
        assert(s[0] == input@[pos as int]);
        assert(s.skip(1) =~= input@.skip(pos as int + 1));
    }
    match parse_str(input, pos + 1) {
        Some((v, np)) => {
            proof {
                lemma_p_str_bounds(s.skip(1));
            }
            match bytes_to_string(v.as_slice()) {
                Some(out) => Some((out, np)),
                None => None,
            }
        },
        None => None,
    }
}

/// Spec parser for one peer object.
pub open spec fn p_peer(s: Seq<u8>) -> Option<(PeerView, int)> {
    match p_lit(s, ascii_bytes_of("{\"device_id\":"@)) {
        Some(k1) => match p_jstr(s.skip(k1)) {
            Some((id, k2)) => match p_lit(s.skip(k1 + k2), ascii_bytes_of(",\"device_name\":"@)) {
                Some(k3) => match p_jstr(s.skip(k1 + k2 + k3)) {
                    Some((name, k4)) => match p_lit(
                        s.skip(k1 + k2 + k3 + k4),
                        ascii_bytes_of("}"@),
                    ) {
                        Some(k5) => Some(
                            (
                                PeerView { device_id: id, device_name: name },
                                k1 + k2 + k3 + k4 + k5,
                            ),
                        ),
                        None => None,
                    },
                    None => None,
                },
                None => None,
            },
            None => None,
        },
        None => None,
    }
}

/// A literal prefix of a concatenation parses as itself.
pub proof fn lemma_p_lit_self(lit: Seq<u8>, rest: Seq<u8>)
    ensures
        p_lit(lit + rest, lit) == Some(lit.len() as int),
{
    assert((lit + rest).take(lit.len() as int) =~= lit);
}

/// Parsing undoes peer encoding.
pub proof fn lemma_p_peer(p: PeerView, rest: Seq<u8>)
    ensures
        p_peer(peer_json(p) + rest) == Some((p, peer_json(p).len() as int)),
        peer_json(p).len() >= 1,
{
    let a = ascii_bytes_of("{\"device_id\":"@);
    let b = ascii_bytes_of(",\"device_name\":"@);
    let z = ascii_bytes_of("}"@);
    let s = peer_json(p) + rest;
    let r1 = jstr_of(p.device_id) + (b + (jstr_of(p.device_name) + (z + rest)));
    assert(s =~= a + r1);
    lemma_p_lit_self(a, r1);
    assert(s.skip(a.len() as int) =~= r1);
    lemma_p_jstr(p.device_id, b + (jstr_of(p.device_name) + (z + rest)));
    let k2 = jstr_of(p.device_id).len() as int;
    let r2 = jstr_of(p.device_name) + (z + rest);
    assert(r1.skip(k2) =~= b + r2);
    lemma_p_lit_self(b, r2);
    assert(s.skip(a.len() + k2) =~= b + r2);
    assert((b + r2).skip(b.len() as int) =~= r2);
    assert(s.skip(a.len() + k2 + b.len()) =~= r2);
    lemma_p_jstr(p.device_name, z + rest);
    let k4 = jstr_of(p.device_name).len() as int;
    assert(r2.skip(k4) =~= z + rest);
    assert(s.skip(a.len() + k2 + b.len() + k4) =~= z + rest);
    lemma_p_lit_self(z, rest);
    reveal_strlit("{\"device_id\":");
    assert(a.len() == 13);
}

/// Parse one peer object.  Refines `p_peer`.
pub fn parse_peer(input: &[u8], pos: usize) -> (r: Option<(PeerInfo, usize)>)
    requires
        pos <= input@.len(),
    ensures
        match r {
            Some((p, np)) => {
                &&& p_peer(input@.skip(pos as int)) == Some((p@, (np - pos) as int))
                &&& pos < np <= input@.len()
            },
            None => p_peer(input@.skip(pos as int)) is None,
        },
{
    proof {
        reveal_strlit("{\"device_id\":");
        reveal_strlit(",\"device_name\":");
        reveal_strlit("}");
    }
    let ghost s = input@.skip(pos as int);
    let lit_a = ascii_lit("{\"device_id\":");
    let lit_b = ascii_lit(",\"device_name\":");
    let lit_z = ascii_lit("}");
    let p1 = match parse_lit(input, pos, lit_a.as_slice()) {
        Some(np) => np,
        None => {
            return None;
        },
    };
    proof {
        assert(s.skip(p1 - pos) =~= input@.skip(p1 as int));
    }
    let (id, p2) = match parse_jstr(input, p1) {
        Some(x) => x,
        None => {
            return None;
        },
    };
    proof {
        assert(s.skip(p2 - pos) =~= input@.skip(p2 as int));
    }
    let p3 = match parse_lit(input, p2, lit_b.as_slice()) {
        Some(np) => np,
        None => {
            return None;
        },
    };
    proof {
        assert(s.skip(p3 - pos) =~= input@.skip(p3 as int));
    }
    let (name, p4) = match parse_jstr(input, p3) {
        Some(x) => x,
        None => {
            return None;
        },
    };
    proof {
        assert(s.skip(p4 - pos) =~= input@.skip(p4 as int));
    }
    let p5 = match parse_lit(input, p4, lit_z.as_slice()) {
        Some(np) => np,
        None => {
            return None;
        },
    };
    Some((PeerInfo { device_id: id, device_name: name }, p5))
}


/// Spec parser for the tail of a non-empty JSON array of peers:
/// `peer (, peer)* ]`.
pub open spec fn p_peers_tail(s: Seq<u8>) -> Option<(Seq<PeerView>, int)>
    decreases s.len(),
{
    match p_peer(s) {
        Some((p, k)) => if 1 <= k < s.len() {
            if s[k] == 0x2C {
                match p_peers_tail(s.skip(k + 1)) {
                    Some((ps, k2)) => Some((seq![p] + ps, k + 1 + k2)),
                    None => None,
                }
            } else if s[k] == 0x5D {
                Some((seq![p], k + 1))
            } else {
                None
            }
        } else {
            None
        },
        None => None,
    }
}

/// Spec parser for a JSON array of peers.
pub open spec fn p_peers_array(s: Seq<u8>) -> Option<(Seq<PeerView>, int)> {
    if s.len() >= 2 && s[0] == 0x5B && s[1] == 0x5D {
        Some((Seq::empty(), 2))
    } else if s.len() >= 1 && s[0] == 0x5B {
        match p_peers_tail(s.skip(1)) {
            Some((ps, k)) => Some((ps, 1 + k)),
            None => None,
        }
    } else {
        None
    }
}

#[verifier::rlimit(80)]
proof fn lemma_p_peers_tail(ps: Seq<PeerView>, rest: Seq<u8>)
    requires
        ps.len() >= 1,
    ensures
        p_peers_tail(peers_items(ps) + seq![0x5Du8] + rest) == Some(
            (ps, peers_items(ps).len() + 1 as int),
        ),
    decreases ps.len(),
{
    let s = peers_items(ps) + seq![0x5Du8] + rest;
    if ps.len() == 1 {
        lemma_p_peer(ps[0], seq![0x5Du8] + rest);
        assert(s =~= peer_json(ps[0]) + (seq![0x5Du8] + rest));
        let k = peer_json(ps[0]).len() as int;
        assert(p_peer(s) == Some((ps[0], k)));
        assert(s[k] == 0x5D);
        assert(seq![ps[0]] =~= ps);
    } else {
        let df = ps.drop_first();
        let tail = seq![0x2Cu8] + (peers_items(df) + seq![0x5Du8] + rest);
        lemma_p_peer(ps[0], tail);
        assert(s =~= peer_json(ps[0]) + tail);
        let k = peer_json(ps[0]).len() as int;
        assert(p_peer(s) == Some((ps[0], k)));
        assert(s[k] == 0x2C);
        assert(s.skip(k + 1) =~= peers_items(df) + seq![0x5Du8] + rest);
        lemma_p_peers_tail(df, rest);
        assert(seq![ps[0]] + df =~= ps);
        assert(peers_items(ps).len() == k + 1 + peers_items(df).len());
    }
}

/// Parsing undoes peer-array encoding.
pub proof fn lemma_p_peers_array(ps: Seq<PeerView>, rest: Seq<u8>)
    ensures
        p_peers_array(peers_array_json(ps) + rest) == Some(
            (ps, peers_array_json(ps).len() as int),
        ),
{
    let s = peers_array_json(ps) + rest;
    assert(s[0] == 0x5B);
    if ps.len() == 0 {
        assert(s[1] == 0x5D);
        assert(Seq::<PeerView>::empty() =~= ps);
    } else {
        assert(s.skip(1) =~= peers_items(ps) + seq![0x5Du8] + rest);
        lemma_p_peers_tail(ps, rest);
        reveal_strlit("{\"device_id\":");
        assert(peers_items(ps)[0] == peer_json(ps[0])[0]);
        assert(peer_json(ps[0])[0] == ascii_bytes_of("{\"device_id\":"@)[0]);
        assert(s[1] == ('{' as u8));
        assert(s[1] != 0x5D);
    }
}

/// Parse a JSON array of peers.  Refines `p_peers_array`.
pub fn parse_peers_array(input: &[u8], pos: usize) -> (r: Option<(Vec<PeerInfo>, usize)>)
    requires
        pos <= input@.len(),
    ensures
        match r {
            Some((ps, np)) => {
                &&& p_peers_array(input@.skip(pos as int)) == Some(
                    (Seq::new(ps@.len(), |i: int| ps@[i]@), (np - pos) as int),
                )
                &&& pos < np <= input@.len()
            },
            None => p_peers_array(input@.skip(pos as int)) is None,
        },
{
    let ghost s = input@.skip(pos as int);
    let n = input.len();
    if pos >= n || input[pos] != 0x5B {
        proof {
            if s.len() > 0 {
                assert(s[0] == input@[pos as int]);
            }
        }
        return None;
    }
    proof {
        assert(s[0] == input@[pos as int]);
    }
    if pos + 1 < n && input[pos + 1] == 0x5D {
        let out: Vec<PeerInfo> = Vec::new();
        proof {
            assert(s[1] == input@[pos as int + 1]);
            assert(Seq::new(out@.len(), |i: int| out@[i]@) =~= Seq::<PeerView>::empty());
        }
        return Some((out, pos + 2));
    }
    proof {
        if s.len() >= 2 {
            assert(s[1] == input@[pos as int + 1]);
        }
        assert(!(s.len() >= 2 && s[0] == 0x5B && s[1] == 0x5D));
        assert(s.skip(1) =~= input@.skip(pos as int + 1));
    }
    let ghost t0 = input@.skip(pos as int + 1);
    let mut out: Vec<PeerInfo> = Vec::new();
    let mut p: usize = pos + 1;
    loop
        invariant
            pos + 1 <= p <= n,
            n == input@.len(),
            s == input@.skip(pos as int),
            t0 == input@.skip(pos as int + 1),
            t0 == s.skip(1),
            s.len() >= 1 && s[0] == 0x5B,
            !(s.len() >= 2 && s[1] == 0x5D),
            (p_peers_tail(t0) is Some <==> p_peers_tail(input@.skip(p as int)) is Some),
            p_peers_tail(input@.skip(p as int)) is Some ==> {
                let r0 = p_peers_tail(t0).unwrap();
                let ri = p_peers_tail(input@.skip(p as int)).unwrap();
                r0.0 == Seq::new(out@.len(), |i: int| out@[i]@) + ri.0 && r0.1 == (p - pos - 1)
                    + ri.1
            },
        decreases n - p,
    {
        let ghost tp = input@.skip(p as int);
        let ghost accv = Seq::new(out@.len(), |i: int| out@[i]@);
        let (peer, np) = match parse_peer(input, p) {
            Some(x) => x,
            None => {
                return None;
            },
        };
        let ghost k = np - p;
        if np >= n {
            proof {
                assert(!(1 <= k < tp.len()));
            }
            return None;
        }
        let b = input[np];
        proof {
            assert(1 <= k < tp.len());
            assert(tp[k as int] == input@[np as int]);
        }
        if b == 0x2C {
            out.push(peer);
            proof {
                assert(tp.skip(k as int + 1) =~= input@.skip(np as int + 1));
                if p_peers_tail(input@.skip(np as int + 1)) is Some {
                    let ri2 = p_peers_tail(input@.skip(np as int + 1)).unwrap();
                    assert(p_peers_tail(tp) == Some((seq![peer@] + ri2.0, k + 1 + ri2.1)));
                    assert(accv + (seq![peer@] + ri2.0) =~= Seq::new(
                        out@.len(),
                        |i: int| out@[i]@,
                    ) + ri2.0);
                }
            }
            p = np + 1;
        } else if b == 0x5D {
            out.push(peer);
            proof {
                assert(p_peers_tail(tp) == Some((seq![peer@], k + 1)));
                assert(accv + seq![peer@] =~= Seq::new(out@.len(), |i: int| out@[i]@));
            }
            return Some((out, np + 1));
        } else {
            proof {
                assert(p_peers_tail(tp) is None);
            }
            return None;
        }
    }
}

/// Spec parser for the tail of a non-empty JSON array of strings.
pub open spec fn p_strs_tail(s: Seq<u8>) -> Option<(Seq<Seq<char>>, int)>
    decreases s.len(),
{
    match p_jstr(s) {
        Some((v, k)) => if 1 <= k < s.len() {
            if s[k] == 0x2C {
                match p_strs_tail(s.skip(k + 1)) {
                    Some((vs, k2)) => Some((seq![v] + vs, k + 1 + k2)),
                    None => None,
                }
            } else if s[k] == 0x5D {
                Some((seq![v], k + 1))
            } else {
                None
            }
        } else {
            None
        },
        None => None,
    }
}

/// Spec parser for a JSON array of strings.
pub open spec fn p_strs_array(s: Seq<u8>) -> Option<(Seq<Seq<char>>, int)> {
    if s.len() >= 2 && s[0] == 0x5B && s[1] == 0x5D {
        Some((Seq::empty(), 2))
    } else if s.len() >= 1 && s[0] == 0x5B {
        match p_strs_tail(s.skip(1)) {
            Some((vs, k)) => Some((vs, 1 + k)),
            None => None,
        }
    } else {
        None
    }
}

proof fn lemma_p_strs_tail(ss: Seq<Seq<char>>, rest: Seq<u8>)
    requires
        ss.len() >= 1,
    ensures
        p_strs_tail(strs_items(ss) + seq![0x5Du8] + rest) == Some(
            (ss, strs_items(ss).len() + 1 as int),
        ),
    decreases ss.len(),
{
    let s = strs_items(ss) + seq![0x5Du8] + rest;
    if ss.len() == 1 {
        lemma_p_jstr(ss[0], seq![0x5Du8] + rest);
        assert(s =~= jstr_of(ss[0]) + (seq![0x5Du8] + rest));
        let k = jstr_of(ss[0]).len() as int;
        assert(p_jstr(s) == Some((ss[0], k)));
        assert(s[k] == 0x5D);
        assert(seq![ss[0]] =~= ss);
    } else {
        let df = ss.drop_first();
        let tail = seq![0x2Cu8] + (strs_items(df) + seq![0x5Du8] + rest);
        lemma_p_jstr(ss[0], tail);
        assert(s =~= jstr_of(ss[0]) + tail);
        let k = jstr_of(ss[0]).len() as int;
        assert(p_jstr(s) == Some((ss[0], k)));
        assert(s[k] == 0x2C);
        assert(s.skip(k + 1) =~= strs_items(df) + seq![0x5Du8] + rest);
        lemma_p_strs_tail(df, rest);
        assert(seq![ss[0]] + df =~= ss);
        assert(strs_items(ss).len() == k + 1 + strs_items(df).len());
    }
}

/// Parsing undoes string-array encoding.
pub proof fn lemma_p_strs_array(ss: Seq<Seq<char>>, rest: Seq<u8>)
    ensures
        p_strs_array(strs_array_json(ss) + rest) == Some(
            (ss, strs_array_json(ss).len() as int),
        ),
{
    let s = strs_array_json(ss) + rest;
    assert(s[0] == 0x5B);
    if ss.len() == 0 {
        assert(s[1] == 0x5D);
        assert(Seq::<Seq<char>>::empty() =~= ss);
    } else {
        assert(s.skip(1) =~= strs_items(ss) + seq![0x5Du8] + rest);
        lemma_p_strs_tail(ss, rest);
        assert(strs_items(ss)[0] == jstr_of(ss[0])[0]);
        assert(s[1] == 0x22);
        assert(s[1] != 0x5D);
    }
}

/// Parse a JSON array of strings.  Refines `p_strs_array`.
pub fn parse_strs_array(input: &[u8], pos: usize) -> (r: Option<(Vec<String>, usize)>)
    requires
        pos <= input@.len(),
    ensures
        match r {
            Some((ss, np)) => {
                &&& p_strs_array(input@.skip(pos as int)) == Some(
                    (Seq::new(ss@.len(), |i: int| ss@[i]@), (np - pos) as int),
                )
                &&& pos < np <= input@.len()
            },
            None => p_strs_array(input@.skip(pos as int)) is None,
        },
{
    let ghost s = input@.skip(pos as int);
    let n = input.len();
    if pos >= n || input[pos] != 0x5B {
        proof {
            if s.len() > 0 {
                assert(s[0] == input@[pos as int]);
            }
        }
        return None;
    }
    proof {
        assert(s[0] == input@[pos as int]);
    }
    if pos + 1 < n && input[pos + 1] == 0x5D {
        let out: Vec<String> = Vec::new();
        proof {
            assert(s[1] == input@[pos as int + 1]);
            assert(Seq::new(out@.len(), |i: int| out@[i]@) =~= Seq::<Seq<char>>::empty());
        }
        return Some((out, pos + 2));
    }
    proof {
        if s.len() >= 2 {
            assert(s[1] == input@[pos as int + 1]);
        }
        assert(!(s.len() >= 2 && s[0] == 0x5B && s[1] == 0x5D));
        assert(s.skip(1) =~= input@.skip(pos as int + 1));
    }
    let ghost t0 = input@.skip(pos as int + 1);
    let mut out: Vec<String> = Vec::new();
    let mut p: usize = pos + 1;
    loop
        invariant
            pos + 1 <= p <= n,
            n == input@.len(),
            s == input@.skip(pos as int),
            t0 == input@.skip(pos as int + 1),
            t0 == s.skip(1),
            s.len() >= 1 && s[0] == 0x5B,
            !(s.len() >= 2 && s[1] == 0x5D),
            (p_strs_tail(t0) is Some <==> p_strs_tail(input@.skip(p as int)) is Some),
            p_strs_tail(input@.skip(p as int)) is Some ==> {
                let r0 = p_strs_tail(t0).unwrap();
                let ri = p_strs_tail(input@.skip(p as int)).unwrap();
                r0.0 == Seq::new(out@.len(), |i: int| out@[i]@) + ri.0 && r0.1 == (p - pos - 1)
                    + ri.1
            },
        decreases n - p,
    {
        let ghost tp = input@.skip(p as int);
        let ghost accv = Seq::new(out@.len(), |i: int| out@[i]@);
        let (item, np) = match parse_jstr(input, p) {
            Some(x) => x,
            None => {
                return None;
            },
        };
        let ghost k = np - p;
        if np >= n {
            proof {
                assert(!(1 <= k < tp.len()));
            }
            return None;
        }
        let b = input[np];
        proof {
            assert(1 <= k < tp.len());
            assert(tp[k as int] == input@[np as int]);
        }
        if b == 0x2C {
            proof {
                assert(tp.skip(k as int + 1) =~= input@.skip(np as int + 1));
            }
            let ghost itemv = item@;
            out.push(item);
            proof {
                if p_strs_tail(input@.skip(np as int + 1)) is Some {
                    let ri2 = p_strs_tail(input@.skip(np as int + 1)).unwrap();
                    assert(p_strs_tail(tp) == Some((seq![itemv] + ri2.0, k + 1 + ri2.1)));
                    assert(accv + (seq![itemv] + ri2.0) =~= Seq::new(
                        out@.len(),
                        |i: int| out@[i]@,
                    ) + ri2.0);
                }
            }
            p = np + 1;
        } else if b == 0x5D {
            let ghost itemv = item@;
            out.push(item);
            proof {
                assert(p_strs_tail(tp) == Some((seq![itemv], k + 1)));
                assert(accv + seq![itemv] =~= Seq::new(out@.len(), |i: int| out@[i]@));
            }
            return Some((out, np + 1));
        } else {
            proof {
                assert(p_strs_tail(tp) is None);
            }
            return None;
        }
    }
}


/// Spec parser for a literal key followed by a JSON string value.
pub open spec fn p_field_str(s: Seq<u8>, lit: Seq<u8>) -> Option<(Seq<char>, int)> {
    match p_lit(s, lit) {
        Some(k1) => match p_jstr(s.skip(k1)) {
            Some((v, k2)) => Some((v, k1 + k2)),
            None => None,
        },
        None => None,
    }
}

/// Spec parser for a literal key followed by a decimal value.
pub open spec fn p_field_u64(s: Seq<u8>, lit: Seq<u8>) -> Option<(u64, int)> {
    match p_lit(s, lit) {
        Some(k1) => match p_u64(s.skip(k1)) {
            Some((v, k2)) => Some((v, k1 + k2)),
            None => None,
        },
        None => None,
    }
}

pub proof fn lemma_p_field_str(s: Seq<u8>, lit: Seq<u8>, v: Seq<char>, tail: Seq<u8>)
    requires
        s == lit + jstr_of(v) + tail,
    ensures
        p_field_str(s, lit) == Some((v, lit.len() + jstr_of(v).len() as int)),
{
    assert(s =~= lit + (jstr_of(v) + tail));
    lemma_p_lit_self(lit, jstr_of(v) + tail);
    assert(s.skip(lit.len() as int) =~= jstr_of(v) + tail);
    lemma_p_jstr(v, tail);
}

pub proof fn lemma_p_field_u64(s: Seq<u8>, lit: Seq<u8>, x: u64, tail: Seq<u8>)
    requires
        s == lit + dec_u64(x) + tail,
        tail.len() > 0,
        !is_digit(tail[0]),
    ensures
        p_field_u64(s, lit) == Some((x, lit.len() + dec_u64(x).len() as int)),
{
    assert(s =~= lit + (dec_u64(x) + tail));
    lemma_p_lit_self(lit, dec_u64(x) + tail);
    assert(s.skip(lit.len() as int) =~= dec_u64(x) + tail);
    lemma_p_u64_dec(x, tail);
}

/// Parse a literal key and its string value.  Refines `p_field_str`.
pub fn parse_field_str(input: &[u8], pos: usize, lit: &[u8]) -> (r: Option<(String, usize)>)
    requires
        pos <= input@.len(),
    ensures
        match r {
            Some((v, np)) => {
                &&& p_field_str(input@.skip(pos as int), lit@) == Some((v@, (np - pos) as int))
                &&& pos < np <= input@.len()
            },
            None => p_field_str(input@.skip(pos as int), lit@) is None,
        },
{
    let ghost s = input@.skip(pos as int);
    let p1 = match parse_lit(input, pos, lit) {
        Some(np) => np,
        None => {
            return None;
        },
    };
    proof {
        assert(s.skip(p1 - pos) =~= input@.skip(p1 as int));
    }
    match parse_jstr(input, p1) {
        Some((v, np)) => Some((v, np)),
        None => None,
    }
}

/// Parse a literal key and its decimal value.  Refines `p_field_u64`.
pub fn parse_field_u64(input: &[u8], pos: usize, lit: &[u8]) -> (r: Option<(u64, usize)>)
    requires
        pos <= input@.len(),
    ensures
        match r {
            Some((v, np)) => {
                &&& p_field_u64(input@.skip(pos as int), lit@) == Some((v, (np - pos) as int))
                &&& pos <= np <= input@.len()
            },
            None => p_field_u64(input@.skip(pos as int), lit@) is None,
        },
{
    let ghost s = input@.skip(pos as int);
    let p1 = match parse_lit(input, pos, lit) {
        Some(np) => np,
        None => {
            return None;
        },
    };
    proof {
        assert(s.skip(p1 - pos) =~= input@.skip(p1 as int));
    }
    match parse_u64(input, p1) {
        Some((v, np)) => Some((v, np)),
        None => None,
    }
}

/// Spec parser for the clipboard-event JSON object.
pub open spec fn p_event(s: Seq<u8>) -> Option<(EventView, int)> {
    match p_field_str(s, ascii_bytes_of("{\"sender_device_id\":"@)) {
        Some((sender, k1)) => match p_field_u64(s.skip(k1), ascii_bytes_of(",\"counter\":"@)) {
            Some((counter, k2)) => match p_field_u64(
                s.skip(k1 + k2),
                ascii_bytes_of(",\"timestamp_unix_ms\":"@),
            ) {
                Some((ts, k3)) => match p_field_str(
                    s.skip(k1 + k2 + k3),
                    ascii_bytes_of(",\"mime\":"@),
                ) {
                    Some((mime, k4)) => match p_field_str(
                        s.skip(k1 + k2 + k3 + k4),
                        ascii_bytes_of(",\"text_utf8\":"@),
                    ) {
                        Some((text, k5)) => match p_lit(
                            s.skip(k1 + k2 + k3 + k4 + k5),
                            ascii_bytes_of("}"@),
                        ) {
                            Some(k6) => Some(
                                (
                                    EventView {
                                        sender_device_id: sender,
                                        counter: counter,
                                        timestamp_unix_ms: ts,
                                        mime: mime,
                                        text_utf8: text,
                                    },
                                    k1 + k2 + k3 + k4 + k5 + k6,
                                ),
                            ),
                            None => None,
                        },
                        None => None,
                    },
                    None => None,
                },
                None => None,
            },
            None => None,
        },
        None => None,
    }
}

/// Tail of the event round-trip proof: the MIME and text fields and the
/// closing brace parse off `t3`.
#[verifier::rlimit(100)]
proof fn lemma_p_event_tail(e: EventView, rest: Seq<u8>)
    ensures
        ({
            let a4 = ascii_bytes_of(",\"mime\":"@);
            let a5 = ascii_bytes_of(",\"text_utf8\":"@);
            let a6 = ascii_bytes_of("}"@);
            let t5 = a6 + rest;
            let t4 = a5 + jstr_of(e.text_utf8) + t5;
            let t3 = a4 + jstr_of(e.mime) + t4;
            let k4 = a4.len() + jstr_of(e.mime).len() as int;
            let k5 = a5.len() + jstr_of(e.text_utf8).len() as int;
            &&& p_field_str(t3, a4) == Some((e.mime, k4))
            &&& t3.skip(k4) == t4
            &&& p_field_str(t4, a5) == Some((e.text_utf8, k5))
            &&& t4.skip(k5) == t5
            &&& p_lit(t5, a6) == Some(a6.len() as int)
            &&& a6.len() == 1
        }),
{
    reveal_strlit("}");
    let a4 = ascii_bytes_of(",\"mime\":"@);
    let a5 = ascii_bytes_of(",\"text_utf8\":"@);
    let a6 = ascii_bytes_of("}"@);
    let t5 = a6 + rest;
    let t4 = a5 + jstr_of(e.text_utf8) + t5;
    let t3 = a4 + jstr_of(e.mime) + t4;
    lemma_p_field_str(t3, a4, e.mime, t4);
    let k4 = a4.len() + jstr_of(e.mime).len() as int;
    assert(t3.skip(k4) =~= t4);
    lemma_p_field_str(t4, a5, e.text_utf8, t5);
    let k5 = a5.len() + jstr_of(e.text_utf8).len() as int;
    assert(t4.skip(k5) =~= t5);
    lemma_p_lit_self(a6, rest);
}

/// Parsing undoes event encoding.
#[verifier::rlimit(100)]
pub proof fn lemma_p_event(e: EventView, rest: Seq<u8>)
    ensures
        p_event(event_json(e) + rest) == Some((e, event_json(e).len() as int)),
{
    reveal_strlit(",\"counter\":");
    reveal_strlit(",\"timestamp_unix_ms\":");
    reveal_strlit(",\"mime\":");
    lemma_p_event_tail(e, rest);
    let a1 = ascii_bytes_of("{\"sender_device_id\":"@);
    let a2 = ascii_bytes_of(",\"counter\":"@);
    let a3 = ascii_bytes_of(",\"timestamp_unix_ms\":"@);
    let a4 = ascii_bytes_of(",\"mime\":"@);
    let a5 = ascii_bytes_of(",\"text_utf8\":"@);
    let a6 = ascii_bytes_of("}"@);
    let s = event_json(e) + rest;
    let t5 = a6 + rest;
    let t4 = a5 + jstr_of(e.text_utf8) + t5;
    let t3 = a4 + jstr_of(e.mime) + t4;
    let t2 = a3 + dec_u64(e.timestamp_unix_ms) + t3;
    let t1 = a2 + dec_u64(e.counter) + t2;
    assert(s =~= a1 + jstr_of(e.sender_device_id) + t1);
    lemma_p_field_str(a1 + jstr_of(e.sender_device_id) + t1, a1, e.sender_device_id, t1);
    let k1 = a1.len() + jstr_of(e.sender_device_id).len() as int;
    assert(s.skip(k1) =~= t1);
    assert(t2[0] == (',' as u8));
    assert(!is_digit(t2[0]));
    assert(t1 =~= a2 + dec_u64(e.counter) + t2);
    lemma_p_field_u64(t1, a2, e.counter, t2);
    let k2 = a2.len() + dec_u64(e.counter).len() as int;
    assert(s.skip(k1 + k2) =~= t2);
    assert(t3[0] == (',' as u8));
    assert(!is_digit(t3[0]));
    lemma_p_field_u64(t2, a3, e.timestamp_unix_ms, t3);
    let k3 = a3.len() + dec_u64(e.timestamp_unix_ms).len() as int;
    assert(s.skip(k1 + k2 + k3) =~= t3);
    let k4 = a4.len() + jstr_of(e.mime).len() as int;
    assert(s.skip(k1 + k2 + k3 + k4) =~= t4);
    let k5 = a5.len() + jstr_of(e.text_utf8).len() as int;
    assert(s.skip(k1 + k2 + k3 + k4 + k5) =~= t5);
    assert(e == (EventView {
        sender_device_id: e.sender_device_id,
        counter: e.counter,
        timestamp_unix_ms: e.timestamp_unix_ms,
        mime: e.mime,
        text_utf8: e.text_utf8,
    }));
}

/// Parse a clipboard-event JSON object.  Refines `p_event`.
#[verifier::rlimit(100)]
pub fn parse_event(input: &[u8], pos: usize) -> (r: Option<(ClipboardEventPlaintext, usize)>)
    requires
        pos <= input@.len(),
    ensures
        match r {
            Some((e, np)) => {
                &&& p_event(input@.skip(pos as int)) == Some((e@, (np - pos) as int))
                &&& pos < np <= input@.len()
            },
            None => p_event(input@.skip(pos as int)) is None,
        },
{
    proof {
        reveal_strlit("{\"sender_device_id\":");
        reveal_strlit(",\"counter\":");
        reveal_strlit(",\"timestamp_unix_ms\":");
        reveal_strlit(",\"mime\":");
        reveal_strlit(",\"text_utf8\":");
        reveal_strlit("}");
    }
    let ghost s = input@.skip(pos as int);
    let (sender, p1) = match parse_field_str(input, pos, ascii_lit("{\"sender_device_id\":").as_slice()) {
        Some(x) => x,
        None => {
            return None;
        },
    };
    proof {
        assert(s.skip(p1 - pos) =~= input@.skip(p1 as int));
    }
    let (counter, p2) = match parse_field_u64(input, p1, ascii_lit(",\"counter\":").as_slice()) {
        Some(x) => x,
        None => {
            return None;
        },
    };
    proof {
        assert(s.skip(p2 - pos) =~= input@.skip(p2 as int));
    }
    let (ts, p3) = match parse_field_u64(input, p2, ascii_lit(",\"timestamp_unix_ms\":").as_slice()) {
        Some(x) => x,
        None => {
            return None;
        },
    };
    proof {
        assert(s.skip(p3 - pos) =~= input@.skip(p3 as int));
    }
    let (mime, p4) = match parse_field_str(input, p3, ascii_lit(",\"mime\":").as_slice()) {
        Some(x) => x,
        None => {
            return None;
        },
    };
    proof {
        assert(s.skip(p4 - pos) =~= input@.skip(p4 as int));
    }
    let (text, p5) = match parse_field_str(input, p4, ascii_lit(",\"text_utf8\":").as_slice()) {
        Some(x) => x,
        None => {
            return None;
        },
    };
    proof {
        assert(s.skip(p5 - pos) =~= input@.skip(p5 as int));
    }
    let p6 = match parse_lit(input, p5, ascii_lit("}").as_slice()) {
        Some(np) => np,
        None => {
            return None;
        },
    };
    Some(
        (
            ClipboardEventPlaintext {
                sender_device_id: sender,
                counter: counter,
                timestamp_unix_ms: ts,
                mime: mime,
                text_utf8: text,
            },
            p6,
        ),
    )
}


/// Spec parser for the `Hello` / `PeerJoined` body shape.
pub open spec fn p_body_room_peer(s: Seq<u8>) -> Option<((Seq<char>, PeerView), int)> {
    match p_field_str(s, ascii_bytes_of("{\"room_id\":"@)) {
        Some((room, k1)) => match p_lit(s.skip(k1), ascii_bytes_of(",\"peer\":"@)) {
            Some(k2) => match p_peer(s.skip(k1 + k2)) {
                Some((peer, k3)) => match p_lit(s.skip(k1 + k2 + k3), ascii_bytes_of("}"@)) {
                    Some(k4) => Some(((room, peer), k1 + k2 + k3 + k4)),
                    None => None,
                },
                None => None,
            },
            None => None,
        },
        None => None,
    }
}

/// Spec parser for the `PeerList` body.
pub open spec fn p_body_peerlist(s: Seq<u8>) -> Option<((Seq<char>, Seq<PeerView>), int)> {
    match p_field_str(s, ascii_bytes_of("{\"room_id\":"@)) {
        Some((room, k1)) => match p_lit(s.skip(k1), ascii_bytes_of(",\"peers\":"@)) {
            Some(k2) => match p_peers_array(s.skip(k1 + k2)) {
                Some((peers, k3)) => match p_lit(s.skip(k1 + k2 + k3), ascii_bytes_of("}"@)) {
                    Some(k4) => Some(((room, peers), k1 + k2 + k3 + k4)),
                    None => None,
                },
                None => None,
            },
            None => None,
        },
        None => None,
    }
}

/// Spec parser for the `PeerLeft` body.
pub open spec fn p_body_peerleft(s: Seq<u8>) -> Option<((Seq<char>, Seq<char>), int)> {
    match p_field_str(s, ascii_bytes_of("{\"room_id\":"@)) {
        Some((room, k1)) => match p_field_str(s.skip(k1), ascii_bytes_of(",\"device_id\":"@)) {
            Some((dev, k2)) => match p_lit(s.skip(k1 + k2), ascii_bytes_of("}"@)) {
                Some(k3) => Some(((room, dev), k1 + k2 + k3)),
                None => None,
            },
            None => None,
        },
        None => None,
    }
}

/// Spec parser for the `SaltExchange` body.
pub open spec fn p_body_salt(s: Seq<u8>) -> Option<((Seq<char>, Seq<Seq<char>>), int)> {
    match p_field_str(s, ascii_bytes_of("{\"room_id\":"@)) {
        Some((room, k1)) => match p_lit(s.skip(k1), ascii_bytes_of(",\"device_ids\":"@)) {
            Some(k2) => match p_strs_array(s.skip(k1 + k2)) {
                Some((ids, k3)) => match p_lit(s.skip(k1 + k2 + k3), ascii_bytes_of("}"@)) {
                    Some(k4) => Some(((room, ids), k1 + k2 + k3 + k4)),
                    None => None,
                },
                None => None,
            },
            None => None,
        },
        None => None,
    }
}

/// Spec parser for the `Error` body.
pub open spec fn p_body_error(s: Seq<u8>) -> Option<(Seq<char>, int)> {
    match p_field_str(s, ascii_bytes_of("{\"message\":"@)) {
        Some((msg, k1)) => match p_lit(s.skip(k1), ascii_bytes_of("}"@)) {
            Some(k2) => Some((msg, k1 + k2)),
            None => None,
        },
        None => None,
    }
}

/// Spec parser for a whole control payload.
pub open spec fn p_control(s: Seq<u8>) -> Option<(ControlView, int)> {
    match p_field_str(s, ascii_bytes_of("{\"type\":"@)) {
        Some((tag, k1)) => match p_lit(s.skip(k1), ascii_bytes_of(",\"data\":"@)) {
            Some(k2) => {
                let s2 = s.skip(k1 + k2);
                let body: Option<(ControlView, int)> = if tag == "Hello"@ {
                    match p_body_room_peer(s2) {
                        Some(((room, peer), k)) => Some(
                            (ControlView::Hello { room_id: room, peer }, k),
                        ),
                        None => None,
                    }
                } else if tag == "PeerList"@ {
                    match p_body_peerlist(s2) {
                        Some(((room, peers), k)) => Some(
                            (ControlView::PeerList { room_id: room, peers }, k),
                        ),
                        None => None,
                    }
                } else if tag == "PeerJoined"@ {
                    match p_body_room_peer(s2) {
                        Some(((room, peer), k)) => Some(
                            (ControlView::PeerJoined { room_id: room, peer }, k),
                        ),
                        None => None,
                    }
                } else if tag == "PeerLeft"@ {
                    match p_body_peerleft(s2) {
                        Some(((room, dev), k)) => Some(
                            (ControlView::PeerLeft { room_id: room, device_id: dev }, k),
                        ),
                        None => None,
                    }
                } else if tag == "SaltExchange"@ {
                    match p_body_salt(s2) {
                        Some(((room, ids), k)) => Some(
                            (ControlView::SaltExchange { room_id: room, device_ids: ids }, k),
                        ),
                        None => None,
                    }
                } else if tag == "Error"@ {
                    match p_body_error(s2) {
                        Some((msg, k)) => Some((ControlView::Error { message: msg }, k)),
                        None => None,
                    }
                } else {
                    None
                };
                match body {
                    Some((c, k3)) => match p_lit(s.skip(k1 + k2 + k3), ascii_bytes_of("}"@)) {
                        Some(k4) => Some((c, k1 + k2 + k3 + k4)),
                        None => None,
                    },
                    None => None,
                }
            },
            None => None,
        },
        None => None,
    }
}

proof fn lemma_p_body_room_peer(room: Seq<char>, peer: PeerView, rest: Seq<u8>)
    ensures
        p_body_room_peer(
            ascii_bytes_of("{\"room_id\":"@) + jstr_of(room) + ascii_bytes_of(",\"peer\":"@)
                + peer_json(peer) + ascii_bytes_of("}"@) + rest,
        ) == Some(
            (
                (room, peer),
                ascii_bytes_of("{\"room_id\":"@).len() + jstr_of(room).len() + ascii_bytes_of(
                    ",\"peer\":"@,
                ).len() + peer_json(peer).len() + 1 as int,
            ),
        ),
{
    reveal_strlit("}");
    let a = ascii_bytes_of("{\"room_id\":"@);
    let b = ascii_bytes_of(",\"peer\":"@);
    let z = ascii_bytes_of("}"@);
    let s = a + jstr_of(room) + b + peer_json(peer) + z + rest;
    let t1 = b + (peer_json(peer) + (z + rest));
    assert(s =~= a + jstr_of(room) + t1);
    lemma_p_field_str(a + jstr_of(room) + t1, a, room, t1);
    let k1 = a.len() + jstr_of(room).len() as int;
    assert(s.skip(k1) =~= t1);
    lemma_p_lit_self(b, peer_json(peer) + (z + rest));
    assert(s.skip(k1 + b.len()) =~= peer_json(peer) + (z + rest));
    lemma_p_peer(peer, z + rest);
    let k3 = peer_json(peer).len() as int;
    assert(s.skip(k1 + b.len() + k3) =~= z + rest);
    lemma_p_lit_self(z, rest);
    assert(z.len() == 1);
}

proof fn lemma_p_body_peerlist(room: Seq<char>, peers: Seq<PeerView>, rest: Seq<u8>)
    ensures
        p_body_peerlist(
            ascii_bytes_of("{\"room_id\":"@) + jstr_of(room) + ascii_bytes_of(",\"peers\":"@)
                + peers_array_json(peers) + ascii_bytes_of("}"@) + rest,
        ) == Some(
            (
                (room, peers),
                ascii_bytes_of("{\"room_id\":"@).len() + jstr_of(room).len() + ascii_bytes_of(
                    ",\"peers\":"@,
                ).len() + peers_array_json(peers).len() + 1 as int,
            ),
        ),
{
    reveal_strlit("}");
    let a = ascii_bytes_of("{\"room_id\":"@);
    let b = ascii_bytes_of(",\"peers\":"@);
    let z = ascii_bytes_of("}"@);
    let s = a + jstr_of(room) + b + peers_array_json(peers) + z + rest;
    let t1 = b + (peers_array_json(peers) + (z + rest));
    assert(s =~= a + jstr_of(room) + t1);
    lemma_p_field_str(a + jstr_of(room) + t1, a, room, t1);
    let k1 = a.len() + jstr_of(room).len() as int;
    assert(s.skip(k1) =~= t1);
    lemma_p_lit_self(b, peers_array_json(peers) + (z + rest));
    assert(s.skip(k1 + b.len()) =~= peers_array_json(peers) + (z + rest));
    lemma_p_peers_array(peers, z + rest);
    let k3 = peers_array_json(peers).len() as int;
    assert(s.skip(k1 + b.len() + k3) =~= z + rest);
    lemma_p_lit_self(z, rest);
    assert(z.len() == 1);
}

proof fn lemma_p_body_peerleft(room: Seq<char>, dev: Seq<char>, rest: Seq<u8>)
    ensures
        p_body_peerleft(
            ascii_bytes_of("{\"room_id\":"@) + jstr_of(room) + ascii_bytes_of(",\"device_id\":"@)
                + jstr_of(dev) + ascii_bytes_of("}"@) + rest,
        ) == Some(
            (
                (room, dev),
                ascii_bytes_of("{\"room_id\":"@).len() + jstr_of(room).len() + ascii_bytes_of(
                    ",\"device_id\":"@,
                ).len() + jstr_of(dev).len() + 1 as int,
            ),
        ),
{
    reveal_strlit("}");
    let a = ascii_bytes_of("{\"room_id\":"@);
    let b = ascii_bytes_of(",\"device_id\":"@);
    let z = ascii_bytes_of("}"@);
    let s = a + jstr_of(room) + b + jstr_of(dev) + z + rest;
    let t1 = b + jstr_of(dev) + (z + rest);
    assert(s =~= a + jstr_of(room) + t1);
    lemma_p_field_str(a + jstr_of(room) + t1, a, room, t1);
    let k1 = a.len() + jstr_of(room).len() as int;
    assert(s.skip(k1) =~= t1);
    lemma_p_field_str(t1, b, dev, z + rest);
    let k2 = b.len() + jstr_of(dev).len() as int;
    assert(s.skip(k1 + k2) =~= z + rest);
    lemma_p_lit_self(z, rest);
    assert(z.len() == 1);
}

proof fn lemma_p_body_salt(room: Seq<char>, ids: Seq<Seq<char>>, rest: Seq<u8>)
    ensures
        p_body_salt(
            ascii_bytes_of("{\"room_id\":"@) + jstr_of(room) + ascii_bytes_of(",\"device_ids\":"@)
                + strs_array_json(ids) + ascii_bytes_of("}"@) + rest,
        ) == Some(
            (
                (room, ids),
                ascii_bytes_of("{\"room_id\":"@).len() + jstr_of(room).len() + ascii_bytes_of(
                    ",\"device_ids\":"@,
                ).len() + strs_array_json(ids).len() + 1 as int,
            ),
        ),
{
    reveal_strlit("}");
    let a = ascii_bytes_of("{\"room_id\":"@);
    let b = ascii_bytes_of(",\"device_ids\":"@);
    let z = ascii_bytes_of("}"@);
    let s = a + jstr_of(room) + b + strs_array_json(ids) + z + rest;
    let t1 = b + (strs_array_json(ids) + (z + rest));
    assert(s =~= a + jstr_of(room) + t1);
    lemma_p_field_str(a + jstr_of(room) + t1, a, room, t1);
    let k1 = a.len() + jstr_of(room).len() as int;
    assert(s.skip(k1) =~= t1);
    lemma_p_lit_self(b, strs_array_json(ids) + (z + rest));
    assert(s.skip(k1 + b.len()) =~= strs_array_json(ids) + (z + rest));
    lemma_p_strs_array(ids, z + rest);
    let k3 = strs_array_json(ids).len() as int;
    assert(s.skip(k1 + b.len() + k3) =~= z + rest);
    lemma_p_lit_self(z, rest);
    assert(z.len() == 1);
}

proof fn lemma_p_body_error(msg: Seq<char>, rest: Seq<u8>)
    ensures
        p_body_error(
            ascii_bytes_of("{\"message\":"@) + jstr_of(msg) + ascii_bytes_of("}"@) + rest,
        ) == Some(
            (msg, ascii_bytes_of("{\"message\":"@).len() + jstr_of(msg).len() + 1 as int),
        ),
{
    reveal_strlit("}");
    let a = ascii_bytes_of("{\"message\":"@);
    let z = ascii_bytes_of("}"@);
    let s = a + jstr_of(msg) + z + rest;
    let t1 = z + rest;
    assert(s =~= a + jstr_of(msg) + t1);
    lemma_p_field_str(a + jstr_of(msg) + t1, a, msg, t1);
    let k1 = a.len() + jstr_of(msg).len() as int;
    assert(s.skip(k1) =~= t1);
    lemma_p_lit_self(z, rest);
    assert(z.len() == 1);
}

/// The six control tags are pairwise distinct.
proof fn lemma_tags_distinct()
    ensures
        "Hello"@ != "PeerList"@,
        "Hello"@ != "PeerJoined"@,
        "Hello"@ != "PeerLeft"@,
        "Hello"@ != "SaltExchange"@,
        "Hello"@ != "Error"@,
        "PeerList"@ != "PeerJoined"@,
        "PeerList"@ != "PeerLeft"@,
        "PeerList"@ != "SaltExchange"@,
        "PeerList"@ != "Error"@,
        "PeerJoined"@ != "PeerLeft"@,
        "PeerJoined"@ != "SaltExchange"@,
        "PeerJoined"@ != "Error"@,
        "PeerLeft"@ != "SaltExchange"@,
        "PeerLeft"@ != "Error"@,
        "SaltExchange"@ != "Error"@,
{
    reveal_strlit("Hello");
    reveal_strlit("PeerList");
    reveal_strlit("PeerJoined");
    reveal_strlit("PeerLeft");
    reveal_strlit("SaltExchange");
    reveal_strlit("Error");
    assert("Hello"@.len() == 5 && "PeerList"@.len() == 8 && "PeerJoined"@.len() == 10
        && "PeerLeft"@.len() == 8 && "SaltExchange"@.len() == 12 && "Error"@.len() == 5);
    assert("Hello"@[0] != "Error"@[0]);
    assert("PeerList"@[5] != "PeerLeft"@[5]);
}

/// Shared head of the control round-trip proofs: the type tag and the
/// data key parse off the front.
#[verifier::rlimit(100)]
proof fn lemma_p_control_head(c: ControlView, rest: Seq<u8>)
    ensures
        ({
            let a = ascii_bytes_of("{\"type\":"@);
            let b = ascii_bytes_of(",\"data\":"@);
            let s = control_json(c) + rest;
            let t1 = b + (body_json(c) + (ascii_bytes_of("}"@) + rest));
            &&& p_field_str(s, a) == Some((tag_of(c), a.len() + jstr_of(tag_of(c)).len() as int))
            &&& s.skip(a.len() + jstr_of(tag_of(c)).len() as int) == t1
            &&& p_lit(t1, b) == Some(b.len() as int)
            &&& s.skip(a.len() + jstr_of(tag_of(c)).len() + b.len() as int) == body_json(c) + (
                ascii_bytes_of("}"@) + rest)
        }),
{
    let a = ascii_bytes_of("{\"type\":"@);
    let b = ascii_bytes_of(",\"data\":"@);
    let s = control_json(c) + rest;
    let t1 = b + (body_json(c) + (ascii_bytes_of("}"@) + rest));
    assert(s =~= a + jstr_of(tag_of(c)) + t1);
    lemma_p_field_str(a + jstr_of(tag_of(c)) + t1, a, tag_of(c), t1);
    let k1 = a.len() + jstr_of(tag_of(c)).len() as int;
    assert(s.skip(k1) =~= t1);
    lemma_p_lit_self(b, body_json(c) + (ascii_bytes_of("}"@) + rest));
    assert(s.skip(k1 + b.len()) =~= body_json(c) + (ascii_bytes_of("}"@) + rest));
}

/// Parsing undoes control encoding.
#[verifier::rlimit(100)]
pub proof fn lemma_p_control(c: ControlView, rest: Seq<u8>)
    ensures
        p_control(control_json(c) + rest) == Some((c, control_json(c).len() as int)),
{
    reveal_strlit("}");
    lemma_tags_distinct();
    lemma_p_control_head(c, rest);
    let a = ascii_bytes_of("{\"type\":"@);
    let b = ascii_bytes_of(",\"data\":"@);
    let z = ascii_bytes_of("}"@);
    let s = control_json(c) + rest;
    let k1 = a.len() + jstr_of(tag_of(c)).len() as int;
    let s2 = s.skip(k1 + b.len());
    assert(s2 == body_json(c) + (z + rest));
    let k3 = body_json(c).len() as int;
    match c {
        ControlView::Hello { room_id, peer } => {
            assert(s2 =~= ascii_bytes_of("{\"room_id\":"@) + jstr_of(room_id) + ascii_bytes_of(
                ",\"peer\":"@,
            ) + peer_json(peer) + ascii_bytes_of("}"@) + (z + rest));
            lemma_p_body_room_peer(room_id, peer, z + rest);
            assert(z.len() == 1);
        },
        ControlView::PeerList { room_id, peers } => {
            assert(s2 =~= ascii_bytes_of("{\"room_id\":"@) + jstr_of(room_id) + ascii_bytes_of(
                ",\"peers\":"@,
            ) + peers_array_json(peers) + ascii_bytes_of("}"@) + (z + rest));
            lemma_p_body_peerlist(room_id, peers, z + rest);
            assert(z.len() == 1);
        },
        ControlView::PeerJoined { room_id, peer } => {
            assert(s2 =~= ascii_bytes_of("{\"room_id\":"@) + jstr_of(room_id) + ascii_bytes_of(
                ",\"peer\":"@,
            ) + peer_json(peer) + ascii_bytes_of("}"@) + (z + rest));
            lemma_p_body_room_peer(room_id, peer, z + rest);
            assert(z.len() == 1);
        },
        ControlView::PeerLeft { room_id, device_id } => {
            assert(s2 =~= ascii_bytes_of("{\"room_id\":"@) + jstr_of(room_id) + ascii_bytes_of(
                ",\"device_id\":"@,
            ) + jstr_of(device_id) + ascii_bytes_of("}"@) + (z + rest));
            lemma_p_body_peerleft(room_id, device_id, z + rest);
            assert(z.len() == 1);
        },
        ControlView::SaltExchange { room_id, device_ids } => {
            assert(s2 =~= ascii_bytes_of("{\"room_id\":"@) + jstr_of(room_id) + ascii_bytes_of(
                ",\"device_ids\":"@,
            ) + strs_array_json(device_ids) + ascii_bytes_of("}"@) + (z + rest));
            lemma_p_body_salt(room_id, device_ids, z + rest);
            assert(z.len() == 1);
        },
        ControlView::Error { message } => {
            assert(s2 =~= ascii_bytes_of("{\"message\":"@) + jstr_of(message) + ascii_bytes_of(
                "}"@,
            ) + (z + rest));
            lemma_p_body_error(message, z + rest);
            assert(z.len() == 1);
        },
    }
    assert(s.skip(k1 + b.len() + k3) =~= z + rest);
    lemma_p_lit_self(z, rest);
}

/// Parse a `Hello`-shaped body.  Refines `p_body_room_peer`.
fn parse_body_room_peer(input: &[u8], pos: usize) -> (r: Option<((String, PeerInfo), usize)>)
    requires
        pos <= input@.len(),
    ensures
        match r {
            Some(((room, peer), np)) => {
                &&& p_body_room_peer(input@.skip(pos as int)) == Some(
                    ((room@, peer@), (np - pos) as int),
                )
                &&& pos <= np <= input@.len()
            },
            None => p_body_room_peer(input@.skip(pos as int)) is None,
        },
{
    proof {
        reveal_strlit("{\"room_id\":");
        reveal_strlit(",\"peer\":");
        reveal_strlit("}");
    }
    let ghost s = input@.skip(pos as int);
    let (room, p1) = match parse_field_str(input, pos, ascii_lit("{\"room_id\":").as_slice()) {
        Some(x) => x,
        None => {
            return None;
        },
    };
    proof {
        assert(s.skip(p1 - pos) =~= input@.skip(p1 as int));
    }
    let p2 = match parse_lit(input, p1, ascii_lit(",\"peer\":").as_slice()) {
        Some(np) => np,
        None => {
            return None;
        },
    };
    proof {
        assert(s.skip(p2 - pos) =~= input@.skip(p2 as int));
    }
    let (peer, p3) = match parse_peer(input, p2) {
        Some(x) => x,
        None => {
            return None;
        },
    };
    proof {
        assert(s.skip(p3 - pos) =~= input@.skip(p3 as int));
    }
    let p4 = match parse_lit(input, p3, ascii_lit("}").as_slice()) {
        Some(np) => np,
        None => {
            return None;
        },
    };
    Some(((room, peer), p4))
}

/// Parse a `PeerList` body.  Refines `p_body_peerlist`.
fn parse_body_peerlist(input: &[u8], pos: usize) -> (r: Option<((String, Vec<PeerInfo>), usize)>)
    requires
        pos <= input@.len(),
    ensures
        match r {
            Some(((room, peers), np)) => {
                &&& p_body_peerlist(input@.skip(pos as int)) == Some(
                    ((room@, Seq::new(peers@.len(), |i: int| peers@[i]@)), (np - pos) as int),
                )
                &&& pos <= np <= input@.len()
            },
            None => p_body_peerlist(input@.skip(pos as int)) is None,
        },
{
    proof {
        reveal_strlit("{\"room_id\":");
        reveal_strlit(",\"peers\":");
        reveal_strlit("}");
    }
    let ghost s = input@.skip(pos as int);
    let (room, p1) = match parse_field_str(input, pos, ascii_lit("{\"room_id\":").as_slice()) {
        Some(x) => x,
        None => {
            return None;
        },
    };
    proof {
        assert(s.skip(p1 - pos) =~= input@.skip(p1 as int));
    }
    let p2 = match parse_lit(input, p1, ascii_lit(",\"peers\":").as_slice()) {
        Some(np) => np,
        None => {
            return None;
        },
    };
    proof {
        assert(s.skip(p2 - pos) =~= input@.skip(p2 as int));
    }
    let (peers, p3) = match parse_peers_array(input, p2) {
        Some(x) => x,
        None => {
            return None;
        },
    };
    proof {
        assert(s.skip(p3 - pos) =~= input@.skip(p3 as int));
    }
    let p4 = match parse_lit(input, p3, ascii_lit("}").as_slice()) {
        Some(np) => np,
        None => {
            return None;
        },
    };
    Some(((room, peers), p4))
}

/// Parse a `PeerLeft` body.  Refines `p_body_peerleft`.
fn parse_body_peerleft(input: &[u8], pos: usize) -> (r: Option<((String, String), usize)>)
    requires
        pos <= input@.len(),
    ensures
        match r {
            Some(((room, dev), np)) => {
                &&& p_body_peerleft(input@.skip(pos as int)) == Some(
                    ((room@, dev@), (np - pos) as int),
                )
                &&& pos <= np <= input@.len()
            },
            None => p_body_peerleft(input@.skip(pos as int)) is None,
        },
{
    proof {
        reveal_strlit("{\"room_id\":");
        reveal_strlit(",\"device_id\":");
        reveal_strlit("}");
    }
    let ghost s = input@.skip(pos as int);
    let (room, p1) = match parse_field_str(input, pos, ascii_lit("{\"room_id\":").as_slice()) {
        Some(x) => x,
        None => {
            return None;
        },
    };
    proof {
        assert(s.skip(p1 - pos) =~= input@.skip(p1 as int));
    }
    let (dev, p2) = match parse_field_str(input, p1, ascii_lit(",\"device_id\":").as_slice()) {
        Some(x) => x,
        None => {
            return None;
        },
    };
    proof {
        assert(s.skip(p2 - pos) =~= input@.skip(p2 as int));
    }
    let p3 = match parse_lit(input, p2, ascii_lit("}").as_slice()) {
        Some(np) => np,
        None => {
            return None;
        },
    };
    Some(((room, dev), p3))
}

/// Parse a `SaltExchange` body.  Refines `p_body_salt`.
fn parse_body_salt(input: &[u8], pos: usize) -> (r: Option<((String, Vec<String>), usize)>)
    requires
        pos <= input@.len(),
    ensures
        match r {
            Some(((room, ids), np)) => {
                &&& p_body_salt(input@.skip(pos as int)) == Some(
                    ((room@, Seq::new(ids@.len(), |i: int| ids@[i]@)), (np - pos) as int),
                )
                &&& pos <= np <= input@.len()
            },
            None => p_body_salt(input@.skip(pos as int)) is None,
        },
{
    proof {
        reveal_strlit("{\"room_id\":");
        reveal_strlit(",\"device_ids\":");
        reveal_strlit("}");
    }
    let ghost s = input@.skip(pos as int);
    let (room, p1) = match parse_field_str(input, pos, ascii_lit("{\"room_id\":").as_slice()) {
        Some(x) => x,
        None => {
            return None;
        },
    };
    proof {
        assert(s.skip(p1 - pos) =~= input@.skip(p1 as int));
    }
    let p2 = match parse_lit(input, p1, ascii_lit(",\"device_ids\":").as_slice()) {
        Some(np) => np,
        None => {
            return None;
        },
    };
    proof {
        assert(s.skip(p2 - pos) =~= input@.skip(p2 as int));
    }
    let (ids, p3) = match parse_strs_array(input, p2) {
        Some(x) => x,
        None => {
            return None;
        },
    };
    proof {
        assert(s.skip(p3 - pos) =~= input@.skip(p3 as int));
    }
    let p4 = match parse_lit(input, p3, ascii_lit("}").as_slice()) {
        Some(np) => np,
        None => {
            return None;
        },
    };
    Some(((room, ids), p4))
}

/// Parse an `Error` body.  Refines `p_body_error`.
fn parse_body_error(input: &[u8], pos: usize) -> (r: Option<(String, usize)>)
    requires
        pos <= input@.len(),
    ensures
        match r {
            Some((msg, np)) => {
                &&& p_body_error(input@.skip(pos as int)) == Some((msg@, (np - pos) as int))
                &&& pos <= np <= input@.len()
            },
            None => p_body_error(input@.skip(pos as int)) is None,
        },
{
    proof {
        reveal_strlit("{\"message\":");
        reveal_strlit("}");
    }
    let ghost s = input@.skip(pos as int);
    let (msg, p1) = match parse_field_str(input, pos, ascii_lit("{\"message\":").as_slice()) {
        Some(x) => x,
        None => {
            return None;
        },
    };
    proof {
        assert(s.skip(p1 - pos) =~= input@.skip(p1 as int));
    }
    let p2 = match parse_lit(input, p1, ascii_lit("}").as_slice()) {
        Some(np) => np,
        None => {
            return None;
        },
    };
    Some((msg, p2))
}

/// Parse a whole control payload.  Refines `p_control`.
#[verifier::rlimit(100)]
pub fn parse_control(input: &[u8], pos: usize) -> (r: Option<(ControlMessage, usize)>)
    requires
        pos <= input@.len(),
    ensures
        match r {
            Some((c, np)) => {
                &&& p_control(input@.skip(pos as int)) == Some((c@, (np - pos) as int))
                &&& pos <= np <= input@.len()
            },
            None => p_control(input@.skip(pos as int)) is None,
        },
{
    proof {
        reveal_strlit("{\"type\":");
        reveal_strlit(",\"data\":");
        reveal_strlit("}");
    }
    let ghost s = input@.skip(pos as int);
    let (tag, p1) = match parse_field_str(input, pos, ascii_lit("{\"type\":").as_slice()) {
        Some(x) => x,
        None => {
            return None;
        },
    };
    proof {
        assert(s.skip(p1 - pos) =~= input@.skip(p1 as int));
    }
    let p2 = match parse_lit(input, p1, ascii_lit(",\"data\":").as_slice()) {
        Some(np) => np,
        None => {
            return None;
        },
    };
    proof {
        assert(s.skip(p2 - pos) =~= input@.skip(p2 as int));
    }
    let tag_s = tag.as_str();
    let (msg, p3): (ControlMessage, usize) = if str_eq(tag_s, "Hello") {
        match parse_body_room_peer(input, p2) {
            Some(((room, peer), np)) => (
                ControlMessage::Hello(Hello { room_id: room, peer }),
                np,
            ),
            None => {
                return None;
            },
        }
    } else if str_eq(tag_s, "PeerList") {
        match parse_body_peerlist(input, p2) {
            Some(((room, peers), np)) => (
                ControlMessage::PeerList(PeerList { room_id: room, peers }),
                np,
            ),
            None => {
                return None;
            },
        }
    } else if str_eq(tag_s, "PeerJoined") {
        match parse_body_room_peer(input, p2) {
            Some(((room, peer), np)) => (
                ControlMessage::PeerJoined(PeerJoined { room_id: room, peer }),
                np,
            ),
            None => {
                return None;
            },
        }
    } else if str_eq(tag_s, "PeerLeft") {
        match parse_body_peerleft(input, p2) {
            Some(((room, dev), np)) => (
                ControlMessage::PeerLeft(PeerLeft { room_id: room, device_id: dev }),
                np,
            ),
            None => {
                return None;
            },
        }
    } else if str_eq(tag_s, "SaltExchange") {
        match parse_body_salt(input, p2) {
            Some(((room, ids), np)) => (
                ControlMessage::SaltExchange(SaltExchange { room_id: room, device_ids: ids }),
                np,
            ),
            None => {
                return None;
            },
        }
    } else if str_eq(tag_s, "Error") {
        match parse_body_error(input, p2) {
            Some((m, np)) => (ControlMessage::Error { message: m }, np),
            None => {
                return None;
            },
        }
    } else {
        return None;
    };
    proof {
        assert(s.skip(p3 - pos) =~= input@.skip(p3 as int));
    }
    let p4 = match parse_lit(input, p3, ascii_lit("}").as_slice()) {
        Some(np) => np,
        None => {
            return None;
        },
    };
    Some((msg, p4))
}


/// A JSON string value is valid UTF-8: the quotes are ASCII and the
/// escaped content preserves validity.
pub proof fn lemma_jstr_valid(s: Seq<char>)
    ensures
        vstd::utf8::valid_utf8(jstr_of(s)),
{
    vstd::utf8::encode_utf8_valid_utf8(s);
    crate::json::lemma_esc_valid(encode_utf8(s));
    crate::strings::lemma_ascii_decode(seq![0x22u8]);
    crate::strings::lemma_valid_utf8_append(seq![0x22u8], esc(encode_utf8(s)));
    crate::strings::lemma_valid_utf8_append(seq![0x22u8] + esc(encode_utf8(s)), seq![0x22u8]);
}

} // verus!
