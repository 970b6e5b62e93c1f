//! The chunked file-transfer sub-protocol: files travel as encrypted
//! events whose text is a JSON envelope with a base64 chunk.  The sender
//! splits a file into 64 KiB chunks; the receiver reassembles them in an
//! inflight table with a TTL and a capacity cap.

use base64::Engine;
use vstd::prelude::*;
use vstd::utf8::{encode_scalar, encode_utf8};

use crate::crypto::{encrypt_clipboard_event, sha256, sha256_of};
use crate::jmsg::{
    jstr_append, jstr_of, lemma_p_field_str, lemma_p_field_u64, lemma_p_lit_self, lit_append,
    p_field_str, p_field_u64, parse_field_str, parse_field_u64,
};
use crate::json::{dec_append, dec_u64, is_digit, p_lit, parse_lit};
use crate::strings::{
    ascii_bytes_of, ascii_lit, bytes_to_string, hex_of, is_ws, spec_trim, str_eq, trim_str,
};
use crate::types::{ClipboardEventPlaintext, CoreError, EncryptedPayload};

verus! {

/// Hard cap on a transferred file, in bytes.
pub const MAX_FILE_BYTES: u64 = 5 * 1024 * 1024;

/// Raw bytes per chunk; the final chunk may be shorter.
pub const FILE_CHUNK_RAW_BYTES: usize = 64 * 1024;

/// Most chunks one transfer may have.
pub const MAX_TOTAL_CHUNKS: u32 = 256;

/// Most transfers the inflight table holds at once.
pub const MAX_INFLIGHT_TRANSFERS: usize = 8;

/// Milliseconds after which a stalled transfer is evicted.
pub const TRANSFER_TIMEOUT_MS: u64 = 120_000;

/// What the base64 standard alphabet encodes a byte sequence to, named
/// but not modeled.
pub uninterp spec fn b64_of(data: Seq<u8>) -> Seq<char>;

/// Relies on `base64::engine::general_purpose::STANDARD` encoding: the
/// text depends on the input bytes alone.
#[verifier::external_body]
pub fn b64_encode(data: &[u8]) -> (r: String)
    ensures
        r@ == b64_of(data@),
{
    base64::engine::general_purpose::STANDARD.encode(data)
}

/// Relies on `base64::engine::general_purpose::STANDARD` decoding: with
/// canonical padding required and trailing bits rejected, it accepts
/// exactly the encodings the encoder emits, recovering the one input that
/// encodes to them.
#[verifier::external_body]
pub fn b64_decode(text: &str) -> (r: Option<Vec<u8>>)
    ensures
        r is Some ==> text@ == b64_of(r.unwrap()@),
        r is Some ==> forall|d: Seq<u8>| text@ == b64_of(d) ==> d == r.unwrap()@,
        (exists|d: Seq<u8>| text@ == b64_of(d)) ==> r is Some,
{
    base64::engine::general_purpose::STANDARD.decode(text.as_bytes()).ok()
}

/// One chunk's JSON envelope, carried as the text of an encrypted event.
#[derive(Debug, Clone, PartialEq, Eq)]
pub struct FileChunkEnvelope {
    pub transfer_id: String,
    pub file_name: String,
    pub total_size: u64,
    pub chunk_index: u32,
    pub total_chunks: u32,
    pub chunk_b64: String,
}

/// Ghost mirror of `FileChunkEnvelope`.
pub struct ChunkView {
    pub transfer_id: Seq<char>,
    pub file_name: Seq<char>,
    pub total_size: u64,
    pub chunk_index: u32,
    pub total_chunks: u32,
    pub chunk_b64: Seq<char>,
}

impl View for FileChunkEnvelope {
    type V = ChunkView;

    open spec fn view(&self) -> ChunkView {
        ChunkView {
            transfer_id: self.transfer_id@,
            file_name: self.file_name@,
            total_size: self.total_size,
            chunk_index: self.chunk_index,
            total_chunks: self.total_chunks,
            chunk_b64: self.chunk_b64@,
        }
    }
}

/// The canonical JSON bytes of a chunk envelope.
pub open spec fn chunk_json(v: ChunkView) -> Seq<u8> {
    ascii_bytes_of("{\"transfer_id\":"@) + jstr_of(v.transfer_id) + ascii_bytes_of(
        ",\"file_name\":"@,
    ) + jstr_of(v.file_name) + ascii_bytes_of(",\"total_size\":"@) + dec_u64(v.total_size)
        + ascii_bytes_of(",\"chunk_index\":"@) + dec_u64(v.chunk_index as u64) + ascii_bytes_of(
        ",\"total_chunks\":"@,
    ) + dec_u64(v.total_chunks as u64) + ascii_bytes_of(",\"chunk_b64\":"@) + jstr_of(v.chunk_b64)
        + ascii_bytes_of("}"@)
}

/// Encode a chunk envelope as canonical JSON bytes.
pub fn chunk_json_vec(env: &FileChunkEnvelope) -> (r: Vec<u8>)
    ensures
        r@ == chunk_json(env@),
{
    proof {
        reveal_strlit("{\"transfer_id\":");
        reveal_strlit(",\"file_name\":");
        reveal_strlit(",\"total_size\":");
        reveal_strlit(",\"chunk_index\":");
        reveal_strlit(",\"total_chunks\":");
        reveal_strlit(",\"chunk_b64\":");
        reveal_strlit("}");
    }
    let mut out: Vec<u8> = Vec::new();
    lit_append(&mut out, "{\"transfer_id\":");
    jstr_append(&mut out, self_str(&env.transfer_id));
    lit_append(&mut out, ",\"file_name\":");
    jstr_append(&mut out, self_str(&env.file_name));
    lit_append(&mut out, ",\"total_size\":");
    dec_append(&mut out, env.total_size);
    lit_append(&mut out, ",\"chunk_index\":");
    dec_append(&mut out, env.chunk_index as u64);
    lit_append(&mut out, ",\"total_chunks\":");
    dec_append(&mut out, env.total_chunks as u64);
    lit_append(&mut out, ",\"chunk_b64\":");
    jstr_append(&mut out, self_str(&env.chunk_b64));
    lit_append(&mut out, "}");
    proof {
        assert(out@ =~= chunk_json(env@));
    }
    out
}

/// `String::as_str` under a spec-friendly name.
fn self_str(s: &String) -> (r: &str)
    ensures
        r@ == s@,
{
    s.as_str()
}

/// Spec parser for a chunk envelope.
pub open spec fn p_chunk(s: Seq<u8>) -> Option<(ChunkView, int)> {
    match p_field_str(s, ascii_bytes_of("{\"transfer_id\":"@)) {
        Some((tid, k1)) => match p_field_str(s.skip(k1), ascii_bytes_of(",\"file_name\":"@)) {
            Some((name, k2)) => match p_field_u64(
                s.skip(k1 + k2),
                ascii_bytes_of(",\"total_size\":"@),
            ) {
                Some((size, k3)) => match p_field_u64(
                    s.skip(k1 + k2 + k3),
                    ascii_bytes_of(",\"chunk_index\":"@),
                ) {
                    Some((ci, k4)) => match p_field_u64(
                        s.skip(k1 + k2 + k3 + k4),
                        ascii_bytes_of(",\"total_chunks\":"@),
                    ) {
                        Some((tc, k5)) => match p_field_str(
                            s.skip(k1 + k2 + k3 + k4 + k5),
                            ascii_bytes_of(",\"chunk_b64\":"@),
                        ) {
                            Some((cb, k6)) => match p_lit(
                                s.skip(k1 + k2 + k3 + k4 + k5 + k6),
                                ascii_bytes_of("}"@),
                            ) {
                                Some(k7) => if ci <= 0xFFFF_FFFF && tc <= 0xFFFF_FFFF {
                                    Some(
                                        (
                                            ChunkView {
                                                transfer_id: tid,
                                                file_name: name,
                                                total_size: size,
                                                chunk_index: ci as u32,
                                                total_chunks: tc as u32,
                                                chunk_b64: cb,
                                            },
                                            k1 + k2 + k3 + k4 + k5 + k6 + k7,
                                        ),
                                    )
                                } else {
                                    None
                                },
                                None => None,
                            },
                            None => None,
                        },
                        None => None,
                    },
                    None => None,
                },
                None => None,
            },
            None => None,
        },
        None => None,
    }
}

/// Tail of the chunk round-trip proof: the numeric fields and the base64
/// string parse off `t2`.
#[verifier::rlimit(100)]
proof fn lemma_p_chunk_tail(v: ChunkView, rest: Seq<u8>)
    ensures
        ({
            let a3 = ascii_bytes_of(",\"total_size\":"@);
            let a4 = ascii_bytes_of(",\"chunk_index\":"@);
            let a5 = ascii_bytes_of(",\"total_chunks\":"@);
            let a6 = ascii_bytes_of(",\"chunk_b64\":"@);
            let a7 = ascii_bytes_of("}"@);
            let t6 = a7 + rest;
            let t5 = a6 + jstr_of(v.chunk_b64) + t6;
            let t4 = a5 + dec_u64(v.total_chunks as u64) + t5;
            let t3 = a4 + dec_u64(v.chunk_index as u64) + t4;
            let t2 = a3 + dec_u64(v.total_size) + t3;
            let k3 = a3.len() + dec_u64(v.total_size).len() as int;
            let k4 = a4.len() + dec_u64(v.chunk_index as u64).len() as int;
            let k5 = a5.len() + dec_u64(v.total_chunks as u64).len() as int;
            let k6 = a6.len() + jstr_of(v.chunk_b64).len() as int;
            &&& p_field_u64(t2, a3) == Some((v.total_size, k3))
            &&& t2.skip(k3) == t3
            &&& p_field_u64(t3, a4) == Some((v.chunk_index as u64, k4))
            &&& t3.skip(k4) == t4
            &&& p_field_u64(t4, a5) == Some((v.total_chunks as u64, k5))
            &&& t4.skip(k5) == t5
            &&& p_field_str(t5, a6) == Some((v.chunk_b64, k6))
            &&& t5.skip(k6) == t6
            &&& p_lit(t6, a7) == Some(a7.len() as int)
            &&& a7.len() == 1
        }),
{
    reveal_strlit(",\"chunk_index\":");
    reveal_strlit(",\"total_chunks\":");
    reveal_strlit(",\"chunk_b64\":");
    reveal_strlit("}");
    let a3 = ascii_bytes_of(",\"total_size\":"@);
    let a4 = ascii_bytes_of(",\"chunk_index\":"@);
    let a5 = ascii_bytes_of(",\"total_chunks\":"@);
    let a6 = ascii_bytes_of(",\"chunk_b64\":"@);
    let a7 = ascii_bytes_of("}"@);
    let t6 = a7 + rest;
    let t5 = a6 + jstr_of(v.chunk_b64) + t6;
    let t4 = a5 + dec_u64(v.total_chunks as u64) + t5;
    let t3 = a4 + dec_u64(v.chunk_index as u64) + t4;
    let t2 = a3 + dec_u64(v.total_size) + t3;
    assert(t3[0] == (',' as u8));
    assert(!is_digit(t3[0]));
    lemma_p_field_u64(t2, a3, v.total_size, t3);
    let k3 = a3.len() + dec_u64(v.total_size).len() as int;
    assert(t2.skip(k3) =~= t3);
    assert(t4[0] == (',' as u8));
    assert(!is_digit(t4[0]));
    lemma_p_field_u64(t3, a4, v.chunk_index as u64, t4);
    let k4 = a4.len() + dec_u64(v.chunk_index as u64).len() as int;
    assert(t3.skip(k4) =~= t4);
    assert(t5[0] == (',' as u8));
    assert(!is_digit(t5[0]));
    lemma_p_field_u64(t4, a5, v.total_chunks as u64, t5);
    let k5 = a5.len() + dec_u64(v.total_chunks as u64).len() as int;
    assert(t4.skip(k5) =~= t5);
    lemma_p_field_str(t5, a6, v.chunk_b64, t6);
    let k6 = a6.len() + jstr_of(v.chunk_b64).len() as int;
    assert(t5.skip(k6) =~= t6);
    lemma_p_lit_self(a7, rest);
}

/// Head of the chunk round-trip proof: the two string fields parse off
/// the front.
#[verifier::rlimit(100)]
proof fn lemma_p_chunk_head(v: ChunkView, rest: Seq<u8>)
    ensures
        ({
            let a1 = ascii_bytes_of("{\"transfer_id\":"@);
            let a2 = ascii_bytes_of(",\"file_name\":"@);
            let a3 = ascii_bytes_of(",\"total_size\":"@);
            let a4 = ascii_bytes_of(",\"chunk_index\":"@);
            let a5 = ascii_bytes_of(",\"total_chunks\":"@);
            let a6 = ascii_bytes_of(",\"chunk_b64\":"@);
            let a7 = ascii_bytes_of("}"@);
            let s = chunk_json(v) + rest;
            let t6 = a7 + rest;
            let t5 = a6 + jstr_of(v.chunk_b64) + t6;
            let t4 = a5 + dec_u64(v.total_chunks as u64) + t5;
            let t3 = a4 + dec_u64(v.chunk_index as u64) + t4;
            let t2 = a3 + dec_u64(v.total_size) + t3;
            let k1 = a1.len() + jstr_of(v.transfer_id).len() as int;
            let k2 = a2.len() + jstr_of(v.file_name).len() as int;
            &&& p_field_str(s, a1) == Some((v.transfer_id, k1))
            &&& p_field_str(s.skip(k1), a2) == Some((v.file_name, k2))
            &&& s.skip(k1 + k2) == t2
        }),
{
    let a1 = ascii_bytes_of("{\"transfer_id\":"@);
    let a2 = ascii_bytes_of(",\"file_name\":"@);
    let a3 = ascii_bytes_of(",\"total_size\":"@);
    let a4 = ascii_bytes_of(",\"chunk_index\":"@);
    let a5 = ascii_bytes_of(",\"total_chunks\":"@);
    let a6 = ascii_bytes_of(",\"chunk_b64\":"@);
    let a7 = ascii_bytes_of("}"@);
    let s = chunk_json(v) + rest;
    let t6 = a7 + rest;
    let t5 = a6 + jstr_of(v.chunk_b64) + t6;
    let t4 = a5 + dec_u64(v.total_chunks as u64) + t5;
    let t3 = a4 + dec_u64(v.chunk_index as u64) + t4;
    let t2 = a3 + dec_u64(v.total_size) + t3;
    let t1 = a2 + jstr_of(v.file_name) + t2;
    assert(s =~= a1 + jstr_of(v.transfer_id) + t1);
    lemma_p_field_str(a1 + jstr_of(v.transfer_id) + t1, a1, v.transfer_id, t1);
    let k1 = a1.len() + jstr_of(v.transfer_id).len() as int;
    assert(s.skip(k1) =~= t1);
    lemma_p_field_str(t1, a2, v.file_name, t2);
    let k2 = a2.len() + jstr_of(v.file_name).len() as int;
    assert(s.skip(k1 + k2) =~= t2);
}

/// Parsing undoes chunk-envelope encoding.
#[verifier::rlimit(100)]
#[verifier::spinoff_prover]
pub proof fn lemma_p_chunk(v: ChunkView, rest: Seq<u8>)
    ensures
        p_chunk(chunk_json(v) + rest) == Some((v, chunk_json(v).len() as int)),
{
    lemma_p_chunk_head(v, rest);
    lemma_p_chunk_tail(v, rest);
    let a1 = ascii_bytes_of("{\"transfer_id\":"@);
    let a2 = ascii_bytes_of(",\"file_name\":"@);
    let a3 = ascii_bytes_of(",\"total_size\":"@);
    let a4 = ascii_bytes_of(",\"chunk_index\":"@);
    let a5 = ascii_bytes_of(",\"total_chunks\":"@);
    let a6 = ascii_bytes_of(",\"chunk_b64\":"@);
    let a7 = ascii_bytes_of("}"@);
    let s = chunk_json(v) + rest;
    let t6 = a7 + rest;
    let t5 = a6 + jstr_of(v.chunk_b64) + t6;
    let t4 = a5 + dec_u64(v.total_chunks as u64) + t5;
    let t3 = a4 + dec_u64(v.chunk_index as u64) + t4;
    let t2 = a3 + dec_u64(v.total_size) + t3;
    let k1 = a1.len() + jstr_of(v.transfer_id).len() as int;
    let k2 = a2.len() + jstr_of(v.file_name).len() as int;
    let k3 = a3.len() + dec_u64(v.total_size).len() as int;
    let k4 = a4.len() + dec_u64(v.chunk_index as u64).len() as int;
    let k5 = a5.len() + dec_u64(v.total_chunks as u64).len() as int;
    let k6 = a6.len() + jstr_of(v.chunk_b64).len() as int;
    assert(s.skip(k1 + k2 + k3) =~= t3);
    assert(s.skip(k1 + k2 + k3 + k4) =~= t4);
    assert(s.skip(k1 + k2 + k3 + k4 + k5) =~= t5);
    assert(s.skip(k1 + k2 + k3 + k4 + k5 + k6) =~= t6);
    assert(v == (ChunkView {
        transfer_id: v.transfer_id,
        file_name: v.file_name,
        total_size: v.total_size,
        chunk_index: v.chunk_index,
        total_chunks: v.total_chunks,
        chunk_b64: v.chunk_b64,
    }));
}

/// Parse a chunk envelope.  Refines `p_chunk`.
#[verifier::rlimit(100)]
pub fn parse_chunk(input: &[u8], pos: usize) -> (r: Option<(FileChunkEnvelope, usize)>)
    requires
        pos <= input@.len(),
    ensures
        match r {
            Some((env, np)) => {
                &&& p_chunk(input@.skip(pos as int)) == Some((env@, (np - pos) as int))
                &&& pos < np <= input@.len()
            },
            None => p_chunk(input@.skip(pos as int)) is None,
        },
{
    proof {
        reveal_strlit("{\"transfer_id\":");
        reveal_strlit(",\"file_name\":");
        reveal_strlit(",\"total_size\":");
        reveal_strlit(",\"chunk_index\":");
        reveal_strlit(",\"total_chunks\":");
        reveal_strlit(",\"chunk_b64\":");
        reveal_strlit("}");
    }
    let ghost s = input@.skip(pos as int);
    let (tid, p1) = match parse_field_str(input, pos, ascii_lit("{\"transfer_id\":").as_slice()) {
        Some(x) => x,
        None => {
            return None;
        },
    };
    proof {
        assert(s.skip(p1 - pos) =~= input@.skip(p1 as int));
    }
    let (name, p2) = match parse_field_str(input, p1, ascii_lit(",\"file_name\":").as_slice()) {
        Some(x) => x,
        None => {
            return None;
        },
    };
    proof {
        assert(s.skip(p2 - pos) =~= input@.skip(p2 as int));
    }
    let (size, p3) = match parse_field_u64(input, p2, ascii_lit(",\"total_size\":").as_slice()) {
        Some(x) => x,
        None => {
            return None;
        },
    };
    proof {
        assert(s.skip(p3 - pos) =~= input@.skip(p3 as int));
    }
    let (ci, p4) = match parse_field_u64(input, p3, ascii_lit(",\"chunk_index\":").as_slice()) {
        Some(x) => x,
        None => {
            return None;
        },
    };
    proof {
        assert(s.skip(p4 - pos) =~= input@.skip(p4 as int));
    }
    let (tc, p5) = match parse_field_u64(input, p4, ascii_lit(",\"total_chunks\":").as_slice()) {
        Some(x) => x,
        None => {
            return None;
        },
    };
    proof {
        assert(s.skip(p5 - pos) =~= input@.skip(p5 as int));
    }
    let (cb, p6) = match parse_field_str(input, p5, ascii_lit(",\"chunk_b64\":").as_slice()) {
        Some(x) => x,
        None => {
            return None;
        },
    };
    proof {
        assert(s.skip(p6 - pos) =~= input@.skip(p6 as int));
    }
    let p7 = match parse_lit(input, p6, ascii_lit("}").as_slice()) {
        Some(np) => np,
        None => {
            return None;
        },
    };
    if ci > 0xFFFF_FFFF || tc > 0xFFFF_FFFF {
        return None;
    }
    Some(
        (
            FileChunkEnvelope {
                transfer_id: tid,
                file_name: name,
                total_size: size,
                chunk_index: ci as u32,
                total_chunks: tc as u32,
                chunk_b64: cb,
            },
            p7,
        ),
    )
}

/// A character the sanitizer replaces: path separators, wildcard and
/// quoting characters, and ASCII control characters.
pub open spec fn is_unsafe_char(c: char) -> bool {
    c == '\\' || c == '/' || c == ':' || c == '*' || c == '?' || c == '"' || c == '<' || c == '>'
        || c == '|' || (c as u32) < 0x20 || (0x7F <= (c as u32) && (c as u32) <= 0x9F)
}

/// The sanitizer's character map: unsafe characters become underscores.
pub open spec fn sanitize_char(c: char) -> char {
    if is_unsafe_char(c) {
        '_'
    } else {
        c
    }
}

/// What `sanitize_file_name` returns: map unsafe characters to
/// underscores, trim whitespace, fall back to `file.bin` when empty, and
/// truncate to 128 characters.
pub open spec fn spec_sanitize(name: Seq<char>) -> Seq<char> {
    let mapped = Seq::new(name.len(), |i: int| sanitize_char(name[i]));
    let t = spec_trim(mapped);
    let t2 = if t.len() == 0 {
        "file.bin"@
    } else {
        t
    };
    if t2.len() > 128 {
        t2.take(128)
    } else {
        t2
    }
}

/// Append one character's UTF-8 encoding.
pub fn push_char_utf8_pub(out: &mut Vec<u8>, c: char)
    ensures
        final(out)@ == old(out)@ + encode_scalar(c as u32),
{
    let u = c as u32;
    proof {
        vstd::utf8::char_is_scalar(c);
    }
    if u < 0x80 {
        out.push((u & 0x7F) as u8);
    } else if u < 0x800 {
        out.push(0xC0 | (((u >> 6) & 0x1F) as u8));
        out.push(0x80 | ((u & 0x3F) as u8));
    } else if u < 0x10000 {
        out.push(0xE0 | (((u >> 12) & 0x0F) as u8));
        out.push(0x80 | (((u >> 6) & 0x3F) as u8));
        out.push(0x80 | ((u & 0x3F) as u8));
    } else {
        out.push(0xF0 | (((u >> 18) & 0x7) as u8));
        out.push(0x80 | (((u >> 12) & 0x3F) as u8));
        out.push(0x80 | (((u >> 6) & 0x3F) as u8));
        out.push(0x80 | ((u & 0x3F) as u8));
    }
    proof {
        assert(out@ =~= old(out)@ + encode_scalar(c as u32));
    }
}

pub proof fn lemma_encode_snoc_pub(s: Seq<char>, c: char)
    ensures
        encode_utf8(s.push(c)) == encode_utf8(s) + encode_scalar(c as u32),
    decreases s.len(),
{
    if s.len() == 0 {
        assert(s.push(c).drop_first() =~= Seq::<char>::empty());
        assert(s.push(c)[0] == c);
        assert(encode_utf8(s.push(c)) == encode_scalar(c as u32) + encode_utf8(
            s.push(c).drop_first(),
        ));
        assert(encode_utf8(Seq::<char>::empty()) == Seq::<u8>::empty());
        assert(encode_utf8(s.push(c).drop_first()) == Seq::<u8>::empty());
        assert(encode_utf8(s) == Seq::<u8>::empty());
        assert(encode_utf8(s.push(c)) =~= encode_utf8(s) + encode_scalar(c as u32));
    } else {
        assert(s.push(c).drop_first() =~= s.drop_first().push(c));
        assert(s.push(c)[0] == s[0]);
        lemma_encode_snoc_pub(s.drop_first(), c);
        assert(encode_utf8(s.push(c)) == encode_scalar(s[0] as u32) + (encode_utf8(s.drop_first())
            + encode_scalar(c as u32)));
        assert(encode_utf8(s.push(c)) =~= encode_utf8(s) + encode_scalar(c as u32));
    }
}

/// Replace path-unsafe and control characters with underscores, trim, use
/// `file.bin` when nothing remains, and cap the name at 128 characters.
pub fn sanitize_file_name(name: &str) -> (r: String)
    ensures
        r@ == spec_sanitize(name@),
{
    proof {
        reveal_strlit("file.bin");
    }
    let ghost mapped = Seq::new(name@.len(), |i: int| sanitize_char(name@[i]));
    let n = name.unicode_len();
    let mut bytes: Vec<u8> = Vec::new();
    let mut i: usize = 0;
    while i < n
        invariant
            0 <= i <= n,
            n == name@.len(),
            mapped == Seq::new(name@.len(), |k: int| sanitize_char(name@[k])),
            bytes@ == encode_utf8(mapped.take(i as int)),
        decreases n - i,
    {
        let c = name.get_char(i);
        let u = c as u32;
        let mc: char = if c == '\\' || c == '/' || c == ':' || c == '*' || c == '?' || c == '"'
            || c == '<' || c == '>' || c == '|' || u < 0x20 || (0x7F <= u && u <= 0x9F) {
            '_'
        } else {
            c
        };
        proof {
            assert(mc == sanitize_char(name@[i as int]));
            assert(mc == mapped[i as int]);
        }
        push_char_utf8_pub(&mut bytes, mc);
        proof {
            lemma_encode_snoc_pub(mapped.take(i as int), mapped[i as int]);
            assert(mapped.take(i as int).push(mapped[i as int]) =~= mapped.take(i as int + 1));
        }
        i = i + 1;
    }
    proof {
        assert(mapped.take(n as int) =~= mapped);
        crate::strings::lemma_ascii_encode(Seq::<u8>::empty());
        vstd::utf8::encode_utf8_valid_utf8(mapped);
        vstd::utf8::encode_utf8_decode_utf8(mapped);
    }
    let mapped_str = match bytes_to_string(bytes.as_slice()) {
        Some(s) => s,
        None => {
            // unreachable: the bytes are a UTF-8 encoding by construction
            proof {
                assert(false);
            }
            String::new()
        },
    };
    let trimmed = trim_str(mapped_str.as_str());
    let base = if trimmed.as_str().unicode_len() == 0 {
        "file.bin".to_owned()
    } else {
        trimmed
    };
    let blen = base.as_str().unicode_len();
    if blen > 128 {
        let cut = base.as_str().substring_char(0, 128).to_owned();
        proof {
            assert(base@.subrange(0, 128) =~= base@.take(128));
        }
        cut
    } else {
        base
    }
}

/// The lowercase-hex transfer id: SHA-256 over `sender:now_ms:file_name`,
/// truncated to 16 bytes.
pub open spec fn transfer_id_of(sender: Seq<char>, now_ms: u64, file_name: Seq<char>) -> Seq<
    char,
> {
    crate::strings::ascii_chars_of(
        hex_of(
            sha256_of(
                encode_utf8(sender) + seq![0x3Au8] + ascii_bytes_of(
                    crate::strings::ascii_chars_of(dec_u64(now_ms)),
                ) + seq![0x3Au8] + encode_utf8(file_name),
            ).take(16),
        ),
    )
}

/// Compute the transfer id for one outgoing file.
pub fn make_transfer_id(sender_device_id: &str, now_ms: u64, file_name: &str) -> (r: String)
    ensures
        r@ == transfer_id_of(sender_device_id@, now_ms, file_name@),
        r@.len() == 32,
{
    let mut raw: Vec<u8> = Vec::new();
    raw.extend_from_slice(sender_device_id.as_bytes());
    raw.push(0x3A);
    dec_append(&mut raw, now_ms);
    raw.push(0x3A);
    raw.extend_from_slice(file_name.as_bytes());
    let digest = sha256(raw.as_slice());
    let mut head: Vec<u8> = Vec::new();
    let mut i: usize = 0;
    while i < 16
        invariant
            0 <= i <= 16,
            digest@.len() == 32,
            head@ == digest@.take(i as int),
        decreases 16 - i,
    {
        head.push(digest[i]);
        proof {
            assert(digest@.take(i as int).push(digest@[i as int]) =~= digest@.take(i as int + 1));
        }
        i = i + 1;
    }
    proof {
        crate::json::lemma_dec_digits(now_ms);
        assert forall|k: int| 0 <= k < dec_u64(now_ms).len() implies dec_u64(now_ms)[k] < 0x80 by {
            assert(is_digit(dec_u64(now_ms)[k]));
        }
        crate::strings::lemma_ascii_encode(dec_u64(now_ms));
        assert(ascii_bytes_of(crate::strings::ascii_chars_of(dec_u64(now_ms))) =~= dec_u64(now_ms));
        assert(raw@ =~= encode_utf8(sender_device_id@) + seq![0x3Au8] + dec_u64(now_ms)
            + seq![0x3Au8] + encode_utf8(file_name@));
        assert(raw@ =~= encode_utf8(sender_device_id@) + seq![0x3Au8] + ascii_bytes_of(
            crate::strings::ascii_chars_of(dec_u64(now_ms)),
        ) + seq![0x3Au8] + encode_utf8(file_name@));
    }
    crate::strings::hex_encode(head.as_slice())
}

/// How many chunks a file of `len` bytes needs.
pub open spec fn chunk_count_of(len: nat) -> nat {
    (len + (FILE_CHUNK_RAW_BYTES - 1) as nat) / (FILE_CHUNK_RAW_BYTES as nat)
}

/// Why a file cannot be sent.
#[derive(Debug, Clone, PartialEq, Eq)]
pub enum FileSendError {
    /// The file has no bytes.
    EmptyFile,
    /// The file exceeds `MAX_FILE_BYTES`.
    TooLarge,
    /// The chunk count exceeds `MAX_TOTAL_CHUNKS`.
    TooManyChunks,
    /// One envelope's JSON exceeds the clipboard text budget.
    EnvelopeTooLarge,
    /// Sealing a chunk failed.
    EncryptFailed,
}

/// Build the envelope for chunk `index` of `data`.
pub fn build_chunk_envelope(
    transfer_id: &str,
    file_name: &str,
    data: &[u8],
    index: u32,
    total_chunks: u32,
) -> (r: FileChunkEnvelope)
    requires
        (index as int) * (FILE_CHUNK_RAW_BYTES as int) < data@.len(),
        data@.len() <= MAX_FILE_BYTES,
    ensures
        r.transfer_id@ == transfer_id@,
        r.file_name@ == file_name@,
        r.total_size == data@.len(),
        r.chunk_index == index,
        r.total_chunks == total_chunks,
        r.chunk_b64@ == b64_of(
            data@.subrange(
                (index as int) * (FILE_CHUNK_RAW_BYTES as int),
                if ((index as int) + 1) * (FILE_CHUNK_RAW_BYTES as int) <= data@.len() {
                    ((index as int) + 1) * (FILE_CHUNK_RAW_BYTES as int)
                } else {
                    data@.len() as int
                },
            ),
        ),
{
    let start = (index as usize) * FILE_CHUNK_RAW_BYTES;
    let end_unclamped = start + FILE_CHUNK_RAW_BYTES;
    let end = if end_unclamped <= data.len() {
        end_unclamped
    } else {
        data.len()
    };
    let raw = &data[start..end];
    proof {
        assert(start as int == (index as int) * (FILE_CHUNK_RAW_BYTES as int));
        assert(((index as int) + 1) * (FILE_CHUNK_RAW_BYTES as int) == (index as int)
            * (FILE_CHUNK_RAW_BYTES as int) + (FILE_CHUNK_RAW_BYTES as int)) by (nonlinear_arith);
        assert(end as int == (if ((index as int) + 1) * (FILE_CHUNK_RAW_BYTES as int)
            <= data@.len() {
            ((index as int) + 1) * (FILE_CHUNK_RAW_BYTES as int)
        } else {
            data@.len() as int
        }));
        assert(raw@ == data@.subrange(start as int, end as int));
    }
    let chunk_b64 = b64_encode(raw);
    FileChunkEnvelope {
        transfer_id: transfer_id.to_owned(),
        file_name: file_name.to_owned(),
        total_size: data.len() as u64,
        chunk_index: index,
        total_chunks,
        chunk_b64,
    }
}

/// One transfer being reassembled.
pub struct InflightTransfer {
    pub sender_device_id: String,
    pub transfer_id: String,
    pub file_name: String,
    pub total_size: u64,
    pub total_chunks: u32,
    pub received: Vec<Option<Vec<u8>>>,
    pub last_update_ms: u64,
}

/// Ghost mirror of one inflight transfer.
pub struct TransferView {
    pub sender_device_id: Seq<char>,
    pub transfer_id: Seq<char>,
    pub file_name: Seq<char>,
    pub total_size: u64,
    pub total_chunks: u32,
    pub slots: Seq<Option<Seq<u8>>>,
    pub last_update_ms: u64,
}

/// The slot list as ghost byte sequences.
pub open spec fn opt_views(s: Seq<Option<Vec<u8>>>) -> Seq<Option<Seq<u8>>> {
    Seq::new(
        s.len(),
        |i: int|
            match s[i] {
                Some(v) => Some(v@),
                None => None,
            },
    )
}

/// The entry list as ghost transfers.
pub open spec fn views_of(s: Seq<InflightTransfer>) -> Seq<TransferView> {
    Seq::new(s.len(), |i: int| s[i]@)
}

impl InflightTransfer {
    /// The chunk slots as ghost byte sequences.
    pub open spec fn slots_view(&self) -> Seq<Option<Seq<u8>>> {
        opt_views(self.received@)
    }

    /// One slot per expected chunk.
    pub open spec fn wf(&self) -> bool {
        self.received@.len() == self.total_chunks
    }

    /// Whether this entry belongs to `(sender, tid)`.
    pub open spec fn matches(&self, sender: Seq<char>, tid: Seq<char>) -> bool {
        self.sender_device_id@ == sender && self.transfer_id@ == tid
    }
}

impl View for InflightTransfer {
    type V = TransferView;

    open spec fn view(&self) -> TransferView {
        TransferView {
            sender_device_id: self.sender_device_id@,
            transfer_id: self.transfer_id@,
            file_name: self.file_name@,
            total_size: self.total_size,
            total_chunks: self.total_chunks,
            slots: self.slots_view(),
            last_update_ms: self.last_update_ms,
        }
    }
}

/// The inflight-transfer table, keyed by `(sender, transfer_id)`.
pub struct TransferTable {
    pub entries: Vec<InflightTransfer>,
}

/// Whether an entry list holds the key `(sender, tid)`.
pub open spec fn t_has_key(s: Seq<TransferView>, sender: Seq<char>, tid: Seq<char>) -> bool {
    exists|i: int|
        0 <= i < s.len() && (#[trigger] s[i]).sender_device_id == sender && s[i].transfer_id == tid
}

/// No two entries share a `(sender, transfer_id)` key.
pub open spec fn keys_distinct(s: Seq<TransferView>) -> bool {
    forall|i: int, j: int|
        0 <= i < j < s.len() ==> !((#[trigger] s[i]).sender_device_id == (
        #[trigger] s[j]).sender_device_id && s[i].transfer_id == s[j].transfer_id)
}

/// A well-formed entry list: within capacity, one slot per expected
/// chunk, each key at most once.
pub open spec fn table_wf(s: Seq<TransferView>) -> bool {
    &&& s.len() <= MAX_INFLIGHT_TRANSFERS
    &&& forall|i: int| 0 <= i < s.len() ==> (#[trigger] s[i]).slots.len() == s[i].total_chunks
    &&& keys_distinct(s)
}

impl TransferTable {
    /// The entry list as a ghost sequence.
    pub open spec fn tview(&self) -> Seq<TransferView> {
        views_of(self.entries@)
    }

    /// Every entry well-formed, at most the capacity, each key at most
    /// once.
    pub open spec fn wf(&self) -> bool {
        table_wf(self.tview())
    }

    /// An empty table.
    pub fn new() -> (r: TransferTable)
        ensures
            r.wf(),
            r.entries@.len() == 0,
            r.tview() == Seq::<TransferView>::empty(),
    {
        let r = TransferTable { entries: Vec::new() };
        proof {
            assert(r.tview() =~= Seq::<TransferView>::empty());
        }
        r
    }
}

/// Whether a transfer has gone a TTL without an update by `now_ms`.
pub open spec fn stale(t: TransferView, now_ms: u64) -> bool {
    t.last_update_ms <= now_ms && now_ms - t.last_update_ms > TRANSFER_TIMEOUT_MS
}

/// The entry list with stale transfers evicted, in order.
pub open spec fn evict_stale(s: Seq<TransferView>, now_ms: u64) -> Seq<TransferView>
    decreases s.len(),
{
    if s.len() == 0 {
        s
    } else if stale(s[0], now_ms) {
        evict_stale(s.drop_first(), now_ms)
    } else {
        seq![s[0]] + evict_stale(s.drop_first(), now_ms)
    }
}

proof fn lemma_evict_snoc(s: Seq<TransferView>, x: TransferView, now_ms: u64)
    ensures
        evict_stale(s.push(x), now_ms) == if stale(x, now_ms) {
            evict_stale(s, now_ms)
        } else {
            evict_stale(s, now_ms).push(x)
        },
    decreases s.len(),
{
    if s.len() == 0 {
        assert(s.push(x).drop_first() =~= Seq::<TransferView>::empty());
        assert(s.push(x)[0] == x);
        assert(evict_stale(Seq::<TransferView>::empty(), now_ms) == Seq::<TransferView>::empty());
        assert(evict_stale(s.push(x).drop_first(), now_ms) == Seq::<TransferView>::empty());
        assert(evict_stale(s, now_ms) == s);
        if stale(x, now_ms) {
            assert(evict_stale(s.push(x), now_ms) =~= evict_stale(s, now_ms));
        } else {
            assert(evict_stale(s.push(x), now_ms) =~= evict_stale(s, now_ms).push(x));
        }
    } else {
        assert(s.push(x).drop_first() =~= s.drop_first().push(x));
        assert(s.push(x)[0] == s[0]);
        lemma_evict_snoc(s.drop_first(), x, now_ms);
        if stale(x, now_ms) {
            assert(evict_stale(s.push(x), now_ms) =~= evict_stale(s, now_ms));
        } else {
            assert(evict_stale(s.push(x), now_ms) =~= evict_stale(s, now_ms).push(x));
        }
    }
}

proof fn lemma_evict_len(s: Seq<TransferView>, now_ms: u64)
    ensures
        evict_stale(s, now_ms).len() <= s.len(),
    decreases s.len(),
{
    if s.len() > 0 {
        lemma_evict_len(s.drop_first(), now_ms);
    }
}

/// Whether an envelope passes the protocol's validation: non-blank
/// transfer id, chunk count in range, index in range, size in bounds.
pub open spec fn chunk_env_valid(env: ChunkView) -> bool {
    &&& spec_trim(env.transfer_id).len() > 0
    &&& 1 <= env.total_chunks <= MAX_TOTAL_CHUNKS
    &&& env.chunk_index < env.total_chunks
    &&& 0 < env.total_size <= MAX_FILE_BYTES
}

/// `n` empty chunk slots.
pub open spec fn all_none(n: int) -> Seq<Option<Seq<u8>>> {
    Seq::new(n as nat, |i: int| None)
}

/// Storing a chunk: the first write to a slot wins; a duplicate changes
/// nothing.
pub open spec fn store_chunk(slots: Seq<Option<Seq<u8>>>, ci: int, d: Seq<u8>) -> Seq<
    Option<Seq<u8>>,
> {
    if slots[ci] is None {
        slots.update(ci, Some(d))
    } else {
        slots
    }
}

/// Whether every chunk slot is filled.
pub open spec fn slots_full(slots: Seq<Option<Seq<u8>>>) -> bool {
    forall|i: int| 0 <= i < slots.len() ==> (#[trigger] slots[i]) is Some
}

/// The filled slots concatenated in index order.
pub open spec fn assembled_of(slots: Seq<Option<Seq<u8>>>) -> Seq<u8> {
    Seq::new(slots.len(), |i: int| slots[i].unwrap()).flatten()
}

/// The entry a first chunk creates.
pub open spec fn fresh_entry(sender: Seq<char>, env: ChunkView, d: Seq<u8>, now_ms: u64) -> TransferView {
    TransferView {
        sender_device_id: sender,
        transfer_id: env.transfer_id,
        file_name: spec_sanitize(env.file_name),
        total_size: env.total_size,
        total_chunks: env.total_chunks,
        slots: store_chunk(all_none(env.total_chunks as int), env.chunk_index as int, d),
        last_update_ms: now_ms,
    }
}

/// An existing entry after this chunk: the slot filled if it was empty,
/// the update time refreshed.
pub open spec fn updated_entry(e: TransferView, env: ChunkView, d: Seq<u8>, now_ms: u64) -> TransferView {
    TransferView {
        sender_device_id: e.sender_device_id,
        transfer_id: e.transfer_id,
        file_name: e.file_name,
        total_size: e.total_size,
        total_chunks: e.total_chunks,
        slots: store_chunk(e.slots, env.chunk_index as int, d),
        last_update_ms: now_ms,
    }
}

/// Concatenate filled chunk slots in index order.
fn assemble(received: &Vec<Option<Vec<u8>>>) -> (r: Option<Vec<u8>>)
    ensures
        slots_full(opt_views(received@)) <==> r is Some,
        r is Some ==> r.unwrap()@ == assembled_of(opt_views(received@)),
{
    let ghost ov = opt_views(received@);
    let ghost slots = Seq::new(ov.len(), |i: int| ov[i].unwrap());
    let n = received.len();
    let mut out: Vec<u8> = Vec::new();
    let mut i: usize = 0;
    proof {
        assert(slots.take(0) =~= Seq::<Seq<u8>>::empty());
        assert(Seq::<Seq<u8>>::empty().flatten() =~= Seq::<u8>::empty());
    }
    while i < n
        invariant
            0 <= i <= n,
            n == received@.len(),
            ov == opt_views(received@),
            slots == Seq::new(ov.len(), |k: int| ov[k].unwrap()),
            forall|k: int| 0 <= k < i ==> (#[trigger] ov[k]) is Some,
            out@ == slots.take(i as int).flatten(),
        decreases n - i,
    {
        match &received[i] {
            Some(chunk) => {
                out.extend_from_slice(chunk.as_slice());
                proof {
                    broadcast use Seq::lemma_flatten_push;

                    assert(ov[i as int] is Some);
                    assert(slots[i as int] == chunk@);
                    assert(slots.take(i as int).push(slots[i as int]) =~= slots.take(i as int + 1));
                    assert(slots.take(i as int).push(slots[i as int]).flatten() == slots.take(
                        i as int,
                    ).flatten() + slots[i as int]);
                }
            },
            None => {
                proof {
                    assert(ov[i as int] is None);
                }
                return None;
            },
        }
        i = i + 1;
    }
    proof {
        assert(slots.take(n as int) =~= slots);
        assert(slots_full(ov));
        assert(out@ == assembled_of(ov));
    }
    Some(out)
}

/// Find the entry keyed by `(sender, tid)`, if any.
fn find_entry(entries: &Vec<InflightTransfer>, sender: &str, tid: &str) -> (r: Option<usize>)
    ensures
        match r {
            Some(i) => i < entries@.len() && entries@[i as int].matches(sender@, tid@),
            None => forall|i: int|
                0 <= i < entries@.len() ==> !((#[trigger] entries@[i]).matches(sender@, tid@)),
        },
{
    let n = entries.len();
    let mut i: usize = 0;
    while i < n
        invariant
            0 <= i <= n,
            n == entries@.len(),
            forall|k: int| 0 <= k < i ==> !((#[trigger] entries@[k]).matches(sender@, tid@)),
        decreases n - i,
    {
        if str_eq(entries[i].sender_device_id.as_str(), sender) && str_eq(
            entries[i].transfer_id.as_str(),
            tid,
        ) {
            return Some(i);
        }
        i = i + 1;
    }
    None
}

/// `String::clone` with its view pinned down.
fn clone_str(s: &String) -> (r: String)
    ensures
        r@ == s@,
{
    s.clone()
}

/// Admit one chunk envelope for `sender`, reassembling when it was the
/// last missing piece, as one state transition on the inflight table: a
/// frame that fails to parse, validate or base64-decode changes nothing;
/// otherwise stale entries are evicted first, a new key is admitted only
/// below the table's capacity, a retransmission must agree with the
/// stored envelope, the first write to a slot wins, and once every slot
/// is filled with total length `total_size` the entry is removed and the
/// bytes come back concatenated in index order, under the entry's
/// sanitized file name.
pub fn handle_file_chunk(
    table: &mut TransferTable,
    sender_device_id: &str,
    text_utf8: &str,
    now_ms: u64,
) -> (r: Option<(String, Vec<u8>)>)
    requires
        old(table).wf(),
    ensures
        final(table).wf(),
        match p_chunk(encode_utf8(text_utf8@)) {
            None => r is None && final(table).tview() == old(table).tview(),
            Some((env, k)) => {
                let t0 = old(table).tview();
                let ev = evict_stale(t0, now_ms);
                &&& (k != encode_utf8(text_utf8@).len() || !chunk_env_valid(env)) ==> (r is None
                    && final(table).tview() == t0)
                &&& (k == encode_utf8(text_utf8@).len() && chunk_env_valid(env) && (forall|
                    d: Seq<u8>,
                |
                    env.chunk_b64 != #[trigger] b64_of(d))) ==> (r is None && final(table).tview()
                    == t0)
                &&& forall|d: Seq<u8>|
                    (k == encode_utf8(text_utf8@).len() && chunk_env_valid(env) && env.chunk_b64
                        == #[trigger] b64_of(d)) ==> {
                        if d.len() == 0 {
                            r is None && final(table).tview() == t0
                        } else if !t_has_key(ev, sender_device_id@, env.transfer_id) {
                            if ev.len() >= MAX_INFLIGHT_TRANSFERS {
                                r is None && final(table).tview() == ev
                            } else {
                                let entry = fresh_entry(sender_device_id@, env, d, now_ms);
                                if slots_full(entry.slots) && assembled_of(entry.slots).len()
                                    == env.total_size {
                                    (r matches Some((name, bytes)) && name@ == entry.file_name
                                        && bytes@ == assembled_of(entry.slots))
                                        && final(table).tview() == ev
                                } else {
                                    r is None && final(table).tview() == ev.push(entry)
                                }
                            }
                        } else {
                            forall|j: int|
                                (0 <= j < ev.len() && (#[trigger] ev[j]).sender_device_id
                                    == sender_device_id@ && ev[j].transfer_id
                                    == env.transfer_id) ==> {
                                    if ev[j].total_chunks != env.total_chunks || ev[j].total_size
                                        != env.total_size {
                                        r is None && final(table).tview() == ev
                                    } else {
                                        let entry = updated_entry(ev[j], env, d, now_ms);
                                        if slots_full(entry.slots) && assembled_of(
                                            entry.slots,
                                        ).len() == env.total_size {
                                            (r matches Some((name, bytes)) && name@
                                                == ev[j].file_name && bytes@ == assembled_of(
                                                entry.slots,
                                            )) && final(table).tview() == ev.remove(j)
                                        } else {
                                            r is None && final(table).tview() == ev.update(j, entry)
                                        }
                                    }
                                }
                        }
                    }
            },
        },
{
    let ghost t0 = old(table).tview();
    let text_bytes = text_utf8.as_bytes();
    proof {
        assert(text_bytes@.skip(0) =~= text_bytes@);
    }
    let (env, consumed) = match parse_chunk(text_bytes, 0) {
        Some(x) => x,
        None => {
            return None;
        },
    };
    if consumed != text_bytes.len() {
        return None;
    }
    let tid_trim = trim_str(env.transfer_id.as_str());
    if tid_trim.as_str().unicode_len() == 0 {
        return None;
    }
    if env.total_chunks == 0 || env.total_chunks > MAX_TOTAL_CHUNKS {
        return None;
    }
    if env.chunk_index >= env.total_chunks {
        return None;
    }
    if env.total_size == 0 || env.total_size > MAX_FILE_BYTES {
        return None;
    }
    let chunk = match b64_decode(env.chunk_b64.as_str()) {
        Some(c) => c,
        None => {
            proof {
                assert forall|d: Seq<u8>| env.chunk_b64@ != #[trigger] b64_of(d) by {
                    if env.chunk_b64@ == b64_of(d) {
                        assert(exists|d2: Seq<u8>| env.chunk_b64@ == b64_of(d2));
                    }
                }
            }
            return None;
        },
    };
    let ghost dv = chunk@;
    if chunk.len() == 0 {
        return None;
    }
    // evict stale transfers before considering admission; remember where
    // each kept entry came from, so key uniqueness survives
    let ghost total = t0.len() as int;
    let mut kept: Vec<InflightTransfer> = Vec::new();
    let ghost mut kept_src: Seq<int> = Seq::empty();
    proof {
        assert(t0.take(0) =~= Seq::<TransferView>::empty());
        assert(t0.skip(0) =~= t0);
        assert forall|i: int| 0 <= i < table.entries@.len() implies (
        #[trigger] table.entries@[i]).wf() by {
            assert(t0[i] == table.entries@[i]@);
            assert(t0[i].slots.len() == t0[i].total_chunks);
        }
    }
    while table.entries.len() > 0
        invariant
            old(table).wf(),
            t0 == old(table).tview(),
            total == t0.len(),
            table.entries@.len() <= total,
            table.tview() == t0.skip(total - table.entries@.len()),
            forall|i: int| 0 <= i < table.entries@.len() ==> (#[trigger] table.entries@[i]).wf(),
            views_of(kept@) == evict_stale(t0.take(total - table.entries@.len()), now_ms),
            forall|i: int| 0 <= i < kept@.len() ==> (#[trigger] kept@[i]).wf(),
            kept_src.len() == kept@.len(),
            forall|a: int|
                0 <= a < kept_src.len() ==> 0 <= #[trigger] kept_src[a] < total
                    - table.entries@.len() && kept@[a]@ == t0[kept_src[a]],
            forall|a: int, b: int| 0 <= a < b < kept_src.len() ==> kept_src[a] < kept_src[b],
        decreases table.entries@.len(),
    {
        let ghost done = total - table.entries@.len();
        let ghost pre = table.tview();
        let e = table.entries.remove(0);
        proof {
            assert(pre == t0.skip(done));
            assert(e@ == pre[0]);
            assert(e@ == t0[done]);
            assert(table.tview() =~= pre.drop_first());
            assert(pre.drop_first() =~= t0.skip(done + 1));
            lemma_evict_snoc(t0.take(done), t0[done], now_ms);
            assert(t0.take(done).push(t0[done]) =~= t0.take(done + 1));
            assert forall|i: int| 0 <= i < table.entries@.len() implies (
            #[trigger] table.entries@[i]).wf() by {
                assert(table.tview()[i] == t0[done + 1 + i]);
                assert(table.entries@[i]@ == t0[done + 1 + i]);
                assert(t0[done + 1 + i].slots.len() == t0[done + 1 + i].total_chunks);
            }
        }
        if e.last_update_ms > now_ms || now_ms - e.last_update_ms <= TRANSFER_TIMEOUT_MS {
            proof {
                assert(!stale(e@, now_ms));
            }
            kept.push(e);
            proof {
                kept_src = kept_src.push(done);
                assert(views_of(kept@) =~= evict_stale(t0.take(done + 1), now_ms));
            }
        } else {
            proof {
                assert(stale(e@, now_ms));
                assert(views_of(kept@) =~= evict_stale(t0.take(done + 1), now_ms));
            }
        }
    }
    let ghost ev = evict_stale(t0, now_ms);
    proof {
        assert(t0.take(total) =~= t0);
        // keys stay pairwise distinct across eviction: every kept entry
        // is an original entry, in the original order
        assert forall|a: int, b: int| 0 <= a < b < views_of(kept@).len() implies !((
        #[trigger] views_of(kept@)[a]).sender_device_id == (
        #[trigger] views_of(kept@)[b]).sender_device_id && views_of(kept@)[a].transfer_id
            == views_of(kept@)[b].transfer_id) by {
            let sa = kept_src[a];
            let sb = kept_src[b];
            assert(views_of(kept@)[a] == t0[sa]);
            assert(views_of(kept@)[b] == t0[sb]);
            assert(!((t0[sa]).sender_device_id == (t0[sb]).sender_device_id && t0[sa].transfer_id
                == t0[sb].transfer_id));
        }
        assert(keys_distinct(views_of(kept@)));
        assert forall|i: int| 0 <= i < views_of(kept@).len() implies (
        #[trigger] views_of(kept@)[i]).slots.len() == views_of(kept@)[i].total_chunks by {
            assert(kept@[i].wf());
            assert(views_of(kept@)[i] == kept@[i]@);
        }
        assert(views_of(kept@) == evict_stale(t0.take(total), now_ms));
        assert(views_of(kept@) =~= ev);
        lemma_evict_len(t0, now_ms);
        assert(views_of(kept@).len() <= MAX_INFLIGHT_TRANSFERS);
        assert(table_wf(views_of(kept@)));
    }
    let ghost keptv = views_of(kept@);
    table.entries = kept;
    proof {
        assert(table.tview() == keptv);
        assert(table.wf());
    }
    // find the entry for this (sender, transfer id)
    let found = find_entry(&table.entries, sender_device_id, env.transfer_id.as_str());
    let ghost created: bool = found is None;
    let idx: usize = match found {
        Some(fi) => {
            proof {
                assert(ev[fi as int] == table.entries@[fi as int]@);
                assert(ev[fi as int].sender_device_id == sender_device_id@ && ev[
                    fi as int
                ].transfer_id == env.transfer_id@);
                assert(t_has_key(ev, sender_device_id@, env.transfer_id@));
            }
            fi
        },
        None => {
            proof {
                if t_has_key(ev, sender_device_id@, env.transfer_id@) {
                    let j = choose|j: int|
                        0 <= j < ev.len() && (#[trigger] ev[j]).sender_device_id
                            == sender_device_id@ && ev[j].transfer_id == env.transfer_id@;
                    assert(table.entries@[j]@ == ev[j]);
                    assert(table.entries@[j].matches(sender_device_id@, env.transfer_id@));
                    assert(false);
                }
            }
            if table.entries.len() >= MAX_INFLIGHT_TRANSFERS {
                return None;
            }
            let mut slots: Vec<Option<Vec<u8>>> = Vec::new();
            let mut k: usize = 0;
            while k < env.total_chunks as usize
                invariant
                    0 <= k <= env.total_chunks,
                    slots@.len() == k,
                    forall|j: int| 0 <= j < k ==> (#[trigger] slots@[j]) is None,
                decreases env.total_chunks as usize - k,
            {
                slots.push(None);
                k = k + 1;
            }
            let entry = InflightTransfer {
                sender_device_id: sender_device_id.to_owned(),
                transfer_id: clone_str(&env.transfer_id),
                file_name: sanitize_file_name(env.file_name.as_str()),
                total_size: env.total_size,
                total_chunks: env.total_chunks,
                received: slots,
                last_update_ms: now_ms,
            };
            proof {
                assert(entry@.slots =~= all_none(env.total_chunks as int));
            }
            let ghost pre_push = table.tview();
            table.entries.push(entry);
            proof {
                assert(table.tview() =~= pre_push.push(table.entries@.last()@));
                assert forall|a: int, b: int|
                    0 <= a < b < table.tview().len() implies !((
                #[trigger] table.tview()[a]).sender_device_id == (
                #[trigger] table.tview()[b]).sender_device_id && table.tview()[a].transfer_id
                    == table.tview()[b].transfer_id) by {
                    if b == table.tview().len() - 1 {
                        assert(table.tview()[a] == ev[a]);
                        assert(!(ev[a].sender_device_id == sender_device_id@ && ev[a].transfer_id
                            == env.transfer_id@));
                    } else {
                        assert(table.tview()[a] == ev[a]);
                        assert(table.tview()[b] == ev[b]);
                    }
                }
                assert(table.wf());
            }
            table.entries.len() - 1
        },
    };
    proof {
        assert(idx < table.entries@.len());
        assert(table.entries@[idx as int]@ == table.tview()[idx as int]);
        assert(table.entries@[idx as int]@.slots.len() == table.entries@[idx as int]@.total_chunks);
        assert(table.entries@[idx as int].wf());
    }
    // retransmissions must agree with the stored envelope
    if table.entries[idx].total_chunks != env.total_chunks || table.entries[idx].total_size
        != env.total_size {
        proof {
            assert(!created);
            assert(table.tview() == ev);
        }
        return None;
    }
    let ghost pre_entry = table.entries@[idx as int]@;
    let ghost pre_tview = table.tview();
    let ci = env.chunk_index as usize;
    let entry = vstd::std_specs::vec::vec_index_mut(&mut table.entries, idx);
    entry.last_update_ms = now_ms;
    proof {
        assert(entry.received@.len() == entry.total_chunks);
    }
    let slot_empty = entry.received[ci].is_none();
    if slot_empty {
        let slot = vstd::std_specs::vec::vec_index_mut(&mut entry.received, ci);
        *slot = Some(chunk);
        proof {
            assert(entry@.slots =~= store_chunk(pre_entry.slots, ci as int, dv));
        }
    } else {
        proof {
            assert(entry@.slots =~= store_chunk(pre_entry.slots, ci as int, dv));
        }
    }
    proof {
        assert(entry@ == updated_entry(pre_entry, env@, dv, now_ms));
    }
    let maybe_assembled = assemble(&entry.received);
    let entry_size = entry.total_size;
    let name = clone_str(&entry.file_name);
    let ghost entry_final = entry@;
    let complete = match maybe_assembled {
        Some(bytes) => {
            proof {
                assert(entry_final.slots == opt_views(entry.received@));
                assert(bytes@ == assembled_of(entry_final.slots));
                assert(slots_full(entry_final.slots));
            }
            Some(bytes)
        },
        None => {
            proof {
                assert(entry_final.slots == opt_views(entry.received@));
                assert(!slots_full(entry_final.slots));
            }
            None
        },
    };
    proof {
        assert(table.tview() =~= pre_tview.update(idx as int, entry_final));
        if created {
            assert(pre_tview == ev.push(pre_entry));
            assert(table.tview() =~= ev.push(entry_final));
        } else {
            assert(pre_tview == ev);
            assert(table.tview() =~= ev.update(idx as int, entry_final));
        }
        assert forall|a: int, b: int|
            0 <= a < b < table.tview().len() implies !((
        #[trigger] table.tview()[a]).sender_device_id == (
        #[trigger] table.tview()[b]).sender_device_id && table.tview()[a].transfer_id
            == table.tview()[b].transfer_id) by {
            assert(table.tview()[a] == if a == idx as int {
                entry_final
            } else {
                pre_tview[a]
            });
            assert(table.tview()[b] == if b == idx as int {
                entry_final
            } else {
                pre_tview[b]
            });
        }
        assert(table.wf());
    }
    let assembled = match complete {
        Some(bytes) => bytes,
        None => {
            return None;
        },
    };
    if assembled.len() as u64 != entry_size {
        return None;
    }
    // remove the completed transfer to bound memory
    let ghost pre_remove = table.tview();
    let _ = table.entries.remove(idx);
    proof {
        assert(table.tview() =~= pre_remove.remove(idx as int));
        if created {
            assert(pre_remove.remove(idx as int) =~= ev);
        }
        assert forall|a: int, b: int|
            0 <= a < b < table.tview().len() implies !((
        #[trigger] table.tview()[a]).sender_device_id == (
        #[trigger] table.tview()[b]).sender_device_id && table.tview()[a].transfer_id
            == table.tview()[b].transfer_id) by {
            let oa = if a < idx as int {
                a
            } else {
                a + 1
            };
            let ob = if b < idx as int {
                b
            } else {
                b + 1
            };
            assert(table.tview()[a] == pre_remove[oa]);
            assert(table.tview()[b] == pre_remove[ob]);
        }
        assert(table.wf());
    }
    Some((name, assembled))
}



/// A chunk envelope's JSON is valid UTF-8, so it can travel as the text
/// of a clipboard event.
pub proof fn lemma_chunk_json_valid(v: ChunkView)
    ensures
        vstd::utf8::valid_utf8(chunk_json(v)),
{
    reveal_strlit("{\"transfer_id\":");
    reveal_strlit(",\"file_name\":");
    reveal_strlit(",\"total_size\":");
    reveal_strlit(",\"chunk_index\":");
    reveal_strlit(",\"total_chunks\":");
    reveal_strlit(",\"chunk_b64\":");
    reveal_strlit("}");
    let a1 = ascii_bytes_of("{\"transfer_id\":"@);
    let a2 = ascii_bytes_of(",\"file_name\":"@);
    let a3 = ascii_bytes_of(",\"total_size\":"@);
    let a4 = ascii_bytes_of(",\"chunk_index\":"@);
    let a5 = ascii_bytes_of(",\"total_chunks\":"@);
    let a6 = ascii_bytes_of(",\"chunk_b64\":"@);
    let a7 = ascii_bytes_of("}"@);
    crate::strings::lemma_ascii_seq_valid("{\"transfer_id\":"@);
    crate::strings::lemma_ascii_seq_valid(",\"file_name\":"@);
    crate::strings::lemma_ascii_seq_valid(",\"total_size\":"@);
    crate::strings::lemma_ascii_seq_valid(",\"chunk_index\":"@);
    crate::strings::lemma_ascii_seq_valid(",\"total_chunks\":"@);
    crate::strings::lemma_ascii_seq_valid(",\"chunk_b64\":"@);
    crate::strings::lemma_ascii_seq_valid("}"@);
    crate::jmsg::lemma_jstr_valid(v.transfer_id);
    crate::jmsg::lemma_jstr_valid(v.file_name);
    crate::jmsg::lemma_jstr_valid(v.chunk_b64);
    lemma_dec_valid(v.total_size);
    lemma_dec_valid(v.chunk_index as u64);
    lemma_dec_valid(v.total_chunks as u64);
    crate::strings::lemma_valid_utf8_append(a1, jstr_of(v.transfer_id));
    let p1 = a1 + jstr_of(v.transfer_id);
    crate::strings::lemma_valid_utf8_append(p1, a2);
    let p2 = p1 + a2;
    crate::strings::lemma_valid_utf8_append(p2, jstr_of(v.file_name));
    let p3 = p2 + jstr_of(v.file_name);
    crate::strings::lemma_valid_utf8_append(p3, a3);
    let p4 = p3 + a3;
    crate::strings::lemma_valid_utf8_append(p4, dec_u64(v.total_size));
    let p5 = p4 + dec_u64(v.total_size);
    crate::strings::lemma_valid_utf8_append(p5, a4);
    let p6 = p5 + a4;
    crate::strings::lemma_valid_utf8_append(p6, dec_u64(v.chunk_index as u64));
    let p7 = p6 + dec_u64(v.chunk_index as u64);
    crate::strings::lemma_valid_utf8_append(p7, a5);
    let p8 = p7 + a5;
    crate::strings::lemma_valid_utf8_append(p8, dec_u64(v.total_chunks as u64));
    let p9 = p8 + dec_u64(v.total_chunks as u64);
    crate::strings::lemma_valid_utf8_append(p9, a6);
    let p10 = p9 + a6;
    crate::strings::lemma_valid_utf8_append(p10, jstr_of(v.chunk_b64));
    let p11 = p10 + jstr_of(v.chunk_b64);
    crate::strings::lemma_valid_utf8_append(p11, a7);
}

proof fn lemma_dec_valid(n: u64)
    ensures
        vstd::utf8::valid_utf8(dec_u64(n)),
{
    crate::json::lemma_dec_digits(n);
    assert forall|i: int| 0 <= i < dec_u64(n).len() implies #[trigger] dec_u64(n)[i] < 0x80 by {
        assert(is_digit(dec_u64(n)[i]));
    }
    crate::strings::lemma_ascii_decode(dec_u64(n));
}

/// The MIME that marks a file-chunk event.
pub open spec fn file_chunk_mime() -> Seq<char> {
    "application/x-cliprelay-file-chunk+json;base64"@
}

/// The raw bytes of chunk `i` of `data`: a 64 KiB slice, the last one
/// possibly shorter.
pub open spec fn chunk_slice(data: Seq<u8>, i: int) -> Seq<u8> {
    data.subrange(
        i * (FILE_CHUNK_RAW_BYTES as int),
        if (i + 1) * (FILE_CHUNK_RAW_BYTES as int) <= data.len() {
            (i + 1) * (FILE_CHUNK_RAW_BYTES as int)
        } else {
            data.len() as int
        },
    )
}

/// The envelope the sender builds for chunk `i`.
pub open spec fn send_env(
    device_id: Seq<char>,
    now_ms: u64,
    file_name: Seq<char>,
    data: Seq<u8>,
    i: int,
) -> ChunkView {
    ChunkView {
        transfer_id: transfer_id_of(device_id, now_ms, file_name),
        file_name: file_name,
        total_size: data.len() as u64,
        chunk_index: i as u32,
        total_chunks: chunk_count_of(data.len() as nat) as u32,
        chunk_b64: b64_of(chunk_slice(data, i)),
    }
}

/// The clipboard event that carries chunk `i`.
pub open spec fn send_event(
    device_id: Seq<char>,
    counter0: u64,
    now_ms: u64,
    file_name: Seq<char>,
    data: Seq<u8>,
    i: int,
) -> crate::types::EventView {
    crate::types::EventView {
        sender_device_id: device_id,
        counter: (counter0 + i + 1) as u64,
        timestamp_unix_ms: now_ms,
        mime: file_chunk_mime(),
        text_utf8: vstd::utf8::decode_utf8(chunk_json(send_env(device_id, now_ms, file_name, data, i))),
    }
}

proof fn lemma_chunk_count_bounds(len: nat)
    requires
        len > 0,
    ensures
        chunk_count_of(len) >= 1,
        (chunk_count_of(len) - 1) * (FILE_CHUNK_RAW_BYTES as int) < len,
        forall|i: int|
            0 <= i < chunk_count_of(len) ==> #[trigger] (i * (FILE_CHUNK_RAW_BYTES as int)) < len,
{
    let c = FILE_CHUNK_RAW_BYTES as int;
    let x = len + c - 1;
    let q = chunk_count_of(len) as int;
    vstd::arithmetic::div_mod::lemma_fundamental_div_mod(x, c);
    assert(x == c * (x / c) + x % c);
    vstd::arithmetic::div_mod::lemma_mod_bound(x, c);
    assert(q == x / c);
    assert(c * q == x - x % c);
    assert((q - 1) * c == c * q - c) by (nonlinear_arith);
    assert((q - 1) * c < len);
    assert(c * q >= len);
    assert(q >= 1) by (nonlinear_arith)
        requires
            c * q >= len,
            len > 0,
            c > 0,
    ;
    assert forall|i: int| 0 <= i < q implies #[trigger] (i * c) < len by {
        assert(i * c <= (q - 1) * c) by (nonlinear_arith)
            requires
                i <= q - 1,
                c > 0,
        ;
    }
}

proof fn lemma_chunk_mime_wf()
    ensures
        spec_trim(file_chunk_mime()) == file_chunk_mime(),
        vstd::utf8::encode_utf8(file_chunk_mime()).len() == file_chunk_mime().len(),
        0 < file_chunk_mime().len() <= crate::MAX_MIME_LEN,
{
    reveal_strlit("application/x-cliprelay-file-chunk+json;base64");
    let m = file_chunk_mime();
    assert(!crate::strings::is_ws_char(m[0]));
    assert(!crate::strings::is_ws_char(m[m.len() - 1]));
    assert(crate::strings::first_non_ws(m, 0) == 0);
    assert(crate::strings::end_non_ws(m, m.len() as int) == m.len() as int);
    assert(spec_trim(m) =~= m);
    assert(vstd::utf8::is_ascii_chars(m));
    vstd::utf8::is_ascii_chars_encode_utf8(m);
}

/// Split a file into encrypted chunk events: reject an empty or
/// oversized file and one needing more than the chunk cap; compute the
/// transfer id once; then, per chunk, build the JSON envelope, check it
/// against the clipboard budget, allocate the next counter and seal it
/// under the room key with the file-chunk MIME.
pub fn prepare_file_send(
    device_id: &str,
    counter: u64,
    now_ms: u64,
    file_name: &str,
    data: &[u8],
    room_key: &[u8; 32],
) -> (r: Result<(u64, Vec<EncryptedPayload>), FileSendError>)
    requires
        counter <= 0xFFFF_FFFF_FFFF_FF00,
    ensures
        data@.len() == 0 <==> r == Err::<(u64, Vec<EncryptedPayload>), FileSendError>(
            FileSendError::EmptyFile,
        ),
        data@.len() > MAX_FILE_BYTES <==> r == Err::<(u64, Vec<EncryptedPayload>), FileSendError>(
            FileSendError::TooLarge,
        ),
        (0 < data@.len() <= MAX_FILE_BYTES && chunk_count_of(data@.len() as nat)
            > MAX_TOTAL_CHUNKS) <==> r == Err::<(u64, Vec<EncryptedPayload>), FileSendError>(
            FileSendError::TooManyChunks,
        ),
        r == Err::<(u64, Vec<EncryptedPayload>), FileSendError>(FileSendError::EnvelopeTooLarge)
            ==> exists|i: int|
            0 <= i < chunk_count_of(data@.len() as nat) && #[trigger] chunk_json(
                send_env(device_id@, now_ms, file_name@, data@, i),
            ).len() > crate::MAX_CLIPBOARD_TEXT_BYTES,
        r == Err::<(u64, Vec<EncryptedPayload>), FileSendError>(FileSendError::EncryptFailed)
            ==> exists|i: int|
            0 <= i < chunk_count_of(data@.len() as nat) && #[trigger] crate::jmsg::event_json(
                send_event(device_id@, counter, now_ms, file_name@, data@, i),
            ).len() >= 64 * 0xFFFF_FFFF,
        (0 < data@.len() <= MAX_FILE_BYTES && chunk_count_of(data@.len() as nat)
            <= MAX_TOTAL_CHUNKS && (forall|i: int|
            0 <= i < chunk_count_of(data@.len() as nat) ==> #[trigger] chunk_json(
                send_env(device_id@, now_ms, file_name@, data@, i),
            ).len() <= crate::MAX_CLIPBOARD_TEXT_BYTES) && (forall|i: int|
            0 <= i < chunk_count_of(data@.len() as nat) ==> #[trigger] crate::jmsg::event_json(
                send_event(device_id@, counter, now_ms, file_name@, data@, i),
            ).len() < 64 * 0xFFFF_FFFF)) ==> r is Ok,
        r matches Ok((c, ps)) ==> {
            &&& ps@.len() == chunk_count_of(data@.len() as nat)
            &&& c == counter + ps@.len()
            &&& forall|i: int|
                0 <= i < ps@.len() ==> {
                    &&& (#[trigger] ps@[i]).sender_device_id@ == device_id@
                    &&& ps@[i].counter == counter + i + 1
                    &&& ps@[i].ciphertext@ == crate::crypto::sealed_event(
                        room_key@,
                        send_event(device_id@, counter, now_ms, file_name@, data@, i),
                    )
                    &&& vstd::utf8::encode_utf8(
                        send_event(device_id@, counter, now_ms, file_name@, data@, i).text_utf8,
                    ) == chunk_json(send_env(device_id@, now_ms, file_name@, data@, i))
                }
        },
{
    if data.len() == 0 {
        return Err(FileSendError::EmptyFile);
    }
    if data.len() as u64 > MAX_FILE_BYTES {
        return Err(FileSendError::TooLarge);
    }
    let count = (data.len() + (FILE_CHUNK_RAW_BYTES - 1)) / FILE_CHUNK_RAW_BYTES;
    proof {
        assert(count == chunk_count_of(data@.len() as nat));
        lemma_chunk_count_bounds(data@.len() as nat);
    }
    if count > MAX_TOTAL_CHUNKS as usize {
        return Err(FileSendError::TooManyChunks);
    }
    let tid = make_transfer_id(device_id, now_ms, file_name);
    let mut out: Vec<EncryptedPayload> = Vec::new();
    let mut c = counter;
    let mut i: usize = 0;
    while i < count
        invariant
            0 <= i <= count,
            counter <= 0xFFFF_FFFF_FFFF_FF00,
            count == chunk_count_of(data@.len() as nat),
            1 <= count <= MAX_TOTAL_CHUNKS,
            0 < data@.len() <= MAX_FILE_BYTES,
            tid@ == transfer_id_of(device_id@, now_ms, file_name@),
            c == counter + i,
            out@.len() == i,
            forall|k: int|
                0 <= k < i ==> {
                    &&& (#[trigger] out@[k]).sender_device_id@ == device_id@
                    &&& out@[k].counter == counter + k + 1
                    &&& out@[k].ciphertext@ == crate::crypto::sealed_event(
                        room_key@,
                        send_event(device_id@, counter, now_ms, file_name@, data@, k),
                    )
                    &&& vstd::utf8::encode_utf8(
                        send_event(device_id@, counter, now_ms, file_name@, data@, k).text_utf8,
                    ) == chunk_json(send_env(device_id@, now_ms, file_name@, data@, k))
                },
        decreases count - i,
    {
        proof {
            lemma_chunk_count_bounds(data@.len() as nat);
            assert((i as int) * (FILE_CHUNK_RAW_BYTES as int) < data@.len());
        }
        let env = build_chunk_envelope(tid.as_str(), file_name, data, i as u32, count as u32);
        proof {
            assert(env@ == send_env(device_id@, now_ms, file_name@, data@, i as int));
        }
        let json = chunk_json_vec(&env);
        if json.len() > crate::MAX_CLIPBOARD_TEXT_BYTES {
            proof {
                assert(chunk_json(send_env(device_id@, now_ms, file_name@, data@, i as int)).len()
                    > crate::MAX_CLIPBOARD_TEXT_BYTES);
            }
            return Err(FileSendError::EnvelopeTooLarge);
        }
        proof {
            lemma_chunk_json_valid(env@);
        }
        let text = match crate::strings::bytes_to_string(json.as_slice()) {
            Some(s) => s,
            None => {
                // unreachable: the envelope JSON is valid UTF-8
                proof {
                    assert(false);
                }
                return Err(FileSendError::EnvelopeTooLarge);
            },
        };
        proof {
            vstd::utf8::decode_utf8_encode_utf8(json@);
        }
        c = c + 1;
        let event = ClipboardEventPlaintext {
            sender_device_id: device_id.to_owned(),
            counter: c,
            timestamp_unix_ms: now_ms,
            mime: "application/x-cliprelay-file-chunk+json;base64".to_owned(),
            text_utf8: text,
        };
        proof {
            lemma_chunk_mime_wf();
            assert(crate::crypto::valid_event_sizes(event@));
            assert(event@ == send_event(device_id@, counter, now_ms, file_name@, data@, i as int));
        }
        match encrypt_clipboard_event(room_key, &event) {
            Ok(payload) => {
                out.push(payload);
            },
            Err(_) => {
                proof {
                    assert(crate::jmsg::event_json(
                        send_event(device_id@, counter, now_ms, file_name@, data@, i as int),
                    ).len() >= 64 * 0xFFFF_FFFF);
                }
                return Err(FileSendError::EncryptFailed);
            },
        }
        i = i + 1;
    }
    Ok((c, out))
}

} // verus!
