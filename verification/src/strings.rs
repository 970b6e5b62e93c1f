//! Character and string groundwork shared by the whole protocol:
//! Unicode-whitespace trimming, string equality, lowercase hex, ASCII
//! byte/char conversion, and UTF-16 units for registry values.

use vstd::prelude::*;
use vstd::string::StringSliceAdditionalSpecFns;
use vstd::utf8::{decode_utf8, encode_utf8, valid_utf8};

verus! {

/// The Unicode `White_Space` code points, as `char::is_whitespace` and
/// `str::trim` see them.
pub open spec fn is_ws_char(c: char) -> bool {
    let u = c as u32;
    (0x9 <= u && u <= 0xD) || u == 0x20 || u == 0x85 || u == 0xA0 || u == 0x1680 || (0x2000 <= u
        && u <= 0x200A) || u == 0x2028 || u == 0x2029 || u == 0x202F || u == 0x205F || u == 0x3000
}

/// Executable twin of `is_ws_char`.
pub fn is_ws(c: char) -> (r: bool)
    ensures
        r == is_ws_char(c),
{
    let u = c as u32;
    (0x9 <= u && u <= 0xD) || u == 0x20 || u == 0x85 || u == 0xA0 || u == 0x1680 || (0x2000 <= u
        && u <= 0x200A) || u == 0x2028 || u == 0x2029 || u == 0x202F || u == 0x205F || u == 0x3000
}

/// Index of the first non-whitespace character at or after `i`.
pub open spec fn first_non_ws(s: Seq<char>, i: int) -> int
    decreases s.len() - i,
{
    if i < 0 || i >= s.len() {
        s.len() as int
    } else if is_ws_char(s[i]) {
        first_non_ws(s, i + 1)
    } else {
        i
    }
}

/// One past the last non-whitespace character strictly before `j`.
pub open spec fn end_non_ws(s: Seq<char>, j: int) -> int
    decreases j,
{
    if j <= 0 {
        0
    } else if j > s.len() {
        end_non_ws(s, s.len() as int)
    } else if is_ws_char(s[j - 1]) {
        end_non_ws(s, j - 1)
    } else {
        j
    }
}

/// What `str::trim` returns: the sequence with leading and trailing
/// whitespace removed.
pub open spec fn spec_trim(s: Seq<char>) -> Seq<char> {
    let a = first_non_ws(s, 0);
    let b = end_non_ws(s, s.len() as int);
    if a >= b {
        Seq::empty()
    } else {
        s.subrange(a, b)
    }
}

proof fn lemma_first_non_ws_bounds(s: Seq<char>, i: int)
    requires
        0 <= i <= s.len(),
    ensures
        i <= first_non_ws(s, i) <= s.len(),
        first_non_ws(s, i) < s.len() ==> !is_ws_char(s[first_non_ws(s, i)]),
    decreases s.len() - i,
{
    if i < s.len() && is_ws_char(s[i]) {
        lemma_first_non_ws_bounds(s, i + 1);
    }
}

proof fn lemma_end_non_ws_bounds(s: Seq<char>, j: int)
    requires
        0 <= j <= s.len(),
    ensures
        0 <= end_non_ws(s, j) <= j,
        end_non_ws(s, j) > 0 ==> !is_ws_char(s[end_non_ws(s, j) - 1]),
    decreases j,
{
    if j > 0 && is_ws_char(s[j - 1]) {
        lemma_end_non_ws_bounds(s, j - 1);
    }
}

/// Trim leading and trailing Unicode whitespace, as `str::trim` does.
pub fn trim_str(s: &str) -> (r: String)
    ensures
        r@ == spec_trim(s@),
{
    let n = s.unicode_len();
    let mut a: usize = 0;
    while a < n && is_ws(s.get_char(a))
        invariant
            0 <= a <= n,
            n == s@.len(),
            first_non_ws(s@, 0) == first_non_ws(s@, a as int),
        decreases n - a,
    {
        a = a + 1;
    }
    proof {
        lemma_first_non_ws_bounds(s@, a as int);
        assert(first_non_ws(s@, a as int) == a);
    }
    if a == n {
        proof {
            lemma_end_non_ws_bounds(s@, s@.len() as int);
        }
        let r = String::new();
        proof {
            assert(spec_trim(s@) =~= Seq::<char>::empty());
        }
        return r;
    }
    let mut b: usize = n;
    while b > a && is_ws(s.get_char(b - 1))
        invariant
            a < b <= n,
            n == s@.len(),
            a < n,
            first_non_ws(s@, 0) == a,
            !is_ws_char(s@[a as int]),
            end_non_ws(s@, n as int) == end_non_ws(s@, b as int),
        decreases b,
    {
        b = b - 1;
    }
    proof {
        assert(end_non_ws(s@, b as int) == b);
        assert(spec_trim(s@) =~= s@.subrange(a as int, b as int));
    }
    s.substring_char(a, b).to_owned()
}

/// UTF-8 encodings are uniquely decodable, so equal byte encodings mean
/// equal character sequences.
pub proof fn lemma_utf8_injective(a: Seq<char>, b: Seq<char>)
    requires
        encode_utf8(a) == encode_utf8(b),
    ensures
        a == b,
{
    vstd::utf8::encode_utf8_decode_utf8(a);
    vstd::utf8::encode_utf8_decode_utf8(b);
}

/// String equality by byte comparison.
pub fn str_eq(a: &str, b: &str) -> (r: bool)
    ensures
        r == (a@ == b@),
{
    let ab = a.as_bytes();
    let bb = b.as_bytes();
    if ab.len() != bb.len() {
        proof {
            if a@ == b@ {
                assert(encode_utf8(a@) == encode_utf8(b@));
            }
        }
        return false;
    }
    let n = ab.len();
    let mut i: usize = 0;
    while i < n
        invariant
            0 <= i <= n,
            n == ab@.len() == bb@.len(),
            ab@ == encode_utf8(a@),
            bb@ == encode_utf8(b@),
            forall|k: int| 0 <= k < i ==> ab@[k] == bb@[k],
        decreases n - i,
    {
        if ab[i] != bb[i] {
            proof {
                if a@ == b@ {
                    assert(encode_utf8(a@) == encode_utf8(b@));
                }
            }
            return false;
        }
        i = i + 1;
    }
    proof {
        assert(ab@ =~= bb@);
        lemma_utf8_injective(a@, b@);
    }
    true
}

/// Relies on `std::str::from_utf8`: it succeeds exactly on valid UTF-8 and
/// returns the decoded characters.
#[verifier::external_body]
pub fn bytes_to_string(v: &[u8]) -> (r: Option<String>)
    ensures
        r is Some <==> valid_utf8(v@),
        r is Some ==> r.unwrap()@ == decode_utf8(v@),
{
    match std::str::from_utf8(v) {
        Ok(s) => Some(s.to_owned()),
        Err(_) => None,
    }
}

/// The characters an all-ASCII byte sequence decodes to: one per byte.
pub open spec fn ascii_chars_of(v: Seq<u8>) -> Seq<char> {
    Seq::new(v.len(), |i: int| v[i] as char)
}

/// A sequence of bytes below 0x80 is valid UTF-8 and decodes byte-for-byte.
pub proof fn lemma_ascii_decode(v: Seq<u8>)
    requires
        forall|i: int| 0 <= i < v.len() ==> v[i] < 0x80,
    ensures
        valid_utf8(v),
        decode_utf8(v) == ascii_chars_of(v),
    decreases v.len(),
{
    if v.len() > 0 {
        let b = v[0];
        assert(b & 0x7F == b) by (bit_vector)
            requires
                b < 0x80,
        ;
        assert(vstd::utf8::is_leading_byte_width_1(b));
        assert(vstd::utf8::decode_first_codepoint(v) == b as u32);
        assert(vstd::utf8::valid_first_scalar(v));
        assert(vstd::utf8::length_of_first_scalar(v) == 1);
        assert(vstd::utf8::pop_first_scalar(v) =~= v.drop_first());
        lemma_ascii_decode(v.drop_first());
        assert(valid_utf8(v));
        assert(vstd::utf8::decode_first_scalar(v) == b as u32);
        assert(decode_utf8(v) == seq![(b as u32) as char] + decode_utf8(v.drop_first()));
        assert((b as u32) as char == b as char);
        assert(decode_utf8(v) =~= ascii_chars_of(v));
    } else {
        assert(valid_utf8(v));
        assert(decode_utf8(v) =~= ascii_chars_of(v));
    }
}

/// ASCII characters encode to one byte each.
pub proof fn lemma_ascii_encode(v: Seq<u8>)
    requires
        forall|i: int| 0 <= i < v.len() ==> v[i] < 0x80,
    ensures
        encode_utf8(ascii_chars_of(v)) == v,
{
    lemma_ascii_decode(v);
    vstd::utf8::decode_utf8_encode_utf8(v);
}

/// Build a `String` from ASCII bytes.
pub fn ascii_to_string(v: &Vec<u8>) -> (r: String)
    requires
        forall|i: int| 0 <= i < v@.len() ==> v@[i] < 0x80,
    ensures
        r@ == ascii_chars_of(v@),
{
    proof {
        lemma_ascii_decode(v@);
    }
    let r = bytes_to_string(v.as_slice());
    match r {
        Some(s) => s,
        None => {
            // unreachable: the bytes are ASCII, hence valid UTF-8
            proof {
                assert(false);
            }
            String::new()
        },
    }
}

/// The bytes of an all-ASCII character sequence, one per character.
pub open spec fn ascii_bytes_of(s: Seq<char>) -> Seq<u8> {
    Seq::new(s.len(), |i: int| s[i] as u8)
}

/// The bytes of an ASCII string, which coincide with its UTF-8 encoding.
pub fn ascii_lit(s: &str) -> (r: Vec<u8>)
    requires
        vstd::string::is_ascii(s),
    ensures
        r@ == ascii_bytes_of(s@),
        r@ == encode_utf8(s@),
{
    proof {
        broadcast use vstd::string::is_ascii_spec_bytes;

        assert(s.spec_bytes() =~= ascii_bytes_of(s@));
    }
    s.as_bytes_vec()
}

/// The lowercase hex digit for a value below 16, as an ASCII byte.
pub open spec fn hex_digit(n: u8) -> u8
    recommends
        n < 16,
{
    if n < 10 {
        (0x30 + n) as u8
    } else {
        (0x57 + n) as u8
    }
}

/// Lowercase hex expansion of a byte sequence, two ASCII bytes per byte.
pub open spec fn hex_of(v: Seq<u8>) -> Seq<u8> {
    Seq::new(2 * v.len(), |i: int| if i % 2 == 0 {
        hex_digit(v[i / 2] / 16)
    } else {
        hex_digit(v[i / 2] % 16)
    })
}

/// Lowercase hex encoding, as a string of ASCII characters.
pub fn hex_encode(v: &[u8]) -> (r: String)
    ensures
        r@ == ascii_chars_of(hex_of(v@)),
        r@.len() == 2 * v@.len(),
{
    let n = v.len();
    let mut out: Vec<u8> = Vec::new();
    let mut i: usize = 0;
    while i < n
        invariant
            0 <= i <= n,
            n == v@.len(),
            out@.len() == 2 * i,
            forall|k: int| 0 <= k < out@.len() ==> out@[k] == hex_of(v@)[k],
        decreases n - i,
    {
        let b = v[i];
        let hi = b / 16;
        let lo = b % 16;
        let hb = if hi < 10 {
            0x30 + hi
        } else {
            0x57 + hi
        };
        let lb = if lo < 10 {
            0x30 + lo
        } else {
            0x57 + lo
        };
        out.push(hb);
        out.push(lb);
        i = i + 1;
    }
    proof {
        assert(out@ =~= hex_of(v@));
        assert forall|k: int| 0 <= k < out@.len() implies out@[k] < 0x80 by {
            assert(out@[k] == hex_of(v@)[k]);
        }
    }
    ascii_to_string(&out)
}

/// The UTF-16 code units of one character.
pub open spec fn utf16_units_of(c: char) -> Seq<u16> {
    let u = c as u32;
    if u < 0x10000 {
        seq![u as u16]
    } else {
        let v = (u - 0x10000) as u32;
        seq![(0xD800 + v / 0x400) as u16, (0xDC00 + v % 0x400) as u16]
    }
}

/// The UTF-16 code units of a character sequence.
pub open spec fn utf16_of(s: Seq<char>) -> Seq<u16>
    decreases s.len(),
{
    if s.len() == 0 {
        Seq::empty()
    } else {
        utf16_units_of(s[0]) + utf16_of(s.drop_first())
    }
}

proof fn lemma_utf16_push(s: Seq<char>, c: char)
    ensures
        utf16_of(s.push(c)) == utf16_of(s) + utf16_units_of(c),
    decreases s.len(),
{
    if s.len() == 0 {
        assert(s.push(c).drop_first() =~= Seq::<char>::empty());
        assert(s.push(c)[0] == c);
        assert(utf16_of(s.push(c)) == utf16_units_of(c) + utf16_of(Seq::<char>::empty()));
        assert(utf16_of(s.push(c)) =~= utf16_of(s) + utf16_units_of(c));
    } else {
        assert(s.push(c).drop_first() =~= s.drop_first().push(c));
        assert(s.push(c)[0] == s[0]);
        lemma_utf16_push(s.drop_first(), c);
        assert(utf16_of(s.push(c)) == utf16_units_of(s[0]) + (utf16_of(s.drop_first())
            + utf16_units_of(c)));
        assert(utf16_of(s.push(c)) =~= utf16_of(s) + utf16_units_of(c));
    }
}

/// Encode a string as UTF-16 code units, as `str::encode_utf16` does.
pub fn utf16_units(s: &str) -> (r: Vec<u16>)
    ensures
        r@ == utf16_of(s@),
{
    let n = s.unicode_len();
    let mut out: Vec<u16> = Vec::new();
    let mut i: usize = 0;
    while i < n
        invariant
            0 <= i <= n,
            n == s@.len(),
            out@ == utf16_of(s@.take(i as int)),
        decreases n - i,
    {
        let c = s.get_char(i);
        let u = c as u32;
        if u < 0x10000 {
            out.push(u as u16);
        } else {
            let v = u - 0x10000;
            out.push((0xD800 + v / 0x400) as u16);
            out.push((0xDC00 + v % 0x400) as u16);
        }
        proof {
            lemma_utf16_push(s@.take(i as int), s@[i as int]);
            assert(s@.take(i as int).push(s@[i as int]) =~= s@.take(i as int + 1));
        }
        i = i + 1;
    }
    proof {
        assert(s@.take(n as int) =~= s@);
    }
    out
}


/// Byte-wise lexicographic "less or equal", the order `str` comparison
/// gives UTF-8 encoded strings.
pub open spec fn bytes_le(a: Seq<u8>, b: Seq<u8>) -> bool
    decreases a.len(),
{
    if a.len() == 0 {
        true
    } else if b.len() == 0 {
        false
    } else if a[0] < b[0] {
        true
    } else if a[0] > b[0] {
        false
    } else {
        bytes_le(a.drop_first(), b.drop_first())
    }
}

/// The order on device ids: lexicographic on their UTF-8 bytes.
pub open spec fn id_le(a: Seq<char>, b: Seq<char>) -> bool {
    bytes_le(encode_utf8(a), encode_utf8(b))
}

proof fn lemma_bytes_le_refl(a: Seq<u8>)
    ensures
        bytes_le(a, a),
    decreases a.len(),
{
    if a.len() > 0 {
        lemma_bytes_le_refl(a.drop_first());
    }
}

proof fn lemma_bytes_le_antisym(a: Seq<u8>, b: Seq<u8>)
    requires
        bytes_le(a, b),
        bytes_le(b, a),
    ensures
        a == b,
    decreases a.len(),
{
    if a.len() > 0 && b.len() > 0 {
        lemma_bytes_le_antisym(a.drop_first(), b.drop_first());
        assert(a =~= seq![a[0]] + a.drop_first());
        assert(b =~= seq![b[0]] + b.drop_first());
    } else {
        assert(a =~= b);
    }
}

proof fn lemma_bytes_le_trans(a: Seq<u8>, b: Seq<u8>, c: Seq<u8>)
    requires
        bytes_le(a, b),
        bytes_le(b, c),
    ensures
        bytes_le(a, c),
    decreases a.len(),
{
    if a.len() > 0 {
        assert(b.len() > 0);
        assert(c.len() > 0);
        if a[0] == b[0] && b[0] == c[0] {
            lemma_bytes_le_trans(a.drop_first(), b.drop_first(), c.drop_first());
        }
    }
}

proof fn lemma_bytes_le_connected(a: Seq<u8>, b: Seq<u8>)
    ensures
        bytes_le(a, b) || bytes_le(b, a),
    decreases a.len(),
{
    if a.len() > 0 && b.len() > 0 {
        lemma_bytes_le_connected(a.drop_first(), b.drop_first());
    }
}

/// `id_le` is a total ordering, so a list of ids has exactly one sorted
/// arrangement.
pub proof fn lemma_id_le_total_ordering()
    ensures
        vstd::relations::total_ordering(|a: Seq<char>, b: Seq<char>| id_le(a, b)),
{
    let leq = |a: Seq<char>, b: Seq<char>| id_le(a, b);
    assert forall|a: Seq<char>| #[trigger] leq(a, a) by {
        lemma_bytes_le_refl(encode_utf8(a));
    }
    assert forall|a: Seq<char>, b: Seq<char>| #[trigger] leq(a, b) && #[trigger] leq(b, a)
        implies a == b by {
        lemma_bytes_le_antisym(encode_utf8(a), encode_utf8(b));
        lemma_utf8_injective(a, b);
    }
    assert forall|a: Seq<char>, b: Seq<char>, c: Seq<char>|
        #[trigger] leq(a, b) && #[trigger] leq(b, c) implies leq(a, c) by {
        lemma_bytes_le_trans(encode_utf8(a), encode_utf8(b), encode_utf8(c));
    }
    assert forall|a: Seq<char>, b: Seq<char>| #[trigger] leq(a, b) || #[trigger] leq(b, a) by {
        lemma_bytes_le_connected(encode_utf8(a), encode_utf8(b));
    }
}

/// Compare two strings in byte-wise lexicographic order.
pub fn str_bytes_le(a: &str, b: &str) -> (r: bool)
    ensures
        r == id_le(a@, b@),
{
    let ab = a.as_bytes();
    let bb = b.as_bytes();
    let an = ab.len();
    let bn = bb.len();
    proof {
        assert(ab@.skip(0) =~= ab@);
        assert(bb@.skip(0) =~= bb@);
    }
    let mut i: usize = 0;
    loop
        invariant
            0 <= i <= an,
            i <= bn,
            an == ab@.len(),
            bn == bb@.len(),
            ab@ == encode_utf8(a@),
            bb@ == encode_utf8(b@),
            bytes_le(ab@, bb@) == bytes_le(ab@.skip(i as int), bb@.skip(i as int)),
        decreases an - i,
    {
        if i >= an {
            proof {
                assert(ab@.skip(i as int).len() == 0);
            }
            return true;
        }
        if i >= bn {
            proof {
                assert(bb@.skip(i as int).len() == 0);
                assert(ab@.skip(i as int).len() > 0);
            }
            return false;
        }
        let x = ab[i];
        let y = bb[i];
        proof {
            assert(ab@.skip(i as int)[0] == ab@[i as int]);
            assert(bb@.skip(i as int)[0] == bb@[i as int]);
            assert(ab@.skip(i as int).drop_first() =~= ab@.skip(i as int + 1));
            assert(bb@.skip(i as int).drop_first() =~= bb@.skip(i as int + 1));
        }
        if x < y {
            return true;
        }
        if x > y {
            return false;
        }
        i = i + 1;
    }
}

/// Sort strings in byte-wise lexicographic order.  The result is the one
/// sorted arrangement of the input, `Seq::sort_by` under `id_le`.
pub fn sort_strings(ids: &[String]) -> (r: Vec<String>)
    ensures
        Seq::new(r@.len(), |i: int| r@[i]@) == Seq::new(ids@.len(), |i: int| ids@[i]@).sort_by(
            |a: Seq<char>, b: Seq<char>| id_le(a, b),
        ),
{
    let ghost vs = Seq::new(ids@.len(), |i: int| ids@[i]@);
    let mut src: Vec<String> = slice_to_vec_strings(ids);
    let mut out: Vec<String> = Vec::new();
    proof {
        broadcast use vstd::seq_lib::group_to_multiset_ensures;
        broadcast use vstd::multiset::group_multiset_axioms;

        assert(Seq::new(src@.len(), |i: int| src@[i]@) =~= vs);
        let outv0 = Seq::new(out@.len(), |i: int| out@[i]@);
        assert forall|x: Seq<char>| outv0.to_multiset().count(x) == 0 by {
            assert(!outv0.contains(x));
        }
        assert(outv0.to_multiset() =~= vstd::multiset::Multiset::<Seq<char>>::empty());
        assert(outv0.to_multiset().add(vs.to_multiset()) =~= vs.to_multiset());
    }
    while src.len() > 0
        invariant
            Seq::new(out@.len(), |i: int| out@[i]@).to_multiset().add(
                Seq::new(src@.len(), |i: int| src@[i]@).to_multiset(),
            ) == vs.to_multiset(),
            forall|i: int, j: int|
                0 <= i <= j < out@.len() ==> id_le(#[trigger] out@[i]@, #[trigger] out@[j]@),
            forall|i: int, j: int|
                0 <= i < out@.len() && 0 <= j < src@.len() ==> id_le(
                    #[trigger] out@[i]@,
                    #[trigger] src@[j]@,
                ),
        decreases src.len(),
    {
        let ghost outv = Seq::new(out@.len(), |i: int| out@[i]@);
        let ghost srcv = Seq::new(src@.len(), |i: int| src@[i]@);
        proof {
            lemma_bytes_le_refl(encode_utf8(src@[0]@));
        }
        let mut m: usize = 0;
        let mut j: usize = 1;
        while j < src.len()
            invariant
                0 <= m < j <= src@.len(),
                forall|i: int| 0 <= i < j ==> id_le(src@[m as int]@, #[trigger] src@[i]@),
            decreases src@.len() - j,
        {
            proof {
                lemma_bytes_le_connected(encode_utf8(src@[m as int]@), encode_utf8(src@[j as int]@));
                lemma_bytes_le_refl(encode_utf8(src@[j as int]@));
            }
            if !str_bytes_le(self_as_str(&src[m]), self_as_str(&src[j])) {
                let ghost mold = m as int;
                proof {
                    assert(id_le(src@[j as int]@, src@[mold]@));
                    assert forall|i: int| 0 <= i < j + 1 implies id_le(
                        src@[j as int]@,
                        #[trigger] src@[i]@,
                    ) by {
                        if i < j {
                            lemma_bytes_le_trans(
                                encode_utf8(src@[j as int]@),
                                encode_utf8(src@[mold]@),
                                encode_utf8(src@[i]@),
                            );
                        }
                    }
                }
                m = j;
            }
            j = j + 1;
        }
        let ghost mi = m as int;
        let x = src.remove(m);
        let ghost xv = x@;
        out.push(x);
        proof {
            broadcast use vstd::seq_lib::group_to_multiset_ensures;
            broadcast use vstd::multiset::group_multiset_axioms;

            let outv2 = Seq::new(out@.len(), |i: int| out@[i]@);
            let srcv2 = Seq::new(src@.len(), |i: int| src@[i]@);
            assert(xv == srcv[mi]);
            assert(srcv2 =~= srcv.remove(mi));
            assert(outv2 =~= outv.push(xv));
            assert(outv.push(xv).to_multiset() =~= outv.to_multiset().insert(xv));
            assert(outv2.to_multiset() =~= outv.to_multiset().insert(xv));
            assert(srcv2.to_multiset() =~= srcv.to_multiset().remove(srcv[mi]));
            assert(srcv.contains(xv)) by {
                assert(srcv[mi] == xv);
            }
            assert(srcv.to_multiset().count(xv) > 0);
            assert(outv2.to_multiset().add(srcv2.to_multiset()) =~= outv.to_multiset().add(
                srcv.to_multiset(),
            ));
            assert forall|i: int, j2: int| 0 <= i <= j2 < out@.len() implies id_le(
                #[trigger] out@[i]@,
                #[trigger] out@[j2]@,
            ) by {
                if j2 < outv.len() {
                    assert(out@[i]@ == outv[i] && out@[j2]@ == outv[j2]);
                } else {
                    assert(out@[j2]@ == xv);
                    if i < outv.len() {
                        assert(out@[i]@ == outv[i]);
                        assert(id_le(outv[i], srcv[mi]));
                    } else {
                        lemma_bytes_le_refl(encode_utf8(xv));
                    }
                }
            }
            assert forall|i: int, j2: int|
                0 <= i < out@.len() && 0 <= j2 < src@.len() implies id_le(
                #[trigger] out@[i]@,
                #[trigger] src@[j2]@,
            ) by {
                let y = if j2 < mi {
                    srcv[j2]
                } else {
                    srcv[j2 + 1]
                };
                assert(src@[j2]@ == srcv2[j2]);
                assert(srcv2[j2] == y);
                if i < outv.len() {
                    assert(out@[i]@ == outv[i]);
                    assert(id_le(outv[i], y));
                } else {
                    assert(out@[i]@ == xv);
                    assert(id_le(srcv[mi], y));
                }
            }
        }
    }
    proof {
        broadcast use vstd::seq_lib::group_to_multiset_ensures;
        broadcast use vstd::multiset::group_multiset_axioms;

        let leq = |a: Seq<char>, b: Seq<char>| id_le(a, b);
        let outv = Seq::new(out@.len(), |i: int| out@[i]@);
        let srcv = Seq::new(src@.len(), |i: int| src@[i]@);
        assert(srcv.len() == 0);
        assert forall|x: Seq<char>| srcv.to_multiset().count(x) == 0 by {
            assert(!srcv.contains(x));
        }
        assert(srcv.to_multiset() =~= vstd::multiset::Multiset::<Seq<char>>::empty());
        assert(outv.to_multiset() =~= vs.to_multiset());
        assert forall|i: int, j: int| 0 <= i <= j < outv.len() implies #[trigger] leq(
            outv[i],
            outv[j],
        ) by {
            assert(id_le(out@[i]@, out@[j]@));
        }
        assert(vstd::relations::sorted_by(outv, leq));
        lemma_id_le_total_ordering();
        vs.lemma_sort_by_ensures(leq);
        vstd::seq_lib::lemma_sorted_unique(outv, vs.sort_by(leq), leq);
    }
    out
}

/// Clone a slice of strings into a vector.
fn slice_to_vec_strings(ids: &[String]) -> (r: Vec<String>)
    ensures
        r@.len() == ids@.len(),
        forall|i: int| 0 <= i < ids@.len() ==> r@[i]@ == ids@[i]@,
{
    let n = ids.len();
    let mut out: Vec<String> = Vec::new();
    let mut i: usize = 0;
    while i < n
        invariant
            0 <= i <= n,
            n == ids@.len(),
            out@.len() == i,
            forall|k: int| 0 <= k < i ==> out@[k]@ == ids@[k]@,
        decreases n - i,
    {
        out.push(ids[i].clone());
        i = i + 1;
    }
    out
}

/// `String::as_str` under a spec-friendly name.
fn self_as_str(s: &String) -> (r: &str)
    ensures
        r@ == s@,
{
    s.as_str()
}


/// The length of a string's UTF-8 encoding, exactly (a slice's length
/// always fits `usize`).
pub fn byte_len(s: &str) -> (n: usize)
    ensures
        n == encode_utf8(s@).len(),
{
    s.as_bytes().len()
}


/// Valid UTF-8 is closed under concatenation, and decoding distributes
/// over it.
pub proof fn lemma_valid_utf8_append(a: Seq<u8>, b: Seq<u8>)
    requires
        valid_utf8(a),
        valid_utf8(b),
    ensures
        valid_utf8(a + b),
        decode_utf8(a + b) == decode_utf8(a) + decode_utf8(b),
    decreases a.len(),
{
    if a.len() == 0 {
        assert(a + b =~= b);
        assert(decode_utf8(a) =~= Seq::<char>::empty());
        assert(decode_utf8(a) + decode_utf8(b) =~= decode_utf8(b));
    } else {
        let s = a + b;
        assert(s[0] == a[0]);
        let w = vstd::utf8::length_of_first_scalar(a);
        assert(1 <= w <= a.len());
        assert forall|i: int| 0 <= i < w implies s[i] == a[i] by {}
        assert(vstd::utf8::valid_leading_and_continuation_bytes_first_codepoint(s));
        assert(vstd::utf8::decode_first_codepoint(s) == vstd::utf8::decode_first_codepoint(a));
        assert(vstd::utf8::length_of_first_codepoint(s) == vstd::utf8::length_of_first_codepoint(
            a,
        ));
        assert(vstd::utf8::valid_first_scalar(s));
        assert(vstd::utf8::pop_first_scalar(s) =~= vstd::utf8::pop_first_scalar(a) + b);
        lemma_valid_utf8_append(vstd::utf8::pop_first_scalar(a), b);
        assert(valid_utf8(s));
        assert(decode_utf8(s) =~= decode_utf8(a) + decode_utf8(b));
    }
}


/// The bytes of an ASCII character sequence are valid UTF-8.
pub proof fn lemma_ascii_seq_valid(s: Seq<char>)
    requires
        vstd::utf8::is_ascii_chars(s),
    ensures
        valid_utf8(ascii_bytes_of(s)),
        ascii_bytes_of(s).len() == s.len(),
{
    assert forall|i: int| 0 <= i < ascii_bytes_of(s).len() implies #[trigger] ascii_bytes_of(
        s,
    )[i] < 0x80 by {
        assert('\0' <= s[i] <= '\u{7f}');
    }
    lemma_ascii_decode(ascii_bytes_of(s));
}

} // verus!
