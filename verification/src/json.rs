//! JSON building blocks for the protocol's payloads: string escaping,
//! decimal numbers, and strict parsers for the canonical form this crate
//! emits.  Every parser is specified by a spec-level function; completeness
//! lemmas show that parsing undoes encoding.

use vstd::prelude::*;

use crate::strings::hex_digit;

verus! {

/// The canonical JSON escape of one byte of UTF-8 string content:
/// quote and backslash get a backslash, control bytes become `\u00XX`,
/// everything else stands for itself.
pub open spec fn esc_byte(b: u8) -> Seq<u8> {
    if b == 0x22 {
        seq![0x5Cu8, 0x22u8]
    } else if b == 0x5C {
        seq![0x5Cu8, 0x5Cu8]
    } else if b < 0x20 {
        seq![0x5Cu8, 0x75u8, 0x30u8, 0x30u8, hex_digit(b / 16), hex_digit(b % 16)]
    } else {
        seq![b]
    }
}

/// The canonical JSON escape of a byte sequence.
pub open spec fn esc(s: Seq<u8>) -> Seq<u8>
    decreases s.len(),
{
    if s.len() == 0 {
        Seq::empty()
    } else {
        esc_byte(s[0]) + esc(s.drop_first())
    }
}

pub proof fn lemma_esc_push(s: Seq<u8>, b: u8)
    ensures
        esc(s.push(b)) == esc(s) + esc_byte(b),
    decreases s.len(),
{
    if s.len() == 0 {
        assert(s.push(b).drop_first() =~= Seq::<u8>::empty());
        assert(s.push(b)[0] == b);
        assert(esc(s.push(b)) == esc_byte(b) + esc(Seq::<u8>::empty()));
        assert(esc(s.push(b)) =~= esc(s) + esc_byte(b));
    } else {
        assert(s.push(b).drop_first() =~= s.drop_first().push(b));
        assert(s.push(b)[0] == s[0]);
        lemma_esc_push(s.drop_first(), b);
        assert(esc(s.push(b)) == esc_byte(s[0]) + (esc(s.drop_first()) + esc_byte(b)));
        assert(esc(s.push(b)) =~= esc(s) + esc_byte(b));
    }
}

/// Append the canonical escape of `s` to `out`.
pub fn esc_append(out: &mut Vec<u8>, s: &[u8])
    ensures
        final(out)@ == old(out)@ + esc(s@),
{
    let n = s.len();
    let mut i: usize = 0;
    while i < n
        invariant
            0 <= i <= n,
            n == s@.len(),
            out@ == old(out)@ + esc(s@.take(i as int)),
        decreases n - i,
    {
        let b = s[i];
        if b == 0x22 {
            out.push(0x5C);
            out.push(0x22);
        } else if b == 0x5C {
            out.push(0x5C);
            out.push(0x5C);
        } else if b < 0x20 {
            out.push(0x5C);
            out.push(0x75);
            out.push(0x30);
            out.push(0x30);
            let hi = b / 16;
            let lo = b % 16;
            out.push(if hi < 10 { 0x30 + hi } else { 0x57 + hi });
            out.push(if lo < 10 { 0x30 + lo } else { 0x57 + lo });
        } else {
            out.push(b);
        }
        proof {
            lemma_esc_push(s@.take(i as int), s@[i as int]);
            assert(s@.take(i as int).push(s@[i as int]) =~= s@.take(i as int + 1));
            assert(out@ =~= old(out)@ + esc(s@.take(i as int + 1)));
        }
        i = i + 1;
    }
    proof {
        assert(s@.take(n as int) =~= s@);
    }
}

/// An ASCII decimal digit.
pub open spec fn is_digit(b: u8) -> bool {
    0x30 <= b <= 0x39
}

/// The shortest decimal expansion of `n`, most significant digit first.
pub open spec fn dec_u64(n: u64) -> Seq<u8>
    decreases n,
{
    if n < 10 {
        seq![(0x30 + n) as u8]
    } else {
        dec_u64(n / 10).push((0x30 + n % 10) as u8)
    }
}

pub proof fn lemma_dec_digits(n: u64)
    ensures
        dec_u64(n).len() >= 1,
        forall|i: int| 0 <= i < dec_u64(n).len() ==> is_digit(#[trigger] dec_u64(n)[i]),
        n > 0 ==> dec_u64(n)[0] != 0x30,
        n == 0 ==> dec_u64(n) == seq![0x30u8],
    decreases n,
{
    if n >= 10 {
        lemma_dec_digits(n / 10);
    }
}

/// Append the decimal expansion of `n` to `out`.
pub fn dec_append(out: &mut Vec<u8>, n: u64)
    ensures
        final(out)@ == old(out)@ + dec_u64(n),
    decreases n,
{
    if n < 10 {
        out.push(0x30 + (n as u8));
        proof {
            assert(out@ =~= old(out)@ + dec_u64(n));
        }
    } else {
        dec_append(out, n / 10);
        out.push(0x30 + ((n % 10) as u8));
        proof {
            assert(out@ =~= old(out)@ + dec_u64(n));
        }
    }
}

/// Value of a hex digit in the canonical lowercase alphabet, or 16 when the
/// byte is no such digit.
pub open spec fn hexval(b: u8) -> u8 {
    if 0x30 <= b <= 0x39 {
        (b - 0x30) as u8
    } else if 0x61 <= b <= 0x66 {
        (b - 0x57) as u8
    } else {
        16u8
    }
}

/// The byte a short JSON escape `\x` stands for, if `x` is one of the
/// eight short escape letters.
pub open spec fn short_esc(b: u8) -> Option<u8> {
    if b == 0x22 {
        Some(0x22u8)
    } else if b == 0x5C {
        Some(0x5Cu8)
    } else if b == 0x2F {
        Some(0x2Fu8)
    } else if b == 0x62 {
        Some(0x08u8)
    } else if b == 0x66 {
        Some(0x0Cu8)
    } else if b == 0x6E {
        Some(0x0Au8)
    } else if b == 0x72 {
        Some(0x0Du8)
    } else if b == 0x74 {
        Some(0x09u8)
    } else {
        None
    }
}

/// Spec parser for JSON string content after the opening quote: the form
/// `esc` emits, plus the short escapes other encoders prefer for control
/// characters.  Returns the raw bytes and how many input bytes were
/// consumed, including the closing quote.
pub open spec fn p_str(s: Seq<u8>) -> Option<(Seq<u8>, int)>
    decreases s.len(),
{
    if s.len() == 0 {
        None
    } else if s[0] == 0x22 {
        Some((Seq::empty(), 1))
    } else if s[0] == 0x5C {
        if s.len() >= 2 && short_esc(s[1]) is Some {
            match p_str(s.skip(2)) {
                Some((v, k)) => Some((seq![short_esc(s[1]).unwrap()] + v, 2 + k)),
                None => None,
            }
        } else if s.len() >= 6 && s[1] == 0x75 && s[2] == 0x30 && s[3] == 0x30 && hexval(s[4]) < 16
            && hexval(s[5]) < 16 && hexval(s[4]) * 16 + hexval(s[5]) < 0x20 {
            match p_str(s.skip(6)) {
                Some((v, k)) => Some((seq![(hexval(s[4]) * 16 + hexval(s[5])) as u8] + v, 6 + k)),
                None => None,
            }
        } else {
            None
        }
    } else if s[0] >= 0x20 {
        match p_str(s.skip(1)) {
            Some((v, k)) => Some((seq![s[0]] + v, 1 + k)),
            None => None,
        }
    } else {
        None
    }
}

proof fn lemma_hexval_digit(x: u8)
    requires
        x < 16,
    ensures
        hexval(hex_digit(x)) == x,
{
}

/// Parsing undoes escaping: the canonical escape of `v` followed by a
/// closing quote parses back to `v`.
pub proof fn lemma_p_str_esc(v: Seq<u8>, rest: Seq<u8>)
    ensures
        p_str(esc(v) + seq![0x22u8] + rest) == Some::<(Seq<u8>, int)>(
            (v, esc(v).len() + 1 as int),
        ),
    decreases v.len(),
{
    let s = esc(v) + seq![0x22u8] + rest;
    if v.len() == 0 {
        assert(s[0] == 0x22);
    } else {
        let b = v[0];
        let tail = esc(v.drop_first()) + seq![0x22u8] + rest;
        lemma_p_str_esc(v.drop_first(), rest);
        if b == 0x22 || b == 0x5C {
            assert(s.skip(2) =~= tail);
            assert(short_esc(s[1]) == Some(b));
            assert(seq![short_esc(s[1]).unwrap()] + v.drop_first() =~= v);
        } else if b < 0x20 {
            lemma_hexval_digit(b / 16);
            lemma_hexval_digit(b % 16);
            assert(s.skip(6) =~= tail);
            assert(s[4] == hex_digit(b / 16) && s[5] == hex_digit(b % 16));
            assert(hexval(s[4]) * 16 + hexval(s[5]) == b);
            assert(seq![(hexval(s[4]) * 16 + hexval(s[5])) as u8] + v.drop_first() =~= v);
        } else {
            assert(s.skip(1) =~= tail);
            assert(seq![s[0]] + v.drop_first() =~= v);
        }
    }
}

/// Parse JSON string content from `input` starting at `pos` (just after the
/// opening quote).  Refines `p_str` on the remaining input.
pub fn parse_str(input: &[u8], pos: usize) -> (r: Option<(Vec<u8>, usize)>)
    requires
        pos <= input@.len(),
    ensures
        match r {
            Some((v, np)) => {
                &&& p_str(input@.skip(pos as int)) == Some((v@, (np - pos) as int))
                &&& pos <= np <= input@.len()
            },
            None => p_str(input@.skip(pos as int)) is None,
        },
{
    let ghost s0 = input@.skip(pos as int);
    let n = input.len();
    let mut i: usize = pos;
    let mut acc: Vec<u8> = Vec::new();
    loop
        invariant
            pos <= i <= n,
            n == input@.len(),
            s0 == input@.skip(pos as int),
            (p_str(s0) is Some <==> p_str(input@.skip(i as int)) is Some),
            p_str(input@.skip(i as int)) is Some ==> {
                let r0 = p_str(s0).unwrap();
                let ri = p_str(input@.skip(i as int)).unwrap();
                r0.0 == acc@ + ri.0 && r0.1 == (i - pos) + ri.1
            },
        decreases n - i,
    {
        let ghost si = input@.skip(i as int);
        if i >= n {
            proof {
                assert(si.len() == 0);
            }
            return None;
        }
        let b = input[i];
        proof {
            assert(si[0] == b);
        }
        if b == 0x22 {
            proof {
                assert(p_str(si) == Some((Seq::<u8>::empty(), 1int)));
                assert(acc@ + Seq::<u8>::empty() =~= acc@);
            }
            return Some((acc, i + 1));
        } else if b == 0x5C {
            let e = if i + 1 < n {
                input[i + 1]
            } else {
                0
            };
            let sv: u8 = if e == 0x22 || e == 0x5C || e == 0x2F {
                e
            } else if e == 0x62 {
                0x08
            } else if e == 0x66 {
                0x0C
            } else if e == 0x6E {
                0x0A
            } else if e == 0x72 {
                0x0D
            } else if e == 0x74 {
                0x09
            } else {
                0xFF
            };
            if i + 1 < n && sv != 0xFF {
                proof {
                    assert(si.len() >= 2 && si[1] == input@[i as int + 1]);
                    assert(short_esc(si[1]) == Some(sv));
                    assert(si.skip(2) =~= input@.skip(i as int + 2));
                }
                acc.push(sv);
                i = i + 2;
            } else if n - i > 5 && input[i + 1] == 0x75 && input[i + 2] == 0x30 && input[i + 3]
                == 0x30 {
                let h4 = input[i + 4];
                let h5 = input[i + 5];
                let v4 = if 0x30 <= h4 && h4 <= 0x39 {
                    h4 - 0x30
                } else if 0x61 <= h4 && h4 <= 0x66 {
                    h4 - 0x57
                } else {
                    16
                };
                let v5 = if 0x30 <= h5 && h5 <= 0x39 {
                    h5 - 0x30
                } else if 0x61 <= h5 && h5 <= 0x66 {
                    h5 - 0x57
                } else {
                    16
                };
                proof {
                    assert(si.len() >= 6);
                    assert(si[1] == 0x75 && si[2] == 0x30 && si[3] == 0x30);
                    assert(si[4] == h4 && si[5] == h5);
                    assert(v4 == hexval(h4) && v5 == hexval(h5));
                }
                if v4 < 16 && v5 < 16 && v4 * 16 + v5 < 0x20 {
                    proof {
                        assert(si.skip(6) =~= input@.skip(i as int + 6));
                    }
                    acc.push(v4 * 16 + v5);
                    i = i + 6;
                } else {
                    proof {
                        assert(p_str(si) is None);
                    }
                    return None;
                }
            } else {
                proof {
                    if si.len() >= 2 && short_esc(si[1]) is Some {
                        assert(i + 1 < n);
                        assert(false);
                    }
                    if si.len() >= 6 && si[1] == 0x75 && si[2] == 0x30 && si[3] == 0x30 && hexval(
                        si[4],
                    ) < 16 && hexval(si[5]) < 16 && hexval(si[4]) * 16 + hexval(si[5]) < 0x20 {
                        assert(n - i > 5);
                        assert(false);
                    }
                    assert(p_str(si) is None);
                }
                return None;
            }
        } else if b >= 0x20 {
            proof {
                assert(si.skip(1) =~= input@.skip(i as int + 1));
            }
            acc.push(b);
            i = i + 1;
        } else {
            proof {
                assert(p_str(si) is None);
            }
            return None;
        }
    }
}

/// Spec parser for the shortest-form decimal expansion of a `u64`:
/// the digit-run accumulator.
pub open spec fn p_u64_loop(s: Seq<u8>, acc: u64) -> Option<(u64, int)>
    decreases s.len(),
{
    if s.len() > 0 && is_digit(s[0]) {
        let d = (s[0] - 0x30) as u64;
        if acc > (0xFFFF_FFFF_FFFF_FFFF - d) / 10 {
            None
        } else {
            match p_u64_loop(s.drop_first(), (acc * 10 + d) as u64) {
                Some((v, k)) => Some((v, 1 + k)),
                None => None,
            }
        }
    } else {
        Some((acc, 0))
    }
}

/// Spec parser for a canonical decimal `u64`: at least one digit, no
/// leading zero, value within range.
pub open spec fn p_u64(s: Seq<u8>) -> Option<(u64, int)> {
    if s.len() == 0 || !is_digit(s[0]) {
        None
    } else if s[0] == 0x30 {
        if s.len() > 1 && is_digit(s[1]) {
            None
        } else {
            Some((0, 1))
        }
    } else {
        p_u64_loop(s, 0)
    }
}

/// Ten to the `k`.
pub open spec fn pow10(k: nat) -> nat
    decreases k,
{
    if k == 0 {
        1
    } else {
        10 * pow10((k - 1) as nat)
    }
}

proof fn lemma_p_u64_loop_dec(acc: u64, n: u64, rest: Seq<u8>)
    requires
        acc * pow10(dec_u64(n).len()) + n <= 0xFFFF_FFFF_FFFF_FFFF,
    ensures
        p_u64_loop(dec_u64(n) + rest, acc) == (match p_u64_loop(
            rest,
            (acc * pow10(dec_u64(n).len()) + n) as u64,
        ) {
            Some((v, k)) => Some((v, dec_u64(n).len() + k)),
            None => None::<(u64, int)>,
        }),
    decreases n,
{
    lemma_dec_digits(n);
    let s = dec_u64(n) + rest;
    if n < 10 {
        assert(pow10(0) == 1);
        assert(pow10(1) == 10);
        assert(s[0] == 0x30 + n);
        assert(is_digit(s[0]));
        let d = (s[0] - 0x30) as u64;
        assert(d == n);
        assert(acc * 10 + n <= 0xFFFF_FFFF_FFFF_FFFF);
        assert(acc <= (0xFFFF_FFFF_FFFF_FFFF - d) / 10);
        assert(s.drop_first() =~= rest);
    } else {
        let hi = n / 10;
        let lo = n % 10;
        let lh = dec_u64(hi).len();
        assert(dec_u64(n) == dec_u64(hi).push((0x30 + lo) as u8));
        assert(dec_u64(n).len() == lh + 1);
        assert(pow10(lh + 1) == 10 * pow10(lh));
        let rest2 = seq![(0x30 + lo) as u8] + rest;
        assert(s =~= dec_u64(hi) + rest2);
        assert(n == hi * 10 + lo);
        assert(acc * (10 * pow10(lh)) + (hi * 10 + lo) <= 0xFFFF_FFFF_FFFF_FFFF);
        assert(acc * (10 * pow10(lh)) == (acc * pow10(lh)) * 10) by (nonlinear_arith);
        let m = acc * pow10(lh) + hi;
        assert(m * 10 == (acc * pow10(lh)) * 10 + hi * 10) by (nonlinear_arith)
            requires
                m == acc * pow10(lh) + hi,
        ;
        assert(m * 10 + lo <= 0xFFFF_FFFF_FFFF_FFFF);
        assert(m <= 0xFFFF_FFFF_FFFF_FFFF);
        lemma_p_u64_loop_dec(acc, hi, rest2);
        assert(p_u64_loop(s, acc) == (match p_u64_loop(rest2, m as u64) {
            Some((v, k)) => Some((v, lh + k)),
            None => None::<(u64, int)>,
        }));
        assert(rest2[0] == 0x30 + lo);
        assert(is_digit(rest2[0]));
        let d2 = (rest2[0] - 0x30) as u64;
        assert(d2 == lo);
        assert((m as u64) <= (0xFFFF_FFFF_FFFF_FFFF - d2) / 10);
        assert(rest2.drop_first() =~= rest);
        assert((m as u64) * 10 + d2 == acc * pow10(dec_u64(n).len()) + n) by {
            assert(m * 10 + lo == acc * (10 * pow10(lh)) + n) by (nonlinear_arith)
                requires
                    m == acc * pow10(lh) + hi,
                    n == hi * 10 + lo,
            ;
        }
    }
}

/// Parsing undoes decimal encoding, when what follows is not a digit.
pub proof fn lemma_p_u64_dec(n: u64, rest: Seq<u8>)
    requires
        rest.len() == 0 || !is_digit(rest[0]),
    ensures
        p_u64(dec_u64(n) + rest) == Some((n, dec_u64(n).len() as int)),
{
    lemma_dec_digits(n);
    let s = dec_u64(n) + rest;
    assert(s[0] == dec_u64(n)[0]);
    if n == 0 {
        assert(s[0] == 0x30);
        if s.len() > 1 {
            assert(s[1] == rest[0]);
        }
    } else {
        assert(s[0] != 0x30);
        assert(0 * pow10(dec_u64(n).len()) + n <= 0xFFFF_FFFF_FFFF_FFFF) by (nonlinear_arith)
            requires
                n <= 0xFFFF_FFFF_FFFF_FFFF,
        ;
        lemma_p_u64_loop_dec(0, n, rest);
        assert(0 * pow10(dec_u64(n).len()) + n == n) by (nonlinear_arith);
        assert(p_u64_loop(rest, n) == Some((n, 0int)));
    }
}

/// Parse a canonical decimal `u64` from `input` at `pos`.
/// Refines `p_u64` on the remaining input.
pub fn parse_u64(input: &[u8], pos: usize) -> (r: Option<(u64, usize)>)
    requires
        pos <= input@.len(),
    ensures
        match r {
            Some((v, np)) => {
                &&& p_u64(input@.skip(pos as int)) == Some((v, (np - pos) as int))
                &&& pos <= np <= input@.len()
            },
            None => p_u64(input@.skip(pos as int)) is None,
        },
{
    let ghost s0 = input@.skip(pos as int);
    let n = input.len();
    if pos >= n || input[pos] < 0x30 || input[pos] > 0x39 {
        proof {
            if s0.len() > 0 {
                assert(s0[0] == input@[pos as int]);
            }
        }
        return None;
    }
    proof {
        assert(s0[0] == input@[pos as int]);
    }
    if input[pos] == 0x30 {
        if pos + 1 < n && input[pos + 1] >= 0x30 && input[pos + 1] <= 0x39 {
            proof {
                assert(s0[1] == input@[pos as int + 1]);
            }
            return None;
        }
        proof {
            if s0.len() > 1 {
                assert(s0[1] == input@[pos as int + 1]);
            }
        }
        return Some((0, pos + 1));
    }
    let mut i: usize = pos;
    let mut acc: u64 = 0;
    loop
        invariant
            pos <= i <= n,
            n == input@.len(),
            s0 == input@.skip(pos as int),
            s0.len() > 0 && is_digit(s0[0]) && s0[0] != 0x30,
            (p_u64_loop(s0, 0) is Some <==> p_u64_loop(input@.skip(i as int), acc) is Some),
            p_u64_loop(input@.skip(i as int), acc) is Some ==> {
                let r0 = p_u64_loop(s0, 0).unwrap();
                let ri = p_u64_loop(input@.skip(i as int), acc).unwrap();
                r0.0 == ri.0 && r0.1 == (i - pos) + ri.1
            },
        decreases n - i,
    {
        let ghost si = input@.skip(i as int);
        if i >= n || input[i] < 0x30 || input[i] > 0x39 {
            proof {
                if si.len() > 0 {
                    assert(si[0] == input@[i as int]);
                }
                assert(p_u64_loop(si, acc) == Some((acc, 0int)));
            }
            return Some((acc, i));
        }
        let d = input[i] - 0x30;
        proof {
            assert(si[0] == input@[i as int]);
            assert(is_digit(si[0]));
        }
        if acc > (0xFFFF_FFFF_FFFF_FFFFu64 - (d as u64)) / 10 {
            proof {
                assert(p_u64_loop(si, acc) is None);
            }
            return None;
        }
        proof {
            assert(si.drop_first() =~= input@.skip(i as int + 1));
        }
        acc = acc * 10 + (d as u64);
        i = i + 1;
    }
}

/// Spec parser for an exact literal prefix.
pub open spec fn p_lit(s: Seq<u8>, lit: Seq<u8>) -> Option<int> {
    if lit.len() <= s.len() && s.take(lit.len() as int) == lit {
        Some(lit.len() as int)
    } else {
        None
    }
}

/// Match an exact literal at `pos`.  Refines `p_lit`.
pub fn parse_lit(input: &[u8], pos: usize, lit: &[u8]) -> (r: Option<usize>)
    requires
        pos <= input@.len(),
    ensures
        match r {
            Some(np) => {
                &&& p_lit(input@.skip(pos as int), lit@) == Some((np - pos) as int)
                &&& pos <= np <= input@.len()
            },
            None => p_lit(input@.skip(pos as int), lit@) is None,
        },
{
    let ghost s = input@.skip(pos as int);
    let m = lit.len();
    let n = input.len();
    if m > n - pos {
        return None;
    }
    let mut i: usize = 0;
    while i < m
        invariant
            0 <= i <= m,
            m == lit@.len(),
            n == input@.len(),
            pos + m <= n,
            s == input@.skip(pos as int),
            forall|k: int| 0 <= k < i ==> s[k] == lit@[k],
        decreases m - i,
    {
        if input[pos + i] != lit[i] {
            proof {
                assert(s[i as int] == input@[pos as int + i]);
                assert(s.take(m as int)[i as int] != lit@[i as int]);
            }
            return None;
        }
        proof {
            assert(s[i as int] == input@[pos as int + i]);
        }
        i = i + 1;
    }
    proof {
        assert(s.take(m as int) =~= lit@);
    }
    Some(pos + m)
}


pub proof fn lemma_esc_append(x: Seq<u8>, y: Seq<u8>)
    ensures
        esc(x + y) == esc(x) + esc(y),
    decreases x.len(),
{
    if x.len() == 0 {
        assert(x + y =~= y);
        assert(esc(x) =~= Seq::<u8>::empty());
        assert(esc(x + y) =~= esc(x) + esc(y));
    } else {
        assert((x + y).drop_first() =~= x.drop_first() + y);
        assert((x + y)[0] == x[0]);
        lemma_esc_append(x.drop_first(), y);
        assert(esc(x + y) == esc_byte(x[0]) + (esc(x.drop_first()) + esc(y)));
        assert(esc(x + y) =~= esc(x) + esc(y));
    }
}

/// Bytes that need no escape pass through `esc` unchanged.
pub proof fn lemma_esc_identity(x: Seq<u8>)
    requires
        forall|i: int| 0 <= i < x.len() ==> 0x20 <= #[trigger] x[i] && x[i] != 0x22 && x[i] != 0x5C,
    ensures
        esc(x) == x,
    decreases x.len(),
{
    if x.len() > 0 {
        lemma_esc_identity(x.drop_first());
        assert(esc_byte(x[0]) =~= seq![x[0]]);
        assert(esc(x) =~= x);
    }
}

/// The escape of an ASCII byte sequence is ASCII.
pub proof fn lemma_esc_ascii(x: Seq<u8>)
    requires
        forall|i: int| 0 <= i < x.len() ==> #[trigger] x[i] < 0x80,
    ensures
        forall|i: int| 0 <= i < esc(x).len() ==> #[trigger] esc(x)[i] < 0x80,
    decreases x.len(),
{
    if x.len() > 0 {
        lemma_esc_ascii(x.drop_first());
        assert forall|i: int| 0 <= i < esc(x).len() implies #[trigger] esc(x)[i] < 0x80 by {
            assert(esc(x) == esc_byte(x[0]) + esc(x.drop_first()));
            if i < esc_byte(x[0]).len() {
                assert(esc(x)[i] == esc_byte(x[0])[i]);
            } else {
                assert(esc(x)[i] == esc(x.drop_first())[i - esc_byte(x[0]).len()]);
            }
        }
    }
}

/// The canonical escape of valid UTF-8 is valid UTF-8: multi-byte
/// scalars pass through untouched, and escapes are ASCII.
pub proof fn lemma_esc_valid(s: Seq<u8>)
    requires
        vstd::utf8::valid_utf8(s),
    ensures
        vstd::utf8::valid_utf8(esc(s)),
    decreases s.len(),
{
    if s.len() > 0 {
        let w = vstd::utf8::length_of_first_scalar(s);
        let head = vstd::utf8::take_first_scalar(s);
        let tail = vstd::utf8::pop_first_scalar(s);
        assert(1 <= w <= s.len());
        assert(s =~= head + tail);
        lemma_esc_append(head, tail);
        assert(esc(s) == esc(head) + esc(tail));
        if w == 1 {
            let b = s[0];
            assert(head =~= seq![b]);
            assert(b < 0x80) by {
                assert(vstd::utf8::is_leading_byte_width_1(b));
            }
            assert(esc(head) == esc_byte(b) + esc(Seq::<u8>::empty()));
            assert(esc(head) =~= esc_byte(b));
            assert forall|i: int| 0 <= i < esc(head).len() implies #[trigger] esc(head)[i]
                < 0x80 by {}
            crate::strings::lemma_ascii_decode(esc(head));
        } else {
            assert forall|i: int|
                0 <= i < head.len() implies 0x20 <= #[trigger] head[i] && head[i] != 0x22
                && head[i] != 0x5C by {
                if i == 0 {
                    assert(!vstd::utf8::is_leading_byte_width_1(s[0]));
                    assert(head[0] == s[0]);
                    assert(s[0] >= 0xC0);
                } else {
                    assert(vstd::utf8::is_continuation_byte(s[i]));
                    assert(head[i] == s[i]);
                }
            }
            lemma_esc_identity(head);
            assert(vstd::utf8::valid_first_scalar(head));
            assert(vstd::utf8::length_of_first_scalar(head) == w);
            assert(vstd::utf8::pop_first_scalar(head) =~= Seq::<u8>::empty());
            assert(vstd::utf8::valid_utf8(vstd::utf8::pop_first_scalar(head)));
            assert(vstd::utf8::valid_utf8(head));
        }
        lemma_esc_valid(tail);
        crate::strings::lemma_valid_utf8_append(esc(head), esc(tail));
    } else {
        assert(esc(s) =~= Seq::<u8>::empty());
    }
}

} // verus!
