//! The canonical document codec: the textual pivot format between the
//! interpreter's value space and the binary codec.  Documents use the usual
//! null/bool/number/string/array/object grammar, written compactly (no
//! insignificant whitespace), over UTF-8 bytes.

use vstd::prelude::*;
use crate::value::{Value, SpecValue, model, models, model_pairs, wf, lemma_models,
    lemma_model_pairs};

verus! {

/// Is `b` an ASCII decimal digit?
pub open spec fn is_digit(b: u8) -> bool {
    0x30 <= b <= 0x39
}

/// The decimal digits of a non-negative number, most significant first.
pub open spec fn digits(n: int) -> Seq<u8>
    decreases n,
{
    if n < 10 {
        seq![(0x30 + if n >= 0 { n } else { 0 }) as u8]
    } else {
        digits(n / 10) + seq![(0x30 + n % 10) as u8]
    }
}

/// The number a run of decimal digits stands for.
pub open spec fn digits_val(s: Seq<u8>) -> int
    decreases s.len(),
{
    if s.len() == 0 {
        0
    } else {
        digits_val(s.drop_last()) * 10 + (s.last() - 0x30)
    }
}

/// How many decimal digits start `s`.
pub open spec fn num_run(s: Seq<u8>) -> int
    decreases s.len(),
{
    if s.len() > 0 && is_digit(s[0]) {
        1 + num_run(s.drop_first())
    } else {
        0
    }
}

/// The lowercase hex digit for a value below 16.
pub open spec fn hex_digit(d: int) -> u8 {
    if d < 10 {
        (0x30 + d) as u8
    } else {
        (0x57 + d) as u8
    }
}

/// The escape of one text byte inside a quoted string: quote and backslash
/// are escaped, common control characters use their short escapes, other
/// control characters the `\u00XX` form, and everything else stands as is.
pub open spec fn esc_byte(b: u8) -> Seq<u8> {
    if b == 0x22 {
        seq![0x5cu8, 0x22u8]
    } else if b == 0x5c {
        seq![0x5cu8, 0x5cu8]
    } else if b == 0x0a {
        seq![0x5cu8, 0x6eu8]
    } else if b == 0x0d {
        seq![0x5cu8, 0x72u8]
    } else if b == 0x09 {
        seq![0x5cu8, 0x74u8]
    } else if b < 0x20 {
        seq![0x5cu8, 0x75u8, 0x30u8, 0x30u8, hex_digit(b as int / 16), hex_digit(b as int % 16)]
    } else {
        seq![b]
    }
}

/// The escaped form of a whole text.
pub open spec fn esc(t: Seq<u8>) -> Seq<u8>
    decreases t.len(),
{
    if t.len() == 0 {
        Seq::empty()
    } else {
        esc_byte(t[0]) + esc(t.drop_first())
    }
}

/// The document bytes of a structured value.
pub open spec fn jfmt(v: SpecValue) -> Seq<u8>
    decreases v, 0nat, 0nat,
{
    match v {
        SpecValue::Null => seq![0x6eu8, 0x75u8, 0x6cu8, 0x6cu8],
        SpecValue::Bool(b) => if b {
            seq![0x74u8, 0x72u8, 0x75u8, 0x65u8]
        } else {
            seq![0x66u8, 0x61u8, 0x6cu8, 0x73u8, 0x65u8]
        },
        SpecValue::UInt(n) => digits(n as int),
        SpecValue::Int(i) => seq![0x2du8] + digits(-(i as int)),
        SpecValue::Text(t) => seq![0x22u8] + esc(t) + seq![0x22u8],
        SpecValue::Arr(xs) => seq![0x5bu8] + jfmt_list(xs) + seq![0x5du8],
        SpecValue::Obj(ps) => seq![0x7bu8] + jfmt_obj(ps) + seq![0x7du8],
    }
}

/// The comma-separated document bytes of a sequence of values.
pub open spec fn jfmt_list(s: Seq<SpecValue>) -> Seq<u8>
    decreases s, 1nat, s.len(),
{
    if s.len() == 0 {
        Seq::empty()
    } else if s.len() == 1 {
        jfmt(s[0])
    } else {
        jfmt(s[0]) + seq![0x2cu8] + jfmt_list(s.drop_first())
    }
}

/// The comma-separated document bytes of a sequence of key/value pairs.
pub open spec fn jfmt_obj(s: Seq<(Seq<u8>, SpecValue)>) -> Seq<u8>
    decreases s, 1nat, s.len(),
{
    if s.len() == 0 {
        Seq::empty()
    } else if s.len() == 1 {
        jfmt_pair(s[0])
    } else {
        jfmt_pair(s[0]) + seq![0x2cu8] + jfmt_obj(s.drop_first())
    }
}

/// One `"key":value` member.
pub open spec fn jfmt_pair(p: (Seq<u8>, SpecValue)) -> Seq<u8>
    decreases p, 0nat, 0nat,
{
    seq![0x22u8] + esc(p.0) + seq![0x22u8, 0x3au8] + jfmt(p.1)
}

/// Does `b` continue a number (digit, decimal point, or exponent mark)?
pub open spec fn num_cont(b: u8) -> bool {
    is_digit(b) || b == 0x2e || b == 0x65 || b == 0x45
}

/// Is `b` an ASCII hex digit?
pub open spec fn is_hex(b: u8) -> bool {
    is_digit(b) || 0x61 <= b <= 0x66 || 0x41 <= b <= 0x46
}

/// The value of a hex digit.
pub open spec fn hex_val(b: u8) -> int {
    if is_digit(b) {
        b - 0x30
    } else if 0x61 <= b <= 0x66 {
        b - 0x57
    } else {
        b - 0x37
    }
}

/// The value of four hex digits starting at `off`.
pub open spec fn hex4(s: Seq<u8>, off: int) -> int {
    hex_val(s[off]) * 4096 + hex_val(s[off + 1]) * 256 + hex_val(s[off + 2]) * 16 + hex_val(
        s[off + 3],
    )
}

/// The UTF-8 bytes of a code point.
pub open spec fn utf8_of_cp(cp: int) -> Seq<u8> {
    if cp < 0x80 {
        seq![cp as u8]
    } else if cp < 0x800 {
        seq![(0xc0 + cp / 64) as u8, (0x80 + cp % 64) as u8]
    } else if cp < 0x10000 {
        seq![(0xe0 + cp / 4096) as u8, (0x80 + (cp / 64) % 64) as u8, (0x80 + cp % 64) as u8]
    } else {
        seq![
            (0xf0 + cp / 262144) as u8,
            (0x80 + (cp / 4096) % 64) as u8,
            (0x80 + (cp / 64) % 64) as u8,
            (0x80 + cp % 64) as u8,
        ]
    }
}

/// Glues decoded string bytes onto the rest of a string-body parse.
pub open spec fn strbody_cont(bytes: Seq<u8>, k: int, r: Option<(Seq<u8>, int)>) -> Option<
    (Seq<u8>, int),
> {
    match r {
        Some((t, k2)) => Some((bytes + t, k + k2)),
        None => None,
    }
}

/// Parses a quoted string's body (after the opening quote) up to and
/// including the closing quote: the unescaped bytes and the bytes consumed.
pub open spec fn jparse_strbody(s: Seq<u8>) -> Option<(Seq<u8>, int)>
    decreases s.len(), 1nat,
{
    if s.len() == 0 {
        None
    } else if s[0] == 0x22 {
        Some((Seq::empty(), 1))
    } else if s[0] == 0x5c {
        if s.len() >= 2 {
            let e = s[1];
            if e == 0x22 || e == 0x5c || e == 0x2f {
                strbody_cont(seq![e], 2, jparse_strbody(s.subrange(2, s.len() as int)))
            } else if e == 0x6e {
                strbody_cont(seq![0x0au8], 2, jparse_strbody(s.subrange(2, s.len() as int)))
            } else if e == 0x72 {
                strbody_cont(seq![0x0du8], 2, jparse_strbody(s.subrange(2, s.len() as int)))
            } else if e == 0x74 {
                strbody_cont(seq![0x09u8], 2, jparse_strbody(s.subrange(2, s.len() as int)))
            } else if e == 0x62 {
                strbody_cont(seq![0x08u8], 2, jparse_strbody(s.subrange(2, s.len() as int)))
            } else if e == 0x66 {
                strbody_cont(seq![0x0cu8], 2, jparse_strbody(s.subrange(2, s.len() as int)))
            } else if e == 0x75 {
                if s.len() >= 6 && is_hex(s[2]) && is_hex(s[3]) && is_hex(s[4]) && is_hex(s[5]) {
                    let c = hex4(s, 2);
                    if 0xd800 <= c < 0xdc00 {
                        if s.len() >= 12 && s[6] == 0x5c && s[7] == 0x75 && is_hex(s[8]) && is_hex(
                            s[9],
                        ) && is_hex(s[10]) && is_hex(s[11]) {
                            let c2 = hex4(s, 8);
                            if 0xdc00 <= c2 < 0xe000 {
                                let cp = 0x10000 + (c - 0xd800) * 0x400 + (c2 - 0xdc00);
                                strbody_cont(
                                    utf8_of_cp(cp),
                                    12,
                                    jparse_strbody(s.subrange(12, s.len() as int)),
                                )
                            } else {
                                None
                            }
                        } else {
                            None
                        }
                    } else if 0xdc00 <= c < 0xe000 {
                        None
                    } else {
                        strbody_cont(
                            utf8_of_cp(c),
                            6,
                            jparse_strbody(s.subrange(6, s.len() as int)),
                        )
                    }
                } else {
                    None
                }
            } else {
                None
            }
        } else {
            None
        }
    } else {
        strbody_cont(seq![s[0]], 1, jparse_strbody(s.subrange(1, s.len() as int)))
    }
}

/// Parses an unsigned decimal run: its value and length.  Rejects numbers
/// that continue with a fraction or exponent: the codec carries integers.
pub open spec fn jparse_udec(s: Seq<u8>) -> Option<(int, int)> {
    let run = num_run(s);
    if run == 0 {
        None
    } else if run < s.len() && (s[run] == 0x2e || s[run] == 0x65 || s[run] == 0x45) {
        None
    } else {
        Some((digits_val(s.subrange(0, run)), run))
    }
}

/// Parses the document value starting `s`: the value and bytes consumed.
pub open spec fn jparse(s: Seq<u8>) -> Option<(SpecValue, int)>
    decreases s.len(), 0nat,
{
    if s.len() == 0 {
        None
    } else {
        let b = s[0];
        if b == 0x6e {
            if s.len() >= 4 && s[1] == 0x75 && s[2] == 0x6c && s[3] == 0x6c {
                Some((SpecValue::Null, 4))
            } else {
                None
            }
        } else if b == 0x74 {
            if s.len() >= 4 && s[1] == 0x72 && s[2] == 0x75 && s[3] == 0x65 {
                Some((SpecValue::Bool(true), 4))
            } else {
                None
            }
        } else if b == 0x66 {
            if s.len() >= 5 && s[1] == 0x61 && s[2] == 0x6c && s[3] == 0x73 && s[4] == 0x65 {
                Some((SpecValue::Bool(false), 5))
            } else {
                None
            }
        } else if b == 0x22 {
            match jparse_strbody(s.drop_first()) {
                Some((t, k)) => if t.len() <= u32::MAX {
                    Some((SpecValue::Text(t), 1 + k))
                } else {
                    None
                },
                None => None,
            }
        } else if b == 0x5b {
            if s.len() >= 2 && s[1] == 0x5d {
                Some((SpecValue::Arr(Seq::empty()), 2))
            } else {
                match jparse_elems(s.drop_first()) {
                    Some((xs, k)) => if xs.len() <= u32::MAX {
                        Some((SpecValue::Arr(xs), 1 + k))
                    } else {
                        None
                    },
                    None => None,
                }
            }
        } else if b == 0x7b {
            if s.len() >= 2 && s[1] == 0x7d {
                Some((SpecValue::Obj(Seq::empty()), 2))
            } else {
                match jparse_membs(s.drop_first()) {
                    Some((ps, k)) => if ps.len() <= u32::MAX {
                        Some((SpecValue::Obj(ps), 1 + k))
                    } else {
                        None
                    },
                    None => None,
                }
            }
        } else if b == 0x2d {
            match jparse_udec(s.drop_first()) {
                Some((val, k)) => if val == 0 {
                    Some((SpecValue::UInt(0), 1 + k))
                } else if val <= 0x8000000000000000 {
                    Some((SpecValue::Int((-val) as i64), 1 + k))
                } else {
                    None
                },
                None => None,
            }
        } else if is_digit(b) {
            match jparse_udec(s) {
                Some((val, k)) => if val <= 0xffffffffffffffff {
                    Some((SpecValue::UInt(val as u64), k))
                } else {
                    None
                },
                None => None,
            }
        } else {
            None
        }
    }
}

/// Parses one or more comma-separated elements and the closing bracket.
pub open spec fn jparse_elems(s: Seq<u8>) -> Option<(Seq<SpecValue>, int)>
    decreases s.len(), 1nat,
{
    match jparse(s) {
        Some((v, k)) => if 1 <= k < s.len() {
            if s[k] == 0x5d {
                Some((seq![v], k + 1))
            } else if s[k] == 0x2c {
                match jparse_elems(s.subrange(k + 1, s.len() as int)) {
                    Some((xs, k2)) => Some((seq![v] + xs, k + 1 + k2)),
                    None => None,
                }
            } else {
                None
            }
        } else {
            None
        },
        None => None,
    }
}

/// Parses one or more comma-separated `"key":value` members and the closing
/// brace.
pub open spec fn jparse_membs(s: Seq<u8>) -> Option<(Seq<(Seq<u8>, SpecValue)>, int)>
    decreases s.len(), 1nat,
{
    if s.len() == 0 || s[0] != 0x22 {
        None
    } else {
        match jparse_strbody(s.drop_first()) {
            Some((key, k1)) => {
                let after = 1 + k1;
                if 1 <= k1 && key.len() <= u32::MAX && after < s.len() && s[after] == 0x3a {
                    match jparse(s.subrange(after + 1, s.len() as int)) {
                        Some((v, k2)) => {
                            let q = after + 1 + k2;
                            if 1 <= k2 && q < s.len() {
                                if s[q] == 0x7d {
                                    Some((seq![(key, v)], q + 1))
                                } else if s[q] == 0x2c {
                                    match jparse_membs(s.subrange(q + 1, s.len() as int)) {
                                        Some((ps, k3)) => Some((seq![(key, v)] + ps, q + 1 + k3)),
                                        None => None,
                                    }
                                } else {
                                    None
                                }
                            } else {
                                None
                            }
                        },
                        None => None,
                    }
                } else {
                    None
                }
            },
            None => None,
        }
    }
}

/// The decimal digits of a number are digits, and read back to it.
proof fn lemma_digits_props(n: int)
    requires
        n >= 0,
    ensures
        digits(n).len() >= 1,
        forall|i: int| 0 <= i < digits(n).len() ==> is_digit(#[trigger] digits(n)[i]),
        digits_val(digits(n)) == n,
    decreases n,
{
    assert(digits_val(Seq::<u8>::empty()) == 0);
    if n < 10 {
        let d = digits(n);
        assert(d =~= seq![(0x30 + n) as u8]);
        assert(d.drop_last() =~= Seq::<u8>::empty());
        assert(d.last() == (0x30 + n) as u8);
        assert(digits_val(d) == digits_val(d.drop_last()) * 10 + (d.last() - 0x30));
    } else {
        lemma_digits_props(n / 10);
        let d = digits(n);
        assert(d.drop_last() =~= digits(n / 10));
        assert(d.last() == (0x30 + n % 10) as u8);
        assert(digits_val(d) == digits_val(d.drop_last()) * 10 + (d.last() - 0x30));
    }
}

/// The digit run of digits followed by a non-digit is exactly the digits.
proof fn lemma_num_run_exact(d: Seq<u8>, rest: Seq<u8>)
    requires
        forall|i: int| 0 <= i < d.len() ==> is_digit(#[trigger] d[i]),
        rest.len() == 0 || !is_digit(rest[0]),
    ensures
        num_run(d + rest) == d.len(),
    decreases d.len(),
{
    let s = d + rest;
    if d.len() == 0 {
        assert(s =~= rest);
    } else {
        assert(s[0] == d[0]);
        assert(s.drop_first() =~= d.drop_first() + rest);
        lemma_num_run_exact(d.drop_first(), rest);
    }
}

/// Can `b` start a document value?
pub open spec fn starts_value(b: u8) -> bool {
    b == 0x6e || b == 0x74 || b == 0x66 || b == 0x22 || b == 0x5b || b == 0x7b || b == 0x2d
        || is_digit(b)
}

/// A document is non-empty and starts with a value-start byte.
proof fn lemma_jfmt_first(v: SpecValue)
    requires
        wf(v),
    ensures
        jfmt(v).len() >= 1,
        starts_value(jfmt(v)[0]),
{
    match v {
        SpecValue::UInt(n) => {
            lemma_digits_props(n as int);
        },
        _ => {},
    }
}

/// Parsing the escaped form of a text, a closing quote and anything after
/// them yields the text and consumes through the quote.
#[verifier::rlimit(100)]
#[verifier::spinoff_prover]
proof fn lemma_esc_rt(t: Seq<u8>, rest: Seq<u8>)
    ensures
        jparse_strbody(esc(t) + seq![0x22u8] + rest) == Some((t, esc(t).len() as int + 1)),
    decreases t.len(),
{
    let s = esc(t) + seq![0x22u8] + rest;
    if t.len() == 0 {
        assert(esc(t) =~= Seq::<u8>::empty());
        assert(s[0] == 0x22);
        assert(t =~= Seq::<u8>::empty());
    } else {
        let b = t[0];
        let tail = t.drop_first();
        lemma_esc_rt(tail, rest);
        let e = esc_byte(b);
        assert(esc(t) =~= e + esc(tail));
        assert(s =~= e + (esc(tail) + seq![0x22u8] + rest));
        let k = e.len() as int;
        assert(s.subrange(k, s.len() as int) =~= esc(tail) + seq![0x22u8] + rest);
        assert(seq![b] + tail =~= t);
        if b == 0x22 || b == 0x5c {
            assert(s[0] == 0x5c && s[1] == b);
        } else if b == 0x0a {
            assert(s[0] == 0x5c && s[1] == 0x6e);
        } else if b == 0x0d {
            assert(s[0] == 0x5c && s[1] == 0x72);
        } else if b == 0x09 {
            assert(s[0] == 0x5c && s[1] == 0x74);
        } else if b < 0x20 {
            assert(s[0] == 0x5c && s[1] == 0x75);
            assert(s[2] == 0x30 && s[3] == 0x30);
            assert(s[4] == hex_digit(b as int / 16) && s[5] == hex_digit(b as int % 16));
            assert(is_hex(s[2]) && is_hex(s[3]) && is_hex(s[4]) && is_hex(s[5]));
            assert(hex_val(s[4]) == b as int / 16 && hex_val(s[5]) == b as int % 16);
            assert(hex4(s, 2) == b as int);
            assert(utf8_of_cp(b as int) =~= seq![b]);
        } else {
            assert(s[0] == b);
        }
    }
}

/// The scalar cases of the document round trip.
#[verifier::rlimit(100)]
#[verifier::spinoff_prover]
proof fn lemma_jrt_atom(v: SpecValue, rest: Seq<u8>)
    requires
        wf(v),
        !(v is Arr),
        !(v is Obj),
        rest.len() == 0 || !num_cont(rest[0]),
    ensures
        jparse(jfmt(v) + rest) == Some((v, jfmt(v).len() as int)),
{
    let s = jfmt(v) + rest;
    match v {
        SpecValue::Null => {
            assert(s[0] == 0x6e && s[1] == 0x75 && s[2] == 0x6c && s[3] == 0x6c);
        },
        SpecValue::Bool(b) => {
            if b {
                assert(s[0] == 0x74 && s[1] == 0x72 && s[2] == 0x75 && s[3] == 0x65);
            } else {
                assert(s[0] == 0x66 && s[1] == 0x61 && s[2] == 0x6c && s[3] == 0x73 && s[4]
                    == 0x65);
            }
        },
        SpecValue::UInt(n) => {
            lemma_digits_props(n as int);
            let d = digits(n as int);
            assert(s =~= d + rest);
            lemma_num_run_exact(d, rest);
            assert(s[0] == d[0]);
            assert(s.subrange(0, d.len() as int) =~= d);
        },
        SpecValue::Int(i) => {
            let m = -(i as int);
            lemma_digits_props(m);
            let d = digits(m);
            assert(s[0] == 0x2d);
            assert(s.drop_first() =~= d + rest);
            lemma_num_run_exact(d, rest);
            assert((d + rest).subrange(0, d.len() as int) =~= d);
        },
        SpecValue::Text(t) => {
            lemma_esc_rt(t, rest);
            assert(s[0] == 0x22);
            assert(s.drop_first() =~= esc(t) + seq![0x22u8] + rest);
        },
        SpecValue::Arr(xs) => {},
        SpecValue::Obj(ps) => {},
    }
}

/// Parsing the document of a well-formed value, followed by anything that
/// does not continue a number, yields the value back and consumes exactly
/// its document.
#[verifier::rlimit(100)]
#[verifier::spinoff_prover]
pub proof fn lemma_jrt(v: SpecValue, rest: Seq<u8>)
    requires
        wf(v),
        rest.len() == 0 || !num_cont(rest[0]),
    ensures
        jparse(jfmt(v) + rest) == Some((v, jfmt(v).len() as int)),
    decreases v, 1nat, 0nat,
{
    match v {
        SpecValue::Arr(xs) => {
            lemma_jrt_arrcase(v, rest);
        },
        SpecValue::Obj(ps) => {
            lemma_jrt_objcase(v, rest);
        },
        _ => {
            lemma_jrt_atom(v, rest);
        },
    }
}

/// The sequence case of the document round trip.
#[verifier::rlimit(100)]
#[verifier::spinoff_prover]
proof fn lemma_jrt_arrcase(v: SpecValue, rest: Seq<u8>)
    requires
        wf(v),
        v is Arr,
        rest.len() == 0 || !num_cont(rest[0]),
    ensures
        jparse(jfmt(v) + rest) == Some((v, jfmt(v).len() as int)),
    decreases v, 0nat, 0nat,
{
    let s = jfmt(v) + rest;
    match v {
        SpecValue::Arr(xs) => {
            assert(s[0] == 0x5b);
            if xs.len() == 0 {
                assert(jfmt_list(xs) =~= Seq::<u8>::empty());
                assert(s[1] == 0x5d);
                assert(xs =~= Seq::<SpecValue>::empty());
            } else {
                lemma_jfmt_first(xs[0]);
                assert(jfmt_list(xs)[0] == jfmt(xs[0])[0]);
                assert(s[1] == jfmt_list(xs)[0]);
                assert(s[1] != 0x5d);
                lemma_jrt_elems(xs, rest);
                assert(s.drop_first() =~= jfmt_list(xs) + seq![0x5du8] + rest);
            }
        },
        _ => {},
    }
}

/// The mapping case of the document round trip.
#[verifier::rlimit(100)]
#[verifier::spinoff_prover]
proof fn lemma_jrt_objcase(v: SpecValue, rest: Seq<u8>)
    requires
        wf(v),
        v is Obj,
        rest.len() == 0 || !num_cont(rest[0]),
    ensures
        jparse(jfmt(v) + rest) == Some((v, jfmt(v).len() as int)),
    decreases v, 0nat, 0nat,
{
    let s = jfmt(v) + rest;
    match v {
        SpecValue::Obj(ps) => {
            assert(s[0] == 0x7b);
            if ps.len() == 0 {
                assert(jfmt_obj(ps) =~= Seq::<u8>::empty());
                assert(s[1] == 0x7d);
                assert(ps =~= Seq::<(Seq<u8>, SpecValue)>::empty());
            } else {
                assert(jfmt_pair(ps[0])[0] == 0x22);
                assert(jfmt_obj(ps)[0] == jfmt_pair(ps[0])[0]);
                assert(s[1] == jfmt_obj(ps)[0]);
                lemma_jrt_membs(ps, rest);
                assert(s.drop_first() =~= jfmt_obj(ps) + seq![0x7du8] + rest);
            }
        },
        _ => {},
    }
}

/// Parsing the documents of one or more well-formed values, the closing
/// bracket and anything after yields the values back.
#[verifier::rlimit(100)]
#[verifier::spinoff_prover]
proof fn lemma_jrt_elems(xs: Seq<SpecValue>, rest: Seq<u8>)
    requires
        xs.len() >= 1,
        forall|i: int| 0 <= i < xs.len() ==> wf(#[trigger] xs[i]),
        rest.len() == 0 || !num_cont(rest[0]),
    ensures
        jparse_elems(jfmt_list(xs) + seq![0x5du8] + rest) == Some(
            (xs, jfmt_list(xs).len() as int + 1),
        ),
    decreases xs, 1nat, 0nat,
{
    let s = jfmt_list(xs) + seq![0x5du8] + rest;
    let v0 = xs[0];
    lemma_jfmt_first(v0);
    if xs.len() == 1 {
        lemma_jrt(v0, seq![0x5du8] + rest);
        assert(jfmt(v0) + (seq![0x5du8] + rest) =~= s);
        let k = jfmt(v0).len() as int;
        assert(s[k] == 0x5d);
        assert(seq![v0] =~= xs);
    } else {
        let tail = xs.drop_first();
        let rest2 = seq![0x2cu8] + (jfmt_list(tail) + seq![0x5du8] + rest);
        lemma_jrt(v0, rest2);
        assert(jfmt(v0) + rest2 =~= s);
        let k = jfmt(v0).len() as int;
        assert(s[k] == 0x2c);
        lemma_jrt_elems(tail, rest);
        assert(s.subrange(k + 1, s.len() as int) =~= jfmt_list(tail) + seq![0x5du8] + rest);
        assert(seq![v0] + tail =~= xs);
    }
}

/// Parsing one `"key":value` member followed by a separator or closing
/// brace: where each piece of it stands and what it parses to.
#[verifier::rlimit(100)]
#[verifier::spinoff_prover]
proof fn lemma_jrt_pair(p: (Seq<u8>, SpecValue), rest2: Seq<u8>)
    requires
        wf(p.1),
        p.0.len() <= u32::MAX,
        rest2.len() >= 1,
        !num_cont(rest2[0]),
    ensures
        (jfmt_pair(p) + rest2)[0] == 0x22,
        jparse_strbody((jfmt_pair(p) + rest2).drop_first()) == Some(
            (p.0, esc(p.0).len() as int + 1),
        ),
        (jfmt_pair(p) + rest2)[esc(p.0).len() as int + 2] == 0x3a,
        jparse(
            (jfmt_pair(p) + rest2).subrange(
                esc(p.0).len() as int + 3,
                (jfmt_pair(p) + rest2).len() as int,
            ),
        ) == Some((p.1, jfmt(p.1).len() as int)),
        jfmt_pair(p).len() == esc(p.0).len() + 3 + jfmt(p.1).len(),
        (jfmt_pair(p) + rest2)[jfmt_pair(p).len() as int] == rest2[0],
    decreases p, 0nat, 0nat,
{
    let s = jfmt_pair(p) + rest2;
    let rest3 = seq![0x3au8] + (jfmt(p.1) + rest2);
    lemma_esc_rt(p.0, rest3);
    assert(s =~= seq![0x22u8] + (esc(p.0) + seq![0x22u8] + rest3));
    assert(s.drop_first() =~= esc(p.0) + seq![0x22u8] + rest3);
    let after = esc(p.0).len() as int + 2;
    assert(s[after] == rest3[0]);
    lemma_jrt(p.1, rest2);
    assert(s.subrange(after + 1, s.len() as int) =~= jfmt(p.1) + rest2);
    lemma_jfmt_first(p.1);
    assert(s[jfmt_pair(p).len() as int] == rest2[0]);
}

/// Parsing the documents of one or more well-formed members, the closing
/// brace and anything after yields the pairs back.
#[verifier::rlimit(100)]
#[verifier::spinoff_prover]
proof fn lemma_jrt_membs(ps: Seq<(Seq<u8>, SpecValue)>, rest: Seq<u8>)
    requires
        ps.len() >= 1,
        forall|i: int| 0 <= i < ps.len() ==> wf(#[trigger] ps[i].1) && ps[i].0.len()
            <= u32::MAX,
        rest.len() == 0 || !num_cont(rest[0]),
    ensures
        jparse_membs(jfmt_obj(ps) + seq![0x7du8] + rest) == Some(
            (ps, jfmt_obj(ps).len() as int + 1),
        ),
    decreases ps, 1nat, 0nat,
{
    let s = jfmt_obj(ps) + seq![0x7du8] + rest;
    let p0 = ps[0];
    lemma_jfmt_first(p0.1);
    if ps.len() == 1 {
        let rest2 = seq![0x7du8] + rest;
        lemma_jrt_pair(p0, rest2);
        assert(s =~= jfmt_pair(p0) + rest2);
        let k1 = esc(p0.0).len() as int + 1;
        let after = 1 + k1;
        let q = after + 1 + jfmt(p0.1).len() as int;
        assert(q == jfmt_pair(p0).len());
        assert(s[q] == 0x7d);
        assert(p0 == (p0.0, p0.1));
        assert(seq![p0] =~= ps);
    } else {
        let tail = ps.drop_first();
        let rest2 = seq![0x2cu8] + (jfmt_obj(tail) + seq![0x7du8] + rest);
        lemma_jrt_pair(p0, rest2);
        assert(s =~= jfmt_pair(p0) + rest2);
        let k1 = esc(p0.0).len() as int + 1;
        let after = 1 + k1;
        let q = after + 1 + jfmt(p0.1).len() as int;
        assert(q == jfmt_pair(p0).len());
        assert(s[q] == 0x2c);
        lemma_jrt_membs(tail, rest);
        assert(s.subrange(q + 1, s.len() as int) =~= jfmt_obj(tail) + seq![0x7du8] + rest);
        assert(p0 == (p0.0, p0.1));
        assert(seq![p0] + tail =~= ps);
    }
}

/// Parses a whole document: the value whose document is exactly `s`.
pub open spec fn jparse_full(s: Seq<u8>) -> Option<SpecValue> {
    match jparse(s) {
        Some((v, k)) => if k == s.len() {
            Some(v)
        } else {
            None
        },
        None => None,
    }
}

/// `esc` distributes over concatenation.
proof fn lemma_esc_app(a: Seq<u8>, b: Seq<u8>)
    ensures
        esc(a + b) == esc(a) + esc(b),
    decreases a.len(),
{
    if a.len() == 0 {
        assert(a + b =~= b);
        assert(esc(a) + esc(b) =~= esc(b));
    } else {
        assert((a + b).drop_first() =~= a.drop_first() + b);
        lemma_esc_app(a.drop_first(), b);
        assert((a + b)[0] == a[0]);
        assert(esc_byte(a[0]) + (esc(a.drop_first()) + esc(b)) =~= (esc_byte(a[0]) + esc(
            a.drop_first(),
        )) + esc(b));
    }
}

/// `esc` of a single byte is that byte's escape.
proof fn lemma_esc_one(b: u8)
    ensures
        esc(seq![b]) == esc_byte(b),
{
    assert(seq![b].drop_first() =~= Seq::<u8>::empty());
    assert(esc(Seq::<u8>::empty()) =~= Seq::<u8>::empty());
    assert(esc(seq![b]) =~= esc_byte(b));
}

/// Extending a formatted prefix of a sequence by one more element.
proof fn lemma_jfmt_list_take(s: Seq<SpecValue>, i: int)
    requires
        1 <= i < s.len(),
    ensures
        jfmt_list(s.take(i + 1)) == jfmt_list(s.take(i)) + seq![0x2cu8] + jfmt(s[i]),
    decreases i,
{
    if i == 1 {
        let t2 = s.take(2);
        assert(t2.drop_first() =~= seq![s[1]]);
        assert(jfmt_list(seq![s[1]]) == jfmt(s[1]));
        assert(s.take(1) =~= seq![s[0]]);
        assert(jfmt_list(s.take(1)) == jfmt(s[0]));
        assert(jfmt_list(t2) == jfmt(t2[0]) + seq![0x2cu8] + jfmt_list(t2.drop_first()));
    } else {
        lemma_jfmt_list_take(s.drop_first(), i - 1);
        let a = s.take(i + 1);
        let b = s.take(i);
        assert(a.drop_first() =~= s.drop_first().take(i));
        assert(b.drop_first() =~= s.drop_first().take(i - 1));
        assert(s.drop_first()[i - 1] == s[i]);
        assert(a[0] == s[0] && b[0] == s[0]);
        assert(jfmt_list(a) == jfmt(s[0]) + seq![0x2cu8] + jfmt_list(s.drop_first().take(i)));
        assert(jfmt_list(b) == jfmt(s[0]) + seq![0x2cu8] + jfmt_list(
            s.drop_first().take(i - 1),
        ));
        assert(jfmt(s[0]) + seq![0x2cu8] + (jfmt_list(s.drop_first().take(i - 1)) + seq![0x2cu8]
            + jfmt(s[i])) =~= (jfmt(s[0]) + seq![0x2cu8] + jfmt_list(
            s.drop_first().take(i - 1),
        )) + seq![0x2cu8] + jfmt(s[i]));
    }
}

/// Extending a formatted prefix of a mapping by one more member.
proof fn lemma_jfmt_obj_take(s: Seq<(Seq<u8>, SpecValue)>, i: int)
    requires
        1 <= i < s.len(),
    ensures
        jfmt_obj(s.take(i + 1)) == jfmt_obj(s.take(i)) + seq![0x2cu8] + jfmt_pair(s[i]),
    decreases i,
{
    if i == 1 {
        let t2 = s.take(2);
        assert(t2.drop_first() =~= seq![s[1]]);
        assert(jfmt_obj(seq![s[1]]) == jfmt_pair(s[1]));
        assert(s.take(1) =~= seq![s[0]]);
        assert(jfmt_obj(s.take(1)) == jfmt_pair(s[0]));
        assert(jfmt_obj(t2) == jfmt_pair(t2[0]) + seq![0x2cu8] + jfmt_obj(t2.drop_first()));
    } else {
        lemma_jfmt_obj_take(s.drop_first(), i - 1);
        let a = s.take(i + 1);
        let b = s.take(i);
        assert(a.drop_first() =~= s.drop_first().take(i));
        assert(b.drop_first() =~= s.drop_first().take(i - 1));
        assert(s.drop_first()[i - 1] == s[i]);
        assert(a[0] == s[0] && b[0] == s[0]);
        assert(jfmt_obj(a) == jfmt_pair(s[0]) + seq![0x2cu8] + jfmt_obj(
            s.drop_first().take(i),
        ));
        assert(jfmt_obj(b) == jfmt_pair(s[0]) + seq![0x2cu8] + jfmt_obj(
            s.drop_first().take(i - 1),
        ));
        assert(jfmt_pair(s[0]) + seq![0x2cu8] + (jfmt_obj(s.drop_first().take(i - 1)) + seq![
            0x2cu8,
        ] + jfmt_pair(s[i])) =~= (jfmt_pair(s[0]) + seq![0x2cu8] + jfmt_obj(
            s.drop_first().take(i - 1),
        )) + seq![0x2cu8] + jfmt_pair(s[i]));
    }
}

/// Writes the decimal digits of `n`.
fn push_digits(out: &mut Vec<u8>, n: u64)
    ensures
        final(out)@ == old(out)@ + digits(n as int),
    decreases n,
{
    if n < 10 {
        out.push((0x30 + n) as u8);
        assert(out@ =~= old(out)@ + digits(n as int));
    } else {
        push_digits(out, n / 10);
        out.push((0x30 + (n % 10)) as u8);
        assert(out@ =~= old(out)@ + digits(n as int));
    }
}

/// Writes the escaped form of a text between quotes.
fn push_quoted(out: &mut Vec<u8>, t: &Vec<u8>)
    ensures
        final(out)@ == old(out)@ + seq![0x22u8] + esc(t@) + seq![0x22u8],
{
    out.push(0x22u8);
    let ghost base = out@;
    let n = t.len();
    let mut i: usize = 0;
    proof {
        assert(esc(t@.take(0)) =~= Seq::<u8>::empty());
        assert(out@ =~= base + esc(t@.take(0)));
    }
    while i < n
        invariant
            n == t@.len(),
            0 <= i <= n,
            out@ == base + esc(t@.take(i as int)),
        decreases n - i,
    {
        let b = t[i];
        if b == 0x22 || b == 0x5c {
            out.push(0x5cu8);
            out.push(b);
        } else if b == 0x0a {
            out.push(0x5cu8);
            out.push(0x6eu8);
        } else if b == 0x0d {
            out.push(0x5cu8);
            out.push(0x72u8);
        } else if b == 0x09 {
            out.push(0x5cu8);
            out.push(0x74u8);
        } else if b < 0x20 {
            out.push(0x5cu8);
            out.push(0x75u8);
            out.push(0x30u8);
            out.push(0x30u8);
            let hi = b / 16;
            let lo = b % 16;
            out.push(if hi < 10 {
                0x30 + hi
            } else {
                0x57 + hi
            });
            out.push(if lo < 10 {
                0x30 + lo
            } else {
                0x57 + lo
            });
        } else {
            out.push(b);
        }
        proof {
            lemma_esc_app(t@.take(i as int), seq![t@[i as int]]);
            lemma_esc_one(t@[i as int]);
            assert(t@.take(i + 1) =~= t@.take(i as int) + seq![t@[i as int]]);
            assert(out@ =~= base + esc(t@.take(i + 1)));
        }
        i = i + 1;
    }
    out.push(0x22u8);
    proof {
        assert(t@.take(n as int) =~= t@);
        assert(out@ =~= old(out)@ + seq![0x22u8] + esc(t@) + seq![0x22u8]);
    }
}

/// Writes the document of a well-formed value after `out`.
#[verifier::rlimit(100)]
#[verifier::spinoff_prover]
pub fn format_value(v: &Value, out: &mut Vec<u8>)
    requires
        wf(model(*v)),
    ensures
        final(out)@ == old(out)@ + jfmt(model(*v)),
    decreases *v,
{
    broadcast use lemma_models, lemma_model_pairs;

    match v {
        Value::Null => {
            out.push(0x6eu8);
            out.push(0x75u8);
            out.push(0x6cu8);
            out.push(0x6cu8);
            assert(out@ =~= old(out)@ + jfmt(SpecValue::Null));
        },
        Value::Bool(b) => {
            if *b {
                out.push(0x74u8);
                out.push(0x72u8);
                out.push(0x75u8);
                out.push(0x65u8);
            } else {
                out.push(0x66u8);
                out.push(0x61u8);
                out.push(0x6cu8);
                out.push(0x73u8);
                out.push(0x65u8);
            }
            assert(out@ =~= old(out)@ + jfmt(model(*v)));
        },
        Value::UInt(n) => {
            push_digits(out, *n);
        },
        Value::Int(i) => {
            out.push(0x2du8);
            let m = (-((*i) as i128)) as u64;
            push_digits(out, m);
            assert(out@ =~= old(out)@ + jfmt(model(*v)));
        },
        Value::Text(t) => {
            push_quoted(out, t);
            assert(out@ =~= old(out)@ + jfmt(model(*v)));
        },
        Value::Arr(xs) => {
            out.push(0x5bu8);
            let ghost base = out@;
            let n = xs.len();
            let mut j: usize = 0;
            if n > 0 {
                proof {
                    assert(wf(models(xs@)[0]));
                    assert(decreases_to!(*v => xs@[0]));
                }
                format_value(&xs[0], out);
                j = 1;
                proof {
                    assert(models(xs@).take(1) =~= seq![model(xs@[0])]);
                    assert(jfmt_list(seq![model(xs@[0])]) == jfmt(model(xs@[0])));
                    assert(out@ =~= base + jfmt_list(models(xs@).take(1)));
                }
                while j < n
                    invariant
                        *v == Value::Arr(*xs),
                        n == xs@.len(),
                        1 <= j <= n,
                        wf(model(Value::Arr(*xs))),
                        out@ == base + jfmt_list(models(xs@).take(j as int)),
                    decreases n - j,
                {
                    out.push(0x2cu8);
                    proof {
                        broadcast use lemma_models;

                        assert(wf(models(xs@)[j as int]));
                        assert(decreases_to!(*v => xs@[j as int]));
                    }
                    format_value(&xs[j], out);
                    proof {
                        broadcast use lemma_models;

                        lemma_jfmt_list_take(models(xs@), j as int);
                        assert(out@ =~= base + jfmt_list(models(xs@).take(j + 1)));
                    }
                    j = j + 1;
                }
            }
            out.push(0x5du8);
            proof {
                if n == 0 {
                    assert(models(xs@).take(0) =~= Seq::<SpecValue>::empty());
                    assert(jfmt_list(models(xs@)) =~= Seq::<u8>::empty());
                }
                assert(models(xs@).take(n as int) =~= models(xs@));
                assert(out@ =~= old(out)@ + jfmt(model(Value::Arr(*xs))));
            }
        },
        Value::Obj(ps) => {
            out.push(0x7bu8);
            let ghost base = out@;
            let n = ps.len();
            let mut j: usize = 0;
            if n > 0 {
                proof {
                    assert(wf(model_pairs(ps@)[0].1));
                    assert(ps@[0].0@.len() <= u32::MAX);
                    assert(decreases_to!(*v => ps@[0].1));
                }
                push_quoted(out, &ps[0].0);
                out.push(0x3au8);
                format_value(&ps[0].1, out);
                j = 1;
                proof {
                    assert(model_pairs(ps@).take(1) =~= seq![model_pairs(ps@)[0]]);
                    assert(jfmt_obj(seq![model_pairs(ps@)[0]]) == jfmt_pair(
                        model_pairs(ps@)[0],
                    ));
                    assert(out@ =~= base + jfmt_obj(model_pairs(ps@).take(1)));
                }
                while j < n
                    invariant
                        *v == Value::Obj(*ps),
                        n == ps@.len(),
                        1 <= j <= n,
                        wf(model(Value::Obj(*ps))),
                        out@ == base + jfmt_obj(model_pairs(ps@).take(j as int)),
                    decreases n - j,
                {
                    out.push(0x2cu8);
                    proof {
                        broadcast use lemma_model_pairs;

                        assert(wf(model_pairs(ps@)[j as int].1));
                        assert(ps@[j as int].0@.len() <= u32::MAX);
                        assert(decreases_to!(*v => ps@[j as int].1));
                    }
                    push_quoted(out, &ps[j].0);
                    out.push(0x3au8);
                    format_value(&ps[j].1, out);
                    proof {
                        broadcast use lemma_model_pairs;

                        lemma_jfmt_obj_take(model_pairs(ps@), j as int);
                        assert(out@ =~= base + jfmt_obj(model_pairs(ps@).take(j + 1)));
                    }
                    j = j + 1;
                }
            }
            out.push(0x7du8);
            proof {
                if n == 0 {
                    assert(model_pairs(ps@).take(0) =~= Seq::<(Seq<u8>, SpecValue)>::empty());
                    assert(jfmt_obj(model_pairs(ps@)) =~= Seq::<u8>::empty());
                }
                assert(model_pairs(ps@).take(n as int) =~= model_pairs(ps@));
                assert(out@ =~= old(out)@ + jfmt(model(Value::Obj(*ps))));
            }
        },
    }
}

/// The document of a well-formed value, as a fresh buffer.
pub fn format(v: &Value) -> (r: Vec<u8>)
    requires
        wf(model(*v)),
    ensures
        r@ == jfmt(model(*v)),
{
    let mut out: Vec<u8> = Vec::new();
    format_value(v, &mut out);
    assert(out@ =~= jfmt(model(*v)));
    out
}

/// One hex digit's value, if it is one.
fn hexv(b: u8) -> (r: Option<u8>)
    ensures
        r is Some <==> is_hex(b),
        r matches Some(d) ==> d as int == hex_val(b) && d < 16,
{
    if 0x30 <= b && b <= 0x39 {
        Some(b - 0x30)
    } else if 0x61 <= b && b <= 0x66 {
        Some(b - 0x57)
    } else if 0x41 <= b && b <= 0x46 {
        Some(b - 0x37)
    } else {
        None
    }
}

/// Reads four hex digits: their value, if all four are hex digits.
fn read_hex4(buf: &[u8], off: usize) -> (r: Option<u32>)
    requires
        off + 4 <= buf@.len(),
    ensures
        r is Some <==> is_hex(buf@[off as int]) && is_hex(buf@[off as int + 1]) && is_hex(
            buf@[off as int + 2],
        ) && is_hex(buf@[off as int + 3]),
        r matches Some(v) ==> v as int == hex_val(buf@[off as int]) * 4096 + hex_val(
            buf@[off as int + 1],
        ) * 256 + hex_val(buf@[off as int + 2]) * 16 + hex_val(buf@[off as int + 3]),
{
    let d0 = hexv(buf[off]);
    let d1 = hexv(buf[off + 1]);
    let d2 = hexv(buf[off + 2]);
    let d3 = hexv(buf[off + 3]);
    match (d0, d1, d2, d3) {
        (Some(a), Some(b), Some(c), Some(d)) => Some(
            (a as u32) * 4096 + (b as u32) * 256 + (c as u32) * 16 + (d as u32),
        ),
        _ => None,
    }
}

/// Writes the UTF-8 bytes of a code point onto `out`.
fn push_cp(out: &mut Vec<u8>, cp: u32)
    requires
        cp < 0x110000,
    ensures
        final(out)@ == old(out)@ + utf8_of_cp(cp as int),
{
    if cp < 0x80 {
        out.push(cp as u8);
        assert(out@ =~= old(out)@ + utf8_of_cp(cp as int));
    } else if cp < 0x800 {
        out.push((0xc0 + cp / 64) as u8);
        out.push((0x80 + cp % 64) as u8);
        assert(out@ =~= old(out)@ + utf8_of_cp(cp as int));
    } else if cp < 0x10000 {
        out.push((0xe0 + cp / 4096) as u8);
        out.push((0x80 + (cp / 64) % 64) as u8);
        out.push((0x80 + cp % 64) as u8);
        assert(out@ =~= old(out)@ + utf8_of_cp(cp as int));
    } else {
        out.push((0xf0 + cp / 262144) as u8);
        out.push((0x80 + (cp / 4096) % 64) as u8);
        out.push((0x80 + (cp / 64) % 64) as u8);
        out.push((0x80 + cp % 64) as u8);
        assert(out@ =~= old(out)@ + utf8_of_cp(cp as int));
    }
}

/// Parses a string body starting at `pos` (just after the opening quote),
/// mirroring `jparse_strbody`.
#[verifier::rlimit(100)]
#[verifier::spinoff_prover]
fn parse_strbody(buf: &[u8], pos: usize) -> (r: Option<(Vec<u8>, usize)>)
    requires
        pos <= buf@.len(),
    ensures
        match r {
            Some(p) => {
                &&& pos < p.1 <= buf@.len()
                &&& jparse_strbody(buf@.subrange(pos as int, buf@.len() as int)) == Some(
                    (p.0@, (p.1 - pos) as int),
                )
            },
            None => jparse_strbody(buf@.subrange(pos as int, buf@.len() as int)) is None,
        },
    decreases buf@.len() - pos,
{
    let ghost s = buf@.subrange(pos as int, buf@.len() as int);
    let len = buf.len();
    if pos >= len {
        return None;
    }
    let b = buf[pos];
    proof {
        assert(s[0] == buf@[pos as int]);
    }
    if b == 0x22 {
        let out: Vec<u8> = Vec::new();
        proof {
            assert(out@ =~= Seq::<u8>::empty());
        }
        Some((out, pos + 1))
    } else if b == 0x5c {
        if pos + 1 >= len {
            return None;
        }
        let e = buf[pos + 1];
        proof {
            assert(s[1] == buf@[pos as int + 1]);
        }
        if e == 0x22 || e == 0x5c || e == 0x2f || e == 0x6e || e == 0x72 || e == 0x74 || e == 0x62
            || e == 0x66 {
            let decoded: u8 = if e == 0x6e {
                0x0a
            } else if e == 0x72 {
                0x0d
            } else if e == 0x74 {
                0x09
            } else if e == 0x62 {
                0x08
            } else if e == 0x66 {
                0x0c
            } else {
                e
            };
            proof {
                assert(s.subrange(2, s.len() as int) =~= buf@.subrange(
                    pos as int + 2,
                    len as int,
                ));
            }
            match parse_strbody(buf, pos + 2) {
                Some((mut t, np)) => {
                    let ghost tv = t@;
                    let mut out: Vec<u8> = Vec::new();
                    out.push(decoded);
                    out.append(&mut t);
                    proof {
                        assert(out@ =~= seq![decoded] + tv);
                    }
                    Some((out, np))
                },
                None => None,
            }
        } else if e == 0x75 {
            if len - pos < 6 {
                return None;
            }
            proof {
                assert(s[2] == buf@[pos as int + 2]);
                assert(s[3] == buf@[pos as int + 3]);
                assert(s[4] == buf@[pos as int + 4]);
                assert(s[5] == buf@[pos as int + 5]);
            }
            match read_hex4(buf, pos + 2) {
                Some(c) => {
                    proof {
                        assert(c as int == hex4(s, 2));
                    }
                    if 0xd800 <= c && c < 0xdc00 {
                        if len - pos < 12 {
                            return None;
                        }
                        if !(buf[pos + 6] == 0x5c && buf[pos + 7] == 0x75) {
                            proof {
                                assert(s[6] == buf@[pos as int + 6]);
                                assert(s[7] == buf@[pos as int + 7]);
                            }
                            return None;
                        }
                        proof {
                            assert(s[6] == buf@[pos as int + 6]);
                            assert(s[7] == buf@[pos as int + 7]);
                            assert(s[8] == buf@[pos as int + 8]);
                            assert(s[9] == buf@[pos as int + 9]);
                            assert(s[10] == buf@[pos as int + 10]);
                            assert(s[11] == buf@[pos as int + 11]);
                        }
                        match read_hex4(buf, pos + 8) {
                            Some(c2) => {
                                proof {
                                    assert(c2 as int == hex4(s, 8));
                                }
                                if 0xdc00 <= c2 && c2 < 0xe000 {
                                    let cp: u32 = 0x10000 + (c - 0xd800) * 0x400 + (c2 - 0xdc00);
                                    proof {
                                        assert(s.subrange(12, s.len() as int) =~= buf@.subrange(
                                            pos as int + 12,
                                            len as int,
                                        ));
                                    }
                                    match parse_strbody(buf, pos + 12) {
                                        Some((mut t, np)) => {
                                            let ghost tv = t@;
                                            let mut out: Vec<u8> = Vec::new();
                                            push_cp(&mut out, cp);
                                            out.append(&mut t);
                                            proof {
                                                assert(out@ =~= utf8_of_cp(cp as int) + tv);
                                            }
                                            Some((out, np))
                                        },
                                        None => None,
                                    }
                                } else {
                                    None
                                }
                            },
                            None => None,
                        }
                    } else if 0xdc00 <= c && c < 0xe000 {
                        None
                    } else {
                        proof {
                            assert(s.subrange(6, s.len() as int) =~= buf@.subrange(
                                pos as int + 6,
                                len as int,
                            ));
                        }
                        match parse_strbody(buf, pos + 6) {
                            Some((mut t, np)) => {
                                let ghost tv = t@;
                                let mut out: Vec<u8> = Vec::new();
                                push_cp(&mut out, c);
                                out.append(&mut t);
                                proof {
                                    assert(out@ =~= utf8_of_cp(c as int) + tv);
                                }
                                Some((out, np))
                            },
                            None => None,
                        }
                    }
                },
                None => None,
            }
        } else {
            None
        }
    } else {
        proof {
            assert(s.subrange(1, s.len() as int) =~= buf@.subrange(pos as int + 1, len as int));
        }
        match parse_strbody(buf, pos + 1) {
            Some((mut t, np)) => {
                let ghost tv = t@;
                let mut out: Vec<u8> = Vec::new();
                out.push(b);
                out.append(&mut t);
                proof {
                    assert(out@ =~= seq![b] + tv);
                }
                Some((out, np))
            },
            None => None,
        }
    }
}

/// Parses an unsigned decimal run starting at `pos`, mirroring
/// `jparse_udec`; reports `None` also when the number does not fit 64 bits.
#[verifier::rlimit(100)]
#[verifier::spinoff_prover]
fn parse_num(buf: &[u8], pos: usize) -> (r: Option<(u64, usize)>)
    requires
        pos <= buf@.len(),
    ensures
        match r {
            Some(p) => {
                &&& pos < p.1 <= buf@.len()
                &&& jparse_udec(buf@.subrange(pos as int, buf@.len() as int)) == Some(
                    (p.0 as int, (p.1 - pos) as int),
                )
            },
            None => jparse_udec(buf@.subrange(pos as int, buf@.len() as int)) is None
                || (jparse_udec(buf@.subrange(pos as int, buf@.len() as int)) matches Some(q)
                && q.0 > u64::MAX),
        },
{
    let ghost s = buf@.subrange(pos as int, buf@.len() as int);
    let len = buf.len();
    let mut cur: usize = pos;
    while cur < len && 0x30 <= buf[cur] && buf[cur] <= 0x39
        invariant
            len == buf@.len(),
            pos <= cur <= len,
            num_run(s) == (cur - pos) + num_run(buf@.subrange(cur as int, len as int)),
            forall|j: int| pos <= j < cur ==> is_digit(#[trigger] buf@[j]),
        decreases len - cur,
    {
        proof {
            let rem = buf@.subrange(cur as int, len as int);
            assert(rem[0] == buf@[cur as int]);
            assert(rem.drop_first() =~= buf@.subrange(cur as int + 1, len as int));
        }
        cur = cur + 1;
    }
    proof {
        let rem = buf@.subrange(cur as int, len as int);
        if cur < len {
            assert(rem[0] == buf@[cur as int]);
        }
        assert(num_run(rem) == 0);
        assert(num_run(s) == cur - pos);
    }
    if cur == pos {
        return None;
    }
    if cur < len && (buf[cur] == 0x2e || buf[cur] == 0x65 || buf[cur] == 0x45) {
        proof {
            assert(s[(cur - pos) as int] == buf@[cur as int]);
        }
        return None;
    }
    proof {
        if cur - pos < s.len() {
            assert(s[(cur - pos) as int] == buf@[cur as int]);
        }
    }
    let ghost d = s.subrange(0, (cur - pos) as int);
    let mut acc: u64 = 0;
    let mut over: bool = false;
    let mut i: usize = pos;
    proof {
        assert(buf@.subrange(pos as int, pos as int) =~= Seq::<u8>::empty());
        assert(digits_val(Seq::<u8>::empty()) == 0);
    }
    while i < cur
        invariant
            len == buf@.len(),
            pos <= i <= cur <= len,
            forall|j: int| pos <= j < cur ==> is_digit(#[trigger] buf@[j]),
            !over ==> acc as int == digits_val(buf@.subrange(pos as int, i as int)),
            over ==> digits_val(buf@.subrange(pos as int, i as int)) > u64::MAX,
        decreases cur - i,
    {
        let b = buf[i];
        let dd = (b - 0x30) as u64;
        proof {
            let p1 = buf@.subrange(pos as int, i as int + 1);
            assert(p1.drop_last() =~= buf@.subrange(pos as int, i as int));
            assert(p1.last() == buf@[i as int]);
            assert(digits_val(p1) == digits_val(buf@.subrange(pos as int, i as int)) * 10 + (
            buf@[i as int] - 0x30));
        }
        if over {
            proof {
                assert(digits_val(buf@.subrange(pos as int, i as int)) * 10 > u64::MAX);
            }
        } else if acc <= (u64::MAX - dd) / 10 {
            proof {
                let q = (u64::MAX - dd) / 10;
                assert(acc * 10 <= q * 10) by (nonlinear_arith)
                    requires
                        acc <= q,
                ;
                assert(q * 10 + dd <= u64::MAX);
            }
            acc = acc * 10 + dd;
        } else {
            proof {
                let q = ((u64::MAX - dd) / 10) as int;
                assert(10 * q + 9 >= u64::MAX - dd);
                assert(acc as int >= q + 1);
                assert(acc as int * 10 >= (q + 1) * 10) by (nonlinear_arith)
                    requires
                        acc as int >= q + 1,
                ;
                assert(acc as int * 10 + dd > u64::MAX);
            }
            over = true;
        }
        i = i + 1;
    }
    proof {
        assert(d =~= buf@.subrange(pos as int, cur as int));
    }
    if over {
        None
    } else {
        Some((acc, cur))
    }
}

/// Parses the document value starting at `pos`, mirroring `jparse`.
#[verifier::rlimit(100)]
#[verifier::spinoff_prover]
pub fn parse_value(buf: &[u8], pos: usize) -> (r: Option<(Value, usize)>)
    requires
        pos <= buf@.len(),
    ensures
        match r {
            Some(p) => {
                &&& pos < p.1 <= buf@.len()
                &&& jparse(buf@.subrange(pos as int, buf@.len() as int)) == Some(
                    (model(p.0), (p.1 - pos) as int),
                )
                &&& wf(model(p.0))
            },
            None => jparse(buf@.subrange(pos as int, buf@.len() as int)) is None,
        },
    decreases buf@.len() - pos, 0nat,
{
    let ghost s = buf@.subrange(pos as int, buf@.len() as int);
    let len = buf.len();
    if pos >= len {
        return None;
    }
    let b = buf[pos];
    proof {
        assert(s[0] == buf@[pos as int]);
        assert(forall|j: int| 0 <= j < s.len() ==> s[j] == buf@[pos + j]);
    }
    if b == 0x6e {
        if len - pos >= 4 && buf[pos + 1] == 0x75 && buf[pos + 2] == 0x6c && buf[pos + 3] == 0x6c {
            Some((Value::Null, pos + 4))
        } else {
            None
        }
    } else if b == 0x74 {
        if len - pos >= 4 && buf[pos + 1] == 0x72 && buf[pos + 2] == 0x75 && buf[pos + 3] == 0x65 {
            Some((Value::Bool(true), pos + 4))
        } else {
            None
        }
    } else if b == 0x66 {
        if len - pos >= 5 && buf[pos + 1] == 0x61 && buf[pos + 2] == 0x6c && buf[pos + 3] == 0x73
            && buf[pos + 4] == 0x65 {
            Some((Value::Bool(false), pos + 5))
        } else {
            None
        }
    } else if b == 0x22 {
        proof {
            assert(s.drop_first() =~= buf@.subrange(pos as int + 1, len as int));
        }
        match parse_strbody(buf, pos + 1) {
            Some((t, np)) => {
                if t.len() as u64 <= 0xffffffff {
                    Some((Value::Text(t), np))
                } else {
                    None
                }
            },
            None => None,
        }
    } else if b == 0x5b {
        proof {
            assert(s.drop_first() =~= buf@.subrange(pos as int + 1, len as int));
        }
        if pos + 1 < len && buf[pos + 1] == 0x5d {
            proof {
                assert(s[1] == buf@[pos as int + 1]);
            }
            let out: Vec<Value> = Vec::new();
            proof {
                assert(models(out@) =~= Seq::<SpecValue>::empty());
            }
            Some((Value::Arr(out), pos + 2))
        } else {
            proof {
                if pos + 1 < len {
                    assert(s[1] == buf@[pos as int + 1]);
                }
            }
            match parse_elems(buf, pos + 1) {
                Some((xs, np)) => {
                    if xs.len() as u64 <= 0xffffffff {
                        proof {
                            broadcast use lemma_models;

                        }
                        Some((Value::Arr(xs), np))
                    } else {
                        proof {
                            broadcast use lemma_models;

                        }
                        None
                    }
                },
                None => None,
            }
        }
    } else if b == 0x7b {
        proof {
            assert(s.drop_first() =~= buf@.subrange(pos as int + 1, len as int));
        }
        if pos + 1 < len && buf[pos + 1] == 0x7d {
            proof {
                assert(s[1] == buf@[pos as int + 1]);
            }
            let out: Vec<(Vec<u8>, Value)> = Vec::new();
            proof {
                assert(model_pairs(out@) =~= Seq::<(Seq<u8>, SpecValue)>::empty());
            }
            Some((Value::Obj(out), pos + 2))
        } else {
            proof {
                if pos + 1 < len {
                    assert(s[1] == buf@[pos as int + 1]);
                }
            }
            match parse_membs(buf, pos + 1) {
                Some((ps, np)) => {
                    if ps.len() as u64 <= 0xffffffff {
                        proof {
                            broadcast use lemma_model_pairs;

                        }
                        Some((Value::Obj(ps), np))
                    } else {
                        proof {
                            broadcast use lemma_model_pairs;

                        }
                        None
                    }
                },
                None => None,
            }
        }
    } else if b == 0x2d {
        proof {
            assert(s.drop_first() =~= buf@.subrange(pos as int + 1, len as int));
        }
        match parse_num(buf, pos + 1) {
            Some((val, np)) => {
                if val == 0 {
                    Some((Value::UInt(0), np))
                } else if val <= 0x8000000000000000 {
                    let i = (-(val as i128)) as i64;
                    Some((Value::Int(i), np))
                } else {
                    None
                }
            },
            None => None,
        }
    } else if 0x30 <= b && b <= 0x39 {
        match parse_num(buf, pos) {
            Some((val, np)) => Some((Value::UInt(val), np)),
            None => None,
        }
    } else {
        None
    }
}

/// Parses comma-separated elements and the closing bracket starting at
/// `pos`, mirroring `jparse_elems`.
#[verifier::rlimit(100)]
#[verifier::spinoff_prover]
fn parse_elems(buf: &[u8], pos: usize) -> (r: Option<(Vec<Value>, usize)>)
    requires
        pos <= buf@.len(),
    ensures
        match r {
            Some(p) => {
                &&& pos < p.1 <= buf@.len()
                &&& jparse_elems(buf@.subrange(pos as int, buf@.len() as int)) == Some(
                    (models(p.0@), (p.1 - pos) as int),
                )
                &&& forall|i: int| 0 <= i < p.0@.len() ==> wf(model(#[trigger] p.0@[i]))
            },
            None => jparse_elems(buf@.subrange(pos as int, buf@.len() as int)) is None,
        },
    decreases buf@.len() - pos, 1nat,
{
    let ghost s = buf@.subrange(pos as int, buf@.len() as int);
    let len = buf.len();
    match parse_value(buf, pos) {
        Some((v, np)) => {
            proof {
                assert(jparse(s) == Some((model(v), (np - pos) as int)));
            }
            if np >= len {
                proof {
                    assert((np - pos) as int >= s.len());
                }
                return None;
            }
            let sep = buf[np];
            proof {
                assert(s[(np - pos) as int] == buf@[np as int]);
            }
            if sep == 0x5d {
                let mut out: Vec<Value> = Vec::new();
                out.push(v);
                proof {
                    broadcast use lemma_models;

                    assert(models(out@) =~= seq![model(v)]);
                }
                Some((out, np + 1))
            } else if sep == 0x2c {
                proof {
                    assert(s.subrange((np + 1 - pos) as int, s.len() as int) =~= buf@.subrange(
                        np as int + 1,
                        len as int,
                    ));
                }
                match parse_elems(buf, np + 1) {
                    Some((mut xs, np2)) => {
                        let ghost xsv = xs@;
                        let mut out: Vec<Value> = Vec::new();
                        out.push(v);
                        out.append(&mut xs);
                        proof {
                            broadcast use lemma_models;

                            assert(out@ =~= seq![v] + xsv);
                            assert(models(out@) =~= seq![model(v)] + models(xsv));
                        }
                        Some((out, np2))
                    },
                    None => None,
                }
            } else {
                None
            }
        },
        None => None,
    }
}

/// Parses comma-separated members and the closing brace starting at `pos`,
/// mirroring `jparse_membs`.
#[verifier::rlimit(100)]
#[verifier::spinoff_prover]
fn parse_membs(buf: &[u8], pos: usize) -> (r: Option<(Vec<(Vec<u8>, Value)>, usize)>)
    requires
        pos <= buf@.len(),
    ensures
        match r {
            Some(p) => {
                &&& pos < p.1 <= buf@.len()
                &&& jparse_membs(buf@.subrange(pos as int, buf@.len() as int)) == Some(
                    (model_pairs(p.0@), (p.1 - pos) as int),
                )
                &&& forall|i: int| 0 <= i < p.0@.len() ==> wf(model(#[trigger] p.0@[i].1))
                    && p.0@[i].0@.len() <= u32::MAX
            },
            None => jparse_membs(buf@.subrange(pos as int, buf@.len() as int)) is None,
        },
    decreases buf@.len() - pos, 1nat,
{
    let ghost s = buf@.subrange(pos as int, buf@.len() as int);
    let len = buf.len();
    if pos >= len {
        return None;
    }
    let b = buf[pos];
    proof {
        assert(s[0] == buf@[pos as int]);
    }
    if b != 0x22 {
        return None;
    }
    proof {
        assert(s.drop_first() =~= buf@.subrange(pos as int + 1, len as int));
    }
    match parse_strbody(buf, pos + 1) {
        Some((key, np1)) => {
            proof {
                assert(jparse_strbody(s.drop_first()) == Some((key@, (np1 - pos - 1) as int)));
            }
            if key.len() as u64 > 0xffffffff {
                return None;
            }
            if np1 >= len {
                proof {
                    assert(1 + (np1 - pos - 1) as int >= s.len());
                }
                return None;
            }
            if buf[np1] != 0x3a {
                proof {
                    assert(s[(np1 - pos) as int] == buf@[np1 as int]);
                }
                return None;
            }
            proof {
                assert(s[(np1 - pos) as int] == buf@[np1 as int]);
                assert(s.subrange((np1 + 1 - pos) as int, s.len() as int) =~= buf@.subrange(
                    np1 as int + 1,
                    len as int,
                ));
            }
            match parse_value(buf, np1 + 1) {
                Some((v, np2)) => {
                    if np2 >= len {
                        proof {
                            assert((np2 - pos) as int >= s.len());
                        }
                        return None;
                    }
                    let sep = buf[np2];
                    proof {
                        assert(s[(np2 - pos) as int] == buf@[np2 as int]);
                    }
                    if sep == 0x7d {
                        let mut out: Vec<(Vec<u8>, Value)> = Vec::new();
                        out.push((key, v));
                        proof {
                            broadcast use lemma_model_pairs;

                            assert(model_pairs(out@) =~= seq![(out@[0].0@, model(out@[0].1))]);
                        }
                        Some((out, np2 + 1))
                    } else if sep == 0x2c {
                        proof {
                            assert(s.subrange((np2 + 1 - pos) as int, s.len() as int)
                                =~= buf@.subrange(np2 as int + 1, len as int));
                        }
                        match parse_membs(buf, np2 + 1) {
                            Some((mut ps, np3)) => {
                                let ghost psv = ps@;
                                let ghost kv = key@;
                                let ghost vv = model(v);
                                let mut out: Vec<(Vec<u8>, Value)> = Vec::new();
                                out.push((key, v));
                                out.append(&mut ps);
                                proof {
                                    broadcast use lemma_model_pairs;

                                    assert(out@[0].0@ == kv && model(out@[0].1) == vv);
                                    assert(model_pairs(out@) =~= seq![(kv, vv)] + model_pairs(
                                        psv,
                                    ));
                                }
                                Some((out, np3))
                            },
                            None => None,
                        }
                    } else {
                        None
                    }
                },
                None => None,
            }
        },
        None => None,
    }
}

/// Parses a whole document into a structured value, mirroring
/// `jparse_full`.
pub fn parse(buf: &[u8]) -> (r: Option<Value>)
    ensures
        match r {
            Some(v) => jparse_full(buf@) == Some(model(v)) && wf(model(v)),
            None => jparse_full(buf@) is None,
        },
{
    proof {
        assert(buf@.subrange(0, buf@.len() as int) =~= buf@);
    }
    match parse_value(buf, 0) {
        Some((v, np)) => {
            if np == buf.len() {
                Some(v)
            } else {
                None
            }
        },
        None => None,
    }
}

/// Law: parsing the document of any well-formed structured value yields
/// that value back, exactly.
pub proof fn lemma_parse_format(v: SpecValue)
    requires
        wf(v),
    ensures
        jparse_full(jfmt(v)) == Some(v),
{
    lemma_jrt(v, Seq::empty());
    assert(jfmt(v) + Seq::<u8>::empty() =~= jfmt(v));
}

} // verus!
