//! The binary codec: a compact, self-describing wire encoding of the
//! structured value model, with a proved round-trip guarantee in both
//! directions.
//!
//! The layout is the MessagePack layout for the shapes the value model can
//! take (nil, booleans, integers, strings, arrays, maps), always using the
//! shortest header that fits, which is what common encoders emit.

use vstd::prelude::*;
use crate::value::{Value, SpecValue, model, models, model_pairs, wf, lemma_models,
    lemma_model_pairs};

verus! {

/// 256 to the power `k`: the number of values `k` bytes can hold.
pub open spec fn pow256(k: nat) -> int
    decreases k,
{
    if k == 0 {
        1
    } else {
        256 * pow256((k - 1) as nat)
    }
}

/// The big-endian encoding of `n` in exactly `k` bytes.
pub open spec fn be(n: int, k: nat) -> Seq<u8>
    decreases k,
{
    if k == 0 {
        Seq::empty()
    } else {
        be(n / 256, (k - 1) as nat) + seq![(n % 256) as u8]
    }
}

/// The number a big-endian byte sequence stands for.
pub open spec fn rd(s: Seq<u8>) -> int
    decreases s.len(),
{
    if s.len() == 0 {
        0
    } else {
        rd(s.drop_last()) * 256 + s.last()
    }
}

/// The header of a string of `n` bytes: the shortest form that fits.
pub open spec fn str_header(n: int) -> Seq<u8> {
    if n < 32 {
        seq![(0xa0 + n) as u8]
    } else if n < 0x100 {
        seq![0xd9u8, n as u8]
    } else if n < 0x10000 {
        seq![0xdau8] + be(n, 2)
    } else {
        seq![0xdbu8] + be(n, 4)
    }
}

/// The encoding of a string: its header, then its UTF-8 bytes.
pub open spec fn enc_str(t: Seq<u8>) -> Seq<u8> {
    str_header(t.len() as int) + t
}

/// The encoding of a non-negative integer: the shortest form that fits.
pub open spec fn enc_uint(n: u64) -> Seq<u8> {
    let m = n as int;
    if m < 0x80 {
        seq![n as u8]
    } else if m < 0x100 {
        seq![0xccu8] + be(m, 1)
    } else if m < 0x10000 {
        seq![0xcdu8] + be(m, 2)
    } else if m < 0x100000000 {
        seq![0xceu8] + be(m, 4)
    } else {
        seq![0xcfu8] + be(m, 8)
    }
}

/// The encoding of a negative integer: the shortest signed form that fits,
/// with the payload held as the usual two's-complement offset.
pub open spec fn enc_int(i: i64) -> Seq<u8> {
    let m = i as int;
    if m >= -32 {
        seq![(m + 0x100) as u8]
    } else if m >= -0x80 {
        seq![0xd0u8] + be(m + 0x100, 1)
    } else if m >= -0x8000 {
        seq![0xd1u8] + be(m + 0x10000, 2)
    } else if m >= -0x80000000 {
        seq![0xd2u8] + be(m + 0x100000000, 4)
    } else {
        seq![0xd3u8] + be(m + 0x10000000000000000, 8)
    }
}

/// The header of an array of `n` elements: the shortest form that fits.
pub open spec fn arr_header(n: int) -> Seq<u8> {
    if n < 16 {
        seq![(0x90 + n) as u8]
    } else if n < 0x10000 {
        seq![0xdcu8] + be(n, 2)
    } else {
        seq![0xddu8] + be(n, 4)
    }
}

/// The header of a map of `n` pairs: the shortest form that fits.
pub open spec fn map_header(n: int) -> Seq<u8> {
    if n < 16 {
        seq![(0x80 + n) as u8]
    } else if n < 0x10000 {
        seq![0xdeu8] + be(n, 2)
    } else {
        seq![0xdfu8] + be(n, 4)
    }
}

/// The binary encoding of a structured value.
pub open spec fn enc(v: SpecValue) -> Seq<u8>
    decreases v, 0nat, 0nat,
{
    match v {
        SpecValue::Null => seq![0xc0u8],
        SpecValue::Bool(b) => if b {
            seq![0xc3u8]
        } else {
            seq![0xc2u8]
        },
        SpecValue::UInt(n) => enc_uint(n),
        SpecValue::Int(i) => enc_int(i),
        SpecValue::Text(t) => enc_str(t),
        SpecValue::Arr(xs) => arr_header(xs.len() as int) + enc_list(xs),
        SpecValue::Obj(ps) => map_header(ps.len() as int) + enc_obj(ps),
    }
}

/// The concatenated encodings of a sequence of values.
pub open spec fn enc_list(s: Seq<SpecValue>) -> Seq<u8>
    decreases s, 1nat, s.len(),
{
    if s.len() == 0 {
        Seq::empty()
    } else {
        enc(s[0]) + enc_list(s.drop_first())
    }
}

/// The concatenated encodings of a sequence of key/value pairs: each key as
/// a string, then its value.
pub open spec fn enc_obj(s: Seq<(Seq<u8>, SpecValue)>) -> Seq<u8>
    decreases s, 1nat, s.len(),
{
    if s.len() == 0 {
        Seq::empty()
    } else {
        enc_str(s[0].0) + enc(s[0].1) + enc_obj(s.drop_first())
    }
}

/// Decodes the string whose encoding starts `s`, if any: the string's bytes
/// and how many bytes of `s` its encoding took.
pub open spec fn dec_str(s: Seq<u8>) -> Option<(Seq<u8>, int)> {
    if s.len() == 0 {
        None
    } else {
        let b = s[0];
        if 0xa0 <= b < 0xc0 {
            let n = b - 0xa0;
            if s.len() >= 1 + n {
                Some((s.subrange(1, 1 + n), 1 + n))
            } else {
                None
            }
        } else if b == 0xd9 {
            if s.len() >= 2 {
                let n = s[1] as int;
                if s.len() >= 2 + n {
                    Some((s.subrange(2, 2 + n), 2 + n))
                } else {
                    None
                }
            } else {
                None
            }
        } else if b == 0xda {
            if s.len() >= 3 {
                let n = rd(s.subrange(1, 3));
                if s.len() >= 3 + n {
                    Some((s.subrange(3, 3 + n), 3 + n))
                } else {
                    None
                }
            } else {
                None
            }
        } else if b == 0xdb {
            if s.len() >= 5 {
                let n = rd(s.subrange(1, 5));
                if s.len() >= 5 + n {
                    Some((s.subrange(5, 5 + n), 5 + n))
                } else {
                    None
                }
            } else {
                None
            }
        } else {
            None
        }
    }
}

/// The number a `k`-byte signed payload stands for: the two's-complement
/// reading of the unsigned number `u`.
pub open spec fn signed_of(u: int, k: nat) -> int {
    if u >= pow256(k) / 2 {
        u - pow256(k)
    } else {
        u
    }
}

/// An integer as a structured value: negative numbers as `Int`, others as
/// `UInt`, so that decoded values are well-formed.
pub open spec fn int_value(m: int) -> SpecValue {
    if m < 0 {
        SpecValue::Int(m as i64)
    } else {
        SpecValue::UInt(m as u64)
    }
}

/// Decodes the value whose encoding starts `s`, if any: the value and how
/// many bytes of `s` its encoding took.
pub open spec fn dec(s: Seq<u8>) -> Option<(SpecValue, int)>
    decreases s.len(), 0nat, 0nat,
{
    if s.len() == 0 {
        None
    } else {
        let b = s[0];
        if b < 0x80 {
            Some((SpecValue::UInt(b as u64), 1))
        } else if b < 0x90 {
            let n = b - 0x80;
            match dec_obj(s.drop_first(), n as int) {
                Some((ps, k)) => Some((SpecValue::Obj(ps), 1 + k)),
                None => None,
            }
        } else if b < 0xa0 {
            let n = b - 0x90;
            match dec_list(s.drop_first(), n as int) {
                Some((xs, k)) => Some((SpecValue::Arr(xs), 1 + k)),
                None => None,
            }
        } else if b < 0xc0 {
            match dec_str(s) {
                Some((t, k)) => Some((SpecValue::Text(t), k)),
                None => None,
            }
        } else if b == 0xc0 {
            Some((SpecValue::Null, 1))
        } else if b == 0xc2 {
            Some((SpecValue::Bool(false), 1))
        } else if b == 0xc3 {
            Some((SpecValue::Bool(true), 1))
        } else if b == 0xcc || b == 0xcd || b == 0xce || b == 0xcf {
            let k: int = if b == 0xcc {
                1
            } else if b == 0xcd {
                2
            } else if b == 0xce {
                4
            } else {
                8
            };
            if s.len() >= 1 + k {
                Some((SpecValue::UInt(rd(s.subrange(1, 1 + k)) as u64), 1 + k))
            } else {
                None
            }
        } else if b == 0xd0 || b == 0xd1 || b == 0xd2 || b == 0xd3 {
            let k: int = if b == 0xd0 {
                1
            } else if b == 0xd1 {
                2
            } else if b == 0xd2 {
                4
            } else {
                8
            };
            if s.len() >= 1 + k {
                Some((int_value(signed_of(rd(s.subrange(1, 1 + k)), k as nat)), 1 + k))
            } else {
                None
            }
        } else if b == 0xd9 || b == 0xda || b == 0xdb {
            match dec_str(s) {
                Some((t, k)) => Some((SpecValue::Text(t), k)),
                None => None,
            }
        } else if b == 0xdc || b == 0xdd {
            let hk: int = if b == 0xdc {
                2
            } else {
                4
            };
            if s.len() >= 1 + hk {
                let n = rd(s.subrange(1, 1 + hk));
                match dec_list(s.subrange(1 + hk, s.len() as int), n) {
                    Some((xs, k)) => Some((SpecValue::Arr(xs), 1 + hk + k)),
                    None => None,
                }
            } else {
                None
            }
        } else if b == 0xde || b == 0xdf {
            let hk: int = if b == 0xde {
                2
            } else {
                4
            };
            if s.len() >= 1 + hk {
                let n = rd(s.subrange(1, 1 + hk));
                match dec_obj(s.subrange(1 + hk, s.len() as int), n) {
                    Some((ps, k)) => Some((SpecValue::Obj(ps), 1 + hk + k)),
                    None => None,
                }
            } else {
                None
            }
        } else if b >= 0xe0 {
            Some((SpecValue::Int((b as int - 0x100) as i64), 1))
        } else {
            None
        }
    }
}

/// Decodes `n` consecutive values from the start of `s`, if possible.
pub open spec fn dec_list(s: Seq<u8>, n: int) -> Option<(Seq<SpecValue>, int)>
    decreases s.len(), 1nat, n,
{
    if n <= 0 {
        Some((Seq::empty(), 0))
    } else {
        match dec(s) {
            Some((v, k)) => if 1 <= k <= s.len() {
                match dec_list(s.subrange(k, s.len() as int), n - 1) {
                    Some((xs, k2)) => Some((seq![v] + xs, k + k2)),
                    None => None,
                }
            } else {
                None
            },
            None => None,
        }
    }
}

/// Decodes `n` consecutive key/value pairs from the start of `s`, if
/// possible; each key must be a string.
pub open spec fn dec_obj(s: Seq<u8>, n: int) -> Option<(Seq<(Seq<u8>, SpecValue)>, int)>
    decreases s.len(), 1nat, n,
{
    if n <= 0 {
        Some((Seq::empty(), 0))
    } else {
        match dec_str(s) {
            Some((t, k)) => if 1 <= k <= s.len() {
                match dec(s.subrange(k, s.len() as int)) {
                    Some((v, k2)) => if 1 <= k2 <= s.len() - k {
                        match dec_obj(s.subrange(k + k2, s.len() as int), n - 1) {
                            Some((ps, k3)) => Some((seq![(t, v)] + ps, k + k2 + k3)),
                            None => None,
                        }
                    } else {
                        None
                    },
                    None => None,
                }
            } else {
                None
            },
            None => None,
        }
    }
}

/// The values of `pow256` that the byte-width headers use.
proof fn lemma_pow256_vals()
    ensures
        pow256(1) == 0x100,
        pow256(2) == 0x10000,
        pow256(4) == 0x100000000,
        pow256(8) == 0x10000000000000000,
{
    reveal_with_fuel(pow256, 9);
}

/// A big-endian encoding is exactly `k` bytes long.
proof fn lemma_be_len(n: int, k: nat)
    ensures
        be(n, k).len() == k,
    decreases k,
{
    if k > 0 {
        lemma_be_len(n / 256, (k - 1) as nat);
    }
}

/// Reading back a big-endian encoding yields the encoded number.
proof fn lemma_be_rd(n: int, k: nat)
    requires
        0 <= n < pow256(k),
    ensures
        be(n, k).len() == k,
        rd(be(n, k)) == n,
    decreases k,
{
    lemma_be_len(n, k);
    if k > 0 {
        assert(pow256(k) == 256 * pow256((k - 1) as nat));
        assert(0 <= n / 256 < pow256((k - 1) as nat)) by (nonlinear_arith)
            requires
                0 <= n < 256 * pow256((k - 1) as nat),
        ;
        lemma_be_rd(n / 256, (k - 1) as nat);
        let s = be(n, k);
        assert(s.drop_last() =~= be(n / 256, (k - 1) as nat));
        assert(s.last() == (n % 256) as u8);
    }
}

/// Every encoding takes at least one byte.
proof fn lemma_enc_len(v: SpecValue)
    ensures
        enc(v).len() >= 1,
{
    match v {
        SpecValue::UInt(n) => {
            lemma_be_len(n as int, 1);
        },
        _ => {},
    }
}

/// Decoding the encoding of a string, with anything after it, yields the
/// string and consumes exactly its encoding.
proof fn lemma_rt_str(t: Seq<u8>, rest: Seq<u8>)
    requires
        t.len() <= u32::MAX,
    ensures
        enc_str(t).len() >= 1 + t.len(),
        dec_str(enc_str(t) + rest) == Some((t, enc_str(t).len() as int)),
{
    lemma_pow256_vals();
    let n = t.len() as int;
    let s = enc_str(t) + rest;
    if n < 32 {
        assert(s[0] == (0xa0 + n) as u8);
        assert(s.subrange(1, 1 + n) =~= t);
    } else if n < 0x100 {
        assert(s[0] == 0xd9u8);
        assert(s[1] == n as u8);
        assert(s.subrange(2, 2 + n) =~= t);
    } else if n < 0x10000 {
        lemma_be_rd(n, 2);
        assert(s[0] == 0xdau8);
        assert(s.subrange(1, 3) =~= be(n, 2));
        assert(s.subrange(3, 3 + n) =~= t);
    } else {
        lemma_be_rd(n, 4);
        assert(s[0] == 0xdbu8);
        assert(s.subrange(1, 5) =~= be(n, 4));
        assert(s.subrange(5, 5 + n) =~= t);
    }
}

/// Decoding the encoding of a well-formed value, with anything after it,
/// yields the value back and consumes exactly its encoding.
/// The scalar cases of the round trip: values without children.
#[verifier::spinoff_prover]
proof fn lemma_rt_atom(v: SpecValue, rest: Seq<u8>)
    requires
        wf(v),
        !(v is Arr),
        !(v is Obj),
    ensures
        dec(enc(v) + rest) == Some((v, enc(v).len() as int)),
{
    lemma_pow256_vals();
    let s = enc(v) + rest;
    match v {
        SpecValue::Null => {},
        SpecValue::Bool(b) => {},
        SpecValue::UInt(n) => {
            let m = n as int;
            if m < 0x80 {
            } else if m < 0x100 {
                lemma_be_rd(m, 1);
                assert(s.subrange(1, 2) =~= be(m, 1));
            } else if m < 0x10000 {
                lemma_be_rd(m, 2);
                assert(s.subrange(1, 3) =~= be(m, 2));
            } else if m < 0x100000000 {
                lemma_be_rd(m, 4);
                assert(s.subrange(1, 5) =~= be(m, 4));
            } else {
                lemma_be_rd(m, 8);
                assert(s.subrange(1, 9) =~= be(m, 8));
            }
        },
        SpecValue::Int(i) => {
            let m = i as int;
            if m >= -32 {
                assert(s[0] == (m + 0x100) as u8);
            } else if m >= -0x80 {
                lemma_be_rd(m + 0x100, 1);
                assert(s.subrange(1, 2) =~= be(m + 0x100, 1));
            } else if m >= -0x8000 {
                lemma_be_rd(m + 0x10000, 2);
                assert(s.subrange(1, 3) =~= be(m + 0x10000, 2));
            } else if m >= -0x80000000 {
                lemma_be_rd(m + 0x100000000, 4);
                assert(s.subrange(1, 5) =~= be(m + 0x100000000, 4));
            } else {
                lemma_be_rd(m + 0x10000000000000000, 8);
                assert(s.subrange(1, 9) =~= be(m + 0x10000000000000000, 8));
            }
        },
        SpecValue::Text(t) => {
            lemma_rt_str(t, rest);
            assert(enc_str(t) + rest =~= s);
        },
        SpecValue::Arr(xs) => {},
        SpecValue::Obj(ps) => {},
    }
}

/// Decoding the encoding of a well-formed value, with anything after it,
/// yields the value back and consumes exactly its encoding.
#[verifier::spinoff_prover]
pub proof fn lemma_rt(v: SpecValue, rest: Seq<u8>)
    requires
        wf(v),
    ensures
        dec(enc(v) + rest) == Some((v, enc(v).len() as int)),
    decreases v, 0nat, 0nat,
{
    lemma_pow256_vals();
    let s = enc(v) + rest;
    match v {
        SpecValue::Null => {
            lemma_rt_atom(v, rest);
        },
        SpecValue::Bool(b) => {
            lemma_rt_atom(v, rest);
        },
        SpecValue::UInt(n) => {
            lemma_rt_atom(v, rest);
        },
        SpecValue::Int(i) => {
            lemma_rt_atom(v, rest);
        },
        SpecValue::Text(t) => {
            lemma_rt_atom(v, rest);
        },
        SpecValue::Arr(xs) => {
            let n = xs.len() as int;
            let body = enc_list(xs);
            lemma_rt_list(xs, rest);
            if n < 16 {
                assert(s[0] == (0x90 + n) as u8);
                assert(s.drop_first() =~= body + rest);
            } else if n < 0x10000 {
                lemma_be_rd(n, 2);
                assert(s[0] == 0xdcu8);
                assert(s.subrange(1, 3) =~= be(n, 2));
                assert(s.subrange(3, s.len() as int) =~= body + rest);
            } else {
                lemma_be_rd(n, 4);
                assert(s[0] == 0xddu8);
                assert(s.subrange(1, 5) =~= be(n, 4));
                assert(s.subrange(5, s.len() as int) =~= body + rest);
            }
        },
        SpecValue::Obj(ps) => {
            let n = ps.len() as int;
            let body = enc_obj(ps);
            assert forall|i: int| 0 <= i < ps.len() implies wf(#[trigger] ps[i].1)
                && ps[i].0.len() <= u32::MAX by {
                assert(wf(v));
            }
            lemma_rt_obj(ps, rest);
            if n < 16 {
                assert(s[0] == (0x80 + n) as u8);
                assert(s.drop_first() =~= body + rest);
            } else if n < 0x10000 {
                lemma_be_rd(n, 2);
                assert(s[0] == 0xdeu8);
                assert(s.subrange(1, 3) =~= be(n, 2));
                assert(s.subrange(3, s.len() as int) =~= body + rest);
            } else {
                lemma_be_rd(n, 4);
                assert(s[0] == 0xdfu8);
                assert(s.subrange(1, 5) =~= be(n, 4));
                assert(s.subrange(5, s.len() as int) =~= body + rest);
            }
        },
    }
}

/// Decoding the concatenated encodings of well-formed values, with anything
/// after them, yields the values back.
proof fn lemma_rt_list(xs: Seq<SpecValue>, rest: Seq<u8>)
    requires
        forall|i: int| 0 <= i < xs.len() ==> wf(#[trigger] xs[i]),
    ensures
        dec_list(enc_list(xs) + rest, xs.len() as int) == Some(
            (xs, enc_list(xs).len() as int),
        ),
    decreases xs, 1nat, 0nat,
{
    let s = enc_list(xs) + rest;
    if xs.len() == 0 {
        assert(enc_list(xs) + rest =~= rest);
        assert(dec_list(s, 0) == Some((Seq::<SpecValue>::empty(), 0int)));
        assert(xs =~= Seq::<SpecValue>::empty());
    } else {
        let v = xs[0];
        let tail = xs.drop_first();
        let k0 = enc(v).len() as int;
        lemma_enc_len(v);
        lemma_rt(v, enc_list(tail) + rest);
        assert(enc(v) + (enc_list(tail) + rest) =~= s);
        assert(dec(s) == Some((v, k0)));
        lemma_rt_list(tail, rest);
        assert(s.subrange(k0, s.len() as int) =~= enc_list(tail) + rest);
        assert(seq![v] + tail =~= xs);
    }
}

/// Decoding the concatenated encodings of well-formed key/value pairs, with
/// anything after them, yields the pairs back.
proof fn lemma_rt_obj(ps: Seq<(Seq<u8>, SpecValue)>, rest: Seq<u8>)
    requires
        forall|i: int| 0 <= i < ps.len() ==> wf(#[trigger] ps[i].1) && ps[i].0.len()
            <= u32::MAX,
    ensures
        dec_obj(enc_obj(ps) + rest, ps.len() as int) == Some(
            (ps, enc_obj(ps).len() as int),
        ),
    decreases ps, 1nat, 0nat,
{
    let s = enc_obj(ps) + rest;
    if ps.len() == 0 {
        assert(dec_obj(s, 0) == Some((Seq::<(Seq<u8>, SpecValue)>::empty(), 0int)));
        assert(ps =~= Seq::<(Seq<u8>, SpecValue)>::empty());
    } else {
        let t = ps[0].0;
        let v = ps[0].1;
        let tail = ps.drop_first();
        let k1 = enc_str(t).len() as int;
        let k2 = enc(v).len() as int;
        lemma_enc_len(v);
        lemma_rt_str(t, enc(v) + enc_obj(tail) + rest);
        assert(enc_str(t) + (enc(v) + enc_obj(tail) + rest) =~= s);
        assert(dec_str(s) == Some((t, k1)));
        lemma_rt(v, enc_obj(tail) + rest);
        assert(s.subrange(k1, s.len() as int) =~= enc(v) + (enc_obj(tail) + rest));
        assert(enc(v) + (enc_obj(tail) + rest) =~= enc(v) + enc_obj(tail) + rest);
        lemma_rt_obj(tail, rest);
        assert(s.subrange(k1 + k2, s.len() as int) =~= enc_obj(tail) + rest);
        assert(seq![(t, v)] + tail =~= ps);
    }
}

/// Decodes a whole buffer: the value whose encoding is exactly `s`.
pub open spec fn dec_full(s: Seq<u8>) -> Option<SpecValue> {
    match dec(s) {
        Some((v, k)) => if k == s.len() {
            Some(v)
        } else {
            None
        },
        None => None,
    }
}

/// Law: decoding the encoding of any well-formed structured value yields
/// that value back, exactly.
pub proof fn lemma_decode_encode(v: SpecValue)
    requires
        wf(v),
    ensures
        dec_full(enc(v)) == Some(v),
{
    lemma_rt(v, Seq::empty());
    assert(enc(v) + Seq::<u8>::empty() =~= enc(v));
}

/// Law: any buffer the encoder produced decodes, and re-encoding the decoded
/// value yields the buffer back, byte for byte.
pub proof fn lemma_encode_decode(b: Seq<u8>, v: SpecValue)
    requires
        wf(v),
        b == enc(v),
    ensures
        dec_full(b) == Some(v),
        enc(v) == b,
{
    lemma_decode_encode(v);
}

/// `enc_list` distributes over concatenation.
proof fn lemma_enc_list_app(a: Seq<SpecValue>, b: Seq<SpecValue>)
    ensures
        enc_list(a + b) == enc_list(a) + enc_list(b),
    decreases a.len(),
{
    if a.len() == 0 {
        assert(a + b =~= b);
        assert(enc_list(a) + enc_list(b) =~= enc_list(b));
    } else {
        assert((a + b).drop_first() =~= a.drop_first() + b);
        lemma_enc_list_app(a.drop_first(), b);
        assert((a + b)[0] == a[0]);
        assert(enc(a[0]) + (enc_list(a.drop_first()) + enc_list(b)) =~= (enc(a[0])
            + enc_list(a.drop_first())) + enc_list(b));
    }
}

/// `enc_obj` distributes over concatenation.
proof fn lemma_enc_obj_app(a: Seq<(Seq<u8>, SpecValue)>, b: Seq<(Seq<u8>, SpecValue)>)
    ensures
        enc_obj(a + b) == enc_obj(a) + enc_obj(b),
    decreases a.len(),
{
    if a.len() == 0 {
        assert(a + b =~= b);
        assert(enc_obj(a) + enc_obj(b) =~= enc_obj(b));
    } else {
        assert((a + b).drop_first() =~= a.drop_first() + b);
        lemma_enc_obj_app(a.drop_first(), b);
        assert((a + b)[0] == a[0]);
        assert(enc_str(a[0].0) + enc(a[0].1) + (enc_obj(a.drop_first()) + enc_obj(b)) =~= (
        enc_str(a[0].0) + enc(a[0].1) + enc_obj(a.drop_first())) + enc_obj(b));
    }
}

/// A single value's encoding is `enc_list` of the one-element sequence.
proof fn lemma_enc_list_one(v: SpecValue)
    ensures
        enc_list(seq![v]) == enc(v),
{
    let s = seq![v];
    assert(s.drop_first() =~= Seq::<SpecValue>::empty());
    assert(enc_list(Seq::<SpecValue>::empty()) =~= Seq::<u8>::empty());
    assert(enc_list(s) =~= enc(v));
}

/// A single pair's encoding is `enc_obj` of the one-element sequence.
proof fn lemma_enc_obj_one(p: (Seq<u8>, SpecValue))
    ensures
        enc_obj(seq![p]) == enc_str(p.0) + enc(p.1),
{
    let s = seq![p];
    assert(s.drop_first() =~= Seq::<(Seq<u8>, SpecValue)>::empty());
    assert(enc_obj(Seq::<(Seq<u8>, SpecValue)>::empty()) =~= Seq::<u8>::empty());
    assert(enc_obj(s) =~= enc_str(p.0) + enc(p.1));
}

/// Writes the big-endian encoding of `n` in `k` bytes.
fn push_be(out: &mut Vec<u8>, n: u64, k: usize)
    ensures
        final(out)@ == old(out)@ + be(n as int, k as nat),
    decreases k,
{
    if k == 0 {
        assert(out@ =~= old(out)@ + be(n as int, 0));
    } else {
        push_be(out, n / 256, k - 1);
        out.push((n % 256) as u8);
        assert(out@ =~= old(out)@ + be(n as int, k as nat));
    }
}

/// Writes the encoding of a string: its header, then its bytes.
fn push_str(out: &mut Vec<u8>, t: &Vec<u8>)
    requires
        t@.len() <= u32::MAX,
    ensures
        final(out)@ == old(out)@ + enc_str(t@),
{
    let n = t.len();
    if n < 32 {
        out.push((0xa0 + n) as u8);
    } else if n < 0x100 {
        out.push(0xd9u8);
        out.push(n as u8);
        assert(out@ =~= old(out)@ + str_header(n as int));
    } else if n < 0x10000 {
        out.push(0xdau8);
        push_be(out, n as u64, 2);
        assert(out@ =~= old(out)@ + str_header(n as int));
    } else {
        out.push(0xdbu8);
        push_be(out, n as u64, 4);
        assert(out@ =~= old(out)@ + str_header(n as int));
    }
    let mut tail = vstd::slice::slice_to_vec(t.as_slice());
    out.append(&mut tail);
    assert(out@ =~= old(out)@ + enc_str(t@));
}

/// Writes the binary encoding of a well-formed value after `out`.
pub fn encode_value(v: &Value, out: &mut Vec<u8>)
    requires
        wf(model(*v)),
    ensures
        final(out)@ == old(out)@ + enc(model(*v)),
    decreases *v,
{
    broadcast use lemma_models, lemma_model_pairs;

    match v {
        Value::Null => {
            out.push(0xc0u8);
        },
        Value::Bool(b) => {
            out.push(if *b {
                0xc3u8
            } else {
                0xc2u8
            });
        },
        Value::UInt(n) => {
            let n = *n;
            if n < 0x80 {
                out.push(n as u8);
            } else if n < 0x100 {
                out.push(0xccu8);
                push_be(out, n, 1);
                assert(out@ =~= old(out)@ + enc_uint(n));
            } else if n < 0x10000 {
                out.push(0xcdu8);
                push_be(out, n, 2);
                assert(out@ =~= old(out)@ + enc_uint(n));
            } else if n < 0x100000000 {
                out.push(0xceu8);
                push_be(out, n, 4);
                assert(out@ =~= old(out)@ + enc_uint(n));
            } else {
                out.push(0xcfu8);
                push_be(out, n, 8);
                assert(out@ =~= old(out)@ + enc_uint(n));
            }
        },
        Value::Int(i) => {
            let i = *i;
            if i >= -32 {
                out.push((i + 0x100) as u8);
            } else if i >= -0x80 {
                out.push(0xd0u8);
                push_be(out, (i + 0x100) as u64, 1);
                assert(out@ =~= old(out)@ + enc_int(i));
            } else if i >= -0x8000 {
                out.push(0xd1u8);
                push_be(out, (i + 0x10000) as u64, 2);
                assert(out@ =~= old(out)@ + enc_int(i));
            } else if i >= -0x80000000 {
                out.push(0xd2u8);
                push_be(out, (i + 0x100000000) as u64, 4);
                assert(out@ =~= old(out)@ + enc_int(i));
            } else {
                out.push(0xd3u8);
                let u = ((i as i128) + 0x10000000000000000i128) as u64;
                push_be(out, u, 8);
                assert(out@ =~= old(out)@ + enc_int(i));
            }
        },
        Value::Text(t) => {
            push_str(out, t);
        },
        Value::Arr(xs) => {
            let n = xs.len();
            if n < 16 {
                out.push((0x90 + n) as u8);
            } else if n < 0x10000 {
                out.push(0xdcu8);
                push_be(out, n as u64, 2);
                assert(out@ =~= old(out)@ + arr_header(n as int));
            } else {
                out.push(0xddu8);
                push_be(out, n as u64, 4);
                assert(out@ =~= old(out)@ + arr_header(n as int));
            }
            let ghost base = out@;
            let mut j: usize = 0;
            while j < n
                invariant
                    *v == Value::Arr(*xs),
                    n == xs@.len(),
                    0 <= j <= n,
                    wf(model(Value::Arr(*xs))),
                    out@ == base + enc_list(models(xs@).take(j as int)),
                decreases n - j,
            {
                proof {
                    broadcast use lemma_models;

                    assert(wf(models(xs@)[j as int]));
                    assert(*v == Value::Arr(*xs));
                    let vv = *v;
                    assert(decreases_to!(vv => vv->Arr_0));
                    assert(vv->Arr_0 == *xs);
                    assert(decreases_to!(*xs => xs@));
                    assert(decreases_to!(xs@ => xs@[j as int]));
                    assert(decreases_to!(*v => xs@[j as int]));
                }
                encode_value(&xs[j], out);
                proof {
                    broadcast use lemma_models;

                    lemma_enc_list_app(models(xs@).take(j as int), seq![model(xs@[j as int])]);
                    assert(models(xs@).take(j + 1) =~= models(xs@).take(j as int) + seq![
                        model(xs@[j as int]),
                    ]);
                    lemma_enc_list_one(model(xs@[j as int]));
                    assert(out@ =~= base + enc_list(models(xs@).take(j + 1)));
                }
                j = j + 1;
            }
            proof {
                assert(models(xs@).take(n as int) =~= models(xs@));
                assert(out@ =~= old(out)@ + enc(model(Value::Arr(*xs))));
            }
        },
        Value::Obj(ps) => {
            let n = ps.len();
            if n < 16 {
                out.push((0x80 + n) as u8);
            } else if n < 0x10000 {
                out.push(0xdeu8);
                push_be(out, n as u64, 2);
                assert(out@ =~= old(out)@ + map_header(n as int));
            } else {
                out.push(0xdfu8);
                push_be(out, n as u64, 4);
                assert(out@ =~= old(out)@ + map_header(n as int));
            }
            let ghost base = out@;
            let mut j: usize = 0;
            while j < n
                invariant
                    *v == Value::Obj(*ps),
                    n == ps@.len(),
                    0 <= j <= n,
                    wf(model(Value::Obj(*ps))),
                    out@ == base + enc_obj(model_pairs(ps@).take(j as int)),
                decreases n - j,
            {
                proof {
                    broadcast use lemma_model_pairs;

                    assert(wf(model_pairs(ps@)[j as int].1));
                    assert(model_pairs(ps@)[j as int].0 == ps@[j as int].0@);
                    assert(ps@[j as int].0@.len() <= u32::MAX);
                    assert(*v == Value::Obj(*ps));
                    let vv = *v;
                    assert(decreases_to!(vv => vv->Obj_0));
                    assert(vv->Obj_0 == *ps);
                    assert(decreases_to!(*ps => ps@));
                    assert(decreases_to!(ps@ => ps@[j as int]));
                    assert(decreases_to!(ps@[j as int] => ps@[j as int].1));
                    assert(decreases_to!(*v => ps@[j as int].1));
                }
                push_str(out, &ps[j].0);
                encode_value(&ps[j].1, out);
                proof {
                    broadcast use lemma_model_pairs;

                    lemma_enc_obj_app(model_pairs(ps@).take(j as int), seq![
                        model_pairs(ps@)[j as int],
                    ]);
                    assert(model_pairs(ps@).take(j + 1) =~= model_pairs(ps@).take(j as int)
                        + seq![model_pairs(ps@)[j as int]]);
                    lemma_enc_obj_one(model_pairs(ps@)[j as int]);
                    assert(out@ =~= base + enc_obj(model_pairs(ps@).take(j + 1)));
                }
                j = j + 1;
            }
            proof {
                assert(model_pairs(ps@).take(n as int) =~= model_pairs(ps@));
                assert(out@ =~= old(out)@ + enc(model(Value::Obj(*ps))));
            }
        },
    }
}

/// `pow256` is positive.
proof fn lemma_pow256_pos(k: nat)
    ensures
        pow256(k) >= 1,
    decreases k,
{
    if k > 0 {
        lemma_pow256_pos((k - 1) as nat);
    }
}

/// `pow256` grows with its argument.
proof fn lemma_pow256_mono(a: nat, b: nat)
    requires
        a <= b,
    ensures
        pow256(a) <= pow256(b),
    decreases b,
{
    if a < b {
        lemma_pow256_mono(a, (b - 1) as nat);
        lemma_pow256_pos((b - 1) as nat);
    }
}

/// Reads `k` big-endian bytes as a number.
fn read_be(buf: &[u8], pos: usize, k: usize) -> (r: u64)
    requires
        k <= 8,
        pos + k <= buf@.len(),
    ensures
        r as int == rd(buf@.subrange(pos as int, (pos + k) as int)),
        (r as int) < pow256(k as nat),
{
    let len = buf.len();
    let mut acc: u64 = 0;
    let mut i: usize = 0;
    proof {
        assert(buf@.subrange(pos as int, pos as int) =~= Seq::<u8>::empty());
    }
    while i < k
        invariant
            k <= 8,
            len == buf@.len(),
            pos + k <= len,
            0 <= i <= k,
            acc as int == rd(buf@.subrange(pos as int, (pos + i) as int)),
            (acc as int) < pow256(i as nat),
        decreases k - i,
    {
        proof {
            lemma_pow256_mono(i as nat, 7);
            lemma_pow256_vals();
            assert(pow256(7) * 256 == pow256(8)) by {
                reveal_with_fuel(pow256, 9);
            }
        }
        let b = buf[pos + i];
        proof {
            let s1 = buf@.subrange(pos as int, (pos + i + 1) as int);
            assert(s1.drop_last() =~= buf@.subrange(pos as int, (pos + i) as int));
            assert(s1.last() == buf@[(pos + i) as int]);
        }
        acc = acc * 256 + (b as u64);
        i = i + 1;
    }
    acc
}

/// Parses the string whose encoding starts at `pos`, mirroring `dec_str`.
fn parse_str(buf: &[u8], pos: usize) -> (r: Option<(Vec<u8>, usize)>)
    requires
        pos <= buf@.len(),
    ensures
        match r {
            Some(p) => {
                &&& pos < p.1 <= buf@.len()
                &&& dec_str(buf@.subrange(pos as int, buf@.len() as int)) == Some(
                    (p.0@, (p.1 - pos) as int),
                )
                &&& p.0@.len() <= u32::MAX
            },
            None => dec_str(buf@.subrange(pos as int, buf@.len() as int)) is None,
        },
{
    let ghost s = buf@.subrange(pos as int, buf@.len() as int);
    let len = buf.len();
    if pos >= len {
        return None;
    }
    let b = buf[pos];
    proof {
        assert(s[0] == buf@[pos as int]);
        lemma_pow256_vals();
    }
    if 0xa0 <= b && b < 0xc0 {
        let n = (b - 0xa0) as usize;
        if len - (pos + 1) >= n {
            let t = vstd::slice::slice_to_vec(
                vstd::slice::slice_subrange(buf, pos + 1, pos + 1 + n),
            );
            proof {
                assert(s.subrange(1, 1 + n as int) =~= buf@.subrange(
                    (pos + 1) as int,
                    (pos + 1 + n) as int,
                ));
            }
            Some((t, pos + 1 + n))
        } else {
            None
        }
    } else if b == 0xd9 {
        if len - pos >= 2 {
            let n = buf[pos + 1] as usize;
            proof {
                assert(s[1] == buf@[(pos + 1) as int]);
            }
            if len - (pos + 2) >= n {
                let t = vstd::slice::slice_to_vec(
                    vstd::slice::slice_subrange(buf, pos + 2, pos + 2 + n),
                );
                proof {
                    assert(s.subrange(2, 2 + n as int) =~= buf@.subrange(
                        (pos + 2) as int,
                        (pos + 2 + n) as int,
                    ));
                }
                Some((t, pos + 2 + n))
            } else {
                None
            }
        } else {
            None
        }
    } else if b == 0xda {
        if len - pos >= 3 {
            let n64 = read_be(buf, pos + 1, 2);
            let n = n64 as usize;
            proof {
                assert(s.subrange(1, 3) =~= buf@.subrange((pos + 1) as int, (pos + 3) as int));
            }
            if len - (pos + 3) >= n {
                let t = vstd::slice::slice_to_vec(
                    vstd::slice::slice_subrange(buf, pos + 3, pos + 3 + n),
                );
                proof {
                    assert(s.subrange(3, 3 + n as int) =~= buf@.subrange(
                        (pos + 3) as int,
                        (pos + 3 + n) as int,
                    ));
                }
                Some((t, pos + 3 + n))
            } else {
                None
            }
        } else {
            None
        }
    } else if b == 0xdb {
        if len - pos >= 5 {
            let n64 = read_be(buf, pos + 1, 4);
            let n = n64 as usize;
            proof {
                assert(s.subrange(1, 5) =~= buf@.subrange((pos + 1) as int, (pos + 5) as int));
            }
            if len - (pos + 5) >= n {
                let t = vstd::slice::slice_to_vec(
                    vstd::slice::slice_subrange(buf, pos + 5, pos + 5 + n),
                );
                proof {
                    assert(s.subrange(5, 5 + n as int) =~= buf@.subrange(
                        (pos + 5) as int,
                        (pos + 5 + n) as int,
                    ));
                }
                Some((t, pos + 5 + n))
            } else {
                None
            }
        } else {
            None
        }
    } else {
        None
    }
}

/// Glues a decoded prefix onto the rest of a list decode.
spec fn glue(pre: Seq<SpecValue>, used: int, r: Option<(Seq<SpecValue>, int)>) -> Option<
    (Seq<SpecValue>, int),
> {
    match r {
        Some((xs, k)) => Some((pre + xs, used + k)),
        None => None,
    }
}

/// Glues a decoded prefix onto the rest of a map decode.
spec fn glue_obj(
    pre: Seq<(Seq<u8>, SpecValue)>,
    used: int,
    r: Option<(Seq<(Seq<u8>, SpecValue)>, int)>,
) -> Option<(Seq<(Seq<u8>, SpecValue)>, int)> {
    match r {
        Some((ps, k)) => Some((pre + ps, used + k)),
        None => None,
    }
}

/// An empty prefix glues to no change.
proof fn lemma_glue_nil(r: Option<(Seq<SpecValue>, int)>)
    ensures
        glue(Seq::empty(), 0, r) == r,
{
    match r {
        Some(p) => {
            assert(Seq::empty() + p.0 =~= p.0);
        },
        None => {},
    }
}

/// Gluing twice is gluing the concatenated prefix once.
proof fn lemma_glue_assoc(
    pre1: Seq<SpecValue>,
    u1: int,
    pre2: Seq<SpecValue>,
    u2: int,
    r: Option<(Seq<SpecValue>, int)>,
)
    ensures
        glue(pre1, u1, glue(pre2, u2, r)) == glue(pre1 + pre2, u1 + u2, r),
{
    match r {
        Some(p) => {
            assert(pre1 + (pre2 + p.0) =~= (pre1 + pre2) + p.0);
        },
        None => {},
    }
}

/// An empty prefix glues to no change.
proof fn lemma_glue_obj_nil(r: Option<(Seq<(Seq<u8>, SpecValue)>, int)>)
    ensures
        glue_obj(Seq::empty(), 0, r) == r,
{
    match r {
        Some(p) => {
            assert(Seq::empty() + p.0 =~= p.0);
        },
        None => {},
    }
}

/// Gluing twice is gluing the concatenated prefix once.
proof fn lemma_glue_obj_assoc(
    pre1: Seq<(Seq<u8>, SpecValue)>,
    u1: int,
    pre2: Seq<(Seq<u8>, SpecValue)>,
    u2: int,
    r: Option<(Seq<(Seq<u8>, SpecValue)>, int)>,
)
    ensures
        glue_obj(pre1, u1, glue_obj(pre2, u2, r)) == glue_obj(pre1 + pre2, u1 + u2, r),
{
    match r {
        Some(p) => {
            assert(pre1 + (pre2 + p.0) =~= (pre1 + pre2) + p.0);
        },
        None => {},
    }
}

/// Parses the value whose encoding starts at `pos`, mirroring `dec`.
#[verifier::rlimit(100)]
#[verifier::spinoff_prover]
pub fn parse_value(buf: &[u8], pos: usize) -> (r: Option<(Value, usize)>)
    requires
        pos <= buf@.len(),
    ensures
        match r {
            Some(p) => {
                &&& pos < p.1 <= buf@.len()
                &&& dec(buf@.subrange(pos as int, buf@.len() as int)) == Some(
                    (model(p.0), (p.1 - pos) as int),
                )
                &&& wf(model(p.0))
            },
            None => dec(buf@.subrange(pos as int, buf@.len() as int)) is None,
        },
    decreases buf@.len() - pos, 0nat, 0nat,
{
    let ghost s = buf@.subrange(pos as int, buf@.len() as int);
    let len = buf.len();
    if pos >= len {
        return None;
    }
    let b = buf[pos];
    proof {
        assert(s[0] == buf@[pos as int]);
        lemma_pow256_vals();
    }
    if b < 0x80 {
        Some((Value::UInt(b as u64), pos + 1))
    } else if b < 0x90 {
        let n = (b - 0x80) as usize;
        proof {
            assert(s.drop_first() =~= buf@.subrange((pos + 1) as int, len as int));
        }
        match parse_obj(buf, pos + 1, n) {
            Some((ps, np)) => Some((Value::Obj(ps), np)),
            None => None,
        }
    } else if b < 0xa0 {
        let n = (b - 0x90) as usize;
        proof {
            assert(s.drop_first() =~= buf@.subrange((pos + 1) as int, len as int));
        }
        match parse_list(buf, pos + 1, n) {
            Some((xs, np)) => Some((Value::Arr(xs), np)),
            None => None,
        }
    } else if b < 0xc0 {
        match parse_str(buf, pos) {
            Some((t, np)) => Some((Value::Text(t), np)),
            None => None,
        }
    } else if b == 0xc0 {
        Some((Value::Null, pos + 1))
    } else if b == 0xc2 {
        Some((Value::Bool(false), pos + 1))
    } else if b == 0xc3 {
        Some((Value::Bool(true), pos + 1))
    } else if b == 0xcc || b == 0xcd || b == 0xce || b == 0xcf {
        let k: usize = if b == 0xcc {
            1
        } else if b == 0xcd {
            2
        } else if b == 0xce {
            4
        } else {
            8
        };
        if len - pos >= 1 + k {
            let u = read_be(buf, pos + 1, k);
            proof {
                assert(s.subrange(1, 1 + k as int) =~= buf@.subrange(
                    (pos + 1) as int,
                    (pos + 1 + k) as int,
                ));
            }
            Some((Value::UInt(u), pos + 1 + k))
        } else {
            None
        }
    } else if b == 0xd0 || b == 0xd1 || b == 0xd2 || b == 0xd3 {
        let k: usize = if b == 0xd0 {
            1
        } else if b == 0xd1 {
            2
        } else if b == 0xd2 {
            4
        } else {
            8
        };
        if len - pos >= 1 + k {
            let u = read_be(buf, pos + 1, k);
            proof {
                assert(s.subrange(1, 1 + k as int) =~= buf@.subrange(
                    (pos + 1) as int,
                    (pos + 1 + k) as int,
                ));
                assert(pow256(1) / 2 == 0x80);
                assert(pow256(2) / 2 == 0x8000);
                assert(pow256(4) / 2 == 0x80000000);
                assert(pow256(8) / 2 == 0x8000000000000000);
            }
            let v: Value = if k == 1 {
                if u >= 0x80 {
                    Value::Int((u as i64) - 0x100)
                } else {
                    Value::UInt(u)
                }
            } else if k == 2 {
                if u >= 0x8000 {
                    Value::Int((u as i64) - 0x10000)
                } else {
                    Value::UInt(u)
                }
            } else if k == 4 {
                if u >= 0x80000000 {
                    Value::Int((u as i64) - 0x100000000)
                } else {
                    Value::UInt(u)
                }
            } else {
                if u >= 0x8000000000000000 {
                    Value::Int(((u as i128) - 0x10000000000000000i128) as i64)
                } else {
                    Value::UInt(u)
                }
            };
            Some((v, pos + 1 + k))
        } else {
            None
        }
    } else if b == 0xd9 || b == 0xda || b == 0xdb {
        match parse_str(buf, pos) {
            Some((t, np)) => Some((Value::Text(t), np)),
            None => None,
        }
    } else if b == 0xdc || b == 0xdd {
        let hk: usize = if b == 0xdc {
            2
        } else {
            4
        };
        if len - pos >= 1 + hk {
            let n = read_be(buf, pos + 1, hk);
            proof {
                assert(s.subrange(1, 1 + hk as int) =~= buf@.subrange(
                    (pos + 1) as int,
                    (pos + 1 + hk) as int,
                ));
                assert(s.subrange(1 + hk as int, s.len() as int) =~= buf@.subrange(
                    (pos + 1 + hk) as int,
                    len as int,
                ));
            }
            match parse_list(buf, pos + 1 + hk, n as usize) {
                Some((xs, np)) => Some((Value::Arr(xs), np)),
                None => None,
            }
        } else {
            None
        }
    } else if b == 0xde || b == 0xdf {
        let hk: usize = if b == 0xde {
            2
        } else {
            4
        };
        if len - pos >= 1 + hk {
            let n = read_be(buf, pos + 1, hk);
            proof {
                assert(s.subrange(1, 1 + hk as int) =~= buf@.subrange(
                    (pos + 1) as int,
                    (pos + 1 + hk) as int,
                ));
                assert(s.subrange(1 + hk as int, s.len() as int) =~= buf@.subrange(
                    (pos + 1 + hk) as int,
                    len as int,
                ));
            }
            match parse_obj(buf, pos + 1 + hk, n as usize) {
                Some((ps, np)) => Some((Value::Obj(ps), np)),
                None => None,
            }
        } else {
            None
        }
    } else if b >= 0xe0 {
        Some((Value::Int((b as i64) - 0x100), pos + 1))
    } else {
        None
    }
}

/// Parses `n` consecutive values starting at `pos`, mirroring `dec_list`.
fn parse_list(buf: &[u8], pos: usize, n: usize) -> (r: Option<(Vec<Value>, usize)>)
    requires
        pos <= buf@.len(),
        n <= u32::MAX,
    ensures
        match r {
            Some(p) => {
                &&& pos <= p.1 <= buf@.len()
                &&& dec_list(buf@.subrange(pos as int, buf@.len() as int), n as int) == Some(
                    (models(p.0@), (p.1 - pos) as int),
                )
                &&& wf(model(Value::Arr(p.0)))
            },
            None => dec_list(buf@.subrange(pos as int, buf@.len() as int), n as int) is None,
        },
    decreases buf@.len() - pos, 1nat, n,
{
    let ghost s0 = buf@.subrange(pos as int, buf@.len() as int);
    let len = buf.len();
    let mut acc: Vec<Value> = Vec::new();
    let mut cur: usize = pos;
    let mut i: usize = 0;
    proof {
        lemma_glue_nil(dec_list(s0, n as int));
        assert(models(acc@) =~= Seq::<SpecValue>::empty());
    }
    while i < n
        invariant
            len == buf@.len(),
            s0 == buf@.subrange(pos as int, len as int),
            pos <= cur <= len,
            0 <= i <= n,
            n <= u32::MAX,
            acc@.len() == i,
            forall|j: int| 0 <= j < i ==> wf(model(#[trigger] acc@[j])),
            dec_list(s0, n as int) == glue(
                models(acc@),
                cur - pos,
                dec_list(buf@.subrange(cur as int, len as int), (n - i) as int),
            ),
        decreases n - i,
    {
        let ghost rem = buf@.subrange(cur as int, len as int);
        let ghost m = (n - i) as int;
        match parse_value(buf, cur) {
            Some((v, np)) => {
                proof {
                    broadcast use lemma_models;

                    let k0 = np - cur;
                    assert(rem.subrange(k0 as int, rem.len() as int) =~= buf@.subrange(
                        np as int,
                        len as int,
                    ));
                    let inner = dec_list(buf@.subrange(np as int, len as int), m - 1);
                    match inner {
                        Some(q) => {
                            assert(dec_list(rem, m) == Some(
                                (seq![model(v)] + q.0, k0 + q.1),
                            ));
                        },
                        None => {
                            assert(dec_list(rem, m) is None);
                        },
                    }
                    assert(dec_list(rem, m) == glue(seq![model(v)], k0 as int, inner));
                    lemma_glue_assoc(models(acc@), cur - pos, seq![model(v)], k0 as int, inner);
                    assert(models(acc@.push(v)) =~= models(acc@) + seq![model(v)]);
                }
                acc.push(v);
                cur = np;
                i = i + 1;
            },
            None => {
                proof {
                    assert(dec_list(rem, m) is None);
                }
                return None;
            },
        }
    }
    proof {
        let rem = buf@.subrange(cur as int, len as int);
        assert(dec_list(rem, 0) == Some((Seq::<SpecValue>::empty(), 0int)));
        assert(models(acc@) + Seq::<SpecValue>::empty() =~= models(acc@));
        broadcast use lemma_models;

    }
    Some((acc, cur))
}

/// Parses `n` consecutive key/value pairs starting at `pos`, mirroring
/// `dec_obj`.
fn parse_obj(buf: &[u8], pos: usize, n: usize) -> (r: Option<(Vec<(Vec<u8>, Value)>, usize)>)
    requires
        pos <= buf@.len(),
        n <= u32::MAX,
    ensures
        match r {
            Some(p) => {
                &&& pos <= p.1 <= buf@.len()
                &&& dec_obj(buf@.subrange(pos as int, buf@.len() as int), n as int) == Some(
                    (model_pairs(p.0@), (p.1 - pos) as int),
                )
                &&& wf(model(Value::Obj(p.0)))
            },
            None => dec_obj(buf@.subrange(pos as int, buf@.len() as int), n as int) is None,
        },
    decreases buf@.len() - pos, 1nat, n,
{
    let ghost s0 = buf@.subrange(pos as int, buf@.len() as int);
    let len = buf.len();
    let mut acc: Vec<(Vec<u8>, Value)> = Vec::new();
    let mut cur: usize = pos;
    let mut i: usize = 0;
    proof {
        lemma_glue_obj_nil(dec_obj(s0, n as int));
        assert(model_pairs(acc@) =~= Seq::<(Seq<u8>, SpecValue)>::empty());
    }
    while i < n
        invariant
            len == buf@.len(),
            s0 == buf@.subrange(pos as int, len as int),
            pos <= cur <= len,
            0 <= i <= n,
            n <= u32::MAX,
            acc@.len() == i,
            forall|j: int| 0 <= j < i ==> wf(model(#[trigger] acc@[j].1)) && acc@[j].0@.len()
                <= u32::MAX,
            dec_obj(s0, n as int) == glue_obj(
                model_pairs(acc@),
                cur - pos,
                dec_obj(buf@.subrange(cur as int, len as int), (n - i) as int),
            ),
        decreases n - i,
    {
        let ghost rem = buf@.subrange(cur as int, len as int);
        let ghost m = (n - i) as int;
        match parse_str(buf, cur) {
            Some((t, np1)) => {
                proof {
                    assert(rem.subrange((np1 - cur) as int, rem.len() as int) =~= buf@.subrange(
                        np1 as int,
                        len as int,
                    ));
                }
                match parse_value(buf, np1) {
                    Some((v, np2)) => {
                        proof {
                            broadcast use lemma_model_pairs;

                            let k1 = np1 - cur;
                            let k2 = np2 - np1;
                            assert(rem.subrange((k1 + k2) as int, rem.len() as int)
                                =~= buf@.subrange(np2 as int, len as int));
                            let inner = dec_obj(buf@.subrange(np2 as int, len as int), m - 1);
                            match inner {
                                Some(q) => {
                                    assert(dec_obj(rem, m) == Some(
                                        (seq![(t@, model(v))] + q.0, k1 + k2 + q.1),
                                    ));
                                },
                                None => {
                                    assert(dec_obj(rem, m) is None);
                                },
                            }
                            assert(dec_obj(rem, m) == glue_obj(
                                seq![(t@, model(v))],
                                (k1 + k2) as int,
                                inner,
                            ));
                            lemma_glue_obj_assoc(
                                model_pairs(acc@),
                                cur - pos,
                                seq![(t@, model(v))],
                                (k1 + k2) as int,
                                inner,
                            );
                            assert(model_pairs(acc@.push((t, v))) =~= model_pairs(acc@) + seq![
                                (t@, model(v)),
                            ]);
                        }
                        acc.push((t, v));
                        cur = np2;
                        i = i + 1;
                    },
                    None => {
                        proof {
                            assert(dec_obj(rem, m) is None);
                        }
                        return None;
                    },
                }
            },
            None => {
                proof {
                    assert(dec_obj(rem, m) is None);
                }
                return None;
            },
        }
    }
    proof {
        let rem = buf@.subrange(cur as int, len as int);
        assert(dec_obj(rem, 0) == Some((Seq::<(Seq<u8>, SpecValue)>::empty(), 0int)));
        assert(model_pairs(acc@) + Seq::<(Seq<u8>, SpecValue)>::empty() =~= model_pairs(acc@));
        broadcast use lemma_model_pairs;

    }
    Some((acc, cur))
}

/// Decodes a whole buffer into a structured value, mirroring `dec_full`.
pub fn decode(buf: &[u8]) -> (r: Option<Value>)
    ensures
        match r {
            Some(v) => dec_full(buf@) == Some(model(v)) && wf(model(v)),
            None => dec_full(buf@) is None,
        },
{
    proof {
        assert(buf@.subrange(0, buf@.len() as int) =~= buf@);
    }
    match parse_value(buf, 0) {
        Some((v, np)) => {
            if np == buf.len() {
                Some(v)
            } else {
                None
            }
        },
        None => None,
    }
}

/// The binary encoding of a well-formed value, as a fresh buffer.
pub fn encode(v: &Value) -> (r: Vec<u8>)
    requires
        wf(model(*v)),
    ensures
        r@ == enc(model(*v)),
{
    let mut out: Vec<u8> = Vec::new();
    encode_value(v, &mut out);
    assert(out@ =~= enc(model(*v)));
    out
}

} // verus!
