//! The binary codec for dynamic values: a self-describing, definite-length
//! encoding (CBOR, RFC 8949) of the [`Value`] tree, written as executable
//! functions on bytes whose contracts are stated over a specification
//! encoder [`enc`] and decoder [`dec`], together with the round-trip
//! theorem tying the two.
//!
//! Every item starts with a header byte holding a major type (top 3 bits)
//! and an argument hint (low 5 bits); arguments of 24 and above follow
//! big-endian in 1, 2, 4, or 8 bytes. The encoder always emits the
//! shortest header for the argument; the decoder also accepts longer
//! (non-minimal) headers, but rejects indefinite-length items, simple
//! values other than booleans and null, and half- or single-precision
//! floats.

use vstd::arithmetic::power2::{lemma2_to64, lemma2_to64_rest, lemma_pow2_unfold, pow2};
use vstd::prelude::*;
use vstd::utf8::{decode_utf8, encode_utf8, valid_utf8};

use crate::error::TransportError;
use crate::value::{lemma_pairs_model, lemma_pairs_depth, lemma_pairs_vheight, lemma_pairs_wf,
    lemma_seq_depth, lemma_seq_model, lemma_seq_vheight, lemma_seq_wf, pairs_depth, pairs_model,
    pairs_vheight, pairs_wf, seq_depth, seq_model, seq_vheight, seq_wf, vheight, Value, ValueModel};

verus! {

broadcast use vstd::std_specs::vec::group_vec_axioms, vstd::slice::group_slice_axioms;

/// Nesting depth the decoder accepts before it reports a recursion-limit
/// failure, mirroring the common limit for this encoding.
pub const DECODE_DEPTH_LIMIT: usize = 128;

// ----- Big-endian arguments --------------------------------------------------
/// 256 to the power `n`: the number of values `n` bytes can hold.
pub open spec fn pow256(n: nat) -> nat
    decreases n,
{
    if n == 0 {
        1
    } else {
        256 * pow256((n - 1) as nat)
    }
}

/// The `n`-byte big-endian encoding of `v` (`v` taken modulo 256^n).
pub open spec fn be_bytes(v: nat, n: nat) -> Seq<u8>
    decreases n,
{
    if n == 0 {
        Seq::empty()
    } else {
        be_bytes(v / 256, (n - 1) as nat).push((v % 256) as u8)
    }
}

/// The value a big-endian byte sequence encodes.
pub open spec fn from_be(s: Seq<u8>) -> nat
    decreases s,
{
    if s.len() == 0 {
        0
    } else {
        (from_be(s.drop_last()) * 256 + s.last()) as nat
    }
}

/// `be_bytes` produces exactly `n` bytes, and `from_be` reads the value
/// back when it fits.
pub proof fn lemma_be_bytes(v: nat, n: nat)
    ensures
        be_bytes(v, n).len() == n,
        v < pow256(n) ==> from_be(be_bytes(v, n)) == v,
    decreases n,
{
    if n > 0 {
        lemma_be_bytes(v / 256, (n - 1) as nat);
        if v < pow256(n) {
            assert(v / 256 < pow256((n - 1) as nat)) by (nonlinear_arith)
                requires
                    v < 256 * pow256((n - 1) as nat),
            ;
            assert(be_bytes(v, n).drop_last() =~= be_bytes(v / 256, (n - 1) as nat));
            assert(from_be(be_bytes(v, n)) == (v / 256) * 256 + v % 256);
            assert((v / 256) * 256 + v % 256 == v) by (nonlinear_arith);
        }
    }
}

/// Every value `from_be` reads from `n` bytes is below 256^n.
pub proof fn lemma_from_be_bound(s: Seq<u8>)
    ensures
        from_be(s) < pow256(s.len()),
    decreases s,
{
    if s.len() > 0 {
        lemma_from_be_bound(s.drop_last());
        let x = from_be(s.drop_last());
        let p = pow256((s.len() - 1) as nat);
        let l = s.last() as nat;
        assert(x * 256 + l < 256 * p) by (nonlinear_arith)
            requires
                x < p,
                l < 256,
        ;
    }
}

/// The concrete powers of 256 the codec works with.
pub proof fn lemma_pow256_values()
    ensures
        pow256(1) == 0x100,
        pow256(2) == 0x10000,
        pow256(4) == 0x1_0000_0000,
        pow256(8) == 0x1_0000_0000_0000_0000,
{
    assert(pow256(0) == 1);
    assert(pow256(1) == 0x100);
    assert(pow256(2) == 0x10000);
    assert(pow256(3) == 0x100_0000);
    assert(pow256(4) == 0x1_0000_0000);
    assert(pow256(5) == 0x100_0000_0000);
    assert(pow256(6) == 0x1_0000_0000_0000);
    assert(pow256(7) == 0x100_0000_0000_0000);
    assert(pow256(8) == 0x1_0000_0000_0000_0000);
}

// ----- Headers ---------------------------------------------------------------
/// The shortest header encoding major type `major` with argument `arg`
/// (`major <= 6`; major 7 items are written out explicitly).
pub open spec fn enc_header(major: u8, arg: nat) -> Seq<u8> {
    if arg < 24 {
        seq![(major * 32 + arg) as u8]
    } else if arg < 0x100 {
        seq![(major * 32 + 24) as u8] + be_bytes(arg, 1)
    } else if arg < 0x10000 {
        seq![(major * 32 + 25) as u8] + be_bytes(arg, 2)
    } else if arg < 0x1_0000_0000 {
        seq![(major * 32 + 26) as u8] + be_bytes(arg, 4)
    } else {
        seq![(major * 32 + 27) as u8] + be_bytes(arg, 8)
    }
}

/// Reads one header from the front of `s`: the major type, the argument,
/// and how many bytes the header took. `None` when the bytes run out or
/// the argument hint is reserved or indefinite-length.
pub open spec fn dec_header(s: Seq<u8>) -> Option<(u8, nat, nat)> {
    if s.len() == 0 {
        None
    } else {
        let major = s[0] / 32;
        let ai = s[0] % 32;
        if ai < 24 {
            Some((major, ai as nat, 1))
        } else if ai == 24 {
            if s.len() >= 2 {
                Some((major, s[1] as nat, 2))
            } else {
                None
            }
        } else if ai == 25 {
            if s.len() >= 3 {
                Some((major, from_be(s.subrange(1, 3)), 3))
            } else {
                None
            }
        } else if ai == 26 {
            if s.len() >= 5 {
                Some((major, from_be(s.subrange(1, 5)), 5))
            } else {
                None
            }
        } else if ai == 27 {
            if s.len() >= 9 {
                Some((major, from_be(s.subrange(1, 9)), 9))
            } else {
                None
            }
        } else {
            None
        }
    }
}

/// Decoding a header the encoder produced yields the major type and
/// argument back, whatever follows it.
pub proof fn lemma_header_round_trip(major: u8, arg: nat, rest: Seq<u8>)
    requires
        major <= 6,
        arg < pow256(8),
    ensures
        1 <= enc_header(major, arg).len() <= 9,
        dec_header(enc_header(major, arg) + rest) == Some(
            (major, arg, enc_header(major, arg).len()),
        ),
{
    lemma_pow256_values();
    let h = enc_header(major, arg);
    let s = h + rest;
    if arg < 24 {
        let b0 = (major * 32 + arg) as u8;
        assert(s[0] == b0);
        assert(b0 / 32 == major && b0 % 32 == arg) by (nonlinear_arith)
            requires
                major <= 6,
                arg < 24,
                b0 == major * 32 + arg,
        ;
    } else {
        let ai: u8 = if arg < 0x100 {
            24
        } else if arg < 0x10000 {
            25
        } else if arg < 0x1_0000_0000 {
            26
        } else {
            27
        };
        let n: nat = if arg < 0x100 {
            1
        } else if arg < 0x10000 {
            2
        } else if arg < 0x1_0000_0000 {
            4
        } else {
            8
        };
        let b0 = (major * 32 + ai) as u8;
        assert(b0 / 32 == major && b0 % 32 == ai) by (nonlinear_arith)
            requires
                major <= 6,
                24 <= ai <= 27,
                b0 == major * 32 + ai,
        ;
        lemma_be_bytes(arg, n);
        assert(h =~= seq![b0] + be_bytes(arg, n));
        assert(s[0] == b0);
        assert(s.subrange(1, 1 + n as int) =~= be_bytes(arg, n));
        if ai == 24 {
            assert(s[1] == be_bytes(arg, 1)[0]);
            assert(from_be(be_bytes(arg, 1)) == arg);
            assert(be_bytes(arg, 1).drop_last() =~= Seq::<u8>::empty());
            assert(s[1] as nat == arg);
        }
    }
}

/// Every header argument the decoder reads is below 256^8.
pub proof fn lemma_dec_header_arg_bound(s: Seq<u8>)
    ensures
        dec_header(s) is Some ==> (dec_header(s)->0).1 < pow256(8),
{
    lemma_pow256_values();
    if s.len() > 0 {
        let ai = s[0] % 32;
        if ai == 25 {
            if s.len() >= 3 {
                lemma_from_be_bound(s.subrange(1, 3));
                lemma_pow256_increases(2, 8);
            }
        } else if ai == 26 {
            if s.len() >= 5 {
                lemma_from_be_bound(s.subrange(1, 5));
                lemma_pow256_increases(4, 8);
            }
        } else if ai == 27 {
            if s.len() >= 9 {
                lemma_from_be_bound(s.subrange(1, 9));
            }
        }
    }
}

// ----- Float widening ---------------------------------------------------------
/// Position of the highest set bit of `m`, 0-indexed: the floor of the
/// base-2 logarithm.
pub open spec fn high_bit(m: nat) -> nat
    decreases m,
{
    if m < 2 {
        0
    } else {
        1 + high_bit(m / 2)
    }
}

/// The highest set bit of a value below 2^k lies below position k.
pub proof fn lemma_high_bit_bound(m: nat, k: nat)
    requires
        1 <= m,
        m < pow2(k),
    ensures
        high_bit(m) < k,
    decreases m,
{
    lemma2_to64();
    if m >= 2 {
        lemma_pow2_unfold(k);
        lemma_high_bit_bound(m / 2, (k - 1) as nat);
    }
}

/// Position of the highest set bit: exactly [`high_bit`].
fn find_high_bit(m: u64) -> (r: u64)
    requires
        1 <= m,
    ensures
        r as nat == high_bit(m as nat),
        r <= 63,
    decreases m,
{
    proof {
        lemma2_to64();
        lemma2_to64_rest();
        lemma_high_bit_bound(m as nat, 64);
    }
    if m < 2 {
        0
    } else {
        1 + find_high_bit(m / 2)
    }
}

/// The IEEE 754 binary16 number `h` (given as its bit pattern), widened
/// to the bit pattern of the equal binary64 number: the reading the wire
/// format gives a 2-byte float item. Sign and NaN payload are kept, a
/// signaling NaN is quieted, and subnormals are normalized.
pub open spec fn f16_to_f64_bits(h: u64) -> u64 {
    let sign = (h & 0x8000) << 48u64;
    let e = (h >> 10u64) & 0x1f;
    let m = h & 0x3ff;
    if e == 0 && m == 0 {
        sign
    } else if e == 0x1f {
        if m == 0 {
            sign | 0x7ff0_0000_0000_0000
        } else {
            sign | 0x7ff8_0000_0000_0000 | (m << 42u64)
        }
    } else if e == 0 {
        let k = high_bit(m as nat) as u64;
        sign | (((999 + k) as u64) << 52u64) | ((m << ((52 - k) as u64)) & 0xf_ffff_ffff_ffff)
    } else {
        sign | (((e + 1008) as u64) << 52u64) | (m << 42u64)
    }
}

/// The IEEE 754 binary32 number `w` (given as its bit pattern), widened
/// to the bit pattern of the equal binary64 number, as for
/// [`f16_to_f64_bits`].
pub open spec fn f32_to_f64_bits(w: u64) -> u64 {
    let sign = (w & 0x8000_0000) << 32u64;
    let e = (w >> 23u64) & 0xff;
    let m = w & 0x7f_ffff;
    if e == 0 && m == 0 {
        sign
    } else if e == 0xff {
        if m == 0 {
            sign | 0x7ff0_0000_0000_0000
        } else {
            sign | 0x7ff8_0000_0000_0000 | (m << 29u64)
        }
    } else if e == 0 {
        let k = high_bit(m as nat) as u64;
        sign | (((874 + k) as u64) << 52u64) | ((m << ((52 - k) as u64)) & 0xf_ffff_ffff_ffff)
    } else {
        sign | (((e + 896) as u64) << 52u64) | (m << 29u64)
    }
}

/// Widen a 2-byte float item to the 8-byte form: exactly
/// [`f16_to_f64_bits`].
fn widen_f16(h: u64) -> (r: u64)
    ensures
        r == f16_to_f64_bits(h),
{
    let sign = (h & 0x8000) << 48;
    let e = (h >> 10) & 0x1f;
    let m = h & 0x3ff;
    proof {
        assert((h & 0x3ff) <= 0x3ff && ((h >> 10) & 0x1f) <= 0x1f) by (bit_vector);
    }
    if e == 0 && m == 0 {
        sign
    } else if e == 0x1f {
        if m == 0 {
            sign | 0x7ff0_0000_0000_0000
        } else {
            sign | 0x7ff8_0000_0000_0000 | (m << 42)
        }
    } else if e == 0 {
        let k = find_high_bit(m);
        proof {
            lemma2_to64();
            lemma_high_bit_bound(m as nat, 10);
        }
        sign | ((999 + k) << 52) | ((m << (52 - k)) & 0xf_ffff_ffff_ffff)
    } else {
        sign | ((e + 1008) << 52) | (m << 42)
    }
}

/// Widen a 4-byte float item to the 8-byte form: exactly
/// [`f32_to_f64_bits`].
fn widen_f32(w: u64) -> (r: u64)
    ensures
        r == f32_to_f64_bits(w),
{
    let sign = (w & 0x8000_0000) << 32;
    let e = (w >> 23) & 0xff;
    let m = w & 0x7f_ffff;
    proof {
        assert((w & 0x7f_ffff) <= 0x7f_ffff && ((w >> 23) & 0xff) <= 0xff) by (bit_vector);
    }
    if e == 0 && m == 0 {
        sign
    } else if e == 0xff {
        if m == 0 {
            sign | 0x7ff0_0000_0000_0000
        } else {
            sign | 0x7ff8_0000_0000_0000 | (m << 29)
        }
    } else if e == 0 {
        let k = find_high_bit(m);
        proof {
            lemma2_to64();
            lemma_high_bit_bound(m as nat, 23);
        }
        sign | ((874 + k) << 52) | ((m << (52 - k)) & 0xf_ffff_ffff_ffff)
    } else {
        sign | ((e + 896) << 52) | (m << 29)
    }
}

// ----- The specification encoder ---------------------------------------------
/// The canonical byte encoding of a well-formed dynamic value.
pub open spec fn enc(v: ValueModel) -> Seq<u8>
    decreases v,
{
    match v {
        ValueModel::Null => seq![0xf6u8],
        ValueModel::Bool(b) => if b {
            seq![0xf5u8]
        } else {
            seq![0xf4u8]
        },
        ValueModel::Int(i) => if i >= 0 {
            enc_header(0, i as nat)
        } else {
            enc_header(1, (-1 - i) as nat)
        },
        ValueModel::Float(bits) => seq![0xfbu8] + be_bytes(bits as nat, 8),
        ValueModel::Text(t) => enc_header(3, encode_utf8(t).len()) + encode_utf8(t),
        ValueModel::Bytes(b) => enc_header(2, b.len()) + b,
        ValueModel::Array(a) => enc_header(4, a.len()) + enc_seq(a),
        ValueModel::Mapping(m) => enc_header(5, m.len()) + enc_pairs(m),
        ValueModel::Tag(t, b) => enc_header(6, t as nat) + enc(*b),
    }
}

/// The concatenated encodings of a sequence of values.
pub open spec fn enc_seq(s: Seq<ValueModel>) -> Seq<u8>
    decreases s,
{
    if s.len() == 0 {
        Seq::empty()
    } else {
        enc(s[0]) + enc_seq(s.drop_first())
    }
}

/// The concatenated encodings of a sequence of key-value pairs, each key
/// directly before its value.
pub open spec fn enc_pairs(s: Seq<(ValueModel, ValueModel)>) -> Seq<u8>
    decreases s,
{
    if s.len() == 0 {
        Seq::empty()
    } else {
        enc(s[0].0) + enc(s[0].1) + enc_pairs(s.drop_first())
    }
}

/// Appending a value to a sequence appends its encoding to the sequence's.
pub proof fn lemma_enc_seq_push(s: Seq<ValueModel>, v: ValueModel)
    ensures
        enc_seq(s.push(v)) == enc_seq(s) + enc(v),
    decreases s,
{
    let p = s.push(v);
    if s.len() == 0 {
        assert(p.drop_first() =~= Seq::<ValueModel>::empty());
        assert(enc_seq(p.drop_first()) =~= Seq::<u8>::empty());
        assert(enc_seq(p) == enc(v) + Seq::<u8>::empty());
        assert(enc(v) + Seq::<u8>::empty() =~= enc(v));
        assert(enc_seq(s) + enc(v) =~= enc(v));
    } else {
        assert(p.drop_first() =~= s.drop_first().push(v));
        lemma_enc_seq_push(s.drop_first(), v);
        assert(enc_seq(p) == enc(s[0]) + (enc_seq(s.drop_first()) + enc(v)));
        assert(enc(s[0]) + (enc_seq(s.drop_first()) + enc(v)) =~= (enc(s[0]) + enc_seq(
            s.drop_first(),
        )) + enc(v));
    }
}

/// Appending a pair to a sequence appends both encodings to the sequence's.
pub proof fn lemma_enc_pairs_push(s: Seq<(ValueModel, ValueModel)>, k: ValueModel, v: ValueModel)
    ensures
        enc_pairs(s.push((k, v))) == enc_pairs(s) + enc(k) + enc(v),
    decreases s,
{
    let p = s.push((k, v));
    if s.len() == 0 {
        assert(p.drop_first() =~= Seq::<(ValueModel, ValueModel)>::empty());
        assert(enc_pairs(p.drop_first()) =~= Seq::<u8>::empty());
        assert(enc_pairs(p) == enc(k) + enc(v) + Seq::<u8>::empty());
        assert(enc(k) + enc(v) + Seq::<u8>::empty() =~= enc(k) + enc(v));
        assert(enc_pairs(s) + enc(k) + enc(v) =~= enc(k) + enc(v));
    } else {
        assert(p.drop_first() =~= s.drop_first().push((k, v)));
        lemma_enc_pairs_push(s.drop_first(), k, v);
        assert(enc_pairs(p) == enc(s[0].0) + enc(s[0].1) + (enc_pairs(s.drop_first()) + enc(k)
            + enc(v)));
        assert(enc(s[0].0) + enc(s[0].1) + (enc_pairs(s.drop_first()) + enc(k) + enc(v)) =~= (enc(
            s[0].0,
        ) + enc(s[0].1) + enc_pairs(s.drop_first())) + enc(k) + enc(v));
    }
}

/// Every encoding is at least one byte long.
pub proof fn lemma_enc_len_pos(v: ValueModel)
    ensures
        enc(v).len() >= 1,
{
}

// ----- The specification decoder ---------------------------------------------
/// Reads one value from the front of `s`, refusing nesting deeper than
/// `depth` layers: the value and how many bytes it took, or `None` when
/// the bytes do not hold a complete, acceptable item.
pub open spec fn dec(s: Seq<u8>, depth: nat) -> Option<(ValueModel, nat)>
    decreases depth, s.len(), 0nat,
{
    match dec_header(s) {
        None => None,
        Some((major, arg, hlen)) => if major == 0 {
            Some((ValueModel::Int(arg as int), hlen))
        } else if major == 1 {
            Some((ValueModel::Int(-1 - arg as int), hlen))
        } else if major == 2 {
            if arg <= s.len() - hlen {
                Some((ValueModel::Bytes(s.subrange(hlen as int, (hlen + arg) as int)), hlen + arg))
            } else {
                None
            }
        } else if major == 3 {
            if arg <= s.len() - hlen {
                let payload = s.subrange(hlen as int, (hlen + arg) as int);
                if valid_utf8(payload) {
                    Some((ValueModel::Text(decode_utf8(payload)), hlen + arg))
                } else {
                    None
                }
            } else {
                None
            }
        } else if major == 4 {
            if depth == 0 {
                None
            } else {
                match dec_items(s.skip(hlen as int), arg, (depth - 1) as nat) {
                    Some((vs, used)) => Some((ValueModel::Array(vs), hlen + used)),
                    None => None,
                }
            }
        } else if major == 5 {
            if depth == 0 {
                None
            } else {
                match dec_entries(s.skip(hlen as int), arg, (depth - 1) as nat) {
                    Some((ps, used)) => Some((ValueModel::Mapping(ps), hlen + used)),
                    None => None,
                }
            }
        } else if major == 6 {
            if depth == 0 || arg >= pow256(8) {
                None
            } else {
                match dec(s.skip(hlen as int), (depth - 1) as nat) {
                    Some((v, used)) => Some((ValueModel::Tag(arg as u64, Box::new(v)), hlen + used)),
                    None => None,
                }
            }
        } else {
            // major 7: simple values and floats
            if hlen == 1 && arg == 20 {
                Some((ValueModel::Bool(false), 1))
            } else if hlen == 1 && arg == 21 {
                Some((ValueModel::Bool(true), 1))
            } else if hlen == 1 && arg == 22 {
                Some((ValueModel::Null, 1))
            } else if hlen == 3 {
                Some((ValueModel::Float(f16_to_f64_bits(arg as u64)), 3))
            } else if hlen == 5 {
                Some((ValueModel::Float(f32_to_f64_bits(arg as u64)), 5))
            } else if hlen == 9 {
                Some((ValueModel::Float(arg as u64), 9))
            } else {
                None
            }
        },
    }
}

/// Reads `n` values from the front of `s`.
pub open spec fn dec_items(s: Seq<u8>, n: nat, depth: nat) -> Option<(Seq<ValueModel>, nat)>
    decreases depth, s.len(), n,
{
    if n == 0 {
        Some((Seq::empty(), 0))
    } else {
        match dec(s, depth) {
            None => None,
            Some((v, used)) => if used < 1 || s.len() < used {
                None
            } else {
                match dec_items(s.skip(used as int), (n - 1) as nat, depth) {
                    None => None,
                    Some((vs, used2)) => Some((seq![v] + vs, used + used2)),
                }
            },
        }
    }
}

/// Reads `n` key-value pairs from the front of `s`.
pub open spec fn dec_entries(s: Seq<u8>, n: nat, depth: nat) -> Option<
    (Seq<(ValueModel, ValueModel)>, nat),
>
    decreases depth, s.len(), n,
{
    if n == 0 {
        Some((Seq::empty(), 0))
    } else {
        match dec(s, depth) {
            None => None,
            Some((k, used_k)) => if used_k < 1 || s.len() < used_k {
                None
            } else {
                match dec(s.skip(used_k as int), depth) {
                    None => None,
                    Some((v, used_v)) => if used_v < 1 || s.len() < used_k + used_v {
                        None
                    } else {
                        match dec_entries(
                            s.skip((used_k + used_v) as int),
                            (n - 1) as nat,
                            depth,
                        ) {
                            None => None,
                            Some((ps, used2)) => Some(
                                (seq![(k, v)] + ps, used_k + used_v + used2),
                            ),
                        }
                    },
                }
            },
        }
    }
}

/// Every value the decoder accepts is well-formed, and the count of
/// bytes it reports lies within the input. A decoded value can therefore
/// always be encoded again.
pub proof fn lemma_dec_wf(s: Seq<u8>, depth: nat)
    ensures
        dec(s, depth) is Some ==> {
            let (v, used) = dec(s, depth)->0;
            v.wf() && 1 <= used <= s.len()
        },
    decreases depth, s.len(), 0nat,
{
    lemma_pow256_values();
    lemma_dec_header_arg_bound(s);
    if dec(s, depth) is Some {
        let (major, arg, hlen) = dec_header(s)->0;
        if major == 3 {
            let payload = s.subrange(hlen as int, (hlen + arg) as int);
            if arg <= s.len() - hlen && valid_utf8(payload) {
                vstd::utf8::decode_utf8_encode_utf8(payload);
            }
        } else if major == 4 {
            if depth > 0 {
                lemma_dec_items_wf(s.skip(hlen as int), arg, (depth - 1) as nat);
                crate::value::lemma_seq_wf((dec_items(
                    s.skip(hlen as int),
                    arg,
                    (depth - 1) as nat,
                )->0).0);
            }
        } else if major == 5 {
            if depth > 0 {
                lemma_dec_entries_wf(s.skip(hlen as int), arg, (depth - 1) as nat);
                crate::value::lemma_pairs_wf((dec_entries(
                    s.skip(hlen as int),
                    arg,
                    (depth - 1) as nat,
                )->0).0);
            }
        } else if major == 6 {
            if depth > 0 {
                lemma_dec_wf(s.skip(hlen as int), (depth - 1) as nat);
            }
        }
    }
}

/// Every value sequence the decoder accepts is elementwise well-formed,
/// has exactly the announced length, and fits in the input.
pub proof fn lemma_dec_items_wf(s: Seq<u8>, n: nat, depth: nat)
    ensures
        dec_items(s, n, depth) is Some ==> {
            let (vs, used) = dec_items(s, n, depth)->0;
            &&& forall|i: int| 0 <= i < vs.len() ==> #[trigger] vs[i].wf()
            &&& vs.len() == n
            &&& used <= s.len()
        },
    decreases depth, s.len(), n,
{
    if n > 0 && dec_items(s, n, depth) is Some {
        lemma_dec_wf(s, depth);
        let (v, used) = dec(s, depth)->0;
        lemma_dec_items_wf(s.skip(used as int), (n - 1) as nat, depth);
        let (vs, used2) = dec_items(s.skip(used as int), (n - 1) as nat, depth)->0;
        assert forall|i: int| 0 <= i < n implies #[trigger] (seq![v] + vs)[i].wf() by {
            if i > 0 {
                assert((seq![v] + vs)[i] == vs[i - 1]);
            }
        }
    }
}

/// Every pair sequence the decoder accepts is elementwise well-formed,
/// has exactly the announced length, and fits in the input.
pub proof fn lemma_dec_entries_wf(s: Seq<u8>, n: nat, depth: nat)
    ensures
        dec_entries(s, n, depth) is Some ==> {
            let (ps, used) = dec_entries(s, n, depth)->0;
            &&& forall|i: int| 0 <= i < ps.len() ==> (#[trigger] ps[i]).0.wf() && ps[i].1.wf()
            &&& ps.len() == n
            &&& used <= s.len()
        },
    decreases depth, s.len(), n,
{
    if n > 0 && dec_entries(s, n, depth) is Some {
        lemma_dec_wf(s, depth);
        let (k, used_k) = dec(s, depth)->0;
        lemma_dec_wf(s.skip(used_k as int), depth);
        let (v, used_v) = dec(s.skip(used_k as int), depth)->0;
        lemma_dec_entries_wf(s.skip((used_k + used_v) as int), (n - 1) as nat, depth);
        let (ps, used2) = dec_entries(s.skip((used_k + used_v) as int), (n - 1) as nat, depth)->0;
        assert forall|i: int|
            0 <= i < n implies (#[trigger] (seq![(k, v)] + ps)[i]).0.wf() && (seq![(k, v)]
            + ps)[i].1.wf() by {
            if i > 0 {
                assert((seq![(k, v)] + ps)[i] == ps[i - 1]);
            }
        }
    }
}

// ----- The round-trip theorem ------------------------------------------------
/// Decoding an encoding yields the value back: for any well-formed value
/// nested at most `depth` layers deep, and whatever bytes follow its
/// encoding, the decoder reads back exactly that value and consumes
/// exactly its encoding.
#[verifier::rlimit(80)]
pub proof fn lemma_round_trip(v: ValueModel, rest: Seq<u8>, depth: nat)
    requires
        v.wf(),
        v.depth() <= depth,
    ensures
        dec(enc(v) + rest, depth) == Some((v, enc(v).len())),
    decreases v,
{
    lemma_pow256_values();
    let s = enc(v) + rest;
    match v {
        ValueModel::Null => {
            assert(s[0] == 0xf6u8);
            assert(0xf6u8 / 32 == 7 && 0xf6u8 % 32 == 22);
        },
        ValueModel::Bool(b) => {
            if b {
                assert(s[0] == 0xf5u8);
                assert(0xf5u8 / 32 == 7 && 0xf5u8 % 32 == 21);
            } else {
                assert(s[0] == 0xf4u8);
                assert(0xf4u8 / 32 == 7 && 0xf4u8 % 32 == 20);
            }
        },
        ValueModel::Int(i) => {
            if i >= 0 {
                lemma_header_round_trip(0, i as nat, rest);
            } else {
                lemma_header_round_trip(1, (-1 - i) as nat, rest);
            }
        },
        ValueModel::Float(bits) => {
            lemma_be_bytes(bits as nat, 8);
            assert(s[0] == 0xfbu8);
            assert(0xfbu8 / 32 == 7 && 0xfbu8 % 32 == 27);
            assert(s.len() >= 9);
            assert(s.subrange(1, 9) =~= be_bytes(bits as nat, 8));
        },
        ValueModel::Bytes(b) => {
            lemma_header_round_trip(2, b.len(), b + rest);
            let h = enc_header(2, b.len());
            assert(s =~= h + (b + rest));
            assert(s.subrange(h.len() as int, (h.len() + b.len()) as int) =~= b);
        },
        ValueModel::Text(t) => {
            let payload = encode_utf8(t);
            vstd::utf8::encode_utf8_valid_utf8(t);
            vstd::utf8::encode_utf8_decode_utf8(t);
            lemma_header_round_trip(3, payload.len(), payload + rest);
            let h = enc_header(3, payload.len());
            assert(s =~= h + (payload + rest));
            assert(s.subrange(h.len() as int, (h.len() + payload.len()) as int) =~= payload);
        },
        ValueModel::Array(a) => {
            lemma_header_round_trip(4, a.len(), enc_seq(a) + rest);
            let h = enc_header(4, a.len());
            assert(s =~= h + (enc_seq(a) + rest));
            assert(s.skip(h.len() as int) =~= enc_seq(a) + rest);
            lemma_items_round_trip(a, rest, (depth - 1) as nat);
        },
        ValueModel::Mapping(m) => {
            lemma_header_round_trip(5, m.len(), enc_pairs(m) + rest);
            let h = enc_header(5, m.len());
            assert(s =~= h + (enc_pairs(m) + rest));
            assert(s.skip(h.len() as int) =~= enc_pairs(m) + rest);
            lemma_entries_round_trip(m, rest, (depth - 1) as nat);
        },
        ValueModel::Tag(t, b) => {
            lemma_header_round_trip(6, t as nat, enc(*b) + rest);
            let h = enc_header(6, t as nat);
            assert(s =~= h + (enc(*b) + rest));
            assert(s.skip(h.len() as int) =~= enc(*b) + rest);
            lemma_round_trip(*b, rest, (depth - 1) as nat);
        },
    }
}

/// Round trip for a sequence of values: decoding the concatenation of
/// their encodings yields them all back.
pub proof fn lemma_items_round_trip(s: Seq<ValueModel>, rest: Seq<u8>, depth: nat)
    requires
        seq_wf(s),
        seq_depth(s) <= depth,
    ensures
        dec_items(enc_seq(s) + rest, s.len(), depth) == Some((s, enc_seq(s).len())),
    decreases s,
{
    if s.len() == 0 {
        assert(enc_seq(s) + rest =~= rest);
        assert(s =~= Seq::<ValueModel>::empty());
    } else {
        let v0 = s[0];
        let tail = s.drop_first();
        lemma_seq_wf(s);
        lemma_seq_wf(tail);
        assert forall|i: int| 0 <= i < tail.len() implies #[trigger] tail[i].wf() by {
            assert(tail[i] == s[i + 1]);
        }
        lemma_seq_depth(s);
        lemma_round_trip(v0, enc_seq(tail) + rest, depth);
        let l0 = enc(v0).len();
        lemma_enc_len_pos(v0);
        let whole = enc_seq(s) + rest;
        assert(whole =~= enc(v0) + (enc_seq(tail) + rest));
        assert(whole.skip(l0 as int) =~= enc_seq(tail) + rest);
        lemma_items_round_trip(tail, rest, depth);
        assert(seq![v0] + tail =~= s);
    }
}

/// Round trip for a sequence of key-value pairs: decoding the
/// concatenation of their encodings yields them all back.
#[verifier::rlimit(80)]
pub proof fn lemma_entries_round_trip(s: Seq<(ValueModel, ValueModel)>, rest: Seq<u8>, depth: nat)
    requires
        pairs_wf(s),
        pairs_depth(s) <= depth,
    ensures
        dec_entries(enc_pairs(s) + rest, s.len(), depth) == Some((s, enc_pairs(s).len())),
    decreases s,
{
    if s.len() == 0 {
        assert(enc_pairs(s) + rest =~= rest);
        assert(s =~= Seq::<(ValueModel, ValueModel)>::empty());
    } else {
        let k0 = s[0].0;
        let v0 = s[0].1;
        let tail = s.drop_first();
        lemma_pairs_wf(s);
        lemma_pairs_wf(tail);
        assert forall|i: int| #![trigger tail[i]]
            0 <= i < tail.len() implies tail[i].0.wf() && tail[i].1.wf() by {
            assert(tail[i] == s[i + 1]);
        }
        lemma_pairs_depth(s);
        lemma_round_trip(k0, enc(v0) + (enc_pairs(tail) + rest), depth);
        lemma_round_trip(v0, enc_pairs(tail) + rest, depth);
        let lk = enc(k0).len();
        let lv = enc(v0).len();
        lemma_enc_len_pos(k0);
        lemma_enc_len_pos(v0);
        let whole = enc_pairs(s) + rest;
        assert(whole =~= enc(k0) + (enc(v0) + (enc_pairs(tail) + rest)));
        assert(whole.skip(lk as int) =~= enc(v0) + (enc_pairs(tail) + rest));
        assert(whole.skip((lk + lv) as int) =~= enc_pairs(tail) + rest);
        lemma_entries_round_trip(tail, rest, depth);
        assert(seq![(k0, v0)] + tail =~= s);
    }
}

// ----- The executable encoder ------------------------------------------------
/// Appends the `n`-byte big-endian encoding of `v`.
fn push_be(out: &mut Vec<u8>, v: u64, n: usize)
    requires
        n <= 8,
    ensures
        final(out)@ == old(out)@ + be_bytes(v as nat, n as nat),
    decreases n,
{
    if n == 0 {
        proof {
            assert(out@ =~= old(out)@ + be_bytes(v as nat, 0));
        }
    } else {
        push_be(out, v / 256, n - 1);
        out.push((v % 256) as u8);
        proof {
            assert(out@ =~= old(out)@ + be_bytes(v as nat, n as nat));
        }
    }
}

/// Appends a byte slice.
#[verifier::loop_isolation(false)]
fn push_bytes(out: &mut Vec<u8>, b: &[u8])
    ensures
        final(out)@ == old(out)@ + b@,
{
    let mut i: usize = 0;
    while i < b.len()
        invariant
            i <= b@.len(),
            out@ == old(out)@ + b@.subrange(0, i as int),
        decreases b@.len() - i,
    {
        out.push(b[i]);
        i = i + 1;
        proof {
            assert(out@ =~= old(out)@ + b@.subrange(0, i as int));
        }
    }
    proof {
        assert(b@.subrange(0, b@.len() as int) =~= b@);
    }
}

/// Appends the shortest header for major type `major` with argument `arg`.
fn encode_header(out: &mut Vec<u8>, major: u8, arg: u64)
    requires
        major <= 6,
    ensures
        final(out)@ == old(out)@ + enc_header(major, arg as nat),
{
    proof {
        lemma_pow256_values();
    }
    if arg < 24 {
        out.push(major * 32 + arg as u8);
        proof {
            assert(out@ =~= old(out)@ + enc_header(major, arg as nat));
        }
    } else {
        let (ai, n): (u8, usize) = if arg < 0x100 {
            (24, 1)
        } else if arg < 0x10000 {
            (25, 2)
        } else if arg < 0x1_0000_0000 {
            (26, 4)
        } else {
            (27, 8)
        };
        out.push(major * 32 + ai);
        push_be(out, arg, n);
        proof {
            assert(out@ =~= old(out)@ + enc_header(major, arg as nat));
        }
    }
}

/// Appends the canonical encoding of a well-formed value: exactly
/// [`enc`] of its model.
#[verifier::loop_isolation(false)]
pub fn encode_value(v: &Value, out: &mut Vec<u8>)
    requires
        v@.wf(),
    ensures
        final(out)@ == old(out)@ + enc(v@),
    decreases vheight(*v),
{
    match v {
        Value::Null => {
            out.push(0xf6);
            proof {
                assert(out@ =~= old(out)@ + enc(v@));
            }
        },
        Value::Bool(b) => {
            out.push(if *b { 0xf5 } else { 0xf4 });
            proof {
                assert(out@ =~= old(out)@ + enc(v@));
            }
        },
        Value::Integer(i) => {
            if *i >= 0 {
                encode_header(out, 0, *i as u64);
            } else {
                encode_header(out, 1, (-1 - *i) as u64);
            }
        },
        Value::Float(bits) => {
            out.push(0xfb);
            push_be(out, *bits, 8);
            proof {
                assert(out@ =~= old(out)@ + enc(v@));
            }
        },
        Value::Text(s) => {
            let b = s.as_str().as_bytes();
            encode_header(out, 3, b.len() as u64);
            push_bytes(out, b);
            proof {
                assert(out@ =~= old(out)@ + enc(v@));
            }
        },
        Value::Bytes(b) => {
            encode_header(out, 2, b.len() as u64);
            push_bytes(out, b.as_slice());
            proof {
                assert(out@ =~= old(out)@ + enc(v@));
            }
        },
        Value::Array(a) => {
            proof {
                lemma_seq_model(a@);
                lemma_seq_vheight(a@);
                lemma_seq_wf(seq_model(a@));
            }
            encode_header(out, 4, a.len() as u64);
            let ghost base = out@;
            let mut k: usize = 0;
            while k < a.len()
                invariant
                    0 <= k <= a@.len(),
                    out@ == base + enc_seq(seq_model(a@).take(k as int)),
                decreases a@.len() - k,
            {
                proof {
                    assert(seq_model(a@).take(k as int).len() == k);
                    assert(seq_model(a@)[k as int] == a@[k as int].model());
                    assert(seq_model(a@)[k as int].wf());
                }
                encode_value(&a[k], out);
                k = k + 1;
                proof {
                    let pm = seq_model(a@);
                    assert(pm.take(k as int) =~= pm.take(k - 1).push(pm[k - 1]));
                    lemma_enc_seq_push(pm.take(k - 1), pm[k - 1]);
                    assert(out@ =~= base + enc_seq(pm.take(k as int)));
                }
            }
            proof {
                assert(seq_model(a@).take(a@.len() as int) =~= seq_model(a@));
                assert(out@ =~= old(out)@ + enc(v@));
            }
        },
        Value::Mapping(m) => {
            proof {
                lemma_pairs_model(m@);
                lemma_pairs_vheight(m@);
                lemma_pairs_wf(pairs_model(m@));
            }
            encode_header(out, 5, m.len() as u64);
            let ghost base = out@;
            let mut k: usize = 0;
            while k < m.len()
                invariant
                    0 <= k <= m@.len(),
                    out@ == base + enc_pairs(pairs_model(m@).take(k as int)),
                decreases m@.len() - k,
            {
                proof {
                    assert(pairs_model(m@).take(k as int).len() == k);
                    assert(pairs_model(m@)[k as int] == (m@[k as int].0.model(), m@[
                        k as int].1.model()));
                    assert(pairs_model(m@)[k as int].0.wf() && pairs_model(m@)[k as int].1.wf());
                }
                let pair = &m[k];
                encode_value(&pair.0, out);
                encode_value(&pair.1, out);
                k = k + 1;
                proof {
                    let pm = pairs_model(m@);
                    assert(pm.take(k as int) =~= pm.take(k - 1).push(pm[k - 1]));
                    lemma_enc_pairs_push(pm.take(k - 1), pm[k - 1].0, pm[k - 1].1);
                    assert(out@ =~= base + enc_pairs(pm.take(k as int)));
                }
            }
            proof {
                assert(pairs_model(m@).take(m@.len() as int) =~= pairs_model(m@));
                assert(out@ =~= old(out)@ + enc(v@));
            }
        },
        Value::Tag(t, b) => {
            encode_header(out, 6, *t);
            encode_value(b, out);
            proof {
                assert(out@ =~= old(out)@ + enc(v@));
            }
        },
    }
}

// ----- The executable decoder ------------------------------------------------
/// Why a decode attempt stopped: the input ended before the item was
/// complete, the bytes are not an acceptable item (with the offset of the
/// fault), or the item nests deeper than [`DECODE_DEPTH_LIMIT`].
#[derive(Debug, PartialEq, Eq, Structural, Clone, Copy)]
pub enum DecodeFail {
    Incomplete,
    Malformed(usize),
    TooDeep,
}

/// The exact transport error a decode failure on a byte-complete input of
/// length `len` is reported as: a decode error whose message describes the
/// failure, carrying the byte offset exactly when the fault is localizable
/// — the input length for truncated input, the position of the fault for a
/// malformed item, and no offset for a recursion-limit failure.
pub open spec fn decode_fail_report(e: DecodeFail, len: usize, t: TransportError) -> bool {
    match e {
        DecodeFail::Incomplete => t matches TransportError::Decode { msg, pos }
            && msg@ == "unexpected end of input"@ && pos == Some(len),
        DecodeFail::Malformed(p) => t matches TransportError::Decode { msg, pos }
            && msg@ == "malformed item"@ && pos == Some(p),
        DecodeFail::TooDeep => t matches TransportError::Decode { msg, pos }
            && msg@ == "recursion limit exceeded"@ && pos is None,
    }
}

impl DecodeFail {
    /// Report this failure as a transport error, for an input of `len`
    /// bytes: exactly [`decode_fail_report`].
    pub fn to_transport_error(self, len: usize) -> (r: TransportError)
        ensures
            decode_fail_report(self, len, r),
    {
        match self {
            DecodeFail::Incomplete => TransportError::Decode {
                msg: "unexpected end of input".to_owned(),
                pos: Some(len),
            },
            DecodeFail::Malformed(p) => TransportError::Decode {
                msg: "malformed item".to_owned(),
                pos: Some(p),
            },
            DecodeFail::TooDeep => TransportError::Decode {
                msg: "recursion limit exceeded".to_owned(),
                pos: None,
            },
        }
    }
}

/// Reads the big-endian value of `n` bytes starting at `pos`.
#[verifier::loop_isolation(false)]
fn read_be(bytes: &[u8], pos: usize, n: usize) -> (r: u64)
    requires
        pos + n <= bytes@.len(),
        n <= 8,
    ensures
        r as nat == from_be(bytes@.subrange(pos as int, (pos + n) as int)),
{
    proof {
        lemma_pow256_values();
    }
    let blen = bytes.len();
    let mut acc: u64 = 0;
    let mut i: usize = 0;
    while i < n
        invariant
            0 <= i <= n,
            acc as nat == from_be(bytes@.subrange(pos as int, (pos + i) as int)),
            acc < pow256(i as nat),
        decreases n - i,
    {
        proof {
            let cur = bytes@.subrange(pos as int, (pos + i) as int);
            let next = bytes@.subrange(pos as int, (pos + i + 1) as int);
            assert(next.drop_last() =~= cur);
            assert(pow256((i + 1) as nat) == 256 * pow256(i as nat));
            assert(acc * 256 + 256 <= 256 * pow256(i as nat)) by (nonlinear_arith)
                requires
                    acc < pow256(i as nat),
            ;
            lemma_pow256_increases((i + 1) as nat, 8);
        }
        acc = acc * 256 + bytes[pos + i] as u64;
        i = i + 1;
    }
    acc
}

/// Larger byte counts can hold every smaller count's values.
pub proof fn lemma_pow256_increases(a: nat, b: nat)
    requires
        a <= b,
    ensures
        pow256(a) <= pow256(b),
    decreases b,
{
    if a < b {
        lemma_pow256_increases(a, (b - 1) as nat);
        assert(pow256(b) == 256 * pow256((b - 1) as nat));
    }
}

/// Reads one header starting at `pos`: exactly what [`dec_header`] says of
/// the bytes from `pos` on.
fn decode_header_at(bytes: &[u8], pos: usize) -> (r: Result<(u8, u64, usize), DecodeFail>)
    requires
        pos <= bytes@.len(),
    ensures
        match r {
            Ok((major, arg, hlen)) => 1 <= hlen && pos + hlen <= bytes@.len() && dec_header(
                bytes@.skip(pos as int),
            ) == Some((major, arg as nat, hlen as nat)),
            Err(e) => dec_header(bytes@.skip(pos as int)) is None && e != DecodeFail::TooDeep,
        },
{
    proof {
        lemma_pow256_values();
    }
    let ghost s = bytes@.skip(pos as int);
    if pos >= bytes.len() {
        return Err(DecodeFail::Incomplete);
    }
    let b0 = bytes[pos];
    proof {
        assert(s[0] == bytes@[pos as int]);
    }
    let major = b0 / 32;
    let ai = b0 % 32;
    if ai < 24 {
        Ok((major, ai as u64, 1))
    } else if ai == 24 {
        if bytes.len() - pos < 2 {
            return Err(DecodeFail::Incomplete);
        }
        let arg = bytes[pos + 1];
        proof {
            assert(s[1] == bytes@[pos as int + 1]);
        }
        Ok((major, arg as u64, 2))
    } else if ai == 25 {
        if bytes.len() - pos < 3 {
            return Err(DecodeFail::Incomplete);
        }
        let arg = read_be(bytes, pos + 1, 2);
        proof {
            assert(s.subrange(1, 3) =~= bytes@.subrange(pos as int + 1, pos as int + 3));
        }
        Ok((major, arg, 3))
    } else if ai == 26 {
        if bytes.len() - pos < 5 {
            return Err(DecodeFail::Incomplete);
        }
        let arg = read_be(bytes, pos + 1, 4);
        proof {
            assert(s.subrange(1, 5) =~= bytes@.subrange(pos as int + 1, pos as int + 5));
        }
        Ok((major, arg, 5))
    } else if ai == 27 {
        if bytes.len() - pos < 9 {
            return Err(DecodeFail::Incomplete);
        }
        let arg = read_be(bytes, pos + 1, 8);
        proof {
            assert(s.subrange(1, 9) =~= bytes@.subrange(pos as int + 1, pos as int + 9));
        }
        Ok((major, arg, 9))
    } else {
        Err(DecodeFail::Malformed(pos))
    }
}

/// Relies on `str::from_utf8` of std: it accepts exactly the valid UTF-8
/// byte sequences, and decodes them to the characters they encode (the
/// same reading of UTF-8 that `vstd::utf8` specifies and that
/// `vstd`'s own axioms give `str::from_utf8_unchecked`).
#[verifier::external_body]
fn bytes_to_string(b: &[u8]) -> (r: Option<String>)
    ensures
        r is Some <==> valid_utf8(b@),
        r is Some ==> r->0@ == decode_utf8(b@),
{
    match std::str::from_utf8(b) {
        Ok(s) => Some(s.to_string()),
        Err(_) => None,
    }
}

/// The items-loop invariant: what remains to be read, together with what
/// was already read, accounts for the whole item sequence.
spec fn items_continuation(
    s0: Seq<u8>,
    total: nat,
    scur: Seq<u8>,
    remaining: nat,
    consumed: nat,
    acc: Seq<ValueModel>,
    depth: nat,
) -> bool {
    dec_items(s0, total, depth) == (match dec_items(scur, remaining, depth) {
        Some((vs, u)) => Some::<(Seq<ValueModel>, nat)>((acc + vs, (consumed + u) as nat)),
        None => None::<(Seq<ValueModel>, nat)>,
    })
}

/// The entries-loop invariant, the key-value analogue of
/// [`items_continuation`].
spec fn entries_continuation(
    s0: Seq<u8>,
    total: nat,
    scur: Seq<u8>,
    remaining: nat,
    consumed: nat,
    acc: Seq<(ValueModel, ValueModel)>,
    depth: nat,
) -> bool {
    dec_entries(s0, total, depth) == (match dec_entries(scur, remaining, depth) {
        Some((ps, u)) => Some::<(Seq<(ValueModel, ValueModel)>, nat)>(
            (acc + ps, (consumed + u) as nat),
        ),
        None => None::<(Seq<(ValueModel, ValueModel)>, nat)>,
    })
}

/// Reads one value starting at `pos`, accepting at most `depth` layers of
/// nesting: exactly what [`dec`] says of the bytes from `pos` on.
#[verifier::loop_isolation(false)]
#[verifier::rlimit(80)]
pub fn decode_at(bytes: &[u8], pos: usize, depth: usize) -> (r: Result<(Value, usize), DecodeFail>)
    requires
        pos <= bytes@.len(),
    ensures
        match r {
            Ok((v, newpos)) => pos < newpos <= bytes@.len() && dec(
                bytes@.skip(pos as int),
                depth as nat,
            ) == Some((v@, (newpos - pos) as nat)),
            Err(_) => dec(bytes@.skip(pos as int), depth as nat) is None,
        },
    decreases depth, bytes@.len() - pos, 0int,
{
    proof {
        lemma_pow256_values();
    }
    let blen = bytes.len();
    let ghost s = bytes@.skip(pos as int);
    let (major, arg, hlen) = match decode_header_at(bytes, pos) {
        Ok(h) => h,
        Err(e) => {
            return Err(e);
        },
    };
    if major == 0 {
        Ok((Value::Integer(arg as i128), pos + hlen))
    } else if major == 1 {
        Ok((Value::Integer(-1 - arg as i128), pos + hlen))
    } else if major == 2 || major == 3 {
        let avail = blen - (pos + hlen);
        if arg > avail as u64 {
            return Err(DecodeFail::Incomplete);
        }
        let start = pos + hlen;
        let end = start + arg as usize;
        let payload = vstd::slice::slice_subrange(bytes, start, end);
        proof {
            assert(payload@ =~= s.subrange(hlen as int, hlen as int + arg as int));
        }
        if major == 2 {
            let owned = vstd::slice::slice_to_vec(payload);
            Ok((Value::Bytes(owned), end))
        } else {
            match bytes_to_string(payload) {
                Some(text) => Ok((Value::Text(text), end)),
                None => Err(DecodeFail::Malformed(start)),
            }
        }
    } else if major == 4 {
        if depth == 0 {
            return Err(DecodeFail::TooDeep);
        }
        proof {
            assert(s.skip(hlen as int) =~= bytes@.skip((pos + hlen) as int));
        }
        match decode_items_at(bytes, pos + hlen, arg, depth - 1) {
            Ok((items, newpos)) => Ok((Value::Array(items), newpos)),
            Err(e) => Err(e),
        }
    } else if major == 5 {
        if depth == 0 {
            return Err(DecodeFail::TooDeep);
        }
        proof {
            assert(s.skip(hlen as int) =~= bytes@.skip((pos + hlen) as int));
        }
        match decode_entries_at(bytes, pos + hlen, arg, depth - 1) {
            Ok((entries, newpos)) => Ok((Value::Mapping(entries), newpos)),
            Err(e) => Err(e),
        }
    } else if major == 6 {
        if depth == 0 {
            return Err(DecodeFail::TooDeep);
        }
        proof {
            assert((arg as nat) < pow256(8));
            assert(s.skip(hlen as int) =~= bytes@.skip((pos + hlen) as int));
        }
        match decode_at(bytes, pos + hlen, depth - 1) {
            Ok((inner, newpos)) => Ok((Value::Tag(arg, Box::new(inner)), newpos)),
            Err(e) => Err(e),
        }
    } else {
        if hlen == 1 && arg == 20 {
            Ok((Value::Bool(false), pos + 1))
        } else if hlen == 1 && arg == 21 {
            Ok((Value::Bool(true), pos + 1))
        } else if hlen == 1 && arg == 22 {
            Ok((Value::Null, pos + 1))
        } else if hlen == 3 {
            Ok((Value::Float(widen_f16(arg)), pos + 3))
        } else if hlen == 5 {
            Ok((Value::Float(widen_f32(arg)), pos + 5))
        } else if hlen == 9 {
            Ok((Value::Float(arg), pos + 9))
        } else {
            Err(DecodeFail::Malformed(pos))
        }
    }
}

/// Reads `n` values starting at `pos`: exactly what [`dec_items`] says of
/// the bytes from `pos` on.
#[verifier::loop_isolation(false)]
#[verifier::rlimit(80)]
fn decode_items_at(bytes: &[u8], pos: usize, n: u64, depth: usize) -> (r: Result<
    (Vec<Value>, usize),
    DecodeFail,
>)
    requires
        pos <= bytes@.len(),
    ensures
        match r {
            Ok((items, newpos)) => pos <= newpos <= bytes@.len() && dec_items(
                bytes@.skip(pos as int),
                n as nat,
                depth as nat,
            ) == Some((seq_model(items@), (newpos - pos) as nat)),
            Err(_) => dec_items(bytes@.skip(pos as int), n as nat, depth as nat) is None,
        },
    decreases depth, bytes@.len() - pos, 1int,
{
    let ghost s0 = bytes@.skip(pos as int);
    let mut acc: Vec<Value> = Vec::new();
    let mut cur: usize = pos;
    let mut i: u64 = 0;
    while i < n
        invariant
            0 <= i <= n,
            pos <= cur <= bytes@.len(),
            acc@.len() == i,
            items_continuation(
                s0,
                n as nat,
                bytes@.skip(cur as int),
                (n - i) as nat,
                (cur - pos) as nat,
                seq_model(acc@),
                depth as nat,
            ),
        decreases n - i,
    {
        let (v, newcur) = match decode_at(bytes, cur, depth) {
            Ok(x) => x,
            Err(e) => {
                return Err(e);
            },
        };
        proof {
            let scur = bytes@.skip(cur as int);
            let used = (newcur - cur) as nat;
            assert(scur.skip(used as int) =~= bytes@.skip(newcur as int));
            let r2 = dec_items(bytes@.skip(newcur as int), (n - i - 1) as nat, depth as nat);
            assert(acc@.push(v).drop_last() =~= acc@);
            assert(seq_model(acc@.push(v)) =~= seq_model(acc@).push(v@));
            if r2 is Some {
                let (vs, u2) = r2->0;
                assert(dec_items(scur, (n - i) as nat, depth as nat) == Some(
                    (seq![v@] + vs, (used + u2) as nat),
                ));
                assert(seq_model(acc@) + (seq![v@] + vs) =~= seq_model(acc@.push(v)) + vs);
            } else {
                assert(dec_items(scur, (n - i) as nat, depth as nat) is None);
            }
        }
        acc.push(v);
        cur = newcur;
        i = i + 1;
    }
    proof {
        assert(dec_items(bytes@.skip(cur as int), 0, depth as nat) == Some(
            (Seq::<ValueModel>::empty(), 0nat),
        ));
        assert(seq_model(acc@) + Seq::<ValueModel>::empty() =~= seq_model(acc@));
    }
    Ok((acc, cur))
}

/// Reads `n` key-value pairs starting at `pos`: exactly what
/// [`dec_entries`] says of the bytes from `pos` on.
#[verifier::loop_isolation(false)]
#[verifier::rlimit(80)]
fn decode_entries_at(bytes: &[u8], pos: usize, n: u64, depth: usize) -> (r: Result<
    (Vec<(Value, Value)>, usize),
    DecodeFail,
>)
    requires
        pos <= bytes@.len(),
    ensures
        match r {
            Ok((entries, newpos)) => pos <= newpos <= bytes@.len() && dec_entries(
                bytes@.skip(pos as int),
                n as nat,
                depth as nat,
            ) == Some((pairs_model(entries@), (newpos - pos) as nat)),
            Err(_) => dec_entries(bytes@.skip(pos as int), n as nat, depth as nat) is None,
        },
    decreases depth, bytes@.len() - pos, 1int,
{
    let ghost s0 = bytes@.skip(pos as int);
    let mut acc: Vec<(Value, Value)> = Vec::new();
    let mut cur: usize = pos;
    let mut i: u64 = 0;
    while i < n
        invariant
            0 <= i <= n,
            pos <= cur <= bytes@.len(),
            acc@.len() == i,
            entries_continuation(
                s0,
                n as nat,
                bytes@.skip(cur as int),
                (n - i) as nat,
                (cur - pos) as nat,
                pairs_model(acc@),
                depth as nat,
            ),
        decreases n - i,
    {
        let (k, mid) = match decode_at(bytes, cur, depth) {
            Ok(x) => x,
            Err(e) => {
                return Err(e);
            },
        };
        let (v, newcur) = match decode_at(bytes, mid, depth) {
            Ok(x) => x,
            Err(e) => {
                proof {
                    let scur = bytes@.skip(cur as int);
                    assert(scur.skip((mid - cur) as int) =~= bytes@.skip(mid as int));
                }
                return Err(e);
            },
        };
        proof {
            let scur = bytes@.skip(cur as int);
            let used_k = (mid - cur) as nat;
            let used_v = (newcur - mid) as nat;
            assert(scur.skip(used_k as int) =~= bytes@.skip(mid as int));
            assert(scur.skip((used_k + used_v) as int) =~= bytes@.skip(newcur as int));
            let r2 = dec_entries(bytes@.skip(newcur as int), (n - i - 1) as nat, depth as nat);
            assert(acc@.push((k, v)).drop_last() =~= acc@);
            assert(pairs_model(acc@.push((k, v))) =~= pairs_model(acc@).push((k@, v@)));
            if r2 is Some {
                let (ps, u2) = r2->0;
                assert(dec_entries(scur, (n - i) as nat, depth as nat) == Some(
                    (seq![(k@, v@)] + ps, (used_k + used_v + u2) as nat),
                ));
                assert(pairs_model(acc@) + (seq![(k@, v@)] + ps) =~= pairs_model(acc@.push((k, v)))
                    + ps);
            } else {
                assert(dec_entries(scur, (n - i) as nat, depth as nat) is None);
            }
        }
        acc.push((k, v));
        cur = newcur;
        i = i + 1;
    }
    proof {
        assert(dec_entries(bytes@.skip(cur as int), 0, depth as nat) == Some(
            (Seq::<(ValueModel, ValueModel)>::empty(), 0nat),
        ));
        assert(pairs_model(acc@) + Seq::<(ValueModel, ValueModel)>::empty() =~= pairs_model(acc@));
    }
    Ok((acc, cur))
}

/// Reads exactly one value from the front of `bytes`, accepting at most
/// [`DECODE_DEPTH_LIMIT`] layers of nesting: exactly what [`dec`] says of
/// the bytes, together with how many bytes the value took.
pub fn decode_value(bytes: &[u8]) -> (r: Result<(Value, usize), DecodeFail>)
    ensures
        match r {
            Ok((v, used)) => 1 <= used <= bytes@.len() && v@.wf() && dec(
                bytes@,
                DECODE_DEPTH_LIMIT as nat,
            ) == Some((v@, used as nat)),
            Err(_) => dec(bytes@, DECODE_DEPTH_LIMIT as nat) is None,
        },
{
    proof {
        assert(bytes@.skip(0) =~= bytes@);
        lemma_dec_wf(bytes@, DECODE_DEPTH_LIMIT as nat);
    }
    decode_at(bytes, 0, DECODE_DEPTH_LIMIT)
}

} // verus!
