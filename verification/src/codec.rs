//! The wire format: a self-describing binary encoding for snapshot values,
//! patch operations, and whole update envelopes.
//!
//! Every record is a tag byte followed by fixed-width little-endian lengths
//! and raw bytes. Decoding is total: any byte string either decodes to a
//! well-formed record or is rejected, and decoding an encoded record yields
//! the record back ([`lemma_envelope_round_trip`]).

use vstd::prelude::*;

use crate::patch::OpModel;
use crate::patch::SegModel;
use crate::value::JsonModel;
use crate::value::JsonValue;

verus! {

broadcast use
    crate::value::lemma_view_arr_len,
    crate::value::lemma_view_arr_index,
    crate::value::lemma_view_obj_len,
    crate::value::lemma_view_obj_index,
;

/// 256 to the power `k`: the number of values a `k`-byte field can hold.
pub open spec fn pow256(k: nat) -> int
    decreases k,
{
    if k == 0 {
        1
    } else {
        256 * pow256((k - 1) as nat)
    }
}

/// The `k` little-endian base-256 digits of `n`.
pub open spec fn u64_digits(n: int, k: nat) -> Seq<u8>
    decreases k,
{
    if k == 0 {
        Seq::empty()
    } else {
        seq![(n % 256) as u8] + u64_digits(n / 256, (k - 1) as nat)
    }
}

/// The number a little-endian base-256 digit string denotes.
pub open spec fn undigits(s: Seq<u8>) -> int
    decreases s.len(),
{
    if s.len() == 0 {
        0
    } else {
        s[0] + 256 * undigits(s.drop_first())
    }
}

/// An unsigned 64-bit length or index field.
pub open spec fn enc_u64(n: int) -> Seq<u8> {
    u64_digits(n, 8)
}

/// The unsigned 64-bit residue a signed 64-bit integer is carried as.
pub open spec fn wrap_i64(i: int) -> int {
    i % 0x1_0000_0000_0000_0000
}

/// The signed reading of an unsigned 64-bit residue.
pub open spec fn to_i64(n: int) -> int {
    if n >= 0x8000_0000_0000_0000 {
        n - 0x1_0000_0000_0000_0000
    } else {
        n
    }
}

/// A length-prefixed byte string.
pub open spec fn enc_bytes(s: Seq<u8>) -> Seq<u8> {
    enc_u64(s.len() as int) + s
}

/// Encoding of one snapshot value.
pub open spec fn enc_val(m: JsonModel) -> Seq<u8>
    decreases m,
{
    match m {
        JsonModel::Null => seq![0u8],
        JsonModel::Bool(b) => seq![1u8, (if b { 1u8 } else { 0u8 })],
        JsonModel::Int(i) => seq![2u8] + enc_u64(wrap_i64(i)),
        JsonModel::Str(s) => seq![3u8] + enc_bytes(s),
        JsonModel::Arr(vs) => seq![4u8] + enc_u64(vs.len() as int) + enc_list(vs),
        JsonModel::Obj(es) => seq![5u8] + enc_u64(es.len() as int) + enc_entries(es),
    }
}

/// Encoding of array elements, in order.
pub open spec fn enc_list(vs: Seq<JsonModel>) -> Seq<u8>
    decreases vs,
{
    if vs.len() == 0 {
        Seq::empty()
    } else {
        enc_val(vs[0]) + enc_list(vs.drop_first())
    }
}

/// Encoding of object entries, in order.
pub open spec fn enc_entries(es: Seq<(Seq<u8>, JsonModel)>) -> Seq<u8>
    decreases es,
{
    if es.len() == 0 {
        Seq::empty()
    } else {
        enc_bytes(es[0].0) + enc_val(es[0].1) + enc_entries(es.drop_first())
    }
}

/// Encoding of one path segment.
pub open spec fn enc_seg(s: SegModel) -> Seq<u8> {
    match s {
        SegModel::Key(k) => seq![0u8] + enc_bytes(k),
        SegModel::Index(i) => seq![1u8] + enc_u64(i),
    }
}

/// Encoding of path segments, in order.
pub open spec fn enc_segs(p: Seq<SegModel>) -> Seq<u8>
    decreases p.len(),
{
    if p.len() == 0 {
        Seq::empty()
    } else {
        enc_seg(p[0]) + enc_segs(p.drop_first())
    }
}

/// Encoding of a whole path: its length, then its segments.
pub open spec fn enc_path(p: Seq<SegModel>) -> Seq<u8> {
    enc_u64(p.len() as int) + enc_segs(p)
}

/// Encoding of one patch operation.
pub open spec fn enc_op(op: OpModel) -> Seq<u8> {
    match op {
        OpModel::Replace { path, value } => seq![0u8] + enc_path(path) + enc_val(value),
        OpModel::Add { path, value } => seq![1u8] + enc_path(path) + enc_val(value),
        OpModel::Remove { path } => seq![2u8] + enc_path(path),
    }
}

/// Encoding of patch operations, in order.
pub open spec fn enc_op_list(ops: Seq<OpModel>) -> Seq<u8>
    decreases ops.len(),
{
    if ops.len() == 0 {
        Seq::empty()
    } else {
        enc_op(ops[0]) + enc_op_list(ops.drop_first())
    }
}

/// Encoding of a whole patch: its operation count, then its operations.
pub open spec fn enc_patch(ops: Seq<OpModel>) -> Seq<u8> {
    enc_u64(ops.len() as int) + enc_op_list(ops)
}

/// Encoding of a whole update envelope: the channel name, then the patch.
pub open spec fn enc_envelope(name: Seq<u8>, ops: Seq<OpModel>) -> Seq<u8> {
    enc_bytes(name) + enc_patch(ops)
}

/// True when every integer, length and index of `m` fits its wire field.
/// Every model that is the view of an in-memory value is bounded.
pub open spec fn bounded_val(m: JsonModel) -> bool
    decreases m,
{
    match m {
        JsonModel::Null => true,
        JsonModel::Bool(_) => true,
        JsonModel::Int(i) => -0x8000_0000_0000_0000 <= i < 0x8000_0000_0000_0000,
        JsonModel::Str(s) => s.len() < pow256(8),
        JsonModel::Arr(vs) => vs.len() < pow256(8) && (forall|i: int|
            0 <= i < vs.len() ==> bounded_val(#[trigger] vs[i])),
        JsonModel::Obj(es) => es.len() < pow256(8) && (forall|i: int|
            0 <= i < es.len() ==> (#[trigger] es[i]).0.len() < pow256(8) && bounded_val(es[i].1)),
    }
}

/// True when a path segment fits its wire fields.
pub open spec fn bounded_seg(s: SegModel) -> bool {
    match s {
        SegModel::Key(k) => k.len() < pow256(8),
        SegModel::Index(i) => 0 <= i <= usize::MAX as int,
    }
}

/// True when an operation fits its wire fields.
pub open spec fn bounded_op(op: OpModel) -> bool {
    crate::patch::op_path(op).len() < pow256(8) && (forall|i: int|
        0 <= i < crate::patch::op_path(op).len() ==> bounded_seg(
            #[trigger] crate::patch::op_path(op)[i],
        )) && match op {
        OpModel::Replace { value, .. } => bounded_val(value),
        OpModel::Add { value, .. } => bounded_val(value),
        OpModel::Remove { .. } => true,
    }
}

/// True when a whole patch fits its wire fields.
pub open spec fn bounded_ops(ops: Seq<OpModel>) -> bool {
    ops.len() < pow256(8) && (forall|i: int| 0 <= i < ops.len() ==> bounded_op(#[trigger] ops[i]))
}

/// Decodes an unsigned 64-bit field.
pub open spec fn spec_dec_u64(bytes: Seq<u8>, pos: int) -> Option<(int, int)> {
    if 0 <= pos && pos + 8 <= bytes.len() {
        Some((undigits(bytes.subrange(pos, pos + 8)), pos + 8))
    } else {
        None
    }
}

/// Decodes a length-prefixed byte string.
pub open spec fn spec_dec_bytes(bytes: Seq<u8>, pos: int) -> Option<(Seq<u8>, int)> {
    match spec_dec_u64(bytes, pos) {
        Some((n, p2)) => if p2 + n <= bytes.len() {
            Some((bytes.subrange(p2, p2 + n), p2 + n))
        } else {
            None
        },
        None => None,
    }
}

/// Decodes one snapshot value.
pub open spec fn spec_dec_val(bytes: Seq<u8>, pos: int) -> Option<(JsonModel, int)>
    decreases bytes.len() - pos, 1int,
{
    if pos < 0 || pos >= bytes.len() {
        None
    } else {
        let tag = bytes[pos];
        if tag == 0 {
            Some((JsonModel::Null, pos + 1))
        } else if tag == 1 {
            if pos + 2 <= bytes.len() {
                if bytes[pos + 1] == 0 {
                    Some((JsonModel::Bool(false), pos + 2))
                } else if bytes[pos + 1] == 1 {
                    Some((JsonModel::Bool(true), pos + 2))
                } else {
                    None
                }
            } else {
                None
            }
        } else if tag == 2 {
            match spec_dec_u64(bytes, pos + 1) {
                Some((n, p2)) => Some((JsonModel::Int(to_i64(n)), p2)),
                None => None,
            }
        } else if tag == 3 {
            match spec_dec_bytes(bytes, pos + 1) {
                Some((s, p2)) => Some((JsonModel::Str(s), p2)),
                None => None,
            }
        } else if tag == 4 {
            if pos + 9 <= bytes.len() {
                let n = undigits(bytes.subrange(pos + 1, pos + 9));
                match spec_dec_list(bytes, pos + 9, n) {
                    Some((vs, p3)) => Some((JsonModel::Arr(vs), p3)),
                    None => None,
                }
            } else {
                None
            }
        } else if tag == 5 {
            if pos + 9 <= bytes.len() {
                let n = undigits(bytes.subrange(pos + 1, pos + 9));
                match spec_dec_entries(bytes, pos + 9, n) {
                    Some((es, p3)) => Some((JsonModel::Obj(es), p3)),
                    None => None,
                }
            } else {
                None
            }
        } else {
            None
        }
    }
}

/// Decodes `n` consecutive snapshot values.
pub open spec fn spec_dec_list(bytes: Seq<u8>, pos: int, n: int) -> Option<(Seq<JsonModel>, int)>
    decreases bytes.len() - pos, 2int,
{
    if n <= 0 {
        Some((Seq::empty(), pos))
    } else {
        match spec_dec_val(bytes, pos) {
            Some((v, p2)) => if pos < p2 <= bytes.len() {
                match spec_dec_list(bytes, p2, n - 1) {
                    Some((vs, p3)) => Some((seq![v] + vs, p3)),
                    None => None,
                }
            } else {
                None
            },
            None => None,
        }
    }
}

/// Decodes `n` consecutive object entries.
pub open spec fn spec_dec_entries(bytes: Seq<u8>, pos: int, n: int) -> Option<
    (Seq<(Seq<u8>, JsonModel)>, int),
>
    decreases bytes.len() - pos, 2int,
{
    if n <= 0 {
        Some((Seq::empty(), pos))
    } else {
        match spec_dec_bytes(bytes, pos) {
            Some((k, p1)) => if pos < p1 <= bytes.len() {
                match spec_dec_val(bytes, p1) {
                    Some((v, p2)) => if p1 < p2 <= bytes.len() {
                        match spec_dec_entries(bytes, p2, n - 1) {
                            Some((es, p3)) => Some((seq![(k, v)] + es, p3)),
                            None => None,
                        }
                    } else {
                        None
                    },
                    None => None,
                }
            } else {
                None
            },
            None => None,
        }
    }
}

/// Decodes one path segment.
pub open spec fn spec_dec_seg(bytes: Seq<u8>, pos: int) -> Option<(SegModel, int)> {
    if pos < 0 || pos >= bytes.len() {
        None
    } else {
        let tag = bytes[pos];
        if tag == 0 {
            match spec_dec_bytes(bytes, pos + 1) {
                Some((k, p2)) => Some((SegModel::Key(k), p2)),
                None => None,
            }
        } else if tag == 1 {
            match spec_dec_u64(bytes, pos + 1) {
                Some((n, p2)) => if n <= usize::MAX as int {
                    Some((SegModel::Index(n), p2))
                } else {
                    None
                },
                None => None,
            }
        } else {
            None
        }
    }
}

/// Decodes `n` consecutive path segments.
pub open spec fn spec_dec_segs(bytes: Seq<u8>, pos: int, n: int) -> Option<(Seq<SegModel>, int)>
    decreases bytes.len() - pos,
{
    if n <= 0 {
        Some((Seq::empty(), pos))
    } else {
        match spec_dec_seg(bytes, pos) {
            Some((s, p2)) => if pos < p2 <= bytes.len() {
                match spec_dec_segs(bytes, p2, n - 1) {
                    Some((ss, p3)) => Some((seq![s] + ss, p3)),
                    None => None,
                }
            } else {
                None
            },
            None => None,
        }
    }
}

/// Decodes a whole path.
pub open spec fn spec_dec_path(bytes: Seq<u8>, pos: int) -> Option<(Seq<SegModel>, int)> {
    if 0 <= pos && pos + 8 <= bytes.len() {
        let n = undigits(bytes.subrange(pos, pos + 8));
        spec_dec_segs(bytes, pos + 8, n)
    } else {
        None
    }
}

/// Decodes one patch operation.
pub open spec fn spec_dec_op(bytes: Seq<u8>, pos: int) -> Option<(OpModel, int)> {
    if pos < 0 || pos >= bytes.len() {
        None
    } else {
        let tag = bytes[pos];
        if tag == 0 || tag == 1 {
            match spec_dec_path(bytes, pos + 1) {
                Some((p, p2)) => match spec_dec_val(bytes, p2) {
                    Some((v, p3)) => if tag == 0 {
                        Some((OpModel::Replace { path: p, value: v }, p3))
                    } else {
                        Some((OpModel::Add { path: p, value: v }, p3))
                    },
                    None => None,
                },
                None => None,
            }
        } else if tag == 2 {
            match spec_dec_path(bytes, pos + 1) {
                Some((p, p2)) => Some((OpModel::Remove { path: p }, p2)),
                None => None,
            }
        } else {
            None
        }
    }
}

/// Decodes `n` consecutive patch operations.
pub open spec fn spec_dec_op_list(bytes: Seq<u8>, pos: int, n: int) -> Option<(Seq<OpModel>, int)>
    decreases bytes.len() - pos,
{
    if n <= 0 {
        Some((Seq::empty(), pos))
    } else {
        match spec_dec_op(bytes, pos) {
            Some((op, p2)) => if pos < p2 <= bytes.len() {
                match spec_dec_op_list(bytes, p2, n - 1) {
                    Some((ops, p3)) => Some((seq![op] + ops, p3)),
                    None => None,
                }
            } else {
                None
            },
            None => None,
        }
    }
}

/// Decodes a whole patch.
pub open spec fn spec_dec_patch(bytes: Seq<u8>, pos: int) -> Option<(Seq<OpModel>, int)> {
    if 0 <= pos && pos + 8 <= bytes.len() {
        let n = undigits(bytes.subrange(pos, pos + 8));
        spec_dec_op_list(bytes, pos + 8, n)
    } else {
        None
    }
}

/// Decodes a whole update envelope. The envelope must use the byte string
/// exactly: trailing bytes are rejected.
pub open spec fn spec_dec_envelope(bytes: Seq<u8>) -> Option<(Seq<u8>, Seq<OpModel>)> {
    match spec_dec_bytes(bytes, 0) {
        Some((name, p1)) => match spec_dec_patch(bytes, p1) {
            Some((ops, p2)) => if p2 == bytes.len() {
                Some((name, ops))
            } else {
                None
            },
            None => None,
        },
        None => None,
    }
}

pub proof fn lemma_pow256_pos(k: nat)
    ensures
        pow256(k) >= 1,
    decreases k,
{
    if k > 0 {
        lemma_pow256_pos((k - 1) as nat);
    }
}

pub proof fn lemma_digits_len(n: int, k: nat)
    ensures
        u64_digits(n, k).len() == k,
    decreases k,
{
    if k > 0 {
        lemma_digits_len(n / 256, (k - 1) as nat);
    }
}

pub proof fn lemma_undigits_digits(n: int, k: nat)
    requires
        0 <= n < pow256(k),
    ensures
        undigits(u64_digits(n, k)) == n,
    decreases k,
{
    if k == 0 {
    } else {
        let d = u64_digits(n, k);
        let q = n / 256;
        let r = n % 256;
        vstd::arithmetic::div_mod::lemma_fundamental_div_mod(n, 256);
        vstd::arithmetic::div_mod::lemma_mod_division_less_than_divisor(n, 256);
        vstd::arithmetic::div_mod::lemma_div_pos_is_pos(n, 256);
        lemma_pow256_pos((k - 1) as nat);
        assert(n == 256 * q + r);
        assert(0 <= r < 256);
        // q < pow256(k - 1), else n would reach pow256(k)
        assert(256 * q + r < 256 * pow256((k - 1) as nat));
        lemma_undigits_digits(q, (k - 1) as nat);
        assert(d[0] == r as u8);
        assert(d.drop_first() =~= u64_digits(q, (k - 1) as nat));
    }
}

proof fn lemma_subrange_split(bytes: Seq<u8>, pos: int, a: Seq<u8>, b: Seq<u8>)
    requires
        0 <= pos,
        pos + a.len() + b.len() <= bytes.len(),
        bytes.subrange(pos, pos + a.len() + b.len()) == a + b,
    ensures
        bytes.subrange(pos, pos + a.len()) == a,
        bytes.subrange(pos + a.len(), pos + a.len() + b.len()) == b,
{
    let w = bytes.subrange(pos, pos + a.len() + b.len());
    assert forall|i: int| 0 <= i < a.len() implies #[trigger] bytes.subrange(pos, pos + a.len())[i]
        == a[i] by {
        assert(w[i] == bytes[pos + i]);
        assert(w[i] == (a + b)[i]);
    }
    assert(bytes.subrange(pos, pos + a.len()) =~= a);
    assert forall|i: int| 0 <= i < b.len() implies #[trigger] bytes.subrange(
        pos + a.len(),
        pos + a.len() + b.len(),
    )[i] == b[i] by {
        assert(w[a.len() + i] == bytes[pos + a.len() + i]);
        assert(w[a.len() + i] == (a + b)[a.len() + i]);
    }
    assert(bytes.subrange(pos + a.len(), pos + a.len() + b.len()) =~= b);
}

proof fn lemma_dec_u64_enc(bytes: Seq<u8>, pos: int, n: int)
    requires
        0 <= n < pow256(8),
        0 <= pos,
        pos + 8 <= bytes.len(),
        bytes.subrange(pos, pos + 8) == enc_u64(n),
    ensures
        spec_dec_u64(bytes, pos) == Some((n, pos + 8)),
{
    lemma_digits_len(n, 8);
    lemma_undigits_digits(n, 8);
}

proof fn lemma_dec_bytes_enc(bytes: Seq<u8>, pos: int, s: Seq<u8>)
    requires
        s.len() < pow256(8),
        0 <= pos,
        pos + enc_bytes(s).len() <= bytes.len(),
        bytes.subrange(pos, pos + enc_bytes(s).len()) == enc_bytes(s),
    ensures
        spec_dec_bytes(bytes, pos) == Some((s, pos + 8 + s.len())),
        enc_bytes(s).len() == 8 + s.len(),
{
    lemma_digits_len(s.len() as int, 8);
    lemma_subrange_split(bytes, pos, enc_u64(s.len() as int), s);
    lemma_dec_u64_enc(bytes, pos, s.len() as int);
}

pub proof fn lemma_pow256_8()
    ensures
        pow256(8) == 0x1_0000_0000_0000_0000,
{
    reveal_with_fuel(pow256, 9);
}

proof fn lemma_wrap_to_i64(i: int)
    requires
        -0x8000_0000_0000_0000 <= i < 0x8000_0000_0000_0000,
    ensures
        0 <= wrap_i64(i) < pow256(8),
        to_i64(wrap_i64(i)) == i,
{
    let m = 0x1_0000_0000_0000_0000;
    lemma_pow256_8();
    vstd::arithmetic::div_mod::lemma_fundamental_div_mod(i, m);
    vstd::arithmetic::div_mod::lemma_mod_division_less_than_divisor(i, m);
    let q = i / m;
    let r = i % m;
    assert(i == m * q + r);
    if i >= 0 {
        assert(m * q == i - r);
        assert(q == 0) by {
            if q >= 1 {
                assert(m * q >= m * 1) by (nonlinear_arith)
                    requires
                        q >= 1,
                        m > 0,
                ;
            }
            if q <= -1 {
                assert(m * q <= m * (-1)) by (nonlinear_arith)
                    requires
                        q <= -1,
                        m > 0,
                ;
            }
        }
    } else {
        assert(q == -1) by {
            if q >= 0 {
                assert(m * q >= 0) by (nonlinear_arith)
                    requires
                        q >= 0,
                        m > 0,
                ;
            }
            if q <= -2 {
                assert(m * q <= m * (-2)) by (nonlinear_arith)
                    requires
                        q <= -2,
                        m > 0,
                ;
            }
        }
    }
}

proof fn lemma_enc_val_len(m: JsonModel)
    ensures
        enc_val(m).len() >= 1,
{
}

proof fn lemma_enc_seg_len(s: SegModel)
    ensures
        enc_seg(s).len() >= 1,
{
}

proof fn lemma_enc_op_len(op: OpModel)
    ensures
        enc_op(op).len() >= 1,
{
}

proof fn lemma_dec_enc_val(bytes: Seq<u8>, pos: int, m: JsonModel)
    requires
        bounded_val(m),
        0 <= pos,
        pos + enc_val(m).len() <= bytes.len(),
        bytes.subrange(pos, pos + enc_val(m).len()) == enc_val(m),
    ensures
        spec_dec_val(bytes, pos) == Some((m, pos + enc_val(m).len())),
    decreases m,
{
    let e = enc_val(m);
    lemma_pow256_8();
    match m {
        JsonModel::Null => {
            assert(bytes[pos] == e[0]);
        },
        JsonModel::Bool(b) => {
            assert(bytes[pos] == e[0]);
            assert(bytes[pos + 1] == e[1]);
        },
        JsonModel::Int(i) => {
            lemma_wrap_to_i64(i);
            lemma_digits_len(wrap_i64(i), 8);
            lemma_subrange_split(bytes, pos, seq![2u8], enc_u64(wrap_i64(i)));
            assert(bytes[pos] == bytes.subrange(pos, pos + 1)[0]);
            lemma_dec_u64_enc(bytes, pos + 1, wrap_i64(i));
        },
        JsonModel::Str(s) => {
            lemma_digits_len(s.len() as int, 8);
            lemma_subrange_split(bytes, pos, seq![3u8], enc_bytes(s));
            assert(bytes[pos] == bytes.subrange(pos, pos + 1)[0]);
            lemma_dec_bytes_enc(bytes, pos + 1, s);
        },
        JsonModel::Arr(vs) => {
            lemma_digits_len(vs.len() as int, 8);
            assert(e =~= seq![4u8] + enc_u64(vs.len() as int) + enc_list(vs));
            lemma_subrange_split(
                bytes,
                pos,
                seq![4u8] + enc_u64(vs.len() as int),
                enc_list(vs),
            );
            assert(bytes.subrange(pos, pos + 9) =~= (seq![4u8] + enc_u64(vs.len() as int)));
            lemma_subrange_split(bytes, pos, seq![4u8], enc_u64(vs.len() as int));
            assert(bytes[pos] == bytes.subrange(pos, pos + 1)[0]);
            lemma_undigits_digits(vs.len() as int, 8);
            assert(undigits(bytes.subrange(pos + 1, pos + 9)) == vs.len());
            lemma_dec_enc_list(bytes, pos + 9, vs);
        },
        JsonModel::Obj(es) => {
            lemma_digits_len(es.len() as int, 8);
            assert(e =~= seq![5u8] + enc_u64(es.len() as int) + enc_entries(es));
            lemma_subrange_split(
                bytes,
                pos,
                seq![5u8] + enc_u64(es.len() as int),
                enc_entries(es),
            );
            assert(bytes.subrange(pos, pos + 9) =~= (seq![5u8] + enc_u64(es.len() as int)));
            lemma_subrange_split(bytes, pos, seq![5u8], enc_u64(es.len() as int));
            assert(bytes[pos] == bytes.subrange(pos, pos + 1)[0]);
            lemma_undigits_digits(es.len() as int, 8);
            assert(undigits(bytes.subrange(pos + 1, pos + 9)) == es.len());
            lemma_dec_enc_entries(bytes, pos + 9, es);
        },
    }
}

proof fn lemma_dec_enc_list(bytes: Seq<u8>, pos: int, vs: Seq<JsonModel>)
    requires
        forall|i: int| 0 <= i < vs.len() ==> bounded_val(#[trigger] vs[i]),
        0 <= pos,
        pos + enc_list(vs).len() <= bytes.len(),
        bytes.subrange(pos, pos + enc_list(vs).len()) == enc_list(vs),
    ensures
        spec_dec_list(bytes, pos, vs.len() as int) == Some((vs, pos + enc_list(vs).len())),
    decreases vs,
{
    if vs.len() == 0 {
    } else {
        lemma_subrange_split(bytes, pos, enc_val(vs[0]), enc_list(vs.drop_first()));
        lemma_dec_enc_val(bytes, pos, vs[0]);
        lemma_enc_val_len(vs[0]);
        let p2 = pos + enc_val(vs[0]).len();
        assert(forall|i: int| 0 <= i < vs.drop_first().len() ==> bounded_val(
            #[trigger] vs.drop_first()[i],
        ));
        lemma_dec_enc_list(bytes, p2, vs.drop_first());
        assert(seq![vs[0]] + vs.drop_first() =~= vs);
    }
}

proof fn lemma_dec_enc_entries(bytes: Seq<u8>, pos: int, es: Seq<(Seq<u8>, JsonModel)>)
    requires
        forall|i: int| 0 <= i < es.len() ==> (#[trigger] es[i]).0.len() < pow256(8) && bounded_val(
            es[i].1,
        ),
        0 <= pos,
        pos + enc_entries(es).len() <= bytes.len(),
        bytes.subrange(pos, pos + enc_entries(es).len()) == enc_entries(es),
    ensures
        spec_dec_entries(bytes, pos, es.len() as int) == Some((es, pos + enc_entries(es).len())),
    decreases es,
{
    if es.len() == 0 {
    } else {
        let k = es[0].0;
        let v = es[0].1;
        assert(enc_entries(es) =~= enc_bytes(k) + (enc_val(v) + enc_entries(es.drop_first())));
        lemma_subrange_split(bytes, pos, enc_bytes(k), enc_val(v) + enc_entries(es.drop_first()));
        lemma_dec_bytes_enc(bytes, pos, k);
        let p1 = pos + enc_bytes(k).len();
        lemma_subrange_split(bytes, p1, enc_val(v), enc_entries(es.drop_first()));
        lemma_dec_enc_val(bytes, p1, v);
        lemma_enc_val_len(v);
        let p2 = p1 + enc_val(v).len();
        assert(forall|i: int| 0 <= i < es.drop_first().len() ==> (
        #[trigger] es.drop_first()[i]).0.len() < pow256(8) && bounded_val(es.drop_first()[i].1));
        lemma_dec_enc_entries(bytes, p2, es.drop_first());
        assert((k, v) =~= es[0]);
        assert(seq![es[0]] + es.drop_first() =~= es);
    }
}

proof fn lemma_dec_enc_seg(bytes: Seq<u8>, pos: int, s: SegModel)
    requires
        bounded_seg(s),
        0 <= pos,
        pos + enc_seg(s).len() <= bytes.len(),
        bytes.subrange(pos, pos + enc_seg(s).len()) == enc_seg(s),
    ensures
        spec_dec_seg(bytes, pos) == Some((s, pos + enc_seg(s).len())),
{
    match s {
        SegModel::Key(k) => {
            lemma_digits_len(k.len() as int, 8);
            lemma_subrange_split(bytes, pos, seq![0u8], enc_bytes(k));
            assert(bytes[pos] == bytes.subrange(pos, pos + 1)[0]);
            lemma_dec_bytes_enc(bytes, pos + 1, k);
        },
        SegModel::Index(i) => {
            lemma_pow256_8();
            lemma_digits_len(i, 8);
            lemma_subrange_split(bytes, pos, seq![1u8], enc_u64(i));
            assert(bytes[pos] == bytes.subrange(pos, pos + 1)[0]);
            lemma_dec_u64_enc(bytes, pos + 1, i);
        },
    }
}

proof fn lemma_dec_enc_segs(bytes: Seq<u8>, pos: int, p: Seq<SegModel>)
    requires
        forall|i: int| 0 <= i < p.len() ==> bounded_seg(#[trigger] p[i]),
        0 <= pos,
        pos + enc_segs(p).len() <= bytes.len(),
        bytes.subrange(pos, pos + enc_segs(p).len()) == enc_segs(p),
    ensures
        spec_dec_segs(bytes, pos, p.len() as int) == Some((p, pos + enc_segs(p).len())),
    decreases p.len(),
{
    if p.len() == 0 {
    } else {
        lemma_subrange_split(bytes, pos, enc_seg(p[0]), enc_segs(p.drop_first()));
        lemma_dec_enc_seg(bytes, pos, p[0]);
        lemma_enc_seg_len(p[0]);
        let p2 = pos + enc_seg(p[0]).len();
        assert(forall|i: int| 0 <= i < p.drop_first().len() ==> bounded_seg(
            #[trigger] p.drop_first()[i],
        ));
        lemma_dec_enc_segs(bytes, p2, p.drop_first());
        assert(seq![p[0]] + p.drop_first() =~= p);
    }
}

proof fn lemma_dec_enc_path(bytes: Seq<u8>, pos: int, p: Seq<SegModel>)
    requires
        p.len() < pow256(8),
        forall|i: int| 0 <= i < p.len() ==> bounded_seg(#[trigger] p[i]),
        0 <= pos,
        pos + enc_path(p).len() <= bytes.len(),
        bytes.subrange(pos, pos + enc_path(p).len()) == enc_path(p),
    ensures
        spec_dec_path(bytes, pos) == Some((p, pos + enc_path(p).len())),
        enc_path(p).len() == 8 + enc_segs(p).len(),
{
    lemma_digits_len(p.len() as int, 8);
    lemma_subrange_split(bytes, pos, enc_u64(p.len() as int), enc_segs(p));
    lemma_undigits_digits(p.len() as int, 8);
    assert(undigits(bytes.subrange(pos, pos + 8)) == p.len());
    lemma_dec_enc_segs(bytes, pos + 8, p);
}

proof fn lemma_dec_enc_op(bytes: Seq<u8>, pos: int, op: OpModel)
    requires
        bounded_op(op),
        0 <= pos,
        pos + enc_op(op).len() <= bytes.len(),
        bytes.subrange(pos, pos + enc_op(op).len()) == enc_op(op),
    ensures
        spec_dec_op(bytes, pos) == Some((op, pos + enc_op(op).len())),
{
    match op {
        OpModel::Replace { path, value } => {
            assert(enc_op(op) =~= seq![0u8] + enc_path(path) + enc_val(value));
            lemma_subrange_split(bytes, pos, seq![0u8] + enc_path(path), enc_val(value));
            assert(bytes.subrange(pos, pos + 1 + enc_path(path).len()) =~= (seq![0u8]
                + enc_path(path)));
            lemma_subrange_split(bytes, pos, seq![0u8], enc_path(path));
            assert(bytes[pos] == bytes.subrange(pos, pos + 1)[0]);
            lemma_dec_enc_path(bytes, pos + 1, path);
            lemma_dec_enc_val(bytes, pos + 1 + enc_path(path).len(), value);
        },
        OpModel::Add { path, value } => {
            assert(enc_op(op) =~= seq![1u8] + enc_path(path) + enc_val(value));
            lemma_subrange_split(bytes, pos, seq![1u8] + enc_path(path), enc_val(value));
            assert(bytes.subrange(pos, pos + 1 + enc_path(path).len()) =~= (seq![1u8]
                + enc_path(path)));
            lemma_subrange_split(bytes, pos, seq![1u8], enc_path(path));
            assert(bytes[pos] == bytes.subrange(pos, pos + 1)[0]);
            lemma_dec_enc_path(bytes, pos + 1, path);
            lemma_dec_enc_val(bytes, pos + 1 + enc_path(path).len(), value);
        },
        OpModel::Remove { path } => {
            lemma_subrange_split(bytes, pos, seq![2u8], enc_path(path));
            assert(bytes[pos] == bytes.subrange(pos, pos + 1)[0]);
            lemma_dec_enc_path(bytes, pos + 1, path);
        },
    }
}

proof fn lemma_dec_enc_op_list(bytes: Seq<u8>, pos: int, ops: Seq<OpModel>)
    requires
        forall|i: int| 0 <= i < ops.len() ==> bounded_op(#[trigger] ops[i]),
        0 <= pos,
        pos + enc_op_list(ops).len() <= bytes.len(),
        bytes.subrange(pos, pos + enc_op_list(ops).len()) == enc_op_list(ops),
    ensures
        spec_dec_op_list(bytes, pos, ops.len() as int) == Some(
            (ops, pos + enc_op_list(ops).len()),
        ),
    decreases ops.len(),
{
    if ops.len() == 0 {
    } else {
        lemma_subrange_split(bytes, pos, enc_op(ops[0]), enc_op_list(ops.drop_first()));
        lemma_dec_enc_op(bytes, pos, ops[0]);
        lemma_enc_op_len(ops[0]);
        let p2 = pos + enc_op(ops[0]).len();
        assert(forall|i: int| 0 <= i < ops.drop_first().len() ==> bounded_op(
            #[trigger] ops.drop_first()[i],
        ));
        lemma_dec_enc_op_list(bytes, p2, ops.drop_first());
        assert(seq![ops[0]] + ops.drop_first() =~= ops);
    }
}

proof fn lemma_dec_enc_patch(bytes: Seq<u8>, pos: int, ops: Seq<OpModel>)
    requires
        bounded_ops(ops),
        0 <= pos,
        pos + enc_patch(ops).len() <= bytes.len(),
        bytes.subrange(pos, pos + enc_patch(ops).len()) == enc_patch(ops),
    ensures
        spec_dec_patch(bytes, pos) == Some((ops, pos + enc_patch(ops).len())),
        enc_patch(ops).len() == 8 + enc_op_list(ops).len(),
{
    lemma_digits_len(ops.len() as int, 8);
    lemma_subrange_split(bytes, pos, enc_u64(ops.len() as int), enc_op_list(ops));
    lemma_undigits_digits(ops.len() as int, 8);
    assert(undigits(bytes.subrange(pos, pos + 8)) == ops.len());
    lemma_dec_enc_op_list(bytes, pos + 8, ops);
}

/// Round trip of the wire format: decoding an encoded envelope always
/// succeeds and yields the channel name and operations back, exactly.
pub proof fn lemma_envelope_round_trip(name: Seq<u8>, ops: Seq<OpModel>)
    requires
        name.len() < pow256(8),
        bounded_ops(ops),
    ensures
        spec_dec_envelope(enc_envelope(name, ops)) == Some((name, ops)),
{
    let bytes = enc_envelope(name, ops);
    lemma_digits_len(name.len() as int, 8);
    assert(bytes.subrange(0, bytes.len() as int) =~= bytes);
    assert(bytes.subrange(0, enc_bytes(name).len() + enc_patch(ops).len() as int) =~= bytes);
    lemma_subrange_split(bytes, 0, enc_bytes(name), enc_patch(ops));
    lemma_dec_bytes_enc(bytes, 0, name);
    lemma_dec_enc_patch(bytes, enc_bytes(name).len() as int, ops);
}

proof fn lemma_pow256_mono(a: nat, b: nat)
    requires
        a <= b,
    ensures
        pow256(a) <= pow256(b),
    decreases b,
{
    if a < b {
        lemma_pow256_mono(a, (b - 1) as nat);
        lemma_pow256_pos((b - 1) as nat);
    }
}

proof fn lemma_enc_list_push(s: Seq<JsonModel>, x: JsonModel)
    ensures
        enc_list(s.push(x)) == enc_list(s) + enc_val(x),
    decreases s.len(),
{
    if s.len() == 0 {
        assert(s.push(x)[0] == x);
        assert(s.push(x).drop_first() =~= Seq::<JsonModel>::empty());
        reveal_with_fuel(enc_list, 2);
        assert(enc_list(s.push(x)) =~= enc_list(s) + enc_val(x));
    } else {
        assert(s.push(x)[0] == s[0]);
        assert(s.push(x).drop_first() =~= s.drop_first().push(x));
        lemma_enc_list_push(s.drop_first(), x);
        assert(enc_list(s.push(x)) == enc_val(s[0]) + enc_list(s.drop_first().push(x)));
        assert(enc_val(s[0]) + (enc_list(s.drop_first()) + enc_val(x)) =~= (enc_val(s[0])
            + enc_list(s.drop_first())) + enc_val(x));
        assert(enc_list(s.push(x)) =~= enc_list(s) + enc_val(x));
    }
}

proof fn lemma_enc_entries_push(s: Seq<(Seq<u8>, JsonModel)>, x: (Seq<u8>, JsonModel))
    ensures
        enc_entries(s.push(x)) == enc_entries(s) + (enc_bytes(x.0) + enc_val(x.1)),
    decreases s.len(),
{
    if s.len() == 0 {
        assert(s.push(x)[0] == x);
        assert(s.push(x).drop_first() =~= Seq::<(Seq<u8>, JsonModel)>::empty());
        reveal_with_fuel(enc_entries, 2);
        assert(enc_entries(s.push(x)) =~= enc_entries(s) + (enc_bytes(x.0) + enc_val(x.1)));
    } else {
        assert(s.push(x)[0] == s[0]);
        assert(s.push(x).drop_first() =~= s.drop_first().push(x));
        lemma_enc_entries_push(s.drop_first(), x);
        assert(enc_entries(s.push(x)) == enc_bytes(s[0].0) + enc_val(s[0].1) + enc_entries(
            s.drop_first().push(x),
        ));
        assert(enc_bytes(s[0].0) + enc_val(s[0].1) + (enc_entries(s.drop_first()) + (enc_bytes(x.0)
            + enc_val(x.1))) =~= (enc_bytes(s[0].0) + enc_val(s[0].1) + enc_entries(s.drop_first()))
            + (enc_bytes(x.0) + enc_val(x.1)));
        assert(enc_entries(s.push(x)) =~= enc_entries(s) + (enc_bytes(x.0) + enc_val(x.1)));
    }
}

proof fn lemma_enc_segs_push(s: Seq<SegModel>, x: SegModel)
    ensures
        enc_segs(s.push(x)) == enc_segs(s) + enc_seg(x),
    decreases s.len(),
{
    if s.len() == 0 {
        assert(s.push(x)[0] == x);
        assert(s.push(x).drop_first() =~= Seq::<SegModel>::empty());
        reveal_with_fuel(enc_segs, 2);
        assert(enc_segs(s.push(x)) =~= enc_segs(s) + enc_seg(x));
    } else {
        assert(s.push(x)[0] == s[0]);
        assert(s.push(x).drop_first() =~= s.drop_first().push(x));
        lemma_enc_segs_push(s.drop_first(), x);
        assert(enc_segs(s.push(x)) == enc_seg(s[0]) + enc_segs(s.drop_first().push(x)));
        assert(enc_seg(s[0]) + (enc_segs(s.drop_first()) + enc_seg(x)) =~= (enc_seg(s[0])
            + enc_segs(s.drop_first())) + enc_seg(x));
        assert(enc_segs(s.push(x)) =~= enc_segs(s) + enc_seg(x));
    }
}

proof fn lemma_enc_ops_push(s: Seq<OpModel>, x: OpModel)
    ensures
        enc_op_list(s.push(x)) == enc_op_list(s) + enc_op(x),
    decreases s.len(),
{
    if s.len() == 0 {
        assert(s.push(x)[0] == x);
        assert(s.push(x).drop_first() =~= Seq::<OpModel>::empty());
        reveal_with_fuel(enc_op_list, 2);
        assert(enc_op_list(s.push(x)) =~= enc_op_list(s) + enc_op(x));
    } else {
        assert(s.push(x)[0] == s[0]);
        assert(s.push(x).drop_first() =~= s.drop_first().push(x));
        lemma_enc_ops_push(s.drop_first(), x);
        assert(enc_op_list(s.push(x)) == enc_op(s[0]) + enc_op_list(s.drop_first().push(x)));
        assert(enc_op(s[0]) + (enc_op_list(s.drop_first()) + enc_op(x)) =~= (enc_op(s[0])
            + enc_op_list(s.drop_first())) + enc_op(x));
        assert(enc_op_list(s.push(x)) =~= enc_op_list(s) + enc_op(x));
    }
}

fn encode_u64(n: u64, out: &mut Vec<u8>)
    ensures
        final(out)@ == old(out)@ + enc_u64(n as int),
{
    let ghost base = out@;
    out.push((n % 256) as u8);
    out.push(((n / 256) % 256) as u8);
    out.push(((n / 65536) % 256) as u8);
    out.push(((n / 16777216) % 256) as u8);
    out.push(((n / 4294967296) % 256) as u8);
    out.push(((n / 1099511627776) % 256) as u8);
    out.push(((n / 281474976710656) % 256) as u8);
    out.push(((n / 72057594037927936) % 256) as u8);
    proof {
        let ni = n as int;
        vstd::arithmetic::div_mod::lemma_div_denominator(ni, 256, 256);
        vstd::arithmetic::div_mod::lemma_div_denominator(ni, 65536, 256);
        vstd::arithmetic::div_mod::lemma_div_denominator(ni, 16777216, 256);
        vstd::arithmetic::div_mod::lemma_div_denominator(ni, 4294967296, 256);
        vstd::arithmetic::div_mod::lemma_div_denominator(ni, 1099511627776, 256);
        vstd::arithmetic::div_mod::lemma_div_denominator(ni, 281474976710656, 256);
        reveal_with_fuel(u64_digits, 9);
        assert(out@ =~= base + enc_u64(ni));
    }
}

fn encode_bytes(s: &Vec<u8>, out: &mut Vec<u8>)
    ensures
        final(out)@ == old(out)@ + enc_bytes(s@),
{
    let ghost base = out@;
    encode_u64(s.len() as u64, out);
    let ghost mid = out@;
    let mut i: usize = 0;
    while i < s.len()
        invariant
            i <= s@.len(),
            out@ == mid + s@.take(i as int),
        decreases s@.len() - i,
    {
        out.push(s[i]);
        proof {
            assert(s@.take(i as int).push(s@[i as int]) =~= s@.take(i as int + 1));
            assert(out@ =~= mid + s@.take(i as int + 1));
        }
        i += 1;
    }
    proof {
        assert(s@.take(s@.len() as int) =~= s@);
        assert(out@ =~= base + enc_bytes(s@));
    }
}

/// Appends the wire encoding of `v`.
pub fn encode_val(v: &JsonValue, out: &mut Vec<u8>)
    ensures
        final(out)@ == old(out)@ + enc_val(v@),
    decreases *v,
{
    let ghost base = out@;
    match v {
        JsonValue::Null => {
            out.push(0u8);
            proof {
                assert(out@ =~= base + enc_val(v@));
            }
        },
        JsonValue::Bool(b) => {
            out.push(1u8);
            out.push(if *b {
                1u8
            } else {
                0u8
            });
            proof {
                assert(out@ =~= base + enc_val(v@));
            }
        },
        JsonValue::Int(i) => {
            out.push(2u8);
            let u = #[verifier::truncate] (*i as u64);
            proof {
                assert(u as int == (*i as int) % 0x1_0000_0000_0000_0000) by (bit_vector)
                    requires
                        u == *i as u64,
                ;
            }
            encode_u64(u, out);
            proof {
                assert(out@ =~= base + enc_val(v@));
            }
        },
        JsonValue::Str(s) => {
            out.push(3u8);
            encode_bytes(s, out);
            proof {
                assert(out@ =~= base + enc_val(v@));
            }
        },
        JsonValue::Arr(vs) => {
            out.push(4u8);
            encode_u64(vs.len() as u64, out);
            encode_list(vs, out);
            proof {
                assert(out@ =~= base + enc_val(v@));
            }
        },
        JsonValue::Obj(es) => {
            out.push(5u8);
            encode_u64(es.len() as u64, out);
            encode_entry_list(es, out);
            proof {
                assert(out@ =~= base + enc_val(v@));
            }
        },
    }
}

fn encode_list(vs: &Vec<JsonValue>, out: &mut Vec<u8>)
    ensures
        final(out)@ == old(out)@ + enc_list(JsonValue::view_arr(vs@)),
    decreases vs@,
{
    let ghost mid = out@;
    let ghost va = JsonValue::view_arr(vs@);
    proof {
        assert(enc_list(va.take(0)) =~= Seq::<u8>::empty());
        assert(out@ =~= mid + enc_list(va.take(0)));
    }
    let mut i: usize = 0;
    while i < vs.len()
        invariant
            i <= vs@.len(),
            va == JsonValue::view_arr(vs@),
            va.len() == vs@.len(),
            out@ == mid + enc_list(va.take(i as int)),
        decreases vs@.len() - i,
    {
        encode_val(&vs[i], out);
        proof {
            assert(vs@[i as int]@ == va[i as int]);
            lemma_enc_list_push(va.take(i as int), va[i as int]);
            assert(va.take(i as int).push(va[i as int]) =~= va.take(i as int + 1));
            assert(out@ =~= mid + enc_list(va.take(i as int + 1)));
        }
        i += 1;
    }
    proof {
        assert(va.take(va.len() as int) =~= va);
    }
}

fn encode_entry_list(es: &Vec<(Vec<u8>, JsonValue)>, out: &mut Vec<u8>)
    ensures
        final(out)@ == old(out)@ + enc_entries(JsonValue::view_obj(es@)),
    decreases es@,
{
    let ghost mid = out@;
    let ghost vo = JsonValue::view_obj(es@);
    proof {
        assert(enc_entries(vo.take(0)) =~= Seq::<u8>::empty());
        assert(out@ =~= mid + enc_entries(vo.take(0)));
    }
    let mut i: usize = 0;
    while i < es.len()
        invariant
            i <= es@.len(),
            vo == JsonValue::view_obj(es@),
            vo.len() == es@.len(),
            out@ == mid + enc_entries(vo.take(i as int)),
        decreases es@.len() - i,
    {
        encode_bytes(&es[i].0, out);
        encode_val(&es[i].1, out);
        proof {
            assert(vo[i as int] == (es@[i as int].0@, es@[i as int].1@));
            lemma_enc_entries_push(vo.take(i as int), vo[i as int]);
            assert(vo.take(i as int).push(vo[i as int]) =~= vo.take(i as int + 1));
            assert(out@ =~= mid + enc_entries(vo.take(i as int + 1)));
        }
        i += 1;
    }
    proof {
        assert(vo.take(vo.len() as int) =~= vo);
    }
}

fn encode_seg(s: &crate::patch::PathSegment, out: &mut Vec<u8>)
    ensures
        final(out)@ == old(out)@ + enc_seg(s@),
{
    let ghost base = out@;
    match s {
        crate::patch::PathSegment::Key(k) => {
            out.push(0u8);
            encode_bytes(k, out);
            proof {
                assert(out@ =~= base + enc_seg(s@));
            }
        },
        crate::patch::PathSegment::Index(i) => {
            out.push(1u8);
            encode_u64(*i as u64, out);
            proof {
                assert(out@ =~= base + enc_seg(s@));
            }
        },
    }
}

fn encode_path(p: &Vec<crate::patch::PathSegment>, out: &mut Vec<u8>)
    ensures
        final(out)@ == old(out)@ + enc_path(crate::patch::view_path(p@)),
{
    let ghost base = out@;
    let ghost vp = crate::patch::view_path(p@);
    encode_u64(p.len() as u64, out);
    let ghost mid = out@;
    proof {
        assert(vp.len() == p@.len());
        assert(enc_segs(vp.take(0)) =~= Seq::<u8>::empty());
        assert(out@ =~= mid + enc_segs(vp.take(0)));
    }
    let mut i: usize = 0;
    while i < p.len()
        invariant
            i <= p@.len(),
            vp == crate::patch::view_path(p@),
            vp.len() == p@.len(),
            out@ == mid + enc_segs(vp.take(i as int)),
        decreases p@.len() - i,
    {
        encode_seg(&p[i], out);
        proof {
            assert(vp[i as int] == p@[i as int]@);
            lemma_enc_segs_push(vp.take(i as int), vp[i as int]);
            assert(vp.take(i as int).push(vp[i as int]) =~= vp.take(i as int + 1));
            assert(out@ =~= mid + enc_segs(vp.take(i as int + 1)));
        }
        i += 1;
    }
    proof {
        assert(vp.take(vp.len() as int) =~= vp);
        assert(out@ =~= base + enc_path(vp));
    }
}

fn encode_op(op: &crate::patch::PatchOp, out: &mut Vec<u8>)
    ensures
        final(out)@ == old(out)@ + enc_op(op@),
{
    let ghost base = out@;
    match op {
        crate::patch::PatchOp::Replace { path, value } => {
            out.push(0u8);
            encode_path(path, out);
            encode_val(value, out);
            proof {
                assert(out@ =~= base + enc_op(op@));
            }
        },
        crate::patch::PatchOp::Add { path, value } => {
            out.push(1u8);
            encode_path(path, out);
            encode_val(value, out);
            proof {
                assert(out@ =~= base + enc_op(op@));
            }
        },
        crate::patch::PatchOp::Remove { path } => {
            out.push(2u8);
            encode_path(path, out);
            proof {
                assert(out@ =~= base + enc_op(op@));
            }
        },
    }
}

/// Encodes a whole update envelope: channel name, then patch.
pub fn encode_envelope(name: &Vec<u8>, patch: &crate::patch::Patch) -> (out: Vec<u8>)
    ensures
        out@ == enc_envelope(name@, patch@),
{
    let mut out: Vec<u8> = Vec::new();
    encode_bytes(name, &mut out);
    let ghost vops = patch@;
    encode_u64(patch.ops.len() as u64, &mut out);
    let ghost mid = out@;
    proof {
        assert(vops.len() == patch.ops@.len());
        assert(enc_op_list(vops.take(0)) =~= Seq::<u8>::empty());
        assert(out@ =~= mid + enc_op_list(vops.take(0)));
    }
    let mut i: usize = 0;
    while i < patch.ops.len()
        invariant
            i <= patch.ops@.len(),
            vops == patch@,
            vops.len() == patch.ops@.len(),
            out@ == mid + enc_op_list(vops.take(i as int)),
        decreases patch.ops@.len() - i,
    {
        encode_op(&patch.ops[i], &mut out);
        proof {
            assert(vops[i as int] == patch.ops@[i as int]@);
            lemma_enc_ops_push(vops.take(i as int), vops[i as int]);
            assert(vops.take(i as int).push(vops[i as int]) =~= vops.take(i as int + 1));
            assert(out@ =~= mid + enc_op_list(vops.take(i as int + 1)));
        }
        i += 1;
    }
    proof {
        assert(vops.take(vops.len() as int) =~= vops);
        assert(out@ =~= enc_envelope(name@, patch@));
    }
    out
}

/// Decoding failure: the input is not a well-formed envelope.
#[derive(Debug)]
pub enum DecodeError {
    Malformed,
}

proof fn lemma_undigits_bound(s: Seq<u8>)
    ensures
        0 <= undigits(s) < pow256(s.len()),
    decreases s.len(),
{
    if s.len() > 0 {
        lemma_undigits_bound(s.drop_first());
    }
}

fn dec_u64(bytes: &Vec<u8>, pos: usize) -> (r: Option<(u64, usize)>)
    ensures
        match r {
            Some(np) => spec_dec_u64(bytes@, pos as int) == Some((np.0 as int, np.1 as int)),
            None => spec_dec_u64(bytes@, pos as int) is None,
        },
{
    if bytes.len() < 8 || pos > bytes.len() - 8 {
        return None;
    }
    proof {
        reveal_with_fuel(pow256, 9);
        assert(bytes@.subrange(pos + 8, pos as int + 8) =~= Seq::<u8>::empty());
    }
    let mut acc: u64 = 0;
    let mut i: usize = 8;
    while i > 0
        invariant
            i <= 8,
            pos + 8 <= bytes@.len(),
            pos + 8 <= usize::MAX,
            acc as int == undigits(bytes@.subrange(pos + i as int, pos as int + 8)),
            (acc as int) < pow256((8 - i) as nat),
        decreases i,
    {
        i = i - 1;
        let b = bytes[pos + i];
        proof {
            reveal_with_fuel(pow256, 9);
            lemma_pow256_mono((7 - i) as nat, 7 as nat);
            assert(pow256((8 - i) as nat) == 256 * pow256((7 - i) as nat));
        }
        acc = acc * 256 + (b as u64);
        proof {
            assert(bytes@.subrange(pos + i as int, pos as int + 8)[0] == b);
            assert(bytes@.subrange(pos + i as int, pos as int + 8).drop_first() =~= bytes@.subrange(
                pos + i as int + 1,
                pos as int + 8,
            ));
        }
    }
    Some((acc, pos + 8))
}

fn dec_bytes(bytes: &Vec<u8>, pos: usize) -> (r: Option<(Vec<u8>, usize)>)
    ensures
        match r {
            Some(sp) => spec_dec_bytes(bytes@, pos as int) == Some((sp.0@, sp.1 as int)),
            None => spec_dec_bytes(bytes@, pos as int) is None,
        },
{
    match dec_u64(bytes, pos) {
        Some((n, p2)) => {
            let rem = bytes.len() - p2;
            if n <= rem as u64 {
                let cnt = n as usize;
                let end = p2 + cnt;
                let mut out: Vec<u8> = Vec::new();
                proof {
                    assert(out@ =~= bytes@.subrange(p2 as int, p2 as int));
                }
                let mut j: usize = p2;
                while j < end
                    invariant
                        p2 <= j <= end,
                        end <= bytes@.len(),
                        out@ == bytes@.subrange(p2 as int, j as int),
                    decreases end - j,
                {
                    out.push(bytes[j]);
                    proof {
                        assert(out@ =~= bytes@.subrange(p2 as int, j as int + 1));
                    }
                    j += 1;
                }
                Some((out, end))
            } else {
                None
            }
        },
        None => None,
    }
}

fn dec_val(bytes: &Vec<u8>, pos: usize) -> (r: Option<(JsonValue, usize)>)
    ensures
        match r {
            Some(vp) => spec_dec_val(bytes@, pos as int) == Some((vp.0@, vp.1 as int)),
            None => spec_dec_val(bytes@, pos as int) is None,
        },
    decreases bytes@.len() - pos, 1int,
{
    if pos >= bytes.len() {
        return None;
    }
    let tag = bytes[pos];
    if tag == 0 {
        Some((JsonValue::Null, pos + 1))
    } else if tag == 1 {
        if bytes.len() - pos >= 2 {
            let b = bytes[pos + 1];
            if b == 0 {
                Some((JsonValue::Bool(false), pos + 2))
            } else if b == 1 {
                Some((JsonValue::Bool(true), pos + 2))
            } else {
                None
            }
        } else {
            None
        }
    } else if tag == 2 {
        match dec_u64(bytes, pos + 1) {
            Some((n, p2)) => {
                let v = #[verifier::truncate] (n as i64);
                proof {
                    assert(v as int == (if n as int >= 0x8000_0000_0000_0000 {
                        n as int - 0x1_0000_0000_0000_0000
                    } else {
                        n as int
                    })) by (bit_vector)
                        requires
                            v == n as i64,
                    ;
                }
                Some((JsonValue::Int(v), p2))
            },
            None => None,
        }
    } else if tag == 3 {
        match dec_bytes(bytes, pos + 1) {
            Some((s, p2)) => Some((JsonValue::Str(s), p2)),
            None => None,
        }
    } else if tag == 4 {
        if bytes.len() - pos >= 9 {
            match dec_u64(bytes, pos + 1) {
                Some((n, p2)) => {
                    match dec_list(bytes, p2, n) {
                        Some((vs, p3)) => Some((JsonValue::Arr(vs), p3)),
                        None => None,
                    }
                },
                None => None,
            }
        } else {
            None
        }
    } else if tag == 5 {
        if bytes.len() - pos >= 9 {
            match dec_u64(bytes, pos + 1) {
                Some((n, p2)) => {
                    match dec_entries(bytes, p2, n) {
                        Some((es, p3)) => Some((JsonValue::Obj(es), p3)),
                        None => None,
                    }
                },
                None => None,
            }
        } else {
            None
        }
    } else {
        None
    }
}

fn dec_list(bytes: &Vec<u8>, pos: usize, n: u64) -> (r: Option<(Vec<JsonValue>, usize)>)
    ensures
        match r {
            Some(vp) => spec_dec_list(bytes@, pos as int, n as int) == Some(
                (JsonValue::view_arr(vp.0@), vp.1 as int),
            ),
            None => spec_dec_list(bytes@, pos as int, n as int) is None,
        },
    decreases bytes@.len() - pos, 2int,
{
    if n == 0 {
        let vs: Vec<JsonValue> = Vec::new();
        proof {
            assert(JsonValue::view_arr(vs@) =~= Seq::<JsonModel>::empty());
        }
        return Some((vs, pos));
    }
    match dec_val(bytes, pos) {
        Some((v, p2)) => {
            if p2 > pos && p2 <= bytes.len() {
                match dec_list(bytes, p2, n - 1) {
                    Some((vs, p3)) => {
                        let ghost tailv = JsonValue::view_arr(vs@);
                        let mut vs = vs;
                        vs.insert(0, v);
                        proof {
                            assert(JsonValue::view_arr(vs@) =~= seq![v@] + tailv);
                        }
                        Some((vs, p3))
                    },
                    None => None,
                }
            } else {
                None
            }
        },
        None => None,
    }
}

fn dec_entries(bytes: &Vec<u8>, pos: usize, n: u64) -> (r: Option<
    (Vec<(Vec<u8>, JsonValue)>, usize),
>)
    ensures
        match r {
            Some(ep) => spec_dec_entries(bytes@, pos as int, n as int) == Some(
                (JsonValue::view_obj(ep.0@), ep.1 as int),
            ),
            None => spec_dec_entries(bytes@, pos as int, n as int) is None,
        },
    decreases bytes@.len() - pos, 2int,
{
    if n == 0 {
        let es: Vec<(Vec<u8>, JsonValue)> = Vec::new();
        proof {
            assert(JsonValue::view_obj(es@) =~= Seq::<(Seq<u8>, JsonModel)>::empty());
        }
        return Some((es, pos));
    }
    match dec_bytes(bytes, pos) {
        Some((k, p1)) => {
            if p1 > pos && p1 <= bytes.len() {
                match dec_val(bytes, p1) {
                    Some((v, p2)) => {
                        if p2 > p1 && p2 <= bytes.len() {
                            match dec_entries(bytes, p2, n - 1) {
                                Some((es, p3)) => {
                                    let ghost tailv = JsonValue::view_obj(es@);
                                    let ghost kv = k@;
                                    let ghost vv = v@;
                                    let mut es = es;
                                    es.insert(0, (k, v));
                                    proof {
                                        assert(JsonValue::view_obj(es@) =~= seq![(kv, vv)]
                                            + tailv);
                                    }
                                    Some((es, p3))
                                },
                                None => None,
                            }
                        } else {
                            None
                        }
                    },
                    None => None,
                }
            } else {
                None
            }
        },
        None => None,
    }
}

fn dec_seg(bytes: &Vec<u8>, pos: usize) -> (r: Option<(crate::patch::PathSegment, usize)>)
    ensures
        match r {
            Some(sp) => spec_dec_seg(bytes@, pos as int) == Some((sp.0@, sp.1 as int)),
            None => spec_dec_seg(bytes@, pos as int) is None,
        },
{
    if pos >= bytes.len() {
        return None;
    }
    let tag = bytes[pos];
    if tag == 0 {
        match dec_bytes(bytes, pos + 1) {
            Some((k, p2)) => Some((crate::patch::PathSegment::Key(k), p2)),
            None => None,
        }
    } else if tag == 1 {
        match dec_u64(bytes, pos + 1) {
            Some((n, p2)) => {
                if n <= usize::MAX as u64 {
                    Some((crate::patch::PathSegment::Index(n as usize), p2))
                } else {
                    None
                }
            },
            None => None,
        }
    } else {
        None
    }
}

fn dec_segs(bytes: &Vec<u8>, pos: usize, n: u64) -> (r: Option<
    (Vec<crate::patch::PathSegment>, usize),
>)
    ensures
        match r {
            Some(sp) => spec_dec_segs(bytes@, pos as int, n as int) == Some(
                (crate::patch::view_path(sp.0@), sp.1 as int),
            ),
            None => spec_dec_segs(bytes@, pos as int, n as int) is None,
        },
    decreases bytes@.len() - pos,
{
    if n == 0 {
        let ss: Vec<crate::patch::PathSegment> = Vec::new();
        proof {
            assert(crate::patch::view_path(ss@) =~= Seq::<SegModel>::empty());
        }
        return Some((ss, pos));
    }
    match dec_seg(bytes, pos) {
        Some((s, p2)) => {
            if p2 > pos && p2 <= bytes.len() {
                match dec_segs(bytes, p2, n - 1) {
                    Some((ss, p3)) => {
                        let ghost tailv = crate::patch::view_path(ss@);
                        let ghost sv = s@;
                        let mut ss = ss;
                        ss.insert(0, s);
                        proof {
                            assert(crate::patch::view_path(ss@) =~= seq![sv] + tailv);
                        }
                        Some((ss, p3))
                    },
                    None => None,
                }
            } else {
                None
            }
        },
        None => None,
    }
}

fn dec_path(bytes: &Vec<u8>, pos: usize) -> (r: Option<(Vec<crate::patch::PathSegment>, usize)>)
    ensures
        match r {
            Some(sp) => spec_dec_path(bytes@, pos as int) == Some(
                (crate::patch::view_path(sp.0@), sp.1 as int),
            ),
            None => spec_dec_path(bytes@, pos as int) is None,
        },
{
    if bytes.len() < 8 || pos > bytes.len() - 8 {
        return None;
    }
    match dec_u64(bytes, pos) {
        Some((n, p2)) => dec_segs(bytes, p2, n),
        None => None,
    }
}

fn dec_op(bytes: &Vec<u8>, pos: usize) -> (r: Option<(crate::patch::PatchOp, usize)>)
    ensures
        match r {
            Some(op) => spec_dec_op(bytes@, pos as int) == Some((op.0@, op.1 as int)),
            None => spec_dec_op(bytes@, pos as int) is None,
        },
{
    if pos >= bytes.len() {
        return None;
    }
    let tag = bytes[pos];
    if tag == 0 || tag == 1 {
        match dec_path(bytes, pos + 1) {
            Some((p, p2)) => {
                match dec_val(bytes, p2) {
                    Some((v, p3)) => {
                        if tag == 0 {
                            Some((crate::patch::PatchOp::Replace { path: p, value: v }, p3))
                        } else {
                            Some((crate::patch::PatchOp::Add { path: p, value: v }, p3))
                        }
                    },
                    None => None,
                }
            },
            None => None,
        }
    } else if tag == 2 {
        match dec_path(bytes, pos + 1) {
            Some((p, p2)) => Some((crate::patch::PatchOp::Remove { path: p }, p2)),
            None => None,
        }
    } else {
        None
    }
}

fn dec_op_list(bytes: &Vec<u8>, pos: usize, n: u64) -> (r: Option<
    (Vec<crate::patch::PatchOp>, usize),
>)
    ensures
        match r {
            Some(op) => spec_dec_op_list(bytes@, pos as int, n as int) == Some(
                (crate::patch::view_ops(op.0@), op.1 as int),
            ),
            None => spec_dec_op_list(bytes@, pos as int, n as int) is None,
        },
    decreases bytes@.len() - pos,
{
    if n == 0 {
        let ops: Vec<crate::patch::PatchOp> = Vec::new();
        proof {
            assert(crate::patch::view_ops(ops@) =~= Seq::<OpModel>::empty());
        }
        return Some((ops, pos));
    }
    match dec_op(bytes, pos) {
        Some((op, p2)) => {
            if p2 > pos && p2 <= bytes.len() {
                match dec_op_list(bytes, p2, n - 1) {
                    Some((ops, p3)) => {
                        let ghost tailv = crate::patch::view_ops(ops@);
                        let ghost ov = op@;
                        let mut ops = ops;
                        ops.insert(0, op);
                        proof {
                            assert(crate::patch::view_ops(ops@) =~= seq![ov] + tailv);
                        }
                        Some((ops, p3))
                    },
                    None => None,
                }
            } else {
                None
            }
        },
        None => None,
    }
}

fn dec_patch(bytes: &Vec<u8>, pos: usize) -> (r: Option<(Vec<crate::patch::PatchOp>, usize)>)
    ensures
        match r {
            Some(op) => spec_dec_patch(bytes@, pos as int) == Some(
                (crate::patch::view_ops(op.0@), op.1 as int),
            ),
            None => spec_dec_patch(bytes@, pos as int) is None,
        },
{
    if bytes.len() < 8 || pos > bytes.len() - 8 {
        return None;
    }
    match dec_u64(bytes, pos) {
        Some((n, p2)) => dec_op_list(bytes, p2, n),
        None => None,
    }
}

/// Decodes a whole update envelope. Truncated, malformed, or trailing
/// input is rejected with an error; decoding never fails in any other way.
pub fn decode_envelope(bytes: &Vec<u8>) -> (r: Result<
    (Vec<u8>, crate::patch::Patch),
    DecodeError,
>)
    ensures
        match r {
            Ok(np) => spec_dec_envelope(bytes@) == Some((np.0@, np.1@)),
            Err(_) => spec_dec_envelope(bytes@) is None,
        },
{
    match dec_bytes(bytes, 0) {
        Some((name, p1)) => {
            match dec_patch(bytes, p1) {
                Some((ops, p2)) => {
                    if p2 == bytes.len() {
                        Ok((name, crate::patch::Patch { ops }))
                    } else {
                        Err(DecodeError::Malformed)
                    }
                },
                None => Err(DecodeError::Malformed),
            }
        },
        None => Err(DecodeError::Malformed),
    }
}

proof fn lemma_vec_len_bound<T>(v: Vec<T>)
    ensures
        v@.len() <= usize::MAX as int,
{
    vstd::std_specs::vec::axiom_spec_len(&v);
}

proof fn lemma_view_bounded_list(vs: Seq<JsonValue>)
    ensures
        forall|i: int| 0 <= i < vs.len() ==> bounded_val(#[trigger] JsonValue::view_arr(vs)[i]),
    decreases vs,
{
    assert forall|i: int| 0 <= i < vs.len() implies bounded_val(
        #[trigger] JsonValue::view_arr(vs)[i],
    ) by {
        lemma_view_bounded(vs[i]);
    }
}

proof fn lemma_view_bounded_entries(es: Seq<(Vec<u8>, JsonValue)>)
    ensures
        forall|i: int| 0 <= i < es.len() ==> (#[trigger] JsonValue::view_obj(es)[i]).0.len()
            < pow256(8) && bounded_val(JsonValue::view_obj(es)[i].1),
    decreases es,
{
    lemma_pow256_8();
    assert forall|i: int| 0 <= i < es.len() implies (#[trigger] JsonValue::view_obj(
        es,
    )[i]).0.len() < pow256(8) && bounded_val(JsonValue::view_obj(es)[i].1) by {
        lemma_vec_len_bound(es[i].0);
        lemma_view_bounded(es[i].1);
    }
}

/// Every in-memory snapshot value is bounded: its integers, lengths and
/// indices all fit their wire fields.
pub proof fn lemma_view_bounded(v: JsonValue)
    ensures
        bounded_val(v@),
    decreases v,
{
    lemma_pow256_8();
    match v {
        JsonValue::Null => {},
        JsonValue::Bool(_) => {},
        JsonValue::Int(_) => {},
        JsonValue::Str(s) => {
            lemma_vec_len_bound(s);
        },
        JsonValue::Arr(vs) => {
            lemma_vec_len_bound(vs);
            lemma_view_bounded_list(vs@);
            assert(v@ == JsonModel::Arr(JsonValue::view_arr(vs@)));
            assert forall|i: int| 0 <= i < JsonValue::view_arr(vs@).len() implies bounded_val(
                #[trigger] JsonValue::view_arr(vs@)[i],
            ) by {}
        },
        JsonValue::Obj(es) => {
            lemma_vec_len_bound(es);
            lemma_view_bounded_entries(es@);
            assert(v@ == JsonModel::Obj(JsonValue::view_obj(es@)));
            assert forall|i: int| 0 <= i < JsonValue::view_obj(es@).len() implies (
            #[trigger] JsonValue::view_obj(es@)[i]).0.len() < pow256(8) && bounded_val(
                JsonValue::view_obj(es@)[i].1,
            ) by {}
        },
    }
}

/// Every in-memory patch operation is bounded.
pub proof fn lemma_view_op_bounded(op: crate::patch::PatchOp)
    ensures
        bounded_op(op@),
{
    lemma_pow256_8();
    match op {
        crate::patch::PatchOp::Replace { path, value } => {
            lemma_vec_len_bound(path);
            lemma_view_bounded(value);
            lemma_view_path_bounded(path@);
        },
        crate::patch::PatchOp::Add { path, value } => {
            lemma_vec_len_bound(path);
            lemma_view_bounded(value);
            lemma_view_path_bounded(path@);
        },
        crate::patch::PatchOp::Remove { path } => {
            lemma_vec_len_bound(path);
            lemma_view_path_bounded(path@);
        },
    }
}

proof fn lemma_view_path_bounded(p: Seq<crate::patch::PathSegment>)
    ensures
        forall|i: int| 0 <= i < p.len() ==> bounded_seg(#[trigger] crate::patch::view_path(p)[i]),
{
    lemma_pow256_8();
    assert forall|i: int| 0 <= i < p.len() implies bounded_seg(
        #[trigger] crate::patch::view_path(p)[i],
    ) by {
        match p[i] {
            crate::patch::PathSegment::Key(k) => {
                lemma_vec_len_bound(k);
            },
            crate::patch::PathSegment::Index(_) => {},
        }
    }
}

/// Every in-memory patch is bounded.
pub proof fn lemma_view_patch_bounded(p: crate::patch::Patch)
    ensures
        bounded_ops(p@),
{
    lemma_pow256_8();
    lemma_vec_len_bound(p.ops);
    assert forall|i: int| 0 <= i < p@.len() implies bounded_op(#[trigger] p@[i]) by {
        lemma_view_op_bounded(p.ops@[i]);
    }
}

} // verus!
