//! Structural diffs between two snapshots, and their re-application.
//!
//! A diff is a sequence of primitive operations (replace, add, remove), each
//! addressed by a path of object keys and array indices. The foundational
//! property, proved in [`lemma_diff_ok`], is that applying `diff(a, b)` to
//! `a` yields exactly `b`.

use vstd::prelude::*;

use crate::value::JsonModel;
use crate::value::JsonValue;
use crate::value::has_key;
use crate::value::key_idx;
use crate::value::key_seq;
use crate::value::keys_unique;
use crate::value::lemma_key_idx;

verus! {

broadcast use
    crate::value::lemma_view_arr_len,
    crate::value::lemma_view_arr_index,
    crate::value::lemma_view_obj_len,
    crate::value::lemma_view_obj_index,
;

/// Model of one path segment: an object key or an array index.
pub enum SegModel {
    Key(Seq<u8>),
    Index(int),
}

/// Model of one primitive patch operation.
#[verifier::ext_equal]
pub enum OpModel {
    /// Replace the value addressed by `path` with `value`.
    Replace { path: Seq<SegModel>, value: JsonModel },
    /// Insert `value` at `path`: into an object under the final key
    /// (overwriting an existing entry), or into an array before the final
    /// index, shifting later elements up.
    Add { path: Seq<SegModel>, value: JsonModel },
    /// Delete the entry or element addressed by `path`.
    Remove { path: Seq<SegModel> },
}

/// The path of an operation.
pub open spec fn op_path(op: OpModel) -> Seq<SegModel> {
    match op {
        OpModel::Replace { path, .. } => path,
        OpModel::Add { path, .. } => path,
        OpModel::Remove { path } => path,
    }
}

/// The same operation with the first path segment stripped.
pub open spec fn tail_op(op: OpModel) -> OpModel {
    match op {
        OpModel::Replace { path, value } => OpModel::Replace { path: path.drop_first(), value },
        OpModel::Add { path, value } => OpModel::Add { path: path.drop_first(), value },
        OpModel::Remove { path } => OpModel::Remove { path: path.drop_first() },
    }
}

/// The same operation addressed one level deeper, under `seg`.
pub open spec fn prefix_op(seg: SegModel, op: OpModel) -> OpModel {
    match op {
        OpModel::Replace { path, value } => OpModel::Replace { path: seq![seg] + path, value },
        OpModel::Add { path, value } => OpModel::Add { path: seq![seg] + path, value },
        OpModel::Remove { path } => OpModel::Remove { path: seq![seg] + path },
    }
}

/// Every operation of `ops`, addressed one level deeper under `seg`.
pub open spec fn prefix_ops(seg: SegModel, ops: Seq<OpModel>) -> Seq<OpModel> {
    ops.map_values(|op: OpModel| prefix_op(seg, op))
}

/// True when no operation is a root-level add or remove; every diff this
/// module produces satisfies it.
pub open spec fn ops_rooted(ops: Seq<OpModel>) -> bool {
    forall|i: int| 0 <= i < ops.len()
        ==> (#[trigger] ops[i] is Replace || op_path(ops[i]).len() > 0)
}

/// The immediate child of `doc` under `seg`, if there is one.
pub open spec fn spec_get_child(doc: JsonModel, seg: SegModel) -> Option<JsonModel> {
    match (doc, seg) {
        (JsonModel::Obj(es), SegModel::Key(k)) => if has_key(es, k) {
            Some(es[key_idx(es, k)].1)
        } else {
            None
        },
        (JsonModel::Arr(s), SegModel::Index(i)) => if 0 <= i < s.len() {
            Some(s[i])
        } else {
            None
        },
        _ => None,
    }
}

/// `doc` with its child under `seg` replaced by `v`; meaningful only when
/// that child exists.
pub open spec fn spec_set_child(doc: JsonModel, seg: SegModel, v: JsonModel) -> JsonModel {
    match (doc, seg) {
        (JsonModel::Obj(es), SegModel::Key(k)) => JsonModel::Obj(
            es.update(key_idx(es, k), (k, v)),
        ),
        (JsonModel::Arr(s), SegModel::Index(i)) => JsonModel::Arr(s.update(i, v)),
        _ => doc,
    }
}

/// `doc` with `v` inserted under `seg`: object entries are added or
/// overwritten, array elements are inserted before index `i`.
pub open spec fn spec_insert_child(doc: JsonModel, seg: SegModel, v: JsonModel) -> Option<
    JsonModel,
> {
    match (doc, seg) {
        (JsonModel::Obj(es), SegModel::Key(k)) => if has_key(es, k) {
            Some(JsonModel::Obj(es.update(key_idx(es, k), (k, v))))
        } else {
            Some(JsonModel::Obj(es.push((k, v))))
        },
        (JsonModel::Arr(s), SegModel::Index(i)) => if 0 <= i <= s.len() {
            Some(JsonModel::Arr(s.insert(i, v)))
        } else {
            None
        },
        _ => None,
    }
}

/// `doc` with the child under `seg` deleted.
pub open spec fn spec_remove_child(doc: JsonModel, seg: SegModel) -> Option<JsonModel> {
    match (doc, seg) {
        (JsonModel::Obj(es), SegModel::Key(k)) => if has_key(es, k) {
            Some(JsonModel::Obj(es.remove(key_idx(es, k))))
        } else {
            None
        },
        (JsonModel::Arr(s), SegModel::Index(i)) => if 0 <= i < s.len() {
            Some(JsonModel::Arr(s.remove(i)))
        } else {
            None
        },
        _ => None,
    }
}

/// Applies one operation to `doc`, or fails when its path does not address
/// anything in `doc`.
pub open spec fn spec_apply_op(doc: JsonModel, op: OpModel) -> Option<JsonModel>
    decreases op_path(op).len(),
{
    let path = op_path(op);
    if path.len() == 0 {
        match op {
            OpModel::Replace { value, .. } => Some(value),
            OpModel::Add { value, .. } => Some(value),
            OpModel::Remove { .. } => None,
        }
    } else if path.len() == 1 && !(op is Replace) {
        match op {
            OpModel::Add { value, .. } => spec_insert_child(doc, path[0], value),
            _ => spec_remove_child(doc, path[0]),
        }
    } else {
        match spec_get_child(doc, path[0]) {
            Some(child) => match spec_apply_op(child, tail_op(op)) {
                Some(child2) => Some(spec_set_child(doc, path[0], child2)),
                None => None,
            },
            None => None,
        }
    }
}

/// Applies a whole patch, operation by operation, in order; fails as soon
/// as one operation fails, applying nothing further.
pub open spec fn spec_apply_patch(doc: JsonModel, ops: Seq<OpModel>) -> Option<JsonModel>
    decreases ops.len(),
{
    if ops.len() == 0 {
        Some(doc)
    } else {
        match spec_apply_op(doc, ops[0]) {
            Some(d2) => spec_apply_patch(d2, ops.drop_first()),
            None => None,
        }
    }
}

/// Applies a sequence of patches in order.
pub open spec fn spec_apply_patches(doc: JsonModel, ps: Seq<Seq<OpModel>>) -> Option<JsonModel>
    decreases ps.len(),
{
    if ps.len() == 0 {
        Some(doc)
    } else {
        match spec_apply_patch(doc, ps[0]) {
            Some(d2) => spec_apply_patches(d2, ps.drop_first()),
            None => None,
        }
    }
}

/// The structural diff from `a` to `b`: empty when the two are equal;
/// element-by-element where the two sides have the same shape; a single
/// root replacement otherwise.
pub open spec fn spec_diff(a: JsonModel, b: JsonModel) -> Seq<OpModel>
    decreases a, 1nat, 0int,
{
    if a == b {
        Seq::empty()
    } else if a is Arr && b is Arr && a->Arr_0.len() == b->Arr_0.len() {
        spec_diff_arr_to(a->Arr_0, b->Arr_0, a->Arr_0.len() as int)
    } else if a is Obj && b is Obj && key_seq(a->Obj_0) == key_seq(b->Obj_0) && keys_unique(
        a->Obj_0,
    ) {
        spec_diff_obj_to(a->Obj_0, b->Obj_0, a->Obj_0.len() as int)
    } else {
        seq![OpModel::Replace { path: Seq::empty(), value: b }]
    }
}

/// Diff operations for the array elements with index below `i`.
pub open spec fn spec_diff_arr_to(x: Seq<JsonModel>, y: Seq<JsonModel>, i: int) -> Seq<OpModel>
    decreases x, 0nat, i,
{
    if i <= 0 || i > x.len() || x.len() != y.len() {
        Seq::empty()
    } else {
        spec_diff_arr_to(x, y, i - 1) + prefix_ops(
            SegModel::Index(i - 1),
            spec_diff(x[i - 1], y[i - 1]),
        )
    }
}

/// Diff operations for the object entries with index below `i`.
pub open spec fn spec_diff_obj_to(
    x: Seq<(Seq<u8>, JsonModel)>,
    y: Seq<(Seq<u8>, JsonModel)>,
    i: int,
) -> Seq<OpModel>
    decreases x, 0nat, i,
{
    if i <= 0 || i > x.len() || x.len() != y.len() {
        Seq::empty()
    } else {
        spec_diff_obj_to(x, y, i - 1) + prefix_ops(
            SegModel::Key(x[i - 1].0),
            spec_diff(x[i - 1].1, y[i - 1].1),
        )
    }
}

pub proof fn lemma_key_idx_first(es: Seq<(Seq<u8>, JsonModel)>, k: Seq<u8>, i: int)
    requires
        0 <= i < es.len(),
        es[i].0 == k,
        forall|j: int| 0 <= j < i ==> (#[trigger] es[j]).0 != k,
    ensures
        key_idx(es, k) == i,
{
    lemma_key_idx(es, k);
    if key_idx(es, k) < i {
        assert(es[key_idx(es, k)].0 != k);
    } else if key_idx(es, k) > i {
        assert(es[i].0 != k);
    }
}

proof fn lemma_set_child_get(doc: JsonModel, seg: SegModel, child: JsonModel)
    requires
        spec_get_child(doc, seg) == Some(child),
    ensures
        spec_set_child(doc, seg, child) == doc,
{
    match (doc, seg) {
        (JsonModel::Obj(es), SegModel::Key(k)) => {
            lemma_key_idx(es, k);
            let ki = key_idx(es, k);
            assert(es[ki] =~= (k, es[ki].1));
            assert(es.update(ki, (k, child)) =~= es);
        },
        (JsonModel::Arr(s), SegModel::Index(i)) => {
            assert(s.update(i, child) =~= s);
        },
        _ => {},
    }
}

proof fn lemma_get_set(doc: JsonModel, seg: SegModel, v: JsonModel)
    requires
        spec_get_child(doc, seg) is Some,
    ensures
        spec_get_child(spec_set_child(doc, seg, v), seg) == Some(v),
{
    match (doc, seg) {
        (JsonModel::Obj(es), SegModel::Key(k)) => {
            lemma_key_idx(es, k);
            let ki = key_idx(es, k);
            let es2 = es.update(ki, (k, v));
            lemma_key_idx_first(es2, k, ki);
        },
        _ => {},
    }
}

proof fn lemma_set_set(doc: JsonModel, seg: SegModel, v1: JsonModel, v2: JsonModel)
    requires
        spec_get_child(doc, seg) is Some,
    ensures
        spec_set_child(spec_set_child(doc, seg, v1), seg, v2) == spec_set_child(doc, seg, v2),
{
    match (doc, seg) {
        (JsonModel::Obj(es), SegModel::Key(k)) => {
            lemma_key_idx(es, k);
            let ki = key_idx(es, k);
            let es2 = es.update(ki, (k, v1));
            lemma_key_idx_first(es2, k, ki);
            assert(es2.update(ki, (k, v2)) =~= es.update(ki, (k, v2)));
        },
        (JsonModel::Arr(s), SegModel::Index(i)) => {
            if 0 <= i < s.len() {
                assert(s.update(i, v1).update(i, v2) =~= s.update(i, v2));
            }
        },
        _ => {},
    }
}

pub proof fn lemma_apply_patch_concat(doc: JsonModel, p1: Seq<OpModel>, p2: Seq<OpModel>)
    ensures
        spec_apply_patch(doc, p1 + p2) == (match spec_apply_patch(doc, p1) {
            Some(m) => spec_apply_patch(m, p2),
            None => None,
        }),
    decreases p1.len(),
{
    if p1.len() == 0 {
        assert(p1 + p2 =~= p2);
    } else {
        assert((p1 + p2)[0] == p1[0]);
        assert((p1 + p2).drop_first() =~= p1.drop_first() + p2);
        match spec_apply_op(doc, p1[0]) {
            Some(d2) => {
                lemma_apply_patch_concat(d2, p1.drop_first(), p2);
            },
            None => {},
        }
    }
}

proof fn lemma_prefix_patch(
    doc: JsonModel,
    seg: SegModel,
    ops: Seq<OpModel>,
    child: JsonModel,
    child2: JsonModel,
)
    requires
        spec_get_child(doc, seg) == Some(child),
        spec_apply_patch(child, ops) == Some(child2),
        ops_rooted(ops),
    ensures
        spec_apply_patch(doc, prefix_ops(seg, ops)) == Some(spec_set_child(doc, seg, child2)),
    decreases ops.len(),
{
    if ops.len() == 0 {
        assert(prefix_ops(seg, ops) =~= Seq::<OpModel>::empty());
        lemma_set_child_get(doc, seg, child);
    } else {
        let op0 = ops[0];
        let pop0 = prefix_op(seg, op0);
        assert(prefix_ops(seg, ops)[0] == pop0);
        match spec_apply_op(child, op0) {
            Some(c1) => {
                // the prefixed head operation navigates into `seg`
                assert(op_path(pop0) == seq![seg] + op_path(op0));
                assert(op_path(pop0).len() == 1 + op_path(op0).len());
                assert(op_path(pop0)[0] == seg);
                assert(op_path(tail_op(pop0)) =~= op_path(op0));
                assert(tail_op(pop0) =~= op0);
                assert(pop0 is Replace || op_path(op0).len() > 0);
                assert(spec_apply_op(doc, pop0) == Some(spec_set_child(doc, seg, c1)));
                let mid = spec_set_child(doc, seg, c1);
                lemma_get_set(doc, seg, c1);
                assert(prefix_ops(seg, ops).drop_first() =~= prefix_ops(seg, ops.drop_first()));
                assert(ops_rooted(ops.drop_first()));
                lemma_prefix_patch(mid, seg, ops.drop_first(), c1, child2);
                lemma_set_set(doc, seg, c1, child2);
            },
            None => {
                assert(false);
            },
        }
    }
}

proof fn lemma_prefix_ops_rooted(seg: SegModel, ops: Seq<OpModel>)
    ensures
        ops_rooted(prefix_ops(seg, ops)),
{
    assert forall|i: int| 0 <= i < prefix_ops(seg, ops).len() implies (#[trigger] prefix_ops(
        seg,
        ops,
    )[i] is Replace || op_path(prefix_ops(seg, ops)[i]).len() > 0) by {
        assert(prefix_ops(seg, ops)[i] == prefix_op(seg, ops[i]));
        assert(op_path(prefix_op(seg, ops[i])).len() == 1 + op_path(ops[i]).len());
    }
}

proof fn lemma_diff_arr_rooted(x: Seq<JsonModel>, y: Seq<JsonModel>, i: int)
    ensures
        ops_rooted(spec_diff_arr_to(x, y, i)),
    decreases x, 0nat, i,
{
    if i <= 0 || i > x.len() || x.len() != y.len() {
    } else {
        lemma_diff_arr_rooted(x, y, i - 1);
        lemma_prefix_ops_rooted(SegModel::Index(i - 1), spec_diff(x[i - 1], y[i - 1]));
        let p1 = spec_diff_arr_to(x, y, i - 1);
        let p2 = prefix_ops(SegModel::Index(i - 1), spec_diff(x[i - 1], y[i - 1]));
        assert forall|j: int| 0 <= j < (p1 + p2).len() implies (#[trigger] (p1 + p2)[j] is Replace
            || op_path((p1 + p2)[j]).len() > 0) by {
            if j < p1.len() {
                assert((p1 + p2)[j] == p1[j]);
            } else {
                assert((p1 + p2)[j] == p2[j - p1.len()]);
            }
        }
    }
}

proof fn lemma_diff_obj_rooted(x: Seq<(Seq<u8>, JsonModel)>, y: Seq<(Seq<u8>, JsonModel)>, i: int)
    ensures
        ops_rooted(spec_diff_obj_to(x, y, i)),
    decreases x, 0nat, i,
{
    if i <= 0 || i > x.len() || x.len() != y.len() {
    } else {
        lemma_diff_obj_rooted(x, y, i - 1);
        lemma_prefix_ops_rooted(SegModel::Key(x[i - 1].0), spec_diff(x[i - 1].1, y[i - 1].1));
        let p1 = spec_diff_obj_to(x, y, i - 1);
        let p2 = prefix_ops(SegModel::Key(x[i - 1].0), spec_diff(x[i - 1].1, y[i - 1].1));
        assert forall|j: int| 0 <= j < (p1 + p2).len() implies (#[trigger] (p1 + p2)[j] is Replace
            || op_path((p1 + p2)[j]).len() > 0) by {
            if j < p1.len() {
                assert((p1 + p2)[j] == p1[j]);
            } else {
                assert((p1 + p2)[j] == p2[j - p1.len()]);
            }
        }
    }
}

/// Every diff is rooted: it never adds or removes the document root itself.
pub proof fn lemma_diff_rooted(a: JsonModel, b: JsonModel)
    ensures
        ops_rooted(spec_diff(a, b)),
{
    if a == b {
    } else if a is Arr && b is Arr && a->Arr_0.len() == b->Arr_0.len() {
        lemma_diff_arr_rooted(a->Arr_0, b->Arr_0, a->Arr_0.len() as int);
    } else if a is Obj && b is Obj && key_seq(a->Obj_0) == key_seq(b->Obj_0) && keys_unique(
        a->Obj_0,
    ) {
        lemma_diff_obj_rooted(a->Obj_0, b->Obj_0, a->Obj_0.len() as int);
    } else {
        let ops = seq![OpModel::Replace { path: Seq::empty(), value: b }];
        assert(ops[0] is Replace);
    }
}

proof fn lemma_diff_arr_to_ok(x: Seq<JsonModel>, y: Seq<JsonModel>, i: int)
    requires
        x.len() == y.len(),
        0 <= i <= x.len(),
    ensures
        spec_apply_patch(JsonModel::Arr(x), spec_diff_arr_to(x, y, i)) == Some(
            JsonModel::Arr(Seq::new(x.len(), |j: int| if j < i { y[j] } else { x[j] })),
        ),
    decreases x, 0nat, i,
{
    let hy = Seq::new(x.len(), |j: int| if j < i { y[j] } else { x[j] });
    if i == 0 {
        assert(hy =~= x);
    } else {
        let hprev = Seq::new(x.len(), |j: int| if j < i - 1 { y[j] } else { x[j] });
        lemma_diff_arr_to_ok(x, y, i - 1);
        let p1 = spec_diff_arr_to(x, y, i - 1);
        let p2 = prefix_ops(SegModel::Index(i - 1), spec_diff(x[i - 1], y[i - 1]));
        lemma_apply_patch_concat(JsonModel::Arr(x), p1, p2);
        // apply the prefixed diff of element i - 1 to the intermediate array
        assert(spec_get_child(JsonModel::Arr(hprev), SegModel::Index(i - 1)) == Some(x[i - 1]));
        lemma_diff_ok(x[i - 1], y[i - 1]);
        lemma_diff_rooted(x[i - 1], y[i - 1]);
        lemma_prefix_patch(
            JsonModel::Arr(hprev),
            SegModel::Index(i - 1),
            spec_diff(x[i - 1], y[i - 1]),
            x[i - 1],
            y[i - 1],
        );
        assert(hprev.update(i - 1, y[i - 1]) =~= hy);
    }
}

proof fn lemma_diff_obj_to_ok(x: Seq<(Seq<u8>, JsonModel)>, y: Seq<(Seq<u8>, JsonModel)>, i: int)
    requires
        x.len() == y.len(),
        key_seq(x) == key_seq(y),
        keys_unique(x),
        0 <= i <= x.len(),
    ensures
        spec_apply_patch(JsonModel::Obj(x), spec_diff_obj_to(x, y, i)) == Some(
            JsonModel::Obj(Seq::new(x.len(), |j: int| if j < i { y[j] } else { x[j] })),
        ),
    decreases x, 0nat, i,
{
    let hy = Seq::new(x.len(), |j: int| if j < i { y[j] } else { x[j] });
    assert forall|j: int| 0 <= j < x.len() implies (#[trigger] y[j]).0 == x[j].0 by {
        assert(key_seq(x)[j] == x[j].0);
        assert(key_seq(y)[j] == y[j].0);
    }
    if i == 0 {
        assert(hy =~= x);
    } else {
        let k = x[i - 1].0;
        let hprev = Seq::new(x.len(), |j: int| if j < i - 1 { y[j] } else { x[j] });
        lemma_diff_obj_to_ok(x, y, i - 1);
        let p1 = spec_diff_obj_to(x, y, i - 1);
        let p2 = prefix_ops(SegModel::Key(k), spec_diff(x[i - 1].1, y[i - 1].1));
        lemma_apply_patch_concat(JsonModel::Obj(x), p1, p2);
        // the intermediate object has the same key sequence as `x`
        assert forall|j: int| 0 <= j < i - 1 implies (#[trigger] hprev[j]).0 != k by {
            assert(hprev[j].0 == x[j].0);
        }
        lemma_key_idx_first(hprev, k, i - 1);
        assert(spec_get_child(JsonModel::Obj(hprev), SegModel::Key(k)) == Some(x[i - 1].1));
        lemma_diff_ok(x[i - 1].1, y[i - 1].1);
        lemma_diff_rooted(x[i - 1].1, y[i - 1].1);
        lemma_prefix_patch(
            JsonModel::Obj(hprev),
            SegModel::Key(k),
            spec_diff(x[i - 1].1, y[i - 1].1),
            x[i - 1].1,
            y[i - 1].1,
        );
        assert((k, y[i - 1].1) =~= y[i - 1]);
        assert(hprev.update(i - 1, (k, y[i - 1].1)) =~= hy);
    }
}

/// Round trip: applying the diff from `a` to `b` onto `a` always succeeds
/// and yields exactly `b`.
pub proof fn lemma_diff_ok(a: JsonModel, b: JsonModel)
    ensures
        spec_apply_patch(a, spec_diff(a, b)) == Some(b),
    decreases a, 1nat, 0int,
{
    if a == b {
    } else if a is Arr && b is Arr && a->Arr_0.len() == b->Arr_0.len() {
        let x = a->Arr_0;
        let y = b->Arr_0;
        assert(a == JsonModel::Arr(x));
        assert(b == JsonModel::Arr(y));
        lemma_diff_arr_to_ok(x, y, x.len() as int);
        assert(Seq::new(x.len(), |j: int| if j < x.len() { y[j] } else { x[j] }) =~= y);
    } else if a is Obj && b is Obj && key_seq(a->Obj_0) == key_seq(b->Obj_0) && keys_unique(
        a->Obj_0,
    ) {
        let x = a->Obj_0;
        let y = b->Obj_0;
        assert(a == JsonModel::Obj(x));
        assert(b == JsonModel::Obj(y));
        assert(x.len() == y.len()) by {
            assert(key_seq(x).len() == x.len());
            assert(key_seq(y).len() == y.len());
        }
        lemma_diff_obj_to_ok(x, y, x.len() as int);
        assert(Seq::new(x.len(), |j: int| if j < x.len() { y[j] } else { x[j] }) =~= y);
    } else {
        let ops = seq![OpModel::Replace { path: Seq::empty(), value: b }];
        reveal_with_fuel(spec_apply_patch, 2);
        assert(spec_apply_op(a, ops[0]) == Some(b));
        assert(ops.drop_first() =~= Seq::<OpModel>::empty());
    }
}

proof fn lemma_diff_arr_to_idem(x: Seq<JsonModel>, y: Seq<JsonModel>, i: int)
    requires
        x.len() == y.len(),
        0 <= i <= x.len(),
    ensures
        spec_apply_patch(JsonModel::Arr(y), spec_diff_arr_to(x, y, i)) == Some(JsonModel::Arr(y)),
    decreases x, 0nat, i,
{
    if i == 0 {
    } else {
        lemma_diff_arr_to_idem(x, y, i - 1);
        let p1 = spec_diff_arr_to(x, y, i - 1);
        let p2 = prefix_ops(SegModel::Index(i - 1), spec_diff(x[i - 1], y[i - 1]));
        lemma_apply_patch_concat(JsonModel::Arr(y), p1, p2);
        assert(spec_get_child(JsonModel::Arr(y), SegModel::Index(i - 1)) == Some(y[i - 1]));
        lemma_diff_idempotent(x[i - 1], y[i - 1]);
        lemma_diff_rooted(x[i - 1], y[i - 1]);
        lemma_prefix_patch(
            JsonModel::Arr(y),
            SegModel::Index(i - 1),
            spec_diff(x[i - 1], y[i - 1]),
            y[i - 1],
            y[i - 1],
        );
        lemma_set_child_get(JsonModel::Arr(y), SegModel::Index(i - 1), y[i - 1]);
    }
}

proof fn lemma_diff_obj_to_idem(x: Seq<(Seq<u8>, JsonModel)>, y: Seq<(Seq<u8>, JsonModel)>, i: int)
    requires
        x.len() == y.len(),
        key_seq(x) == key_seq(y),
        keys_unique(x),
        0 <= i <= x.len(),
    ensures
        spec_apply_patch(JsonModel::Obj(y), spec_diff_obj_to(x, y, i)) == Some(JsonModel::Obj(y)),
    decreases x, 0nat, i,
{
    assert forall|j: int| 0 <= j < x.len() implies (#[trigger] y[j]).0 == x[j].0 by {
        assert(key_seq(x)[j] == x[j].0);
        assert(key_seq(y)[j] == y[j].0);
    }
    if i == 0 {
    } else {
        let k = x[i - 1].0;
        lemma_diff_obj_to_idem(x, y, i - 1);
        let p1 = spec_diff_obj_to(x, y, i - 1);
        let p2 = prefix_ops(SegModel::Key(k), spec_diff(x[i - 1].1, y[i - 1].1));
        lemma_apply_patch_concat(JsonModel::Obj(y), p1, p2);
        assert forall|j: int| 0 <= j < i - 1 implies (#[trigger] y[j]).0 != k by {
            assert(x[j].0 != x[i - 1].0);
        }
        lemma_key_idx_first(y, k, i - 1);
        assert(spec_get_child(JsonModel::Obj(y), SegModel::Key(k)) == Some(y[i - 1].1));
        lemma_diff_idempotent(x[i - 1].1, y[i - 1].1);
        lemma_diff_rooted(x[i - 1].1, y[i - 1].1);
        lemma_prefix_patch(
            JsonModel::Obj(y),
            SegModel::Key(k),
            spec_diff(x[i - 1].1, y[i - 1].1),
            y[i - 1].1,
            y[i - 1].1,
        );
        lemma_set_child_get(JsonModel::Obj(y), SegModel::Key(k), y[i - 1].1);
    }
}

/// Idempotence of re-application: a diff that has already taken effect
/// leaves the document unchanged when applied again — every diff this
/// module produces replaces; it never shifts positions.
pub proof fn lemma_diff_idempotent(a: JsonModel, b: JsonModel)
    ensures
        spec_apply_patch(b, spec_diff(a, b)) == Some(b),
    decreases a, 1nat, 0int,
{
    if a == b {
    } else if a is Arr && b is Arr && a->Arr_0.len() == b->Arr_0.len() {
        let x = a->Arr_0;
        let y = b->Arr_0;
        assert(b == JsonModel::Arr(y));
        lemma_diff_arr_to_idem(x, y, x.len() as int);
    } else if a is Obj && b is Obj && key_seq(a->Obj_0) == key_seq(b->Obj_0) && keys_unique(
        a->Obj_0,
    ) {
        let x = a->Obj_0;
        let y = b->Obj_0;
        assert(b == JsonModel::Obj(y));
        assert(x.len() == y.len()) by {
            assert(key_seq(x).len() == x.len());
            assert(key_seq(y).len() == y.len());
        }
        lemma_diff_obj_to_idem(x, y, x.len() as int);
    } else {
        let ops = seq![OpModel::Replace { path: Seq::empty(), value: b }];
        reveal_with_fuel(spec_apply_patch, 2);
        assert(spec_apply_op(b, ops[0]) == Some(b));
        assert(ops.drop_first() =~= Seq::<OpModel>::empty());
    }
}

/// The diff of a value against itself is empty, and the empty patch leaves
/// every document unchanged.
pub proof fn lemma_diff_noop(a: JsonModel)
    ensures
        spec_diff(a, a) == Seq::<OpModel>::empty(),
        spec_apply_patch(a, spec_diff(a, a)) == Some(a),
{
}

/// The diffs of each snapshot against the next.
pub open spec fn diffs_of(snaps: Seq<JsonModel>) -> Seq<Seq<OpModel>> {
    Seq::new((snaps.len() - 1) as nat, |i: int| spec_diff(snaps[i], snaps[i + 1]))
}

/// Ordering: applying the diffs of consecutive mutations, in arrival order,
/// to the first snapshot yields exactly the last snapshot.
pub proof fn lemma_mutation_chain(snaps: Seq<JsonModel>)
    requires
        snaps.len() >= 1,
    ensures
        spec_apply_patches(snaps[0], diffs_of(snaps)) == Some(snaps.last()),
    decreases snaps.len(),
{
    if snaps.len() == 1 {
        assert(diffs_of(snaps) =~= Seq::<Seq<OpModel>>::empty());
    } else {
        lemma_diff_ok(snaps[0], snaps[1]);
        lemma_mutation_chain(snaps.drop_first());
        assert(diffs_of(snaps)[0] == spec_diff(snaps[0], snaps[1]));
        assert(diffs_of(snaps).drop_first() =~= diffs_of(snaps.drop_first()));
        assert(snaps.drop_first().last() == snaps.last());
    }
}

/// Appending one more patch to a sequence of patches applies it after all
/// the others.
pub proof fn lemma_apply_patches_push(doc: JsonModel, ps: Seq<Seq<OpModel>>, p: Seq<OpModel>)
    ensures
        spec_apply_patches(doc, ps.push(p)) == (match spec_apply_patches(doc, ps) {
            Some(m) => spec_apply_patch(m, p),
            None => None,
        }),
    decreases ps.len(),
{
    if ps.len() == 0 {
        assert(ps.push(p)[0] == p);
        assert(ps.push(p).drop_first() =~= Seq::<Seq<OpModel>>::empty());
        reveal_with_fuel(spec_apply_patches, 2);
    } else {
        assert(ps.push(p)[0] == ps[0]);
        assert(ps.push(p).drop_first() =~= ps.drop_first().push(p));
        match spec_apply_patch(doc, ps[0]) {
            Some(m) => {
                lemma_apply_patches_push(m, ps.drop_first(), p);
            },
            None => {},
        }
    }
}

/// One path segment: an object key or an array index.
pub enum PathSegment {
    Key(Vec<u8>),
    Index(usize),
}

impl PathSegment {
    pub open spec fn view(self) -> SegModel {
        match self {
            PathSegment::Key(k) => SegModel::Key(k@),
            PathSegment::Index(i) => SegModel::Index(i as int),
        }
    }
}

/// Copies a path segment.
pub fn clone_seg(s: &PathSegment) -> (r: PathSegment)
    ensures
        r@ == s@,
{
    match s {
        PathSegment::Key(k) => PathSegment::Key(crate::value::clone_bytes(k)),
        PathSegment::Index(i) => PathSegment::Index(*i),
    }
}

/// One primitive patch operation.
pub enum PatchOp {
    Replace { path: Vec<PathSegment>, value: JsonValue },
    Add { path: Vec<PathSegment>, value: JsonValue },
    Remove { path: Vec<PathSegment> },
}

/// Model of a sequence of path segments.
pub open spec fn view_path(p: Seq<PathSegment>) -> Seq<SegModel> {
    p.map_values(|s: PathSegment| s.view())
}

impl PatchOp {
    pub open spec fn view(self) -> OpModel {
        match self {
            PatchOp::Replace { path, value } => OpModel::Replace {
                path: view_path(path@),
                value: value@,
            },
            PatchOp::Add { path, value } => OpModel::Add { path: view_path(path@), value: value@ },
            PatchOp::Remove { path } => OpModel::Remove { path: view_path(path@) },
        }
    }
}

/// Model of a sequence of operations.
pub open spec fn view_ops(ops: Seq<PatchOp>) -> Seq<OpModel> {
    ops.map_values(|op: PatchOp| op.view())
}

/// A whole diff: the ordered operations that turn one snapshot into another.
pub struct Patch {
    pub ops: Vec<PatchOp>,
}

impl View for Patch {
    type V = Seq<OpModel>;

    open spec fn view(&self) -> Seq<OpModel> {
        view_ops(self.ops@)
    }
}

/// Failure of re-application: an operation's path addressed nothing in the
/// document it was applied to.
#[derive(Debug)]
pub enum ApplyError {
    BadPath,
}

/// `op` with its first `pos` path segments stripped.
pub open spec fn op_from(op: OpModel, pos: int) -> OpModel {
    match op {
        OpModel::Replace { path, value } => OpModel::Replace { path: path.skip(pos), value },
        OpModel::Add { path, value } => OpModel::Add { path: path.skip(pos), value },
        OpModel::Remove { path } => OpModel::Remove { path: path.skip(pos) },
    }
}

fn apply_replace(doc: JsonValue, path: &Vec<PathSegment>, pos: usize, value: &JsonValue) -> (r:
    Result<JsonValue, ApplyError>)
    requires
        pos <= path@.len(),
    ensures
        ({
            let m = OpModel::Replace { path: view_path(path@).skip(pos as int), value: value@ };
            match r {
                Ok(d) => spec_apply_op(doc@, m) == Some(d@),
                Err(_) => spec_apply_op(doc@, m) is None,
            }
        }),
    decreases path@.len() - pos,
{
    let ghost m = OpModel::Replace { path: view_path(path@).skip(pos as int), value: value@ };
    let ghost dv = doc@;
    if pos == path.len() {
        proof {
            assert(view_path(path@).skip(pos as int) =~= Seq::<SegModel>::empty());
        }
        return Ok(crate::value::clone_value(value));
    }
    let seg = &path[pos];
    proof {
        assert(op_path(m).len() == path@.len() - pos);
        assert(op_path(m)[0] == view_path(path@)[pos as int]);
        assert(view_path(path@)[pos as int] == path@[pos as int]@);
        assert(view_path(path@).skip(pos as int).drop_first() =~= view_path(path@).skip(
            pos as int + 1,
        ));
        assert(tail_op(m) == OpModel::Replace {
            path: view_path(path@).skip(pos as int + 1),
            value: value@,
        });
    }
    match doc {
        JsonValue::Obj(mut es) => {
            match seg {
                PathSegment::Key(k) => {
                    match crate::value::find_key(&es, k) {
                        Some(i) => {
                            let ghost es0 = es@;
                            let ghost vo = JsonValue::view_obj(es0);
                            proof {
                                lemma_key_idx(vo, k@);
                                assert(spec_get_child(dv, seg@) == Some(vo[i as int].1));
                            }
                            let entry = es.remove(i);
                            match apply_replace(entry.1, path, pos + 1, value) {
                                Ok(c2) => {
                                    es.insert(i, (entry.0, c2));
                                    proof {
                                        assert(JsonValue::view_obj(es@) =~= vo.update(
                                            i as int,
                                            (k@, c2@),
                                        ));
                                        assert(spec_set_child(dv, seg@, c2@) == JsonModel::Obj(
                                            vo.update(i as int, (k@, c2@)),
                                        ));
                                    }
                                    Ok(JsonValue::Obj(es))
                                },
                                Err(e) => Err(e),
                            }
                        },
                        None => Err(ApplyError::BadPath),
                    }
                },
                PathSegment::Index(_) => Err(ApplyError::BadPath),
            }
        },
        JsonValue::Arr(mut vs) => {
            match seg {
                PathSegment::Index(i) => {
                    if *i < vs.len() {
                        let ghost vs0 = vs@;
                        let ghost va = JsonValue::view_arr(vs0);
                        proof {
                            assert(spec_get_child(dv, seg@) == Some(va[*i as int]));
                        }
                        let child = vs.remove(*i);
                        match apply_replace(child, path, pos + 1, value) {
                            Ok(c2) => {
                                vs.insert(*i, c2);
                                proof {
                                    assert(JsonValue::view_arr(vs@) =~= va.update(*i as int, c2@));
                                    assert(spec_set_child(dv, seg@, c2@) == JsonModel::Arr(
                                        va.update(*i as int, c2@),
                                    ));
                                }
                                Ok(JsonValue::Arr(vs))
                            },
                            Err(e) => Err(e),
                        }
                    } else {
                        Err(ApplyError::BadPath)
                    }
                },
                PathSegment::Key(_) => Err(ApplyError::BadPath),
            }
        },
        _ => Err(ApplyError::BadPath),
    }
}

fn apply_add(doc: JsonValue, path: &Vec<PathSegment>, pos: usize, value: &JsonValue) -> (r: Result<
    JsonValue,
    ApplyError,
>)
    requires
        pos <= path@.len(),
    ensures
        ({
            let m = OpModel::Add { path: view_path(path@).skip(pos as int), value: value@ };
            match r {
                Ok(d) => spec_apply_op(doc@, m) == Some(d@),
                Err(_) => spec_apply_op(doc@, m) is None,
            }
        }),
    decreases path@.len() - pos,
{
    let ghost m = OpModel::Add { path: view_path(path@).skip(pos as int), value: value@ };
    let ghost dv = doc@;
    if pos == path.len() {
        proof {
            assert(view_path(path@).skip(pos as int) =~= Seq::<SegModel>::empty());
        }
        return Ok(crate::value::clone_value(value));
    }
    let seg = &path[pos];
    proof {
        assert(op_path(m).len() == path@.len() - pos);
        assert(op_path(m)[0] == view_path(path@)[pos as int]);
        assert(view_path(path@)[pos as int] == path@[pos as int]@);
        assert(view_path(path@).skip(pos as int).drop_first() =~= view_path(path@).skip(
            pos as int + 1,
        ));
        assert(tail_op(m) == OpModel::Add {
            path: view_path(path@).skip(pos as int + 1),
            value: value@,
        });
    }
    if pos + 1 == path.len() {
        // insert or overwrite at the final segment
        match doc {
            JsonValue::Obj(mut es) => {
                match seg {
                    PathSegment::Key(k) => {
                        let ghost es0 = es@;
                        let ghost vo = JsonValue::view_obj(es0);
                        match crate::value::find_key(&es, k) {
                            Some(i) => {
                                proof {
                                    lemma_key_idx(vo, k@);
                                }
                                let entry = es.remove(i);
                                es.insert(i, (entry.0, crate::value::clone_value(value)));
                                proof {
                                    assert(JsonValue::view_obj(es@) =~= vo.update(
                                        i as int,
                                        (k@, value@),
                                    ));
                                }
                                Ok(JsonValue::Obj(es))
                            },
                            None => {
                                es.push((crate::value::clone_bytes(k), crate::value::clone_value(
                                    value,
                                )));
                                proof {
                                    assert(JsonValue::view_obj(es@) =~= vo.push((k@, value@)));
                                }
                                Ok(JsonValue::Obj(es))
                            },
                        }
                    },
                    PathSegment::Index(_) => Err(ApplyError::BadPath),
                }
            },
            JsonValue::Arr(mut vs) => {
                match seg {
                    PathSegment::Index(i) => {
                        if *i <= vs.len() {
                            let ghost vs0 = vs@;
                            let ghost va = JsonValue::view_arr(vs0);
                            vs.insert(*i, crate::value::clone_value(value));
                            proof {
                                assert(JsonValue::view_arr(vs@) =~= va.insert(*i as int, value@));
                            }
                            Ok(JsonValue::Arr(vs))
                        } else {
                            Err(ApplyError::BadPath)
                        }
                    },
                    PathSegment::Key(_) => Err(ApplyError::BadPath),
                }
            },
            _ => Err(ApplyError::BadPath),
        }
    } else {
        // navigate one level deeper
        match doc {
            JsonValue::Obj(mut es) => {
                match seg {
                    PathSegment::Key(k) => {
                        match crate::value::find_key(&es, k) {
                            Some(i) => {
                                let ghost es0 = es@;
                                let ghost vo = JsonValue::view_obj(es0);
                                proof {
                                    lemma_key_idx(vo, k@);
                                    assert(spec_get_child(dv, seg@) == Some(vo[i as int].1));
                                }
                                let entry = es.remove(i);
                                match apply_add(entry.1, path, pos + 1, value) {
                                    Ok(c2) => {
                                        es.insert(i, (entry.0, c2));
                                        proof {
                                            assert(JsonValue::view_obj(es@) =~= vo.update(
                                                i as int,
                                                (k@, c2@),
                                            ));
                                            assert(spec_set_child(dv, seg@, c2@) == JsonModel::Obj(
                                                vo.update(i as int, (k@, c2@)),
                                            ));
                                        }
                                        Ok(JsonValue::Obj(es))
                                    },
                                    Err(e) => Err(e),
                                }
                            },
                            None => Err(ApplyError::BadPath),
                        }
                    },
                    PathSegment::Index(_) => Err(ApplyError::BadPath),
                }
            },
            JsonValue::Arr(mut vs) => {
                match seg {
                    PathSegment::Index(i) => {
                        if *i < vs.len() {
                            let ghost vs0 = vs@;
                            let ghost va = JsonValue::view_arr(vs0);
                            proof {
                                assert(spec_get_child(dv, seg@) == Some(va[*i as int]));
                            }
                            let child = vs.remove(*i);
                            match apply_add(child, path, pos + 1, value) {
                                Ok(c2) => {
                                    vs.insert(*i, c2);
                                    proof {
                                        assert(JsonValue::view_arr(vs@) =~= va.update(
                                            *i as int,
                                            c2@,
                                        ));
                                        assert(spec_set_child(dv, seg@, c2@) == JsonModel::Arr(
                                            va.update(*i as int, c2@),
                                        ));
                                    }
                                    Ok(JsonValue::Arr(vs))
                                },
                                Err(e) => Err(e),
                            }
                        } else {
                            Err(ApplyError::BadPath)
                        }
                    },
                    PathSegment::Key(_) => Err(ApplyError::BadPath),
                }
            },
            _ => Err(ApplyError::BadPath),
        }
    }
}

fn apply_remove(doc: JsonValue, path: &Vec<PathSegment>, pos: usize) -> (r: Result<
    JsonValue,
    ApplyError,
>)
    requires
        pos <= path@.len(),
    ensures
        ({
            let m = OpModel::Remove { path: view_path(path@).skip(pos as int) };
            match r {
                Ok(d) => spec_apply_op(doc@, m) == Some(d@),
                Err(_) => spec_apply_op(doc@, m) is None,
            }
        }),
    decreases path@.len() - pos,
{
    let ghost m = OpModel::Remove { path: view_path(path@).skip(pos as int) };
    let ghost dv = doc@;
    if pos == path.len() {
        proof {
            assert(view_path(path@).skip(pos as int) =~= Seq::<SegModel>::empty());
        }
        return Err(ApplyError::BadPath);
    }
    let seg = &path[pos];
    proof {
        assert(op_path(m).len() == path@.len() - pos);
        assert(op_path(m)[0] == view_path(path@)[pos as int]);
        assert(view_path(path@)[pos as int] == path@[pos as int]@);
        assert(view_path(path@).skip(pos as int).drop_first() =~= view_path(path@).skip(
            pos as int + 1,
        ));
        assert(tail_op(m) == OpModel::Remove { path: view_path(path@).skip(pos as int + 1) });
    }
    if pos + 1 == path.len() {
        // delete at the final segment
        match doc {
            JsonValue::Obj(mut es) => {
                match seg {
                    PathSegment::Key(k) => {
                        match crate::value::find_key(&es, k) {
                            Some(i) => {
                                let ghost es0 = es@;
                                let ghost vo = JsonValue::view_obj(es0);
                                let _ = es.remove(i);
                                proof {
                                    assert(JsonValue::view_obj(es@) =~= vo.remove(i as int));
                                }
                                Ok(JsonValue::Obj(es))
                            },
                            None => Err(ApplyError::BadPath),
                        }
                    },
                    PathSegment::Index(_) => Err(ApplyError::BadPath),
                }
            },
            JsonValue::Arr(mut vs) => {
                match seg {
                    PathSegment::Index(i) => {
                        if *i < vs.len() {
                            let ghost vs0 = vs@;
                            let ghost va = JsonValue::view_arr(vs0);
                            let _ = vs.remove(*i);
                            proof {
                                assert(JsonValue::view_arr(vs@) =~= va.remove(*i as int));
                            }
                            Ok(JsonValue::Arr(vs))
                        } else {
                            Err(ApplyError::BadPath)
                        }
                    },
                    PathSegment::Key(_) => Err(ApplyError::BadPath),
                }
            },
            _ => Err(ApplyError::BadPath),
        }
    } else {
        // navigate one level deeper
        match doc {
            JsonValue::Obj(mut es) => {
                match seg {
                    PathSegment::Key(k) => {
                        match crate::value::find_key(&es, k) {
                            Some(i) => {
                                let ghost es0 = es@;
                                let ghost vo = JsonValue::view_obj(es0);
                                proof {
                                    lemma_key_idx(vo, k@);
                                    assert(spec_get_child(dv, seg@) == Some(vo[i as int].1));
                                }
                                let entry = es.remove(i);
                                match apply_remove(entry.1, path, pos + 1) {
                                    Ok(c2) => {
                                        es.insert(i, (entry.0, c2));
                                        proof {
                                            assert(JsonValue::view_obj(es@) =~= vo.update(
                                                i as int,
                                                (k@, c2@),
                                            ));
                                            assert(spec_set_child(dv, seg@, c2@) == JsonModel::Obj(
                                                vo.update(i as int, (k@, c2@)),
                                            ));
                                        }
                                        Ok(JsonValue::Obj(es))
                                    },
                                    Err(e) => Err(e),
                                }
                            },
                            None => Err(ApplyError::BadPath),
                        }
                    },
                    PathSegment::Index(_) => Err(ApplyError::BadPath),
                }
            },
            JsonValue::Arr(mut vs) => {
                match seg {
                    PathSegment::Index(i) => {
                        if *i < vs.len() {
                            let ghost vs0 = vs@;
                            let ghost va = JsonValue::view_arr(vs0);
                            proof {
                                assert(spec_get_child(dv, seg@) == Some(va[*i as int]));
                            }
                            let child = vs.remove(*i);
                            match apply_remove(child, path, pos + 1) {
                                Ok(c2) => {
                                    vs.insert(*i, c2);
                                    proof {
                                        assert(JsonValue::view_arr(vs@) =~= va.update(
                                            *i as int,
                                            c2@,
                                        ));
                                        assert(spec_set_child(dv, seg@, c2@) == JsonModel::Arr(
                                            va.update(*i as int, c2@),
                                        ));
                                    }
                                    Ok(JsonValue::Arr(vs))
                                },
                                Err(e) => Err(e),
                            }
                        } else {
                            Err(ApplyError::BadPath)
                        }
                    },
                    PathSegment::Key(_) => Err(ApplyError::BadPath),
                }
            },
            _ => Err(ApplyError::BadPath),
        }
    }
}

/// Applies one operation to `doc`, yielding the transformed document, or
/// an error exactly when the operation's path addresses nothing in `doc`.
pub fn apply_op(doc: JsonValue, op: &PatchOp) -> (r: Result<JsonValue, ApplyError>)
    ensures
        match r {
            Ok(d) => spec_apply_op(doc@, op@) == Some(d@),
            Err(_) => spec_apply_op(doc@, op@) is None,
        },
{
    proof {
        assert(view_path(op_exec_path(op)@).skip(0) =~= view_path(op_exec_path(op)@));
    }
    match op {
        PatchOp::Replace { path, value } => apply_replace(doc, path, 0, value),
        PatchOp::Add { path, value } => apply_add(doc, path, 0, value),
        PatchOp::Remove { path } => apply_remove(doc, path, 0),
    }
}

/// The path vector of an operation.
pub open spec fn op_exec_path(op: &PatchOp) -> &Vec<PathSegment> {
    match op {
        PatchOp::Replace { path, .. } => path,
        PatchOp::Add { path, .. } => path,
        PatchOp::Remove { path } => path,
    }
}

fn apply_patch_from(doc: JsonValue, patch: &Patch, pos: usize) -> (r: Result<
    JsonValue,
    ApplyError,
>)
    requires
        pos <= patch.ops@.len(),
    ensures
        match r {
            Ok(d) => spec_apply_patch(doc@, patch@.skip(pos as int)) == Some(d@),
            Err(_) => spec_apply_patch(doc@, patch@.skip(pos as int)) is None,
        },
    decreases patch.ops@.len() - pos,
{
    proof {
        assert(patch@.len() == patch.ops@.len());
    }
    if pos == patch.ops.len() {
        proof {
            assert(patch@.skip(pos as int) =~= Seq::<OpModel>::empty());
        }
        return Ok(doc);
    }
    let op = &patch.ops[pos];
    proof {
        assert(patch@[pos as int] == op@);
        assert(patch@.skip(pos as int)[0] == patch@[pos as int]);
        assert(patch@.skip(pos as int).drop_first() =~= patch@.skip(pos as int + 1));
    }
    match apply_op(doc, op) {
        Ok(d) => apply_patch_from(d, patch, pos + 1),
        Err(e) => Err(e),
    }
}

/// Applies a whole patch to `doc`, operation by operation, in order;
/// fails exactly when some operation fails on the document reached so far.
pub fn apply_patch(doc: JsonValue, patch: &Patch) -> (r: Result<JsonValue, ApplyError>)
    ensures
        match r {
            Ok(d) => spec_apply_patch(doc@, patch@) == Some(d@),
            Err(_) => spec_apply_patch(doc@, patch@) is None,
        },
{
    proof {
        assert(patch@.skip(0) =~= patch@);
    }
    apply_patch_from(doc, patch, 0)
}

fn same_keys(x: &Vec<(Vec<u8>, JsonValue)>, y: &Vec<(Vec<u8>, JsonValue)>) -> (r: bool)
    ensures
        r == (key_seq(JsonValue::view_obj(x@)) == key_seq(JsonValue::view_obj(y@))),
{
    let ghost kx = key_seq(JsonValue::view_obj(x@));
    let ghost ky = key_seq(JsonValue::view_obj(y@));
    if x.len() != y.len() {
        proof {
            assert(kx.len() != ky.len());
        }
        return false;
    }
    let mut i: usize = 0;
    while i < x.len()
        invariant
            i <= x@.len(),
            x@.len() == y@.len(),
            kx == key_seq(JsonValue::view_obj(x@)),
            ky == key_seq(JsonValue::view_obj(y@)),
            kx.len() == x@.len(),
            ky.len() == y@.len(),
            forall|j: int| 0 <= j < i ==> kx[j] == ky[j],
        decreases x@.len() - i,
    {
        proof {
            assert(kx[i as int] == JsonValue::view_obj(x@)[i as int].0);
            assert(ky[i as int] == JsonValue::view_obj(y@)[i as int].0);
        }
        if !crate::value::bytes_eq(&x[i].0, &y[i].0) {
            return false;
        }
        i += 1;
    }
    proof {
        assert(kx =~= ky);
    }
    true
}

fn obj_keys_unique(x: &Vec<(Vec<u8>, JsonValue)>) -> (r: bool)
    ensures
        r == keys_unique(JsonValue::view_obj(x@)),
{
    let ghost vo = JsonValue::view_obj(x@);
    let mut i: usize = 0;
    while i < x.len()
        invariant
            i <= x@.len(),
            vo == JsonValue::view_obj(x@),
            vo.len() == x@.len(),
            forall|a: int, b: int| 0 <= a < i && a < b < vo.len() ==> (#[trigger] vo[a]).0 != (
            #[trigger] vo[b]).0,
        decreases x@.len() - i,
    {
        let mut j: usize = i + 1;
        while j < x.len()
            invariant
                i < x@.len(),
                i < j,
                vo == JsonValue::view_obj(x@),
                vo.len() == x@.len(),
                forall|b: int| i < b < j ==> (#[trigger] vo[b]).0 != vo[i as int].0,
            decreases x@.len() - j,
        {
            if crate::value::bytes_eq(&x[i].0, &x[j].0) {
                proof {
                    assert(vo[i as int].0 == x@[i as int].0@);
                    assert(vo[j as int].0 == x@[j as int].0@);
                }
                return false;
            }
            j += 1;
        }
        i += 1;
    }
    true
}

fn prefix_patch_ops(seg: &PathSegment, ops: Vec<PatchOp>) -> (r: Vec<PatchOp>)
    ensures
        view_ops(r@) == prefix_ops(seg@, view_ops(ops@)),
    decreases ops@.len(),
{
    if ops.len() == 0 {
        proof {
            assert(view_ops(ops@) =~= Seq::<OpModel>::empty());
            assert(prefix_ops(seg@, view_ops(ops@)) =~= Seq::<OpModel>::empty());
        }
        return ops;
    }
    let ghost orig = ops@;
    let mut ops = ops;
    let op0 = ops.remove(0);
    let ghost ov = op0@;
    let op2 = match op0 {
        PatchOp::Replace { mut path, value } => {
            let ghost p0 = path@;
            path.insert(0, clone_seg(seg));
            proof {
                assert(view_path(path@) =~= seq![seg@] + view_path(p0));
            }
            PatchOp::Replace { path, value }
        },
        PatchOp::Add { mut path, value } => {
            let ghost p0 = path@;
            path.insert(0, clone_seg(seg));
            proof {
                assert(view_path(path@) =~= seq![seg@] + view_path(p0));
            }
            PatchOp::Add { path, value }
        },
        PatchOp::Remove { mut path } => {
            let ghost p0 = path@;
            path.insert(0, clone_seg(seg));
            proof {
                assert(view_path(path@) =~= seq![seg@] + view_path(p0));
            }
            PatchOp::Remove { path }
        },
    };
    proof {
        assert(op2@ == prefix_op(seg@, ov));
    }
    let ghost opsv = ops@;
    let mut rest = prefix_patch_ops(seg, ops);
    let ghost r0 = rest@;
    rest.insert(0, op2);
    proof {
        assert(opsv =~= orig.drop_first());
        assert(ov == orig[0]@);
        assert(view_ops(r0) == prefix_ops(seg@, view_ops(opsv)));
        assert(view_ops(r0).len() == r0.len());
        assert(view_ops(opsv).len() == opsv.len());
        assert(prefix_ops(seg@, view_ops(opsv)).len() == view_ops(opsv).len());
        assert(r0.len() == orig.len() - 1);
        assert(rest@ == r0.insert(0, op2));
        assert forall|j: int| 0 <= j < rest@.len() implies #[trigger] view_ops(rest@)[j]
            == prefix_ops(seg@, view_ops(orig))[j] by {
            assert(view_ops(orig)[j] == orig[j]@);
            assert(prefix_ops(seg@, view_ops(orig))[j] == prefix_op(seg@, orig[j]@));
            if j == 0 {
                assert(rest@[0] == op2);
                assert(view_ops(rest@)[0] == op2@);
            } else {
                assert(rest@[j] == r0[j - 1]);
                assert(view_ops(rest@)[j] == r0[j - 1]@);
                assert(view_ops(r0)[j - 1] == prefix_ops(seg@, view_ops(opsv))[j - 1]);
                assert(view_ops(opsv)[j - 1] == opsv[j - 1]@);
                assert(prefix_ops(seg@, view_ops(opsv))[j - 1] == prefix_op(seg@, opsv[j - 1]@));
                assert(opsv[j - 1] == orig[j]);
            }
        }
        assert(view_ops(rest@) =~= prefix_ops(seg@, view_ops(orig)));
    }
    rest
}

fn root_replace(b: &JsonValue) -> (r: Vec<PatchOp>)
    ensures
        view_ops(r@) == seq![OpModel::Replace { path: Seq::empty(), value: b@ }],
{
    let mut ops: Vec<PatchOp> = Vec::new();
    let path: Vec<PathSegment> = Vec::new();
    proof {
        assert(view_path(path@) =~= Seq::<SegModel>::empty());
    }
    ops.push(PatchOp::Replace { path, value: crate::value::clone_value(b) });
    proof {
        assert(view_ops(ops@) =~= seq![OpModel::Replace { path: Seq::empty(), value: b@ }]);
    }
    ops
}

fn diff_arr(x: &Vec<JsonValue>, y: &Vec<JsonValue>) -> (r: Vec<PatchOp>)
    requires
        x@.len() == y@.len(),
    ensures
        view_ops(r@) == spec_diff_arr_to(
            JsonValue::view_arr(x@),
            JsonValue::view_arr(y@),
            x@.len() as int,
        ),
    decreases x@,
{
    let ghost vx = JsonValue::view_arr(x@);
    let ghost vy = JsonValue::view_arr(y@);
    let mut out: Vec<PatchOp> = Vec::new();
    proof {
        assert(view_ops(out@) =~= Seq::<OpModel>::empty());
    }
    let mut i: usize = 0;
    while i < x.len()
        invariant
            i <= x@.len(),
            x@.len() == y@.len(),
            vx == JsonValue::view_arr(x@),
            vy == JsonValue::view_arr(y@),
            vx.len() == x@.len(),
            vy.len() == y@.len(),
            view_ops(out@) == spec_diff_arr_to(vx, vy, i as int),
        decreases x@.len() - i,
    {
        let sub = diff(&x[i], &y[i]);
        let ghost o0 = out@;
        let mut pre = prefix_patch_ops(&PathSegment::Index(i), sub.ops);
        let ghost p0 = pre@;
        out.append(&mut pre);
        proof {
            assert(sub@ == spec_diff(vx[i as int], vy[i as int]));
            assert(out@ == o0 + p0);
            assert forall|j: int| 0 <= j < out@.len() implies #[trigger] view_ops(out@)[j] == (
            view_ops(o0) + view_ops(p0))[j] by {
                if j < o0.len() {
                    assert(out@[j] == o0[j]);
                } else {
                    assert(out@[j] == p0[j - o0.len()]);
                }
            }
            assert(view_ops(out@) =~= view_ops(o0) + view_ops(p0));
            assert(view_ops(out@) == spec_diff_arr_to(vx, vy, i as int + 1));
        }
        i += 1;
    }
    out
}

fn diff_obj(x: &Vec<(Vec<u8>, JsonValue)>, y: &Vec<(Vec<u8>, JsonValue)>) -> (r: Vec<PatchOp>)
    requires
        key_seq(JsonValue::view_obj(x@)) == key_seq(JsonValue::view_obj(y@)),
    ensures
        view_ops(r@) == spec_diff_obj_to(
            JsonValue::view_obj(x@),
            JsonValue::view_obj(y@),
            x@.len() as int,
        ),
    decreases x@,
{
    let ghost vx = JsonValue::view_obj(x@);
    let ghost vy = JsonValue::view_obj(y@);
    proof {
        assert(key_seq(vx).len() == vx.len());
        assert(key_seq(vy).len() == vy.len());
    }
    let mut out: Vec<PatchOp> = Vec::new();
    proof {
        assert(view_ops(out@) =~= Seq::<OpModel>::empty());
    }
    let mut i: usize = 0;
    while i < x.len()
        invariant
            i <= x@.len(),
            x@.len() == y@.len(),
            vx == JsonValue::view_obj(x@),
            vy == JsonValue::view_obj(y@),
            vx.len() == x@.len(),
            vy.len() == y@.len(),
            view_ops(out@) == spec_diff_obj_to(vx, vy, i as int),
        decreases x@.len() - i,
    {
        let sub = diff(&x[i].1, &y[i].1);
        let seg = PathSegment::Key(crate::value::clone_bytes(&x[i].0));
        let ghost o0 = out@;
        let mut pre = prefix_patch_ops(&seg, sub.ops);
        let ghost p0 = pre@;
        out.append(&mut pre);
        proof {
            assert(vx[i as int] == (x@[i as int].0@, x@[i as int].1@));
            assert(vy[i as int] == (y@[i as int].0@, y@[i as int].1@));
            assert(sub@ == spec_diff(vx[i as int].1, vy[i as int].1));
            assert(seg@ == SegModel::Key(vx[i as int].0));
            assert(out@ == o0 + p0);
            assert forall|j: int| 0 <= j < out@.len() implies #[trigger] view_ops(out@)[j] == (
            view_ops(o0) + view_ops(p0))[j] by {
                if j < o0.len() {
                    assert(out@[j] == o0[j]);
                } else {
                    assert(out@[j] == p0[j - o0.len()]);
                }
            }
            assert(view_ops(out@) =~= view_ops(o0) + view_ops(p0));
            assert(view_ops(out@) == spec_diff_obj_to(vx, vy, i as int + 1));
        }
        i += 1;
    }
    out
}

/// Computes the structural diff from `a` to `b`: the patch that, applied
/// to `a`, yields exactly `b`. The diff of a value against itself is empty.
pub fn diff(a: &JsonValue, b: &JsonValue) -> (p: Patch)
    ensures
        p@ == spec_diff(a@, b@),
        spec_apply_patch(a@, p@) == Some(b@),
        spec_apply_patch(b@, p@) == Some(b@),
        a@ == b@ ==> p@ == Seq::<OpModel>::empty(),
    decreases *a,
{
    proof {
        lemma_diff_ok(a@, b@);
        lemma_diff_idempotent(a@, b@);
    }
    if crate::value::eq_value(a, b) {
        let ops: Vec<PatchOp> = Vec::new();
        proof {
            assert(view_ops(ops@) =~= Seq::<OpModel>::empty());
        }
        return Patch { ops };
    }
    match (a, b) {
        (JsonValue::Arr(x), JsonValue::Arr(y)) => {
            proof {
                assert(a@ == JsonModel::Arr(JsonValue::view_arr(x@)));
                assert(b@ == JsonModel::Arr(JsonValue::view_arr(y@)));
            }
            if x.len() == y.len() {
                Patch { ops: diff_arr(x, y) }
            } else {
                Patch { ops: root_replace(b) }
            }
        },
        (JsonValue::Obj(ex), JsonValue::Obj(ey)) => {
            proof {
                assert(a@ == JsonModel::Obj(JsonValue::view_obj(ex@)));
                assert(b@ == JsonModel::Obj(JsonValue::view_obj(ey@)));
            }
            if same_keys(ex, ey) {
                if obj_keys_unique(ex) {
                    Patch { ops: diff_obj(ex, ey) }
                } else {
                    Patch { ops: root_replace(b) }
                }
            } else {
                Patch { ops: root_replace(b) }
            }
        },
        _ => Patch { ops: root_replace(b) },
    }
}

} // verus!
