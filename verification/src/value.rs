//! The JSON-like value model that snapshots are drawn from: null, booleans,
//! integers, byte strings, ordered arrays, and objects of keyed entries.

use vstd::prelude::*;

verus! {

/// Mathematical model of a snapshot value: the spec-level mirror of
/// [`JsonValue`], with sequences in place of vectors.
#[verifier::ext_equal]
pub enum JsonModel {
    Null,
    Bool(bool),
    Int(int),
    Str(Seq<u8>),
    Arr(Seq<JsonModel>),
    Obj(Seq<(Seq<u8>, JsonModel)>),
}

/// A snapshot value: the full state of a named channel at one instant.
///
/// Numbers are 64-bit integers; strings and object keys are byte strings
/// (UTF-8 by convention, but nothing here depends on that).
pub enum JsonValue {
    Null,
    Bool(bool),
    Int(i64),
    Str(Vec<u8>),
    Arr(Vec<JsonValue>),
    Obj(Vec<(Vec<u8>, JsonValue)>),
}

impl JsonValue {
    /// The mathematical value this snapshot denotes.
    pub open spec fn view(self) -> JsonModel
        decreases self,
    {
        match self {
            JsonValue::Null => JsonModel::Null,
            JsonValue::Bool(b) => JsonModel::Bool(b),
            JsonValue::Int(i) => JsonModel::Int(i as int),
            JsonValue::Str(s) => JsonModel::Str(s@),
            JsonValue::Arr(vs) => JsonModel::Arr(Self::view_arr(vs@)),
            JsonValue::Obj(es) => JsonModel::Obj(Self::view_obj(es@)),
        }
    }

    /// Model of a sequence of array elements.
    pub open spec fn view_arr(vs: Seq<JsonValue>) -> Seq<JsonModel>
        decreases vs,
    {
        if vs.len() == 0 {
            Seq::empty()
        } else {
            Self::view_arr(vs.drop_last()).push(vs.last().view())
        }
    }

    /// Model of a sequence of object entries.
    pub open spec fn view_obj(es: Seq<(Vec<u8>, JsonValue)>) -> Seq<(Seq<u8>, JsonModel)>
        decreases es,
    {
        if es.len() == 0 {
            Seq::empty()
        } else {
            Self::view_obj(es.drop_last()).push((es.last().0@, es.last().1.view()))
        }
    }
}

/// True when no two entries of an object share a key.
pub open spec fn keys_unique(es: Seq<(Seq<u8>, JsonModel)>) -> bool {
    forall|i: int, j: int| 0 <= i < j < es.len() ==> es[i].0 != es[j].0
}

/// The key sequence of an object's entries, in entry order.
pub open spec fn key_seq(es: Seq<(Seq<u8>, JsonModel)>) -> Seq<Seq<u8>> {
    es.map_values(|e: (Seq<u8>, JsonModel)| e.0)
}

pub broadcast proof fn lemma_view_arr_len(vs: Seq<JsonValue>)
    ensures
        (#[trigger] JsonValue::view_arr(vs)).len() == vs.len(),
    decreases vs,
{
    if vs.len() > 0 {
        lemma_view_arr_len(vs.drop_last());
    }
}

pub broadcast proof fn lemma_view_arr_index(vs: Seq<JsonValue>, i: int)
    requires
        0 <= i < vs.len(),
    ensures
        #[trigger] JsonValue::view_arr(vs)[i] == vs[i].view(),
    decreases vs,
{
    lemma_view_arr_len(vs);
    if i < vs.len() - 1 {
        lemma_view_arr_index(vs.drop_last(), i);
    }
}

pub broadcast proof fn lemma_view_obj_len(es: Seq<(Vec<u8>, JsonValue)>)
    ensures
        (#[trigger] JsonValue::view_obj(es)).len() == es.len(),
    decreases es,
{
    if es.len() > 0 {
        lemma_view_obj_len(es.drop_last());
    }
}

pub broadcast proof fn lemma_view_obj_index(es: Seq<(Vec<u8>, JsonValue)>, i: int)
    requires
        0 <= i < es.len(),
    ensures
        #[trigger] JsonValue::view_obj(es)[i] == (es[i].0@, es[i].1.view()),
    decreases es,
{
    lemma_view_obj_len(es);
    if i < es.len() - 1 {
        lemma_view_obj_index(es.drop_last(), i);
    }
}

/// Index of the first entry of `es` whose key is `k`, or `es.len()` if
/// no entry has that key.
pub open spec fn key_idx(es: Seq<(Seq<u8>, JsonModel)>, k: Seq<u8>) -> int
    decreases es.len(),
{
    if es.len() == 0 {
        0
    } else if es[0].0 == k {
        0
    } else {
        1 + key_idx(es.drop_first(), k)
    }
}

/// True when some entry of `es` has key `k`.
pub open spec fn has_key(es: Seq<(Seq<u8>, JsonModel)>, k: Seq<u8>) -> bool {
    key_idx(es, k) < es.len()
}

pub proof fn lemma_key_idx(es: Seq<(Seq<u8>, JsonModel)>, k: Seq<u8>)
    ensures
        0 <= key_idx(es, k) <= es.len(),
        key_idx(es, k) < es.len() ==> es[key_idx(es, k)].0 == k,
        forall|j: int| 0 <= j < key_idx(es, k) ==> (#[trigger] es[j]).0 != k,
        key_idx(es, k) == es.len() ==> forall|j: int| 0 <= j < es.len() ==> (#[trigger] es[j]).0 != k,
    decreases es.len(),
{
    if es.len() > 0 && es[0].0 != k {
        lemma_key_idx(es.drop_first(), k);
        assert forall|j: int| 1 <= j < es.len() implies (#[trigger] es[j]) == es.drop_first()[j
            - 1] by {}
    }
}

pub fn bytes_eq(a: &Vec<u8>, b: &Vec<u8>) -> (r: bool)
    ensures
        r == (a@ == b@),
{
    if a.len() != b.len() {
        return false;
    }
    let mut i: usize = 0;
    while i < a.len()
        invariant
            i <= a.len(),
            a@.len() == b@.len(),
            forall|j: int| 0 <= j < i ==> a@[j] == b@[j],
        decreases a.len() - i,
    {
        if a[i] != b[i] {
            return false;
        }
        i += 1;
    }
    proof {
        assert(a@ =~= b@);
    }
    true
}

/// Structural equality of two snapshot values, decided executably.
pub fn eq_value(a: &JsonValue, b: &JsonValue) -> (r: bool)
    ensures
        r == (a@ == b@),
    decreases *a,
{
    match (a, b) {
        (JsonValue::Null, JsonValue::Null) => true,
        (JsonValue::Bool(x), JsonValue::Bool(y)) => x == y,
        (JsonValue::Int(x), JsonValue::Int(y)) => x == y,
        (JsonValue::Str(x), JsonValue::Str(y)) => bytes_eq(x, y),
        (JsonValue::Arr(x), JsonValue::Arr(y)) => eq_arr(x, y),
        (JsonValue::Obj(x), JsonValue::Obj(y)) => eq_obj(x, y),
        _ => false,
    }
}

fn eq_arr(x: &Vec<JsonValue>, y: &Vec<JsonValue>) -> (r: bool)
    ensures
        r == (JsonValue::view_arr(x@) == JsonValue::view_arr(y@)),
    decreases x@,
{
    proof {
        lemma_view_arr_len(x@);
        lemma_view_arr_len(y@);
    }
    if x.len() != y.len() {
        return false;
    }
    let mut i: usize = 0;
    while i < x.len()
        invariant
            i <= x.len(),
            x@.len() == y@.len(),
            JsonValue::view_arr(x@).len() == x@.len(),
            JsonValue::view_arr(y@).len() == y@.len(),
            forall|j: int| 0 <= j < i ==> #[trigger] JsonValue::view_arr(x@)[j]
                == JsonValue::view_arr(y@)[j],
        decreases x.len() - i,
    {
        proof {
            lemma_view_arr_index(x@, i as int);
            lemma_view_arr_index(y@, i as int);
        }
        if !eq_value(&x[i], &y[i]) {
            return false;
        }
        i += 1;
    }
    proof {
        assert(JsonValue::view_arr(x@) =~= JsonValue::view_arr(y@));
    }
    true
}

fn eq_obj(x: &Vec<(Vec<u8>, JsonValue)>, y: &Vec<(Vec<u8>, JsonValue)>) -> (r: bool)
    ensures
        r == (JsonValue::view_obj(x@) == JsonValue::view_obj(y@)),
    decreases x@,
{
    proof {
        lemma_view_obj_len(x@);
        lemma_view_obj_len(y@);
    }
    if x.len() != y.len() {
        return false;
    }
    let mut i: usize = 0;
    while i < x.len()
        invariant
            i <= x.len(),
            x@.len() == y@.len(),
            JsonValue::view_obj(x@).len() == x@.len(),
            JsonValue::view_obj(y@).len() == y@.len(),
            forall|j: int| 0 <= j < i ==> #[trigger] JsonValue::view_obj(x@)[j]
                == JsonValue::view_obj(y@)[j],
        decreases x.len() - i,
    {
        proof {
            lemma_view_obj_index(x@, i as int);
            lemma_view_obj_index(y@, i as int);
        }
        if !bytes_eq(&x[i].0, &y[i].0) {
            return false;
        }
        if !eq_value(&x[i].1, &y[i].1) {
            return false;
        }
        i += 1;
    }
    proof {
        assert(JsonValue::view_obj(x@) =~= JsonValue::view_obj(y@));
    }
    true
}

/// A deep copy denoting the same model as the value copied.
pub fn clone_value(v: &JsonValue) -> (r: JsonValue)
    ensures
        r@ == v@,
    decreases *v,
{
    match v {
        JsonValue::Null => JsonValue::Null,
        JsonValue::Bool(b) => JsonValue::Bool(*b),
        JsonValue::Int(i) => JsonValue::Int(*i),
        JsonValue::Str(s) => JsonValue::Str(clone_bytes(s)),
        JsonValue::Arr(vs) => JsonValue::Arr(clone_arr(vs)),
        JsonValue::Obj(es) => JsonValue::Obj(clone_obj(es)),
    }
}

pub fn clone_bytes(s: &Vec<u8>) -> (r: Vec<u8>)
    ensures
        r@ == s@,
{
    let mut out: Vec<u8> = Vec::new();
    let mut i: usize = 0;
    while i < s.len()
        invariant
            i <= s.len(),
            out@ == s@.subrange(0, i as int),
        decreases s.len() - i,
    {
        out.push(s[i]);
        proof {
            assert(out@ =~= s@.subrange(0, i + 1 as int));
        }
        i += 1;
    }
    proof {
        assert(out@ =~= s@);
    }
    out
}

fn clone_arr(vs: &Vec<JsonValue>) -> (r: Vec<JsonValue>)
    ensures
        JsonValue::view_arr(r@) == JsonValue::view_arr(vs@),
    decreases vs@,
{
    proof {
        lemma_view_arr_len(vs@);
    }
    let mut out: Vec<JsonValue> = Vec::new();
    let mut i: usize = 0;
    while i < vs.len()
        invariant
            i <= vs.len(),
            out@.len() == i,
            forall|j: int| 0 <= j < i ==> (#[trigger] out@[j])@ == vs@[j]@,
        decreases vs.len() - i,
    {
        out.push(clone_value(&vs[i]));
        i += 1;
    }
    proof {
        lemma_view_arr_len(out@);
        assert forall|j: int| 0 <= j < vs@.len() implies #[trigger] JsonValue::view_arr(out@)[j]
            == JsonValue::view_arr(vs@)[j] by {
            lemma_view_arr_index(out@, j);
            lemma_view_arr_index(vs@, j);
        }
        assert(JsonValue::view_arr(out@) =~= JsonValue::view_arr(vs@));
    }
    out
}

fn clone_obj(es: &Vec<(Vec<u8>, JsonValue)>) -> (r: Vec<(Vec<u8>, JsonValue)>)
    ensures
        JsonValue::view_obj(r@) == JsonValue::view_obj(es@),
    decreases es@,
{
    proof {
        lemma_view_obj_len(es@);
    }
    let mut out: Vec<(Vec<u8>, JsonValue)> = Vec::new();
    let mut i: usize = 0;
    while i < es.len()
        invariant
            i <= es.len(),
            out@.len() == i,
            forall|j: int| 0 <= j < i ==> (#[trigger] out@[j]).0@ == es@[j].0@
                && out@[j].1@ == es@[j].1@,
        decreases es.len() - i,
    {
        let key = clone_bytes(&es[i].0);
        let val = clone_value(&es[i].1);
        out.push((key, val));
        i += 1;
    }
    proof {
        lemma_view_obj_len(out@);
        assert forall|j: int| 0 <= j < es@.len() implies #[trigger] JsonValue::view_obj(out@)[j]
            == JsonValue::view_obj(es@)[j] by {
            lemma_view_obj_index(out@, j);
            lemma_view_obj_index(es@, j);
        }
        assert(JsonValue::view_obj(out@) =~= JsonValue::view_obj(es@));
    }
    out
}

/// Looks up the entry with key `k`, returning its index.
pub fn find_key(es: &Vec<(Vec<u8>, JsonValue)>, k: &Vec<u8>) -> (r: Option<usize>)
    ensures
        match r {
            Some(i) => has_key(JsonValue::view_obj(es@), k@)
                && i == key_idx(JsonValue::view_obj(es@), k@),
            None => !has_key(JsonValue::view_obj(es@), k@),
        },
{
    proof {
        lemma_view_obj_len(es@);
    }
    let mut i: usize = 0;
    while i < es.len()
        invariant
            i <= es.len(),
            JsonValue::view_obj(es@).len() == es@.len(),
            forall|j: int| 0 <= j < i ==> (#[trigger] JsonValue::view_obj(es@)[j]).0 != k@,
        decreases es.len() - i,
    {
        proof {
            lemma_view_obj_index(es@, i as int);
        }
        if bytes_eq(&es[i].0, k) {
            proof {
                let v = JsonValue::view_obj(es@);
                let ki = key_idx(v, k@);
                lemma_key_idx(v, k@);
                assert(v[i as int].0 == k@);
                if ki < i as int {
                    assert(v[ki].0 != k@);
                } else if ki > i as int {
                    assert(v[i as int].0 != k@);
                }
            }
            return Some(i);
        }
        i += 1;
    }
    proof {
        let v = JsonValue::view_obj(es@);
        lemma_key_idx(v, k@);
        if key_idx(v, k@) < v.len() {
            assert(v[key_idx(v, k@)].0 != k@);
        }
    }
    None
}

} // verus!
