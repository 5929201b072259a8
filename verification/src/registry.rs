//! The client-side registry: maps channel names to local replicas, applies
//! incoming updates to them, and buffers updates that arrive before their
//! channel registers in a delayed-update queue, drained in arrival order at
//! registration.

use vstd::prelude::*;

use crate::codec::spec_dec_envelope;
use crate::envelope::ServerSignalUpdate;
use crate::patch::ApplyError;
use crate::patch::OpModel;
use crate::patch::Patch;
use crate::patch::apply_patch;
use crate::patch::spec_apply_patch;
use crate::patch::spec_apply_patches;
use crate::value::JsonModel;
use crate::value::JsonValue;
use crate::value::bytes_eq;
use crate::value::clone_value;

verus! {

broadcast use
    crate::value::lemma_view_arr_len,
    crate::value::lemma_view_arr_index,
    crate::value::lemma_view_obj_len,
    crate::value::lemma_view_obj_index,
;

/// First index of an entry with key `k`, or `es.len()` when no entry has
/// that key.
pub open spec fn assoc_idx<V>(es: Seq<(Seq<u8>, V)>, k: Seq<u8>) -> int
    decreases es.len(),
{
    if es.len() == 0 {
        0
    } else if es[0].0 == k {
        0
    } else {
        1 + assoc_idx(es.drop_first(), k)
    }
}

/// True when some entry has key `k`.
pub open spec fn assoc_has<V>(es: Seq<(Seq<u8>, V)>, k: Seq<u8>) -> bool {
    assoc_idx(es, k) < es.len()
}

/// True when no two entries share a key.
pub open spec fn distinct_keys<V>(es: Seq<(Seq<u8>, V)>) -> bool {
    forall|i: int, j: int| 0 <= i < j < es.len() ==> (#[trigger] es[i]).0 != (#[trigger] es[j]).0
}

/// The mapping an association list denotes; the first entry of a key wins.
pub open spec fn map_of<V>(es: Seq<(Seq<u8>, V)>) -> Map<Seq<u8>, V>
    decreases es.len(),
{
    if es.len() == 0 {
        Map::empty()
    } else {
        map_of(es.drop_first()).insert(es[0].0, es[0].1)
    }
}

pub proof fn lemma_assoc_idx<V>(es: Seq<(Seq<u8>, V)>, k: Seq<u8>)
    ensures
        0 <= assoc_idx(es, k) <= es.len(),
        assoc_idx(es, k) < es.len() ==> es[assoc_idx(es, k)].0 == k,
        forall|j: int| 0 <= j < assoc_idx(es, k) ==> (#[trigger] es[j]).0 != k,
        assoc_idx(es, k) == es.len() ==> forall|j: int| 0 <= j < es.len() ==> (#[trigger] es[j]).0
            != k,
    decreases es.len(),
{
    if es.len() > 0 && es[0].0 != k {
        lemma_assoc_idx(es.drop_first(), k);
        assert forall|j: int| 1 <= j < es.len() implies (#[trigger] es[j]) == es.drop_first()[j
            - 1] by {}
    }
}

pub proof fn lemma_map_of_contains<V>(es: Seq<(Seq<u8>, V)>, k: Seq<u8>)
    ensures
        map_of(es).contains_key(k) <==> assoc_has(es, k),
        assoc_has(es, k) ==> map_of(es)[k] == es[assoc_idx(es, k)].1,
    decreases es.len(),
{
    if es.len() > 0 {
        lemma_map_of_contains(es.drop_first(), k);
        lemma_assoc_idx(es, k);
        lemma_assoc_idx(es.drop_first(), k);
        if es[0].0 != k {
            assert(assoc_idx(es, k) == 1 + assoc_idx(es.drop_first(), k));
            if assoc_has(es.drop_first(), k) {
                assert(es.drop_first()[assoc_idx(es.drop_first(), k)] == es[assoc_idx(es, k)]);
            }
        }
    }
}

proof fn lemma_map_of_update<V>(es: Seq<(Seq<u8>, V)>, i: int, k: Seq<u8>, v: V)
    requires
        0 <= i < es.len(),
        es[i].0 == k,
        forall|j: int| 0 <= j < i ==> (#[trigger] es[j]).0 != k,
    ensures
        map_of(es.update(i, (k, v))) == map_of(es).insert(k, v),
    decreases es.len(),
{
    let es2 = es.update(i, (k, v));
    if i == 0 {
        assert(es2.drop_first() =~= es.drop_first());
        assert(map_of(es2) == map_of(es.drop_first()).insert(k, v));
        assert(map_of(es.drop_first()).insert(k, es[0].1).insert(k, v) =~= map_of(
            es.drop_first(),
        ).insert(k, v));
    } else {
        assert(es2.drop_first() =~= es.drop_first().update(i - 1, (k, v)));
        assert forall|j: int| 0 <= j < i - 1 implies (#[trigger] es.drop_first()[j]).0 != k by {
            assert(es.drop_first()[j] == es[j + 1]);
        }
        assert(es.drop_first()[i - 1] == es[i]);
        lemma_map_of_update(es.drop_first(), i - 1, k, v);
        assert(es2[0] == es[0]);
        assert(map_of(es2) == map_of(es.drop_first()).insert(k, v).insert(es[0].0, es[0].1));
        assert(es[0].0 != k);
        assert(map_of(es.drop_first()).insert(k, v).insert(es[0].0, es[0].1) =~= map_of(
            es.drop_first(),
        ).insert(es[0].0, es[0].1).insert(k, v));
    }
}

proof fn lemma_map_of_remove<V>(es: Seq<(Seq<u8>, V)>, i: int)
    requires
        0 <= i < es.len(),
        distinct_keys(es),
    ensures
        map_of(es.remove(i)) == map_of(es).remove(es[i].0),
    decreases es.len(),
{
    let k = es[i].0;
    if i == 0 {
        assert(es.remove(0) =~= es.drop_first());
        lemma_assoc_idx(es.drop_first(), k);
        assert forall|j: int| 0 <= j < es.drop_first().len() implies (
        #[trigger] es.drop_first()[j]).0 != k by {
            assert(es.drop_first()[j] == es[j + 1]);
        }
        lemma_map_of_contains(es.drop_first(), k);
        assert(!map_of(es.drop_first()).contains_key(k));
        assert(map_of(es.drop_first()).insert(k, es[0].1).remove(k) =~= map_of(es.drop_first()));
    } else {
        assert(es.remove(i).drop_first() =~= es.drop_first().remove(i - 1));
        assert forall|a: int, b: int| 0 <= a < b < es.drop_first().len() implies (
        #[trigger] es.drop_first()[a]).0 != (#[trigger] es.drop_first()[b]).0 by {
            assert(es.drop_first()[a] == es[a + 1]);
            assert(es.drop_first()[b] == es[b + 1]);
        }
        assert(es.drop_first()[i - 1] == es[i]);
        lemma_map_of_remove(es.drop_first(), i - 1);
        assert(es.remove(i)[0] == es[0]);
        assert(map_of(es.remove(i)) == map_of(es.drop_first()).remove(k).insert(
            es[0].0,
            es[0].1,
        ));
        assert(es[0].0 != k);
        assert(map_of(es.drop_first()).remove(k).insert(es[0].0, es[0].1) =~= map_of(
            es.drop_first(),
        ).insert(es[0].0, es[0].1).remove(k));
    }
}

proof fn lemma_map_of_push<V>(es: Seq<(Seq<u8>, V)>, k: Seq<u8>, v: V)
    requires
        !assoc_has(es, k),
    ensures
        map_of(es.push((k, v))) == map_of(es).insert(k, v),
    decreases es.len(),
{
    lemma_assoc_idx(es, k);
    if es.len() == 0 {
        assert(es.push((k, v)).drop_first() =~= Seq::<(Seq<u8>, V)>::empty());
        reveal_with_fuel(map_of, 2);
        assert(map_of(es.push((k, v))) =~= map_of(es).insert(k, v));
    } else {
        assert(es.push((k, v))[0] == es[0]);
        assert(es.push((k, v)).drop_first() =~= es.drop_first().push((k, v)));
        assert(es[0].0 != k);
        assert(assoc_idx(es, k) == 1 + assoc_idx(es.drop_first(), k));
        lemma_map_of_push(es.drop_first(), k, v);
        assert(map_of(es.push((k, v))) == map_of(es.drop_first()).insert(k, v).insert(
            es[0].0,
            es[0].1,
        ));
        assert(map_of(es.drop_first()).insert(k, v).insert(es[0].0, es[0].1) =~= map_of(
            es.drop_first(),
        ).insert(es[0].0, es[0].1).insert(k, v));
    }
}

proof fn lemma_distinct_after_update<V>(es: Seq<(Seq<u8>, V)>, i: int, k: Seq<u8>, v: V)
    requires
        distinct_keys(es),
        0 <= i < es.len(),
        es[i].0 == k,
    ensures
        distinct_keys(es.update(i, (k, v))),
{
    let es2 = es.update(i, (k, v));
    assert forall|a: int, b: int| 0 <= a < b < es2.len() implies (#[trigger] es2[a]).0 != (
    #[trigger] es2[b]).0 by {
        assert(es[a].0 == es2[a].0);
        assert(es[b].0 == es2[b].0);
    }
}

proof fn lemma_distinct_after_remove<V>(es: Seq<(Seq<u8>, V)>, i: int)
    requires
        distinct_keys(es),
        0 <= i < es.len(),
    ensures
        distinct_keys(es.remove(i)),
{
    let es2 = es.remove(i);
    assert forall|a: int, b: int| 0 <= a < b < es2.len() implies (#[trigger] es2[a]).0 != (
    #[trigger] es2[b]).0 by {
        if b < i {
            assert(es2[a] == es[a]);
            assert(es2[b] == es[b]);
        } else if a < i {
            assert(es2[a] == es[a]);
            assert(es2[b] == es[b + 1]);
        } else {
            assert(es2[a] == es[a + 1]);
            assert(es2[b] == es[b + 1]);
        }
    }
}

proof fn lemma_distinct_after_push<V>(es: Seq<(Seq<u8>, V)>, k: Seq<u8>, v: V)
    requires
        distinct_keys(es),
        !assoc_has(es, k),
    ensures
        distinct_keys(es.push((k, v))),
{
    lemma_assoc_idx(es, k);
    let es2 = es.push((k, v));
    assert forall|a: int, b: int| 0 <= a < b < es2.len() implies (#[trigger] es2[a]).0 != (
    #[trigger] es2[b]).0 by {
        if b < es.len() {
            assert(es2[a] == es[a]);
            assert(es2[b] == es[b]);
        } else {
            assert(es2[b].0 == k);
            assert(es2[a] == es[a]);
            assert(es[a].0 != k);
        }
    }
}

/// Model of a sequence of patches.
pub open spec fn view_patches(ps: Seq<Patch>) -> Seq<Seq<OpModel>> {
    ps.map_values(|p: Patch| p@)
}

/// Model of the delayed-update queue's entries.
pub open spec fn view_delayed(d: Seq<(Vec<u8>, Vec<Patch>)>) -> Seq<(Seq<u8>, Seq<Seq<OpModel>>)> {
    d.map_values(|e: (Vec<u8>, Vec<Patch>)| (e.0@, view_patches(e.1@)))
}

/// The outcome of handling one inbound envelope.
#[derive(Debug, PartialEq, Eq, Structural)]
pub enum EnvelopeOutcome {
    /// The envelope's diff was applied to a registered replica.
    Applied,
    /// No replica is registered under the envelope's name yet; the diff was
    /// queued. A normal, transient condition — not an error.
    Queued,
    /// The bytes were not a well-formed envelope; the message was dropped
    /// and nothing changed.
    DecodeFailed,
    /// The diff did not apply to the registered replica; nothing changed.
    ApplyFailed,
}

/// The client-side registry for one connection's lifetime.
pub struct ClientRegistry {
    pub replicas: Vec<(Vec<u8>, JsonValue)>,
    pub delayed: Vec<(Vec<u8>, Vec<Patch>)>,
}

impl ClientRegistry {
    pub open spec fn replica_entries(self) -> Seq<(Seq<u8>, JsonModel)> {
        JsonValue::view_obj(self.replicas@)
    }

    pub open spec fn delayed_entries(self) -> Seq<(Seq<u8>, Seq<Seq<OpModel>>)> {
        view_delayed(self.delayed@)
    }

    /// The registered replicas, as a map from channel name to value.
    pub open spec fn replicas_map(self) -> Map<Seq<u8>, JsonModel> {
        map_of(self.replica_entries())
    }

    /// The delayed-update queue, as a map from channel name to the queued
    /// patches in arrival order.
    pub open spec fn delayed_map(self) -> Map<Seq<u8>, Seq<Seq<OpModel>>> {
        map_of(self.delayed_entries())
    }

    /// No channel name occurs twice in either table.
    pub open spec fn wf(self) -> bool {
        distinct_keys(self.replica_entries()) && distinct_keys(self.delayed_entries())
    }

    /// The patches queued for `name`, in arrival order; empty when none.
    pub open spec fn queued(self, name: Seq<u8>) -> Seq<Seq<OpModel>> {
        if self.delayed_map().contains_key(name) {
            self.delayed_map()[name]
        } else {
            Seq::empty()
        }
    }

    /// An empty registry: no replicas, nothing queued.
    pub fn new() -> (r: Self)
        ensures
            r.wf(),
            r.replicas_map() == Map::<Seq<u8>, JsonModel>::empty(),
            r.delayed_map() == Map::<Seq<u8>, Seq<Seq<OpModel>>>::empty(),
    {
        let r = ClientRegistry { replicas: Vec::new(), delayed: Vec::new() };
        proof {
            assert(r.replica_entries() =~= Seq::<(Seq<u8>, JsonModel)>::empty());
            assert(r.delayed_entries() =~= Seq::<(Seq<u8>, Seq<Seq<OpModel>>)>::empty());
        }
        r
    }

    /// The registered replica for `name`, if any.
    pub fn current_value(&self, name: &Vec<u8>) -> (r: Option<&JsonValue>)
        ensures
            match r {
                Some(v) => self.replicas_map().contains_key(name@) && v@
                    == self.replicas_map().index(name@),
                None => !self.replicas_map().contains_key(name@),
            },
    {
        proof {
            lemma_map_of_contains(self.replica_entries(), name@);
        }
        match find_replica(&self.replicas, name) {
            Some(i) => Some(&self.replicas[i].1),
            None => None,
        }
    }
}

fn find_replica(replicas: &Vec<(Vec<u8>, JsonValue)>, k: &Vec<u8>) -> (r: Option<usize>)
    ensures
        ({
            let es = JsonValue::view_obj(replicas@);
            match r {
                Some(i) => assoc_has(es, k@) && i == assoc_idx(es, k@),
                None => !assoc_has(es, k@),
            }
        }),
{
    let ghost es = JsonValue::view_obj(replicas@);
    let mut i: usize = 0;
    while i < replicas.len()
        invariant
            i <= replicas@.len(),
            es == JsonValue::view_obj(replicas@),
            es.len() == replicas@.len(),
            forall|j: int| 0 <= j < i ==> (#[trigger] es[j]).0 != k@,
        decreases replicas@.len() - i,
    {
        if bytes_eq(&replicas[i].0, k) {
            proof {
                lemma_assoc_idx(es, k@);
                assert(es[i as int].0 == k@);
                if assoc_idx(es, k@) < i as int {
                    assert(es[assoc_idx(es, k@)].0 != k@);
                } else if assoc_idx(es, k@) > i as int {
                    assert(es[i as int].0 != k@);
                }
            }
            return Some(i);
        }
        i += 1;
    }
    proof {
        lemma_assoc_idx(es, k@);
        if assoc_idx(es, k@) < es.len() {
            assert(es[assoc_idx(es, k@)].0 != k@);
        }
    }
    None
}

fn find_delayed(delayed: &Vec<(Vec<u8>, Vec<Patch>)>, k: &Vec<u8>) -> (r: Option<usize>)
    ensures
        ({
            let es = view_delayed(delayed@);
            match r {
                Some(i) => assoc_has(es, k@) && i == assoc_idx(es, k@),
                None => !assoc_has(es, k@),
            }
        }),
{
    let ghost es = view_delayed(delayed@);
    let mut i: usize = 0;
    while i < delayed.len()
        invariant
            i <= delayed@.len(),
            es == view_delayed(delayed@),
            es.len() == delayed@.len(),
            forall|j: int| 0 <= j < i ==> (#[trigger] es[j]).0 != k@,
        decreases delayed@.len() - i,
    {
        proof {
            assert(es[i as int].0 == delayed@[i as int].0@);
        }
        if bytes_eq(&delayed[i].0, k) {
            proof {
                lemma_assoc_idx(es, k@);
                if assoc_idx(es, k@) < i as int {
                    assert(es[assoc_idx(es, k@)].0 != k@);
                } else if assoc_idx(es, k@) > i as int {
                    assert(es[i as int].0 != k@);
                }
            }
            return Some(i);
        }
        i += 1;
    }
    proof {
        lemma_assoc_idx(es, k@);
        if assoc_idx(es, k@) < es.len() {
            assert(es[assoc_idx(es, k@)].0 != k@);
        }
    }
    None
}

impl ClientRegistry {
    /// Registers a replica under `name`. On a first registration, the
    /// replica is inserted and any diffs queued for `name` are atomically
    /// drained and applied to `initial`, in arrival order; if one of them
    /// fails to apply, nothing is registered or drained. Registering over
    /// an already-registered name replaces the replica with `initial` and
    /// discards any queued diffs unapplied: they were produced against a
    /// replica that no longer exists, so they would not fit the fresh one.
    pub fn register(&mut self, name: Vec<u8>, initial: JsonValue) -> (r: Result<(), ApplyError>)
        requires
            old(self).wf(),
        ensures
            final(self).wf(),
            match r {
                Ok(_) => {
                    &&& old(self).replicas_map().contains_key(name@)
                        ==> final(self).replicas_map() == old(self).replicas_map().insert(
                        name@,
                        initial@,
                    )
                    &&& !old(self).replicas_map().contains_key(name@) ==> (spec_apply_patches(
                        initial@,
                        old(self).queued(name@),
                    ) matches Some(m) && final(self).replicas_map()
                        == old(self).replicas_map().insert(name@, m))
                    &&& final(self).delayed_map() == old(self).delayed_map().remove(name@)
                },
                Err(_) => {
                    &&& !old(self).replicas_map().contains_key(name@)
                    &&& spec_apply_patches(initial@, old(self).queued(name@)) is None
                    &&& final(self).replicas_map() == old(self).replicas_map()
                    &&& final(self).delayed_map() == old(self).delayed_map()
                },
            },
    {
        let ghost ed0 = self.delayed_entries();
        let ghost er0 = self.replica_entries();
        proof {
            lemma_map_of_contains(er0, name@);
            lemma_map_of_contains(ed0, name@);
        }
        if let Some(j) = find_replica(&self.replicas, &name) {
            // re-registration: replace the replica, discard stale queued diffs
            proof {
                lemma_assoc_idx(er0, name@);
            }
            let ghost r0 = self.replicas@;
            let entry = self.replicas.remove(j);
            self.replicas.insert(j, (entry.0, initial));
            proof {
                assert(self.replicas@ =~= r0.update(j as int, (entry.0, initial)));
                assert forall|x: int|
                    0 <= x < self.replica_entries().len() implies #[trigger] self.replica_entries()[x]
                    == er0.update(j as int, (name@, initial@))[x] by {
                    if x != j as int {
                        assert(self.replicas@[x] == r0[x]);
                    }
                }
                assert(self.replica_entries() =~= er0.update(j as int, (name@, initial@)));
                lemma_map_of_update(er0, j as int, name@, initial@);
                lemma_distinct_after_update(er0, j as int, name@, initial@);
            }
            if let Some(i) = find_delayed(&self.delayed, &name) {
                proof {
                    lemma_assoc_idx(ed0, name@);
                }
                let ghost d0 = self.delayed@;
                let _ = self.delayed.remove(i);
                proof {
                    assert forall|j2: int|
                        0 <= j2 < self.delayed@.len() implies #[trigger] view_delayed(
                        self.delayed@,
                    )[j2] == view_delayed(d0).remove(i as int)[j2] by {
                        if j2 < i as int {
                            assert(self.delayed@[j2] == d0[j2]);
                        } else {
                            assert(self.delayed@[j2] == d0[j2 + 1]);
                        }
                    }
                    assert(view_delayed(self.delayed@) =~= view_delayed(d0).remove(i as int));
                    lemma_map_of_remove(ed0, i as int);
                    lemma_distinct_after_remove(ed0, i as int);
                }
            } else {
                proof {
                    assert(map_of(ed0).remove(name@) =~= map_of(ed0));
                }
            }
            return Ok(());
        }
        // first registration: drain and apply the queued diffs
        let qi = find_delayed(&self.delayed, &name);
        proof {
            if qi is Some {
                lemma_assoc_idx(ed0, name@);
                assert(old(self).queued(name@) == ed0[qi->0 as int].1);
                assert(ed0[qi->0 as int].1 == view_patches(self.delayed@[qi->0 as int].1@));
            }
        }
        let drained: Result<JsonValue, ApplyError> = match qi {
            Some(i) => {
                proof {
                    assert(view_patches(self.delayed@[i as int].1@).skip(0) =~= view_patches(
                        self.delayed@[i as int].1@,
                    ));
                }
                apply_all_from(initial, &self.delayed[i].1, 0)
            },
            None => Ok(initial),
        };
        let v = match drained {
            Ok(v) => v,
            Err(e) => {
                return Err(e);
            },
        };
        // drop the drained queue entry
        if let Some(i) = qi {
            let ghost d0 = self.delayed@;
            let _ = self.delayed.remove(i);
            proof {
                assert forall|j: int| 0 <= j < self.delayed@.len() implies #[trigger] view_delayed(
                    self.delayed@,
                )[j] == view_delayed(d0).remove(i as int)[j] by {
                    if j < i as int {
                        assert(self.delayed@[j] == d0[j]);
                    } else {
                        assert(self.delayed@[j] == d0[j + 1]);
                    }
                }
                assert(view_delayed(self.delayed@) =~= view_delayed(d0).remove(i as int));
                lemma_map_of_remove(ed0, i as int);
                lemma_distinct_after_remove(ed0, i as int);
            }
        } else {
            proof {
                assert(map_of(ed0).remove(name@) =~= map_of(ed0));
            }
        }
        // install the fresh replica
        let ghost r0 = self.replicas@;
        let ghost nv = name@;
        self.replicas.push((name, v));
        proof {
            assert forall|x: int|
                0 <= x < self.replica_entries().len() implies #[trigger] self.replica_entries()[x]
                == er0.push((nv, v@))[x] by {
                if x < r0.len() {
                    assert(self.replicas@[x] == r0[x]);
                } else {
                    assert(self.replicas@[x] == (name, v));
                }
            }
            assert(self.replica_entries() =~= er0.push((nv, v@)));
            lemma_map_of_push(er0, nv, v@);
            lemma_distinct_after_push(er0, nv, v@);
        }
        Ok(())
    }
}

impl ClientRegistry {
    /// Handles one inbound message. A malformed message is dropped without
    /// effect; a well-formed envelope is applied to the registered replica
    /// of its channel, or queued in arrival order when that channel has not
    /// registered yet; a diff that does not apply leaves everything
    /// unchanged.
    pub fn on_envelope(&mut self, bytes: &Vec<u8>) -> (r: EnvelopeOutcome)
        requires
            old(self).wf(),
        ensures
            final(self).wf(),
            match r {
                EnvelopeOutcome::DecodeFailed => {
                    &&& spec_dec_envelope(bytes@) is None
                    &&& final(self).replicas_map() == old(self).replicas_map()
                    &&& final(self).delayed_map() == old(self).delayed_map()
                },
                EnvelopeOutcome::Applied => {
                    &&& spec_dec_envelope(bytes@) matches Some(env) && {
                        &&& old(self).replicas_map().contains_key(env.0)
                        &&& spec_apply_patch(old(self).replicas_map().index(env.0), env.1)
                            matches Some(m2) && final(self).replicas_map() == old(
                            self,
                        ).replicas_map().insert(env.0, m2)
                    }
                    &&& final(self).delayed_map() == old(self).delayed_map()
                },
                EnvelopeOutcome::ApplyFailed => {
                    &&& spec_dec_envelope(bytes@) matches Some(env) && {
                        &&& old(self).replicas_map().contains_key(env.0)
                        &&& spec_apply_patch(old(self).replicas_map().index(env.0), env.1) is None
                    }
                    &&& final(self).replicas_map() == old(self).replicas_map()
                    &&& final(self).delayed_map() == old(self).delayed_map()
                },
                EnvelopeOutcome::Queued => {
                    &&& spec_dec_envelope(bytes@) matches Some(env) && {
                        &&& !old(self).replicas_map().contains_key(env.0)
                        &&& final(self).delayed_map() == old(self).delayed_map().insert(
                            env.0,
                            old(self).queued(env.0).push(env.1),
                        )
                    }
                    &&& final(self).replicas_map() == old(self).replicas_map()
                },
            },
    {
        let update = match ServerSignalUpdate::decode(bytes) {
            Ok(u) => u,
            Err(_) => {
                return EnvelopeOutcome::DecodeFailed;
            },
        };
        let ghost uname = update.name@;
        let ghost uops = update.patch@;
        let ghost er0 = self.replica_entries();
        let ghost ed0 = self.delayed_entries();
        proof {
            lemma_map_of_contains(er0, uname);
            lemma_map_of_contains(ed0, uname);
        }
        match find_replica(&self.replicas, &update.name) {
            Some(i) => {
                proof {
                    lemma_assoc_idx(er0, uname);
                    assert(self.replicas_map().index(uname) == er0[i as int].1);
                    assert(er0[i as int].1 == self.replicas@[i as int].1@);
                }
                let cur = clone_value(&self.replicas[i].1);
                match apply_patch(cur, &update.patch) {
                    Ok(v2) => {
                        let ghost r0 = self.replicas@;
                        let entry = self.replicas.remove(i);
                        self.replicas.insert(i, (entry.0, v2));
                        proof {
                            assert(self.replicas@ =~= r0.update(i as int, (entry.0, v2)));
                            assert forall|x: int|
                                0 <= x < self.replica_entries().len() implies #[trigger] self.replica_entries()[x]
                                == er0.update(i as int, (uname, v2@))[x] by {
                                if x != i as int {
                                    assert(self.replicas@[x] == r0[x]);
                                }
                            }
                            assert(self.replica_entries() =~= er0.update(i as int, (uname, v2@)));
                            lemma_map_of_update(er0, i as int, uname, v2@);
                            lemma_distinct_after_update(er0, i as int, uname, v2@);
                        }
                        EnvelopeOutcome::Applied
                    },
                    Err(_) => EnvelopeOutcome::ApplyFailed,
                }
            },
            None => {
                match find_delayed(&self.delayed, &update.name) {
                    Some(j) => {
                        proof {
                            lemma_assoc_idx(ed0, uname);
                            assert(old(self).queued(uname) == ed0[j as int].1);
                            assert(ed0[j as int].1 == view_patches(self.delayed@[j as int].1@));
                        }
                        let ghost d0 = self.delayed@;
                        let mut entry = self.delayed.remove(j);
                        let ghost ps0 = entry.1@;
                        entry.1.push(update.patch);
                        self.delayed.insert(j, entry);
                        proof {
                            assert(view_patches(ps0.push(update.patch)) =~= view_patches(
                                ps0,
                            ).push(uops));
                            assert forall|x: int|
                                0 <= x < self.delayed_entries().len() implies #[trigger] self.delayed_entries()[x]
                                == ed0.update(j as int, (uname, view_patches(ps0).push(uops)))[x] by {
                                if x != j as int {
                                    assert(self.delayed@[x] == d0[x]);
                                }
                            }
                            assert(self.delayed_entries() =~= ed0.update(
                                j as int,
                                (uname, view_patches(ps0).push(uops)),
                            ));
                            lemma_map_of_update(
                                ed0,
                                j as int,
                                uname,
                                view_patches(ps0).push(uops),
                            );
                            lemma_distinct_after_update(
                                ed0,
                                j as int,
                                uname,
                                view_patches(ps0).push(uops),
                            );
                        }
                        EnvelopeOutcome::Queued
                    },
                    None => {
                        let ghost d0 = self.delayed@;
                        let mut ps: Vec<Patch> = Vec::new();
                        ps.push(update.patch);
                        proof {
                            assert(view_patches(ps@) =~= Seq::<Seq<OpModel>>::empty().push(uops));
                        }
                        let ghost psv = view_patches(ps@);
                        self.delayed.push((update.name, ps));
                        proof {
                            assert forall|x: int|
                                0 <= x < self.delayed_entries().len() implies #[trigger] self.delayed_entries()[x]
                                == ed0.push((uname, psv))[x] by {
                                if x < d0.len() {
                                    assert(self.delayed@[x] == d0[x]);
                                }
                            }
                            assert(self.delayed_entries() =~= ed0.push((uname, psv)));
                            lemma_map_of_push(ed0, uname, psv);
                            lemma_distinct_after_push(ed0, uname, psv);
                            assert(old(self).queued(uname) =~= Seq::<Seq<OpModel>>::empty());
                        }
                        EnvelopeOutcome::Queued
                    },
                }
            },
        }
    }
}

fn apply_all_from(doc: JsonValue, ps: &Vec<Patch>, pos: usize) -> (r: Result<JsonValue, ApplyError>)
    requires
        pos <= ps@.len(),
    ensures
        match r {
            Ok(d) => spec_apply_patches(doc@, view_patches(ps@).skip(pos as int)) == Some(d@),
            Err(_) => spec_apply_patches(doc@, view_patches(ps@).skip(pos as int)) is None,
        },
    decreases ps@.len() - pos,
{
    proof {
        assert(view_patches(ps@).len() == ps@.len());
    }
    if pos == ps.len() {
        proof {
            assert(view_patches(ps@).skip(pos as int) =~= Seq::<Seq<OpModel>>::empty());
        }
        return Ok(doc);
    }
    proof {
        assert(view_patches(ps@).skip(pos as int)[0] == view_patches(ps@)[pos as int]);
        assert(view_patches(ps@)[pos as int] == ps@[pos as int]@);
        assert(view_patches(ps@).skip(pos as int).drop_first() =~= view_patches(ps@).skip(
            pos as int + 1,
        ));
    }
    match apply_patch(doc, &ps[pos]) {
        Ok(d) => apply_all_from(d, ps, pos + 1),
        Err(e) => Err(e),
    }
}

} // verus!