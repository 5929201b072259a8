//! Tests of the synchronization protocol: diff round trips, mutation
//! ordering, the delayed-update queue, and reconnection.

use server_signal::channel::Error;
use server_signal::channel::ServerSignal;
use server_signal::client::ClientAction;
use server_signal::client::SignalClient;
use server_signal::patch::apply_op;
use server_signal::patch::apply_patch;
use server_signal::patch::diff;
use server_signal::patch::Patch;
use server_signal::patch::PatchOp;
use server_signal::patch::PathSegment;
use server_signal::registry::ClientRegistry;
use server_signal::registry::EnvelopeOutcome;
use server_signal::envelope::ServerSignalUpdate;
use server_signal::value::clone_value;
use server_signal::value::eq_value;
use server_signal::value::JsonValue;

fn counter(v: i64) -> JsonValue {
    JsonValue::Obj(vec![(b"value".to_vec(), JsonValue::Int(v))])
}

fn nested(v: i64, tag: &[u8]) -> JsonValue {
    JsonValue::Obj(vec![
        (b"inner".to_vec(), counter(v)),
        (b"tag".to_vec(), JsonValue::Str(tag.to_vec())),
        (
            b"list".to_vec(),
            JsonValue::Arr(vec![JsonValue::Int(v), JsonValue::Bool(v % 2 == 0)]),
        ),
    ])
}

#[test]
fn diff_apply_round_trip() {
    let cases = vec![
        (counter(0), counter(3)),
        (nested(1, b"a"), nested(2, b"b")),
        (JsonValue::Null, counter(5)),
        (JsonValue::Int(1), JsonValue::Str(b"one".to_vec())),
        (
            JsonValue::Arr(vec![JsonValue::Int(1), JsonValue::Int(2)]),
            JsonValue::Arr(vec![JsonValue::Int(1), JsonValue::Int(9)]),
        ),
        (
            // different lengths fall back to a root replacement
            JsonValue::Arr(vec![JsonValue::Int(1)]),
            JsonValue::Arr(vec![JsonValue::Int(1), JsonValue::Int(2)]),
        ),
        (
            // different key sets fall back to a root replacement
            JsonValue::Obj(vec![(b"a".to_vec(), JsonValue::Int(1))]),
            JsonValue::Obj(vec![(b"b".to_vec(), JsonValue::Int(1))]),
        ),
    ];
    for (a, b) in cases {
        let p = diff(&a, &b);
        let r = apply_patch(a, &p).unwrap();
        assert!(eq_value(&r, &b));
    }
}

#[test]
fn diff_is_structural_not_wholesale() {
    // a one-field change produces one replace addressed at that field,
    // not a replacement of the whole document
    let p = diff(&counter(0), &counter(3));
    assert_eq!(p.ops.len(), 1);
    match &p.ops[0] {
        PatchOp::Replace { path, value } => {
            assert_eq!(path.len(), 1);
            assert!(matches!(&path[0], PathSegment::Key(k) if k == &b"value".to_vec()));
            assert!(matches!(value, JsonValue::Int(3)));
        }
        _ => panic!("expected a replace operation"),
    }
}

#[test]
fn diff_applies_idempotently() {
    // applying a diff a second time changes nothing
    let a = nested(1, b"a");
    let b = nested(2, b"b");
    let p = diff(&a, &b);
    let once = apply_patch(a, &p).unwrap();
    let twice = apply_patch(once, &p).unwrap();
    assert!(eq_value(&twice, &b));
}

#[test]
fn diff_of_equal_is_empty() {
    let a = nested(4, b"same");
    let b = nested(4, b"same");
    let p = diff(&a, &b);
    assert_eq!(p.ops.len(), 0);
    // the encoded form is minimal: name, then a zero operation count
    let update = ServerSignalUpdate { name: b"c".to_vec(), patch: p };
    assert_eq!(update.encode().len(), 8 + 1 + 8);
    let r = apply_patch(a, &update.patch).unwrap();
    assert!(eq_value(&r, &b));
}

#[test]
fn consecutive_diffs_apply_in_order() {
    let snaps = vec![counter(0), counter(1), nested(2, b"x"), counter(7)];
    let mut replica = clone_value(&snaps[0]);
    for i in 0..snaps.len() - 1 {
        let p = diff(&snaps[i], &snaps[i + 1]);
        replica = apply_patch(replica, &p).unwrap();
    }
    assert!(eq_value(&replica, &snaps[snaps.len() - 1]));
}

#[test]
fn counter_scenario() {
    // a channel named "counter" starts at {value: 0}; three mutations each
    // raise value by one; the three envelopes, applied in order to a fresh
    // replica, leave it at {value: 3}, matching the server exactly.
    let mut server = ServerSignal::new(b"counter".to_vec(), counter(0));
    let mut wire: Vec<Vec<u8>> = Vec::new();
    for i in 1..=3 {
        wire.push(server.with(counter(i)).unwrap());
    }
    let mut client = SignalClient::new(5000);
    client.registry.register(b"counter".to_vec(), counter(0)).unwrap();
    for bytes in &wire {
        assert_eq!(client.on_message(bytes), EnvelopeOutcome::Applied);
    }
    let replica = client.registry.current_value(&b"counter".to_vec()).unwrap();
    assert!(eq_value(replica, &counter(3)));
    assert!(eq_value(server.current_value(), &counter(3)));
}

#[test]
fn delayed_queue_drains_in_order() {
    // envelopes for "x" arrive before "x" registers; after registration the
    // replica equals the replay of all queued diffs, in arrival order.
    let mut server = ServerSignal::new(b"x".to_vec(), counter(0));
    let e1 = server.with(counter(1)).unwrap();
    let e2 = server.with(nested(2, b"mid")).unwrap();
    let e3 = server.with(counter(9)).unwrap();
    let mut client = SignalClient::new(100);
    assert_eq!(client.on_message(&e1), EnvelopeOutcome::Queued);
    assert_eq!(client.on_message(&e2), EnvelopeOutcome::Queued);
    assert_eq!(client.on_message(&e3), EnvelopeOutcome::Queued);
    assert!(client.registry.current_value(&b"x".to_vec()).is_none());
    client.registry.register(b"x".to_vec(), counter(0)).unwrap();
    let replica = client.registry.current_value(&b"x".to_vec()).unwrap();
    assert!(eq_value(replica, &counter(9)));
}

#[test]
fn reregistration_replaces_replica() {
    let mut reg = ClientRegistry::new();
    reg.register(b"x".to_vec(), counter(1)).unwrap();
    reg.register(b"x".to_vec(), counter(42)).unwrap();
    let replica = reg.current_value(&b"x".to_vec()).unwrap();
    assert!(eq_value(replica, &counter(42)));
}

#[test]
fn reconnect_preserves_state() {
    // a drop and reconnect leave registered replicas and queued diffs
    // exactly as they were.
    let mut server_a = ServerSignal::new(b"a".to_vec(), counter(0));
    let mut server_b = ServerSignal::new(b"b".to_vec(), counter(0));
    let ea = server_a.with(counter(5)).unwrap();
    let eb = server_b.with(counter(8)).unwrap();

    let mut client = SignalClient::new(250);
    client.registry.register(b"a".to_vec(), counter(0)).unwrap();
    assert_eq!(client.on_message(&ea), EnvelopeOutcome::Applied);
    assert_eq!(client.on_message(&eb), EnvelopeOutcome::Queued);

    assert_eq!(client.on_connection_error(), ClientAction::ScheduleReconnect(250));
    assert_eq!(client.on_reconnect_timeout(), ClientAction::Reopen);

    // the registered replica is unchanged
    let ra = client.registry.current_value(&b"a".to_vec()).unwrap();
    assert!(eq_value(ra, &counter(5)));
    // the queued diff for "b" is still there: registering drains it
    client.registry.register(b"b".to_vec(), counter(0)).unwrap();
    let rb = client.registry.current_value(&b"b".to_vec()).unwrap();
    assert!(eq_value(rb, &counter(8)));
}

#[test]
fn closed_channel_refuses_mutation() {
    let mut server = ServerSignal::new(b"c".to_vec(), counter(0));
    server.close();
    let r = server.with(counter(1));
    assert!(matches!(r, Err(Error::ConnectionClosed)));
    // the snapshot was not changed by the refused mutation
    assert!(eq_value(server.current_value(), &counter(0)));
}

#[test]
fn malformed_message_is_dropped() {
    let mut client = SignalClient::new(100);
    client.registry.register(b"x".to_vec(), counter(3)).unwrap();
    let r = client.on_message(&vec![0xba, 0xad]);
    assert_eq!(r, EnvelopeOutcome::DecodeFailed);
    let replica = client.registry.current_value(&b"x".to_vec()).unwrap();
    assert!(eq_value(replica, &counter(3)));
}

#[test]
fn inapplicable_diff_is_reported() {
    let mut client = SignalClient::new(100);
    client.registry.register(b"x".to_vec(), counter(0)).unwrap();
    let update = ServerSignalUpdate {
        name: b"x".to_vec(),
        patch: Patch {
            ops: vec![PatchOp::Remove { path: vec![PathSegment::Key(b"zzz".to_vec())] }],
        },
    };
    let bytes = update.encode();
    assert_eq!(client.on_message(&bytes), EnvelopeOutcome::ApplyFailed);
    let replica = client.registry.current_value(&b"x".to_vec()).unwrap();
    assert!(eq_value(replica, &counter(0)));
}

#[test]
fn add_and_remove_operations() {
    // add inserts a new object entry
    let doc = counter(1);
    let add = PatchOp::Add {
        path: vec![PathSegment::Key(b"extra".to_vec())],
        value: JsonValue::Bool(true),
    };
    let doc = apply_op(doc, &add).unwrap();
    let expected = JsonValue::Obj(vec![
        (b"value".to_vec(), JsonValue::Int(1)),
        (b"extra".to_vec(), JsonValue::Bool(true)),
    ]);
    assert!(eq_value(&doc, &expected));

    // remove deletes it again
    let rm = PatchOp::Remove { path: vec![PathSegment::Key(b"extra".to_vec())] };
    let doc = apply_op(doc, &rm).unwrap();
    assert!(eq_value(&doc, &counter(1)));

    // array insertion shifts later elements up
    let arr = JsonValue::Arr(vec![JsonValue::Int(1), JsonValue::Int(3)]);
    let ins = PatchOp::Add { path: vec![PathSegment::Index(1)], value: JsonValue::Int(2) };
    let arr = apply_op(arr, &ins).unwrap();
    let expected = JsonValue::Arr(vec![
        JsonValue::Int(1),
        JsonValue::Int(2),
        JsonValue::Int(3),
    ]);
    assert!(eq_value(&arr, &expected));

    // array removal shifts them back down
    let rm1 = PatchOp::Remove { path: vec![PathSegment::Index(1)] };
    let arr = apply_op(arr, &rm1).unwrap();
    let expected = JsonValue::Arr(vec![JsonValue::Int(1), JsonValue::Int(3)]);
    assert!(eq_value(&arr, &expected));
}

#[test]
fn apply_fails_on_missing_path() {
    let doc = counter(0);
    let p = Patch {
        ops: vec![PatchOp::Replace {
            path: vec![PathSegment::Key(b"nope".to_vec())],
            value: JsonValue::Null,
        }],
    };
    assert!(apply_patch(doc, &p).is_err());
}

#[test]
fn failed_drain_leaves_registry_unchanged() {
    // queue a diff that cannot apply to the initial replica; registration
    // reports the failure and registers nothing.
    let mut client = SignalClient::new(100);
    let update = ServerSignalUpdate {
        name: b"x".to_vec(),
        patch: Patch {
            ops: vec![PatchOp::Remove { path: vec![PathSegment::Key(b"zzz".to_vec())] }],
        },
    };
    let bytes = update.encode();
    assert_eq!(client.on_message(&bytes), EnvelopeOutcome::Queued);
    let r = client.registry.register(b"x".to_vec(), counter(0));
    assert!(r.is_err());
    assert!(client.registry.current_value(&b"x".to_vec()).is_none());
}

#[test]
fn equality_and_clone() {
    let a = nested(3, b"t");
    let b = clone_value(&a);
    assert!(eq_value(&a, &b));
    assert!(!eq_value(&a, &nested(4, b"t")));
    assert!(!eq_value(&JsonValue::Int(1), &JsonValue::Str(b"1".to_vec())));
    assert!(!eq_value(
        &JsonValue::Arr(vec![]),
        &JsonValue::Arr(vec![JsonValue::Null]),
    ));
}

#[test]
fn channel_consumes_into_value() {
    let mut server = ServerSignal::new(b"c".to_vec(), counter(0));
    let _ = server.with(counter(2)).unwrap();
    let v = server.into_value();
    assert!(eq_value(&v, &counter(2)));
}
