//! Tests of the wire format: envelope encoding, decoding, and robustness
//! against malformed input.

use server_signal::codec::decode_envelope;
use server_signal::envelope::ServerSignalUpdate;
use server_signal::patch::apply_patch;
use server_signal::patch::Patch;
use server_signal::patch::PatchOp;
use server_signal::value::clone_value;
use server_signal::value::eq_value;
use server_signal::value::JsonValue;

fn counter(v: i64) -> JsonValue {
    JsonValue::Obj(vec![(b"value".to_vec(), JsonValue::Int(v))])
}

fn sample_value() -> JsonValue {
    JsonValue::Obj(vec![
        (b"id".to_vec(), JsonValue::Int(7)),
        (b"name".to_vec(), JsonValue::Str(b"alpha".to_vec())),
        (
            b"tags".to_vec(),
            JsonValue::Arr(vec![
                JsonValue::Bool(true),
                JsonValue::Null,
                JsonValue::Int(-3),
            ]),
        ),
    ])
}

#[test]
fn envelope_round_trip() {
    let old = sample_value();
    let mut new = sample_value();
    if let JsonValue::Obj(entries) = &mut new {
        entries[0].1 = JsonValue::Int(8);
        entries[1].1 = JsonValue::Str(b"beta".to_vec());
    }
    let update = ServerSignalUpdate::new(b"chan".to_vec(), &old, &new);
    let bytes = update.encode();
    let decoded = ServerSignalUpdate::decode(&bytes).unwrap();
    assert_eq!(decoded.name, b"chan".to_vec());
    let replayed = apply_patch(clone_value(&old), &decoded.patch).unwrap();
    assert!(eq_value(&replayed, &new));
}

#[test]
fn envelope_round_trip_negative_int() {
    let old = counter(-3);
    let new = counter(-4);
    let update = ServerSignalUpdate::new(b"c".to_vec(), &old, &new);
    let bytes = update.encode();
    let decoded = ServerSignalUpdate::decode(&bytes).unwrap();
    let replayed = apply_patch(clone_value(&old), &decoded.patch).unwrap();
    assert!(eq_value(&replayed, &new));
}

#[test]
fn envelope_exact_bytes() {
    let update = ServerSignalUpdate {
        name: b"n".to_vec(),
        patch: Patch {
            ops: vec![PatchOp::Replace { path: vec![], value: JsonValue::Int(5) }],
        },
    };
    let bytes = update.encode();
    let expected: Vec<u8> = vec![
        1, 0, 0, 0, 0, 0, 0, 0, // name length
        0x6e, // "n"
        1, 0, 0, 0, 0, 0, 0, 0, // operation count
        0, // replace
        0, 0, 0, 0, 0, 0, 0, 0, // path length
        2, // integer value
        5, 0, 0, 0, 0, 0, 0, 0, // 5, little endian
    ];
    assert_eq!(bytes, expected);
}

#[test]
fn envelope_round_trip_extreme_ints() {
    let old = JsonValue::Arr(vec![JsonValue::Int(i64::MIN), JsonValue::Int(0)]);
    let new = JsonValue::Arr(vec![JsonValue::Int(i64::MAX), JsonValue::Int(-1)]);
    let update = ServerSignalUpdate::new(b"c".to_vec(), &old, &new);
    let bytes = update.encode();
    let decoded = ServerSignalUpdate::decode(&bytes).unwrap();
    let replayed = apply_patch(clone_value(&old), &decoded.patch).unwrap();
    assert!(eq_value(&replayed, &new));
}

#[test]
fn envelope_round_trip_empty_values() {
    let old = JsonValue::Obj(vec![]);
    let new = JsonValue::Obj(vec![
        (b"".to_vec(), JsonValue::Str(b"".to_vec())),
        (b"a".to_vec(), JsonValue::Arr(vec![])),
    ]);
    let update = ServerSignalUpdate::new(b"".to_vec(), &old, &new);
    let bytes = update.encode();
    let decoded = ServerSignalUpdate::decode(&bytes).unwrap();
    assert_eq!(decoded.name.len(), 0);
    let replayed = apply_patch(clone_value(&old), &decoded.patch).unwrap();
    assert!(eq_value(&replayed, &new));
}

#[test]
fn decode_rejects_garbage() {
    assert!(decode_envelope(&vec![]).is_err());
    assert!(decode_envelope(&vec![0xff]).is_err());
    assert!(decode_envelope(&vec![0xde, 0xad, 0xbe, 0xef]).is_err());
    assert!(decode_envelope(&vec![0u8; 7]).is_err());
    let huge_len: Vec<u8> = vec![0xff; 16];
    assert!(decode_envelope(&huge_len).is_err());
}

#[test]
fn decode_rejects_truncation() {
    let old = sample_value();
    let new = counter(1);
    let update = ServerSignalUpdate::new(b"chan".to_vec(), &old, &new);
    let bytes = update.encode();
    assert!(decode_envelope(&bytes).is_ok());
    for cut in 0..bytes.len() {
        let prefix: Vec<u8> = bytes[..cut].to_vec();
        assert!(decode_envelope(&prefix).is_err());
    }
}

#[test]
fn decode_rejects_trailing_bytes() {
    let update = ServerSignalUpdate::new(b"c".to_vec(), &counter(0), &counter(1));
    let mut bytes = update.encode();
    bytes.push(0);
    assert!(decode_envelope(&bytes).is_err());
}

#[test]
fn decode_rejects_bad_tag() {
    let update = ServerSignalUpdate::new(b"c".to_vec(), &counter(0), &counter(1));
    let mut bytes = update.encode();
    let last = bytes.len() - 1;
    bytes[last - 8] = 0x77; // corrupt the value tag of the replace operation
    assert!(decode_envelope(&bytes).is_err());
}

#[test]
fn snapshot_wire_encoding() {
    let chan = server_signal::channel::ServerSignal::new(b"c".to_vec(), JsonValue::Int(7));
    let bytes = chan.into_json_value();
    assert_eq!(bytes, vec![2, 7, 0, 0, 0, 0, 0, 0, 0]);
}
