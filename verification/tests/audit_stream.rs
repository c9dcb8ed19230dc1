//! The audit serializer: exact wire lines, ordering, determinism, and
//! JSON well-formedness of every record.
use justact_ledger::Ledger;

fn sample() -> Ledger {
    let mut l = Ledger::new();
    l.declare("alice".to_string(), "hello".to_string());
    l.declare("bob".to_string(), "world".to_string());
    l.bind(0, 10).unwrap();
    l.set_time(10);
    l.enact("carol".to_string(), 0, vec![0]).unwrap();
    l
}

#[test]
fn serialize_exact_lines() {
    let l = sample();
    let lines = l.serialize();
    assert_eq!(lines.len(), 5);
    assert_eq!(lines[0], "{\"AdvanceTime\":{\"timestamp\":10}}");
    assert_eq!(
        lines[1],
        "{\"StateMessage\":{\"who\":\"alice\",\"to\":\"Broadcast\",\"message\":{\"id\":[\"alice\",0],\"payload\":\"hello\"}}}"
    );
    assert_eq!(
        lines[2],
        "{\"StateMessage\":{\"who\":\"bob\",\"to\":\"Broadcast\",\"message\":{\"id\":[\"bob\",1],\"payload\":\"world\"}}}"
    );
    assert_eq!(
        lines[3],
        "{\"AddAgreement\":{\"agreement\":{\"at\":10,\"message\":{\"id\":[\"alice\",0],\"payload\":\"hello\"}}}}"
    );
    assert_eq!(
        lines[4],
        "{\"EnactAction\":{\"who\":\"carol\",\"to\":\"Broadcast\",\"action\":{\"id\":[\"carol\",\"a\"],\"basis\":{\"at\":10,\"message\":{\"id\":[\"alice\",0],\"payload\":\"hello\"}},\"justification\":[{\"id\":[\"alice\",0],\"payload\":\"hello\"}]}}}"
    );
}

#[test]
fn serialize_twice_is_identical() {
    let l = sample();
    let a = l.serialize();
    let b = l.serialize();
    assert_eq!(a, b);
}

#[test]
fn serialize_empty_state() {
    let l = Ledger::new();
    let lines = l.serialize();
    assert_eq!(lines.len(), 1);
    assert_eq!(lines[0], "{\"AdvanceTime\":{\"timestamp\":0}}");
}

#[test]
fn stream_shape_and_order() {
    let mut l = Ledger::new();
    for k in 0..3 {
        l.declare(format!("a{}", k), format!("p{}", k));
    }
    l.bind(1, 5).unwrap();
    l.bind(0, 6).unwrap();
    l.enact("x".to_string(), 1, vec![2, 0]).unwrap();
    l.set_time(42);
    let lines = l.serialize();
    assert_eq!(lines.len(), 1 + 3 + 2 + 1);
    assert!(lines[0].starts_with("{\"AdvanceTime\""));
    for line in &lines[1..4] {
        assert!(line.starts_with("{\"StateMessage\""));
    }
    for line in &lines[4..6] {
        assert!(line.starts_with("{\"AddAgreement\""));
    }
    assert!(lines[6].starts_with("{\"EnactAction\""));
    // No further AdvanceTime anywhere.
    assert_eq!(lines.iter().filter(|s| s.contains("AdvanceTime")).count(), 1);
    // Statements appear in insertion order.
    assert!(lines[1].contains("\"p0\""));
    assert!(lines[2].contains("\"p1\""));
    assert!(lines[3].contains("\"p2\""));
    // Agreements in insertion order: the first cites statement 1.
    assert!(lines[4].contains("\"at\":5"));
    assert!(lines[5].contains("\"at\":6"));
}

#[test]
fn every_record_is_valid_json() {
    let mut l = sample();
    l.declare("dave".to_string(), "q\"uo\\te\n\tctl\u{1}".to_string());
    for line in l.serialize() {
        let v: serde_json::Value = serde_json::from_str(&line).unwrap();
        assert!(v.is_object());
        assert_eq!(v.as_object().unwrap().len(), 1);
    }
}

#[test]
fn escaping_round_trips_through_json() {
    let payload = "he\"ll\\o\nwor\tld\r\u{1f}\u{0}end";
    let mut l = Ledger::new();
    l.declare("a\"uth\\or".to_string(), payload.to_string());
    let lines = l.serialize();
    let v: serde_json::Value = serde_json::from_str(&lines[1]).unwrap();
    let msg = &v["StateMessage"]["message"];
    assert_eq!(msg["payload"].as_str().unwrap(), payload);
    assert_eq!(msg["id"][0].as_str().unwrap(), "a\"uth\\or");
    assert_eq!(msg["id"][1].as_u64().unwrap(), 0);
    assert_eq!(v["StateMessage"]["who"].as_str().unwrap(), "a\"uth\\or");
}

#[test]
fn labels_run_past_single_letters() {
    let mut l = Ledger::new();
    l.declare("a".to_string(), "p".to_string());
    l.bind(0, 1).unwrap();
    for _ in 0..28 {
        l.enact("bob".to_string(), 0, vec![0]).unwrap();
    }
    let lines = l.serialize();
    let first = &lines[3];
    let v: serde_json::Value = serde_json::from_str(first).unwrap();
    assert_eq!(v["EnactAction"]["action"]["id"][1].as_str().unwrap(), "a");
    let at25: serde_json::Value = serde_json::from_str(&lines[3 + 25]).unwrap();
    assert_eq!(at25["EnactAction"]["action"]["id"][1].as_str().unwrap(), "z");
    let at26: serde_json::Value = serde_json::from_str(&lines[3 + 26]).unwrap();
    assert_eq!(at26["EnactAction"]["action"]["id"][1].as_str().unwrap(), "aa");
    let at27: serde_json::Value = serde_json::from_str(&lines[3 + 27]).unwrap();
    assert_eq!(at27["EnactAction"]["action"]["id"][1].as_str().unwrap(), "ab");
}

#[test]
fn largest_timestamp_renders_in_full() {
    let mut l = Ledger::new();
    l.set_time(u64::MAX);
    let lines = l.serialize();
    assert_eq!(lines[0], "{\"AdvanceTime\":{\"timestamp\":18446744073709551615}}");
    let v: serde_json::Value = serde_json::from_str(&lines[0]).unwrap();
    assert_eq!(v["AdvanceTime"]["timestamp"].as_u64().unwrap(), u64::MAX);
}

#[test]
fn justification_serialized_in_ascending_order() {
    let mut l = Ledger::new();
    for k in 0..3 {
        l.declare("a".to_string(), format!("p{}", k));
    }
    l.bind(2, 9).unwrap();
    l.enact("x".to_string(), 0, vec![2, 0]).unwrap();
    let lines = l.serialize();
    let v: serde_json::Value = serde_json::from_str(&lines[5]).unwrap();
    let just = v["EnactAction"]["action"]["justification"].as_array().unwrap();
    assert_eq!(just.len(), 2);
    assert_eq!(just[0]["id"][1].as_u64().unwrap(), 0);
    assert_eq!(just[1]["id"][1].as_u64().unwrap(), 2);
    // The basis is the agreement that cites statement 2 at time 9.
    assert_eq!(v["EnactAction"]["action"]["basis"]["at"].as_u64().unwrap(), 9);
    assert_eq!(
        v["EnactAction"]["action"]["basis"]["message"]["id"][1].as_u64().unwrap(),
        2
    );
}
