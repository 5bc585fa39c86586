use synced_store::model::{Kind, StateValue, SyncError};
use synced_store::state::{Handler, InboundOutcome, Syncer};

fn counter_handlers() -> Vec<Handler> {
    vec![Handler { key: "Counter".to_string(), kind: Kind::Int }]
}

fn envelope(name: &str, value: &str) -> synced_store::model::StateUpdate {
    synced_store::model::StateUpdate {
        version: None,
        name: name.to_string(),
        value: value.to_string(),
    }
}

fn counter_value(s: &Syncer) -> i64 {
    let item = s.get("Counter", Kind::Int).unwrap();
    match item.lock() {
        StateValue::Int(i) => *i,
        _ => panic!("expected an integer value"),
    }
}

#[test]
fn emit_publishes_value_on_per_key_topic() {
    let mut s = Syncer::new();
    s.set("Counter", StateValue::Int(0));
    s.update("Counter", StateValue::Int(1)).unwrap();
    let emission = s.emit("Counter").unwrap();
    assert_eq!(emission.topic, "Counter_update");
    assert_eq!(emission.update.name, "Counter");
    assert_eq!(emission.update.value, "1");
    assert_eq!(emission.update.version, None);
}

#[test]
fn emit_on_missing_key_fails() {
    let s = Syncer::new();
    match s.emit("Counter") {
        Err(SyncError::KeyMissing) => {}
        _ => panic!("expected the missing-key error"),
    }
}

#[test]
fn inbound_envelope_updates_registered_key() {
    let mut s = Syncer::new();
    s.set("Counter", StateValue::Int(0));
    let r = s.apply_envelope(&counter_handlers(), &envelope("Counter", "5"));
    assert_eq!(r, InboundOutcome::Applied);
    assert_eq!(counter_value(&s), 5);
}

#[test]
fn inbound_envelope_with_unknown_name_is_ignored() {
    let mut s = Syncer::new();
    s.set("Counter", StateValue::Int(3));
    let r = s.apply_envelope(&counter_handlers(), &envelope("Unknown", "5"));
    assert_eq!(r, InboundOutcome::UnknownKey);
    assert_eq!(counter_value(&s), 3);
}

#[test]
fn inbound_envelope_with_malformed_payload_is_dropped() {
    let mut s = Syncer::new();
    s.set("Counter", StateValue::Int(3));
    let r = s.apply_envelope(&counter_handlers(), &envelope("Counter", "not-a-number"));
    assert_eq!(r, InboundOutcome::DroppedMalformed);
    assert_eq!(counter_value(&s), 3);
}

#[test]
fn inbound_envelope_with_mismatched_kind_is_dropped() {
    let mut s = Syncer::new();
    s.set("Counter", StateValue::Text("three".to_string()));
    let r = s.apply_envelope(&counter_handlers(), &envelope("Counter", "5"));
    assert_eq!(r, InboundOutcome::DroppedMismatch);
    let item = s.get("Counter", Kind::Text).unwrap();
    match item.lock() {
        StateValue::Text(t) => assert_eq!(t, "three"),
        _ => panic!("expected a string value"),
    }
}

#[test]
fn inbound_envelope_binds_unbound_registered_key() {
    let mut s = Syncer::new();
    let r = s.apply_envelope(&counter_handlers(), &envelope("Counter", "8"));
    assert_eq!(r, InboundOutcome::Applied);
    assert_eq!(counter_value(&s), 8);
}

#[test]
fn first_matching_handler_decides_the_kind() {
    let handlers = vec![
        Handler { key: "Counter".to_string(), kind: Kind::Flag },
        Handler { key: "Counter".to_string(), kind: Kind::Int },
    ];
    let mut s = Syncer::new();
    let r = s.apply_envelope(&handlers, &envelope("Counter", "5"));
    assert_eq!(r, InboundOutcome::DroppedMalformed);
    let r = s.apply_envelope(&handlers, &envelope("Counter", "true"));
    assert_eq!(r, InboundOutcome::Applied);
}

#[test]
fn emitted_payload_feeds_back_through_the_listener() {
    let mut s = Syncer::new();
    s.set("Counter", StateValue::Int(-99));
    let emission = s.emit("Counter").unwrap();

    let mut other = Syncer::new();
    let r = other.apply_envelope(
        &counter_handlers(),
        &envelope(&emission.update.name, &emission.update.value),
    );
    assert_eq!(r, InboundOutcome::Applied);
    assert_eq!(counter_value(&other), -99);
}

#[test]
fn internal_state_feeds_back_through_the_listener() {
    let mut s = Syncer::new();
    s.set(
        "InternalState",
        StateValue::Internal(synced_store::model::InternalState {
            authenticated: true,
            name: "a \"quoted\"\nname".to_string(),
        }),
    );
    let emission = s.emit("InternalState").unwrap();
    assert_eq!(emission.topic, "InternalState_update");

    let handlers = vec![Handler { key: "InternalState".to_string(), kind: Kind::Internal }];
    let mut other = Syncer::new();
    let r = other.apply_envelope(
        &handlers,
        &envelope(&emission.update.name, &emission.update.value),
    );
    assert_eq!(r, InboundOutcome::Applied);
    let item = other.get("InternalState", Kind::Internal).unwrap();
    match item.lock() {
        StateValue::Internal(st) => {
            assert!(st.authenticated);
            assert_eq!(st.name, "a \"quoted\"\nname");
        }
        _ => panic!("expected the internal state"),
    }
}

#[test]
fn version_field_is_advisory_on_inbound_envelopes() {
    let mut s = Syncer::new();
    s.set("Counter", StateValue::Int(0));
    let mut env = envelope("Counter", "9");
    env.version = Some(3);
    let r = s.apply_envelope(&counter_handlers(), &env);
    assert_eq!(r, InboundOutcome::Applied);
    assert_eq!(counter_value(&s), 9);
}
