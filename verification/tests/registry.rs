use synced_store::model::{InternalState, Kind, StateValue, SyncError};
use synced_store::state::{greet, Syncer};

fn int_of(v: &StateValue) -> i64 {
    match v {
        StateValue::Int(i) => *i,
        _ => panic!("expected an integer value"),
    }
}

#[test]
fn set_then_get_returns_value() {
    let mut s = Syncer::new();
    s.set("Counter", StateValue::Int(7));
    let item = s.get("Counter", Kind::Int).unwrap();
    assert_eq!(int_of(item.lock()), 7);
}

#[test]
fn set_then_get_internal_state() {
    let mut s = Syncer::new();
    s.set(
        "InternalState",
        StateValue::Internal(InternalState { authenticated: false, name: "ada".to_string() }),
    );
    let item = s.get("InternalState", Kind::Internal).unwrap();
    match item.lock() {
        StateValue::Internal(st) => {
            assert!(!st.authenticated);
            assert_eq!(st.name, "ada");
        }
        _ => panic!("expected the internal state"),
    }
}

#[test]
fn set_overwrites_any_binding() {
    let mut s = Syncer::new();
    s.set("k", StateValue::Int(1));
    s.set("k", StateValue::Flag(true));
    let item = s.get("k", Kind::Flag).unwrap();
    assert!(matches!(item.lock(), StateValue::Flag(true)));
}

#[test]
fn update_on_unbound_key_behaves_as_set() {
    let mut s = Syncer::new();
    assert!(s.update("fresh", StateValue::Int(3)).is_ok());
    let item = s.get("fresh", Kind::Int).unwrap();
    assert_eq!(int_of(item.lock()), 3);
}

#[test]
fn update_replaces_same_kind() {
    let mut s = Syncer::new();
    s.set("Counter", StateValue::Int(0));
    assert!(s.update("Counter", StateValue::Int(1)).is_ok());
    let item = s.get("Counter", Kind::Int).unwrap();
    assert_eq!(int_of(item.lock()), 1);
}

#[test]
fn update_refuses_kind_mismatch() {
    let mut s = Syncer::new();
    s.set("Counter", StateValue::Int(0));
    let r = s.update("Counter", StateValue::Text("zero".to_string()));
    assert_eq!(r, Err(SyncError::TypeMismatch));
    let item = s.get("Counter", Kind::Int).unwrap();
    assert_eq!(int_of(item.lock()), 0);
}

#[test]
fn get_missing_key_reports_key_missing() {
    let s = Syncer::new();
    match s.get("absent", Kind::Int) {
        Err(SyncError::KeyMissing) => {}
        _ => panic!("expected the missing-key error"),
    }
}

#[test]
fn get_wrong_kind_reports_type_mismatch() {
    let mut s = Syncer::new();
    s.set("Counter", StateValue::Int(0));
    match s.get("Counter", Kind::Text) {
        Err(SyncError::TypeMismatch) => {}
        _ => panic!("expected the kind-mismatch error"),
    }
}

#[test]
fn update_string_applies_well_formed_payload() {
    let mut s = Syncer::new();
    s.set("Counter", StateValue::Int(0));
    assert!(s.update_string("Counter", Kind::Int, "5").is_ok());
    let item = s.get("Counter", Kind::Int).unwrap();
    assert_eq!(int_of(item.lock()), 5);
}

#[test]
fn update_string_drops_malformed_payload() {
    let mut s = Syncer::new();
    s.set("Counter", StateValue::Int(5));
    let r = s.update_string("Counter", Kind::Int, "not-a-number");
    assert_eq!(r, Err(SyncError::Malformed));
    let item = s.get("Counter", Kind::Int).unwrap();
    assert_eq!(int_of(item.lock()), 5);
}

#[test]
fn greet_marks_authenticated_and_greets() {
    let mut s = Syncer::new();
    s.set(
        "InternalState",
        StateValue::Internal(InternalState { authenticated: false, name: "ada".to_string() }),
    );
    let msg = greet(&mut s, "Ada").unwrap();
    assert_eq!(msg, "Hello, Ada! You've been greeted from Rust!");
    let item = s.get("InternalState", Kind::Internal).unwrap();
    match item.lock() {
        StateValue::Internal(st) => {
            assert!(st.authenticated);
            assert_eq!(st.name, "ada");
        }
        _ => panic!("expected the internal state"),
    }
}

#[test]
fn greet_without_state_reports_key_missing() {
    let mut s = Syncer::new();
    assert_eq!(greet(&mut s, "Ada"), Err(SyncError::KeyMissing));
}

#[test]
fn empty_key_is_a_key_like_any_other() {
    let mut s = Syncer::new();
    s.set("", StateValue::Int(9));
    let item = s.get("", Kind::Int).unwrap();
    assert_eq!(int_of(item.lock()), 9);
}

#[test]
fn into_inner_yields_the_snapshot() {
    let mut s = Syncer::new();
    s.set("Counter", StateValue::Int(11));
    let item = s.get("Counter", Kind::Int).unwrap();
    assert_eq!(int_of(&item.into_inner()), 11);
}

#[test]
fn same_key_updates_leave_the_last_value() {
    let mut s = Syncer::new();
    s.set("Counter", StateValue::Int(0));
    for i in [4i64, -2, 17] {
        s.update("Counter", StateValue::Int(i)).unwrap();
    }
    let item = s.get("Counter", Kind::Int).unwrap();
    assert_eq!(int_of(item.lock()), 17);
}

#[test]
fn distinct_key_updates_commute() {
    let mut a = Syncer::new();
    a.set("x", StateValue::Int(1));
    a.set("y", StateValue::Flag(true));

    let mut b = Syncer::new();
    b.set("y", StateValue::Flag(true));
    b.set("x", StateValue::Int(1));

    for s in [&a, &b] {
        assert_eq!(int_of(s.get("x", Kind::Int).unwrap().lock()), 1);
        assert!(matches!(s.get("y", Kind::Flag).unwrap().lock(), StateValue::Flag(true)));
    }
}
