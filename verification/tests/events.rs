use std::cell::RefCell;

use amina_core::events::{EventEmitter, EventListener, EventObserver};

/// Records the `value` field of each JSON payload it can decode.
struct ValueListener {
    values: RefCell<Vec<String>>,
}

impl ValueListener {
    fn new() -> ValueListener {
        ValueListener {
            values: RefCell::new(Vec::new()),
        }
    }

    fn decode(payload: &str) -> Option<String> {
        let parsed: serde_json::Value = serde_json::from_str(payload).ok()?;
        let value = parsed.get("value")?.as_str()?;
        Some(value.to_string())
    }
}

impl EventListener for ValueListener {
    fn deliver(&mut self, payload: &str) -> bool {
        match ValueListener::decode(payload) {
            Some(value) => {
                self.values.borrow_mut().push(value);
                true
            }
            None => false,
        }
    }
}

/// Records every (key, payload) notification.
struct RecordingObserver {
    seen: Vec<(String, String)>,
}

impl EventObserver for RecordingObserver {
    fn notify(&mut self, key: &str, payload: &str) {
        self.seen.push((key.to_string(), payload.to_string()));
    }
}

fn encode_value(value: &str) -> String {
    let mut object = serde_json::Map::new();
    object.insert(
        "value".to_string(),
        serde_json::Value::String(value.to_string()),
    );
    serde_json::to_string(&serde_json::Value::Object(object)).unwrap()
}

fn drain(bus: &mut EventEmitter<ValueListener, RecordingObserver>) {
    while bus.run_pending().is_some() {}
}

#[test]
fn events_test_basic() {
    let mut bus: EventEmitter<ValueListener, RecordingObserver> = EventEmitter::new();
    bus.add_raw_listener("event.one", ValueListener::new());
    bus.add_raw_listener("event.second", ValueListener::new());

    bus.emit("event.one", &encode_value("value 1"));
    drain(&mut bus);
    assert_eq!(
        bus.listener_handler(0).values.borrow().as_slice(),
        &["value 1".to_string()]
    );

    bus.emit("event.second", &encode_value("value 2"));
    drain(&mut bus);
    assert_eq!(
        bus.listener_handler(1).values.borrow().as_slice(),
        &["value 2".to_string()]
    );
}

#[test]
fn fan_out_reaches_listeners_in_order_and_observers_synchronously() {
    let mut bus: EventEmitter<ValueListener, RecordingObserver> = EventEmitter::new();
    bus.add_raw_listener("e", ValueListener::new());
    bus.add_raw_listener("e", ValueListener::new());
    bus.add_raw_listener("other", ValueListener::new());
    bus.add_raw_observer(RecordingObserver { seen: Vec::new() });

    let payload = encode_value("v");
    bus.emit("e", &payload);

    // the observer was notified before emit returned, with key and payload
    assert_eq!(
        bus.observer_at(0).seen,
        vec![("e".to_string(), payload.clone())]
    );
    // both listeners on "e" are pending, none has run yet
    assert_eq!(bus.pending_len(), 2);
    assert!(bus.listener_handler(0).values.borrow().is_empty());

    assert_eq!(bus.run_pending(), Some(true));
    assert_eq!(bus.run_pending(), Some(true));
    assert_eq!(bus.run_pending(), None);

    assert_eq!(
        bus.listener_handler(0).values.borrow().as_slice(),
        &["v".to_string()]
    );
    assert_eq!(
        bus.listener_handler(1).values.borrow().as_slice(),
        &["v".to_string()]
    );
    // the listener on the other key saw nothing
    assert!(bus.listener_handler(2).values.borrow().is_empty());
}

#[test]
fn listener_decode_failure_is_isolated() {
    let mut bus: EventEmitter<ValueListener, RecordingObserver> = EventEmitter::new();
    bus.add_raw_listener("e", ValueListener::new());
    bus.add_raw_listener("e", ValueListener::new());
    bus.add_raw_observer(RecordingObserver { seen: Vec::new() });

    // a payload the listeners cannot decode still reaches everyone
    bus.emit("e", "not json");

    // the observer was still notified
    assert_eq!(bus.observer_at(0).seen.len(), 1);
    // the first listener fails its decode, the second is still invoked
    assert_eq!(bus.run_pending(), Some(false));
    assert_eq!(bus.run_pending(), Some(false));
    assert_eq!(bus.run_pending(), None);
}

#[test]
fn emit_with_no_listeners_notifies_observer() {
    let mut bus: EventEmitter<ValueListener, RecordingObserver> = EventEmitter::new();
    bus.add_raw_observer(RecordingObserver { seen: Vec::new() });

    bus.emit("temp.changed", "{\"value\":21}");

    assert_eq!(
        bus.observer_at(0).seen,
        vec![("temp.changed".to_string(), "{\"value\":21}".to_string())]
    );
    assert_eq!(bus.pending_len(), 0);
}
