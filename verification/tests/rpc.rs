use amina_core::rpc::{
    CallError, CallHandler, CallOutcome, EmptyData, FileError, FileHandler, Rpc, RpcGate,
};

/// Decodes `{a, b}`, answers `{result: a + b}`.
struct SumHandler;

fn sum_compute(input: &str) -> Option<String> {
    let parsed: serde_json::Value = serde_json::from_str(input).ok()?;
    let a = parsed.get("a")?.as_u64()?;
    let b = parsed.get("b")?.as_u64()?;
    let mut object = serde_json::Map::new();
    object.insert(
        "result".to_string(),
        serde_json::Value::Number(serde_json::Number::from(a + b)),
    );
    serde_json::to_string(&serde_json::Value::Object(object)).ok()
}

impl CallHandler for SumHandler {
    fn handle(&self, input: &str) -> Result<String, CallError> {
        sum_compute(input).ok_or(CallError::InvalidInput)
    }
}

/// Serves fixed bytes under the path `data`, nothing elsewhere.
struct OneFileHandler;

impl FileHandler for OneFileHandler {
    fn fetch(&self, path: &str) -> Result<Vec<u8>, FileError> {
        if path == "data" {
            Ok(vec![1, 2, 3])
        } else {
            Err(FileError::NotFound)
        }
    }
}

fn done_payload(outcome: CallOutcome) -> String {
    match outcome {
        CallOutcome::Done(payload) => payload,
        other => panic!("expected a completed call, got {:?}", other),
    }
}

#[test]
fn sync_call_round_trip() {
    let mut rpc: Rpc<SumHandler, OneFileHandler> = Rpc::new();
    rpc.on_generic_call_fn("sum", SumHandler);
    let reply = done_payload(rpc.call_raw("sum", "{\"a\":2,\"b\":3}"));
    assert_eq!(reply, "{\"result\":5}");
}

#[test]
fn sync_call_rejects_undecodable_input() {
    let mut rpc: Rpc<SumHandler, OneFileHandler> = Rpc::new();
    rpc.on_generic_call_fn("sum", SumHandler);
    let outcome = rpc.call_raw("sum", "{\"a\":\"x\",\"b\":3}");
    assert_eq!(outcome, CallOutcome::Fatal);
}

#[test]
fn unknown_key_answers_neutral_payload() {
    let mut rpc: Rpc<SumHandler, OneFileHandler> = Rpc::new();
    let reply = done_payload(rpc.call_raw("nonexistent", "{\"a\":1}"));
    assert_eq!(reply, "{ }");
}

#[test]
fn registration_replaces_previous_handler() {
    let mut rpc: Rpc<SumHandler, OneFileHandler> = Rpc::new();
    rpc.on_generic_call_fn("k", SumHandler);
    // re-registering the same key silently replaces the handler
    let driver = rpc.on_generic_call_async("k", SumHandler);
    assert_eq!(rpc.call_raw("k", "{\"a\":1,\"b\":1}"), CallOutcome::Enqueued);
    assert_eq!(driver.try_handle(&mut rpc), Ok(true));
    assert_eq!(
        rpc.take_response("k"),
        Some("{\"result\":2}".to_string())
    );
}

#[test]
fn externally_polled_bridge_round_trip() {
    let mut rpc: Rpc<SumHandler, OneFileHandler> = Rpc::new();
    let driver = rpc.on_generic_call_async("k", SumHandler);

    // nothing to collect before the request is enqueued
    assert_eq!(rpc.take_response("k"), None);
    assert_eq!(rpc.call_raw("k", "{\"a\":4,\"b\":6}"), CallOutcome::Enqueued);
    // the caller stays blocked until the driver polls
    assert_eq!(rpc.take_response("k"), None);

    assert_eq!(driver.try_handle(&mut rpc), Ok(true));
    // the response arrives exactly once
    assert_eq!(
        rpc.take_response("k"),
        Some("{\"result\":10}".to_string())
    );
    assert_eq!(rpc.take_response("k"), None);

    // an idle driver step handles nothing
    assert_eq!(driver.try_handle(&mut rpc), Ok(false));
}

#[test]
fn externally_polled_decode_failure_is_fatal_for_the_call() {
    let mut rpc: Rpc<SumHandler, OneFileHandler> = Rpc::new();
    let driver = rpc.on_generic_call_async("k", SumHandler);
    assert_eq!(rpc.call_raw("k", "not json"), CallOutcome::Enqueued);
    assert_eq!(driver.try_handle(&mut rpc), Err(CallError::InvalidInput));
    // the abandoned call never produces a response; the pair is idle again
    assert_eq!(rpc.take_response("k"), None);
    assert_eq!(rpc.call_raw("k", "{\"a\":1,\"b\":2}"), CallOutcome::Enqueued);
}

#[test]
fn same_key_async_calls_are_serialized() {
    let mut rpc: Rpc<SumHandler, OneFileHandler> = Rpc::new();
    let receiver = rpc.get_generic_call_async_receiver("m");

    assert_eq!(rpc.call_raw("m", "first"), CallOutcome::Enqueued);
    // a second call cannot even enqueue until the first round trip completes
    assert_eq!(rpc.call_raw("m", "second"), CallOutcome::Busy);

    // the poller sees the first request, untouched by the second call
    assert_eq!(receiver.try_receive(&mut rpc), Some("first".to_string()));
    assert!(receiver.is_pending_response(&rpc));
    assert_eq!(rpc.call_raw("m", "second"), CallOutcome::Busy);

    receiver.send_response(&mut rpc, "answer".to_string());
    assert!(!receiver.is_pending_response(&rpc));
    assert_eq!(rpc.take_response("m"), Some("answer".to_string()));

    // only now can the second call enqueue
    assert_eq!(rpc.call_raw("m", "second"), CallOutcome::Enqueued);
    assert_eq!(receiver.try_receive(&mut rpc), Some("second".to_string()));
}

#[test]
fn manual_receiver_sees_nothing_when_idle() {
    let mut rpc: Rpc<SumHandler, OneFileHandler> = Rpc::new();
    let receiver = rpc.get_generic_call_async_receiver("m");
    assert_eq!(receiver.try_receive(&mut rpc), None);
    assert!(!receiver.is_pending_response(&rpc));
}

#[test]
fn get_file_routes_by_key() {
    let mut rpc: Rpc<SumHandler, OneFileHandler> = Rpc::new();
    rpc.add_get_file_handler("files", OneFileHandler);

    assert_eq!(rpc.get_file("files", "data"), Ok(vec![1, 2, 3]));
    assert_eq!(rpc.get_file("files", "missing"), Err(FileError::NotFound));
    // an unknown key answers empty bytes, not an error
    assert_eq!(rpc.get_file("unknown", "data"), Ok(Vec::new()));
}

#[test]
fn gate_exposes_calls_and_files_only() {
    let mut rpc: Rpc<SumHandler, OneFileHandler> = Rpc::new();
    rpc.on_generic_call_fn("sum", SumHandler);
    rpc.add_get_file_handler("files", OneFileHandler);
    let mut gate = RpcGate::new(rpc);

    let reply = done_payload(gate.call_raw("sum", "{\"a\":20,\"b\":22}"));
    assert_eq!(reply, "{\"result\":42}");
    assert_eq!(done_payload(gate.call_raw("absent", "{}")), "{ }");
    assert_eq!(gate.get_file("files", "data"), Ok(vec![1, 2, 3]));
}

#[test]
fn empty_data_carries_nothing() {
    let empty = EmptyData::new();
    assert!(empty.value.is_none());
}
