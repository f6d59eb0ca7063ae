use strata::effects::CapKind;
use strata::host::{
    call_capability, data_inputs, digest_text, iso8601_utc, sha256_hex, summarize_output, ExternFnMeta, HostError,
    ParamKind, TraceEmitter,
};

#[test]
fn sha256_of_known_strings() {
    assert_eq!(sha256_hex(""), "sha256:e3b0c44298fc1c149afbf4c8996fb92427ae41e4649b934ca495991b7852b855");
    assert_eq!(sha256_hex("abc"), "sha256:ba7816bf8f01cfea414140de5dae2223b00361a396177a9cb410ff61f20015ad");
}

#[test]
fn digest_text_is_lowercase_hex() {
    assert_eq!(digest_text(&[0x00, 0x0f, 0xa5, 0xff]), "sha256:000fa5ff");
    assert_eq!(digest_text(&[]), "sha256:");
}

#[test]
fn host_error_messages() {
    assert_eq!(HostError::UnknownFunction("f".into()).message(), "unknown host function: f");
    assert_eq!(HostError::TypeError("bad".into()).message(), "type error: bad");
    assert_eq!(HostError::IoError("disk".into()).message(), "I/O error: disk");
    assert_eq!(HostError::RuntimeError("boom".into()).message(), "runtime error: boom");
}

#[test]
fn sequence_numbers_count_up_from_zero() {
    let mut t = TraceEmitter::new();
    assert!(t.is_enabled());
    assert_eq!(t.next_seq(), 0);
    assert_eq!(t.next_seq(), 1);
    assert_eq!(t.next_seq(), 2);
    let mut d = TraceEmitter::disabled();
    assert!(!d.is_enabled());
    assert_eq!(d.next_seq(), 0);
    assert!(!TraceEmitter::default().is_enabled());
}

#[test]
fn short_outputs_are_kept() {
    let out = summarize_output(true, "hello".to_string());
    assert_eq!(out.status, "ok");
    assert_eq!(out.value.as_deref(), Some("hello"));
    assert_eq!(out.value_size, 5);
    assert_eq!(out.value_hash, sha256_hex("hello"));
}

#[test]
fn long_outputs_keep_only_their_digest() {
    let text = "x".repeat(1025);
    let out = summarize_output(true, text.clone());
    assert_eq!(out.status, "ok");
    assert!(out.value.is_none());
    assert_eq!(out.value_size, 1025);
    assert_eq!(out.value_hash, sha256_hex(&text));

    let edge = "y".repeat(1024);
    assert_eq!(summarize_output(true, edge.clone()).value, Some(edge));
}

#[test]
fn error_outputs_are_always_kept() {
    let text = "e".repeat(2000);
    let out = summarize_output(false, text.clone());
    assert_eq!(out.status, "error");
    assert_eq!(out.value, Some(text));
    assert_eq!(out.value_size, 2000);
}

#[test]
fn output_size_counts_bytes() {
    let out = summarize_output(true, "é".to_string());
    assert_eq!(out.value_size, 2);
}

#[test]
fn capability_of_a_call_is_its_last_cap_param() {
    let meta = ExternFnMeta {
        params: vec![
            ParamKind::Cap { kind: CapKind::Fs, borrowed: true },
            ParamKind::Data { name: "path".into() },
            ParamKind::Cap { kind: CapKind::Net, borrowed: false },
        ],
    };
    let (cap, effect) = call_capability(&meta);
    assert_eq!(cap.kind, "NetCap");
    assert_eq!(cap.access, "consume");
    assert_eq!(effect, "Net");

    let meta = ExternFnMeta { params: vec![ParamKind::Cap { kind: CapKind::Fs, borrowed: true }] };
    let (cap, effect) = call_capability(&meta);
    assert_eq!(cap.kind, "FsCap");
    assert_eq!(cap.access, "borrow");
    assert_eq!(effect, "Fs");

    let (cap, effect) = call_capability(&ExternFnMeta { params: vec![ParamKind::Data { name: "x".into() }] });
    assert_eq!(cap.kind, "");
    assert_eq!(cap.access, "");
    assert_eq!(effect, "");
}

#[test]
fn data_inputs_follow_positions() {
    let meta = ExternFnMeta {
        params: vec![
            ParamKind::Cap { kind: CapKind::Fs, borrowed: true },
            ParamKind::Data { name: "path".into() },
            ParamKind::Data { name: "content".into() },
        ],
    };
    assert_eq!(data_inputs(&meta, 3), vec![("path".to_string(), 1), ("content".to_string(), 2)]);
    assert_eq!(data_inputs(&meta, 2), vec![("path".to_string(), 1)]);
    assert!(data_inputs(&meta, 1).is_empty());
}

#[test]
fn timestamps_of_known_instants() {
    assert_eq!(iso8601_utc(0, 0), "1970-01-01T00:00:00.000Z");
    assert_eq!(iso8601_utc(951_782_400, 7), "2000-02-29T00:00:00.007Z");
    assert_eq!(iso8601_utc(1_700_000_000, 123), "2023-11-14T22:13:20.123Z");
    assert_eq!(iso8601_utc(86_399, 999), "1970-01-01T23:59:59.999Z");
    assert_eq!(iso8601_utc(253_402_300_799, 0), "9999-12-31T23:59:59.000Z");
}
