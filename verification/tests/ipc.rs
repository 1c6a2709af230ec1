use chromelight::ipc::codec::{check_decode_input, check_encoded, check_trailing, CodecError, MAX_MESSAGE_BYTES};
use chromelight::ipc::handshake::{browser_decide, child_decide, child_hello, child_serve_step, ChildAction, HandshakeError};
use chromelight::ipc::message::{Hello, ProcessType, ToBrowser, ToChild, PROTOCOL_VERSION};
use chromelight::ipc::validate::{IpcViolation, ReceiverCtx, Validate};

fn ctx() -> ReceiverCtx {
    ReceiverCtx { expected_process_type: ProcessType::Renderer, expected_pid: Some(100) }
}

fn hello() -> Hello {
    Hello { protocol_version: PROTOCOL_VERSION, process_type: ProcessType::Renderer, pid: 100 }
}

#[test]
fn protocol_version_should_be_one_in_m0() {
    assert_eq!(PROTOCOL_VERSION, 1);
}

#[test]
fn hello_should_be_clone_and_eq() {
    let h = Hello { protocol_version: 1, process_type: ProcessType::Renderer, pid: 42 };
    assert_eq!(h.clone(), h);
}

#[test]
fn valid_hello_should_pass() {
    assert_eq!(hello().validate(&ctx()), Ok(()));
}

#[test]
fn hello_with_wrong_version_should_fail() {
    let h = Hello { protocol_version: PROTOCOL_VERSION + 1, ..hello() };
    assert_eq!(
        h.validate(&ctx()),
        Err(IpcViolation::VersionMismatch { got: PROTOCOL_VERSION + 1, expected: PROTOCOL_VERSION })
    );
}

#[test]
fn hello_claiming_browser_type_should_fail() {
    let h = Hello { process_type: ProcessType::Browser, ..hello() };
    assert_eq!(
        h.validate(&ctx()),
        Err(IpcViolation::ProcessTypeMismatch { claimed: ProcessType::Browser, expected: ProcessType::Renderer })
    );
}

#[test]
fn hello_with_foreign_pid_should_fail() {
    let h = Hello { pid: 999, ..hello() };
    assert_eq!(h.validate(&ctx()), Err(IpcViolation::PidMismatch { claimed: 999, expected: 100 }));
}

#[test]
fn hello_pid_should_be_skipped_when_receiver_does_not_know_pid() {
    let c = ReceiverCtx { expected_pid: None, ..ctx() };
    let h = Hello { pid: 999, ..hello() };
    assert_eq!(h.validate(&c), Ok(()));
}

#[test]
fn pong_and_to_child_messages_should_always_pass() {
    assert_eq!(ToBrowser::Pong(1).validate(&ctx()), Ok(()));
    assert_eq!(ToChild::Ping(1).validate(&ctx()), Ok(()));
    assert_eq!(ToChild::Shutdown.validate(&ctx()), Ok(()));
    assert_eq!(ToChild::HelloAck { accepted: true }.validate(&ctx()), Ok(()));
}

#[test]
fn decode_should_reject_oversized_input_before_parsing() {
    let big = vec![0u8; MAX_MESSAGE_BYTES + 1];
    assert!(matches!(check_decode_input(&big), Err(CodecError::TooLarge { size, max })
        if size == MAX_MESSAGE_BYTES + 1 && max == MAX_MESSAGE_BYTES));
    assert!(check_decode_input(&big[..MAX_MESSAGE_BYTES]).is_ok());
}

#[test]
fn decode_should_reject_trailing_bytes() {
    assert!(matches!(check_trailing(&[0xFF]), Err(CodecError::Trailing(1))));
    assert!(check_trailing(&[]).is_ok());
}

#[test]
fn encode_should_reject_oversized_messages() {
    assert!(matches!(check_encoded(vec![0u8; MAX_MESSAGE_BYTES + 1]), Err(CodecError::TooLarge { .. })));
    assert!(matches!(check_encoded(vec![1, 2, 3]), Ok(b) if b == vec![1, 2, 3]));
}

#[test]
fn browser_accepts_an_honest_child() {
    let (reply, outcome) = browser_decide(child_hello(ProcessType::Renderer, 100), &ctx());
    assert_eq!(reply, ToChild::HelloAck { accepted: true });
    assert_eq!(outcome, Ok(hello()));
    assert_eq!(child_decide(reply), Ok(()));
}

#[test]
fn browser_should_reject_child_claiming_wrong_process_type() {
    let (reply, outcome) = browser_decide(child_hello(ProcessType::Gpu, 100), &ctx());
    assert_eq!(reply, ToChild::HelloAck { accepted: false });
    assert_eq!(
        outcome,
        Err(HandshakeError::Violation(IpcViolation::ProcessTypeMismatch {
            claimed: ProcessType::Gpu,
            expected: ProcessType::Renderer
        }))
    );
    assert_eq!(child_decide(reply), Err(HandshakeError::Rejected));
}

#[test]
fn browser_rejects_anything_but_hello_first() {
    let (reply, outcome) = browser_decide(ToBrowser::Pong(3), &ctx());
    assert_eq!(reply, ToChild::HelloAck { accepted: false });
    assert_eq!(outcome, Err(HandshakeError::ExpectedHello));
}

#[test]
fn child_answers_pings_and_exits_on_shutdown() {
    assert_eq!(child_serve_step(ToChild::Ping(7)), ChildAction::Reply(ToBrowser::Pong(7)));
    assert_eq!(child_serve_step(ToChild::Shutdown), ChildAction::Exit);
    assert_eq!(child_serve_step(ToChild::HelloAck { accepted: true }), ChildAction::DuplicateHelloAck);
    assert_eq!(child_decide(ToChild::Ping(1)), Err(HandshakeError::ExpectedHelloAck));
}

#[test]
fn process_type_names() {
    assert_eq!(ProcessType::Browser.name(), "browser");
    assert_eq!(ProcessType::Renderer.name(), "renderer");
    assert_eq!(ProcessType::Gpu.name(), "gpu");
}

#[test]
fn violations_describe_what_was_claimed() {
    assert_eq!(IpcViolation::VersionMismatch { got: 2, expected: 1 }.message(), "protocol version 2 != expected 1");
    assert_eq!(
        IpcViolation::ProcessTypeMismatch { claimed: ProcessType::Gpu, expected: ProcessType::Renderer }.message(),
        "process type mismatch: claimed gpu, expected renderer"
    );
    assert_eq!(IpcViolation::PidMismatch { claimed: 7, expected: 100 }.message(), "pid mismatch: claimed 7, expected 100");
}

#[test]
fn codec_errors_describe_the_framing_failure() {
    assert_eq!(CodecError::TooLarge { size: 20, max: 16 }.message(), "message too large: 20 bytes > 16");
    assert_eq!(CodecError::Trailing(3).message(), "trailing bytes after message: 3");
    let e = CodecError::Postcard(postcard::Error::DeserializeUnexpectedEnd);
    assert!(e.message().starts_with("postcard: "));
    assert!(e.message().len() > "postcard: ".len());
}
