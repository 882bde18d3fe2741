use evm_transfer::address::validate_receiver;
use evm_transfer::error::TransferError;
use evm_transfer::transfer::{
    explorer_url, initial_state, is_terminal, step, ChainEvent, TransferRequest, TransferState,
    PRECISION,
};

const GOOD_ADDRESS: &str = "0x00000000000000000000000000000000000000ff";

fn request(address: &str, network: &str, amount: &str) -> TransferRequest {
    TransferRequest {
        receiver_address: address.to_string(),
        network: network.to_string(),
        amount: amount.to_string(),
    }
}

/// Drives the pipeline up to the state after the balance probe succeeded.
fn drive_past_balance(req: &TransferRequest) -> TransferState {
    let st = initial_state();
    let st = step(st, req, ChainEvent::SignerResolved { address: "0xsigner".to_string() });
    assert!(matches!(st, TransferState::Connecting { .. }));
    let st = step(st, req, ChainEvent::Connected);
    assert!(matches!(st, TransferState::CheckingBalance { .. }));
    step(st, req, ChainEvent::BalanceFetched)
}

fn drive_to_success(req: &TransferRequest, tx_id: &str) -> (String, String) {
    let st = drive_past_balance(req);
    assert!(matches!(st, TransferState::AwaitingSubmission { .. }));
    let st = step(st, req, ChainEvent::TransactionSubmitted { tx_id: tx_id.to_string() });
    assert!(matches!(st, TransferState::AwaitingConfirmation { .. }));
    let st = step(st, req, ChainEvent::Confirmed);
    assert!(is_terminal(&st));
    match st {
        TransferState::Succeeded { tx_id, explorer_url } => (tx_id, explorer_url),
        other => panic!("expected success, got a different terminal state: {:?}", kind_of(&other)),
    }
}

fn kind_of(st: &TransferState) -> &'static str {
    match st {
        TransferState::ResolvingSigner => "ResolvingSigner",
        TransferState::Connecting { .. } => "Connecting",
        TransferState::CheckingBalance { .. } => "CheckingBalance",
        TransferState::AwaitingSubmission { .. } => "AwaitingSubmission",
        TransferState::AwaitingConfirmation { .. } => "AwaitingConfirmation",
        TransferState::Succeeded { .. } => "Succeeded",
        TransferState::Failed { .. } => "Failed",
    }
}

#[test]
fn end_to_end_success_scenario() {
    let req = request(GOOD_ADDRESS, "http://localhost:8545", "1.5");
    let st = drive_past_balance(&req);
    match &st {
        TransferState::AwaitingSubmission { receiver, value, .. } => {
            assert_eq!(*value, 1_500_000_000_000_000_000u64);
            assert_eq!(receiver.len(), 20);
            assert_eq!(receiver[19], 0xff);
            assert_eq!(&receiver[..19], &[0u8; 19]);
        },
        other => panic!("expected AwaitingSubmission, got {}", kind_of(other)),
    }
    let (tx_id, url) = drive_to_success(&req, "0xfeedbeef");
    assert_eq!(tx_id, "0xfeedbeef");
    assert_eq!(url, format!("{}{}", "https://snowtrace.io/tx/", tx_id));
}

#[test]
fn explorer_url_is_base_plus_tx_id() {
    assert_eq!(explorer_url("0xabc"), "https://snowtrace.io/tx/0xabc");
    assert_eq!(explorer_url(""), "https://snowtrace.io/tx/");
}

#[test]
fn malformed_receiver_fails_before_submission() {
    for bad in ["0x123", "", "0xzz345678901234567890123456789012345678zz",
        "00000000000000000000000000000000000000ff0", "0X00000000000000000000000000000000000000ff"] {
        let req = request(bad, "http://localhost:8545", "1.5");
        let st = drive_past_balance(&req);
        match st {
            TransferState::Failed { error } => {
                assert!(matches!(error, TransferError::InvalidReceiverAddress(_)));
            },
            other => panic!("expected failure for {:?}, got {}", bad, kind_of(&other)),
        }
    }
}

#[test]
fn receiver_without_prefix_is_accepted() {
    let bytes = validate_receiver("00000000000000000000000000000000000000ff").unwrap();
    assert_eq!(bytes.len(), 20);
    assert_eq!(bytes[19], 0xff);
    let upper = validate_receiver("0xABCDEF0000000000000000000000000000000000").unwrap();
    assert_eq!(upper[0], 0xab);
    assert_eq!(upper[1], 0xcd);
    assert_eq!(upper[2], 0xef);
}

#[test]
fn bad_amount_fails_at_normalization() {
    let req = request(GOOD_ADDRESS, "http://localhost:8545", "abc");
    let st = drive_past_balance(&req);
    match st {
        TransferState::Failed { error } => match error {
            TransferError::InvalidAmountFormat(m) => assert_eq!(m, "Failed to parse amount"),
            other => panic!("wrong error kind: {}", other.message()),
        },
        other => panic!("expected failure, got {}", kind_of(&other)),
    }
}

#[test]
fn amount_checked_before_receiver() {
    // Both fields bad: the amount check comes first in the pipeline.
    let req = request("0xnot-an-address", "http://localhost:8545", "abc");
    let st = drive_past_balance(&req);
    match st {
        TransferState::Failed { error } => {
            assert!(matches!(error, TransferError::InvalidAmountFormat(_)));
        },
        other => panic!("expected failure, got {}", kind_of(&other)),
    }
}

#[test]
fn unreachable_network_fails_fast_with_network_error() {
    // The amount is malformed too: the connection failure must win,
    // because normalization only happens after the balance probe.
    let req = request(GOOD_ADDRESS, "http://unreachable.invalid", "abc");
    let st = initial_state();
    let st = step(st, &req, ChainEvent::SignerResolved { address: "0xsigner".to_string() });
    let st = step(st, &req, ChainEvent::ConnectFailed { detail: "connection refused".to_string() });
    match st {
        TransferState::Failed { error } => match error {
            TransferError::NetworkError(m) => {
                assert_eq!(m, "connection refused");
                assert_eq!(
                    TransferError::NetworkError(m).message(),
                    "Network connection error: connection refused"
                );
            },
            other => panic!("wrong error kind: {}", other.message()),
        },
        other => panic!("expected failure, got {}", kind_of(&other)),
    }
}

#[test]
fn every_stage_failure_maps_to_its_error_kind() {
    let req = request(GOOD_ADDRESS, "http://localhost:8545", "1.5");

    let st = initial_state();
    let st = step(st, &req, ChainEvent::SignerFailed { detail: "bad key".to_string() });
    assert!(matches!(st, TransferState::Failed { error: TransferError::InvalidPrivateKey(_) }));

    let st = initial_state();
    let st = step(st, &req, ChainEvent::SignerResolved { address: "0xs".to_string() });
    let st = step(st, &req, ChainEvent::Connected);
    let st = step(st, &req, ChainEvent::BalanceFailed { detail: "rpc down".to_string() });
    assert!(matches!(st, TransferState::Failed { error: TransferError::GetBalanceError(_) }));

    let st = drive_past_balance(&req);
    let st = step(st, &req, ChainEvent::SubmitFailed { detail: "nonce".to_string() });
    assert!(matches!(st, TransferState::Failed { error: TransferError::TransactionError(_) }));

    let st = drive_past_balance(&req);
    let st = step(st, &req, ChainEvent::TransactionSubmitted { tx_id: "0x1".to_string() });
    let st = step(st, &req, ChainEvent::ConfirmFailed { detail: "timeout".to_string() });
    assert!(matches!(st, TransferState::Failed { error: TransferError::TransactionError(_) }));
}

#[test]
fn error_messages_name_the_failed_stage() {
    let d = || "why".to_string();
    assert_eq!(TransferError::NetworkError(d()).message(), "Network connection error: why");
    assert_eq!(TransferError::InvalidPrivateKey(d()).message(), "Invalid private key: why");
    assert_eq!(TransferError::GetBalanceError(d()).message(), "Failed to get asset balance: why");
    assert_eq!(TransferError::InvalidAmountFormat(d()).message(), "Invalid amount format: why");
    assert_eq!(
        TransferError::InvalidReceiverAddress(d()).message(),
        "Invalid receiver address: why"
    );
    assert_eq!(TransferError::TransactionError(d()).message(), "Transaction failed: why");
}

#[test]
fn resubmission_is_not_deduplicated() {
    // The same logical request, submitted twice: the chain assigns two
    // distinct transaction ids, and the pipeline reports two distinct
    // transactions. That is the expected behavior, not a bug.
    let req = request(GOOD_ADDRESS, "http://localhost:8545", "1.5");
    let (tx1, url1) = drive_to_success(&req, "0xaaa");
    let (tx2, url2) = drive_to_success(&req, "0xbbb");
    assert_ne!(tx1, tx2);
    assert_ne!(url1, url2);
    assert_eq!(PRECISION, 18);
}
