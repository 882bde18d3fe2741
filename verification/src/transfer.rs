//! The transfer orchestrator: a strict forward pipeline from a received
//! request to one terminal success state or one of six failure states.
//!
//! The pipeline is a state machine. Each non-terminal state names the one
//! piece of chain-facing work a driver must perform next; the driver hands
//! the result back as a [`ChainEvent`] and [`step`] decides everything
//! else: the next stage, the error kind of a failure, and the two checks
//! the core performs itself between the balance probe and submission —
//! amount normalization and receiver validation.

use vstd::prelude::*;
use vstd::string::StringExecFns;
use crate::address::address_bytes;
use crate::address::hex_body;
use crate::address::is_address_string;
use crate::address::validate_receiver;
use crate::amount::amount_error_text;
use crate::amount::normalize;
use crate::amount::spec_normalize;
use crate::error::TransferError;

verus! {

/// Decimal places of the chain's native asset: one unit is `10^PRECISION`
/// smallest units.
pub const PRECISION: u32 = 18;

/// A transfer request as received: every field still unchecked text.
pub struct TransferRequest {
    pub receiver_address: String,
    pub network: String,
    pub amount: String,
}

/// The stages of one transfer, in the only order they can be visited.
/// Each non-terminal state says what the driver must do next; `Succeeded`
/// and `Failed` are terminal.
pub enum TransferState {
    /// Resolve the signing identity from the configured key.
    ResolvingSigner,
    /// Connect an RPC client to the request's network endpoint.
    Connecting { signer: String },
    /// Query the signer's balance as a liveness probe; its value is not
    /// used to gate the transfer.
    CheckingBalance { signer: String },
    /// Submit the transfer of `value` smallest units to `receiver`.
    AwaitingSubmission { signer: String, receiver: Vec<u8>, value: u64 },
    /// Wait until the submitted transaction is mined.
    AwaitingConfirmation { tx_id: String },
    /// The transaction is confirmed.
    Succeeded { tx_id: String, explorer_url: String },
    /// Some stage failed; the pipeline stops here.
    Failed { error: TransferError },
}

/// What the driver reports back after performing the work a state asked
/// for. Each failure carries the collaborator's diagnostic text.
pub enum ChainEvent {
    SignerResolved { address: String },
    SignerFailed { detail: String },
    Connected,
    ConnectFailed { detail: String },
    BalanceFetched,
    BalanceFailed { detail: String },
    TransactionSubmitted { tx_id: String },
    SubmitFailed { detail: String },
    Confirmed,
    ConfirmFailed { detail: String },
}

/// Whether `ev` answers the work that state `st` asked for. Terminal
/// states ask for nothing.
pub open spec fn event_fits(st: TransferState, ev: ChainEvent) -> bool {
    match st {
        TransferState::ResolvingSigner => ev is SignerResolved || ev is SignerFailed,
        TransferState::Connecting { .. } => ev is Connected || ev is ConnectFailed,
        TransferState::CheckingBalance { .. } => ev is BalanceFetched || ev is BalanceFailed,
        TransferState::AwaitingSubmission { .. } => ev is TransactionSubmitted
            || ev is SubmitFailed,
        TransferState::AwaitingConfirmation { .. } => ev is Confirmed || ev is ConfirmFailed,
        TransferState::Succeeded { .. } => false,
        TransferState::Failed { .. } => false,
    }
}

/// The explorer link of a transaction: the fixed base followed by the
/// transaction id, nothing in between.
pub open spec fn spec_explorer_url(tx_id: Seq<char>) -> Seq<char> {
    "https://snowtrace.io/tx/"@ + tx_id
}

/// What the balance-checked stage steps to: the two core checks run in
/// order — amount first, then receiver — and their first failure is
/// terminal; when both pass, the pipeline asks for submission.
pub open spec fn after_balance(signer: String, req: TransferRequest, next: TransferState) -> bool {
    if spec_normalize(req.amount@, PRECISION as nat) is None {
        &&& next matches TransferState::Failed { error }
        &&& error matches TransferError::InvalidAmountFormat(m)
        &&& m@ == amount_error_text(req.amount@)
    } else if !is_address_string(req.receiver_address@) {
        &&& next matches TransferState::Failed { error }
        &&& error matches TransferError::InvalidReceiverAddress(m)
        &&& m@ == "expected 40 hexadecimal digits"@
    } else {
        &&& next matches TransferState::AwaitingSubmission { signer: sg, receiver, value }
        &&& sg == signer
        &&& receiver@ == address_bytes(hex_body(req.receiver_address@))
        &&& spec_normalize(req.amount@, PRECISION as nat) == Some(value)
    }
}

/// The transition relation of the pipeline: from state `st` under event
/// `ev`, `next` is the state [`step`] returns.
pub open spec fn step_spec(
    st: TransferState,
    req: TransferRequest,
    ev: ChainEvent,
    next: TransferState,
) -> bool {
    match (st, ev) {
        (
            TransferState::ResolvingSigner,
            ChainEvent::SignerResolved { address },
        ) => next == (TransferState::Connecting { signer: address }),
        (
            TransferState::ResolvingSigner,
            ChainEvent::SignerFailed { detail },
        ) => next == (TransferState::Failed { error: TransferError::InvalidPrivateKey(detail) }),
        (
            TransferState::Connecting { signer },
            ChainEvent::Connected,
        ) => next == (TransferState::CheckingBalance { signer }),
        (
            TransferState::Connecting { .. },
            ChainEvent::ConnectFailed { detail },
        ) => next == (TransferState::Failed { error: TransferError::NetworkError(detail) }),
        (
            TransferState::CheckingBalance { signer },
            ChainEvent::BalanceFetched,
        ) => after_balance(signer, req, next),
        (
            TransferState::CheckingBalance { .. },
            ChainEvent::BalanceFailed { detail },
        ) => next == (TransferState::Failed { error: TransferError::GetBalanceError(detail) }),
        (
            TransferState::AwaitingSubmission { .. },
            ChainEvent::TransactionSubmitted { tx_id },
        ) => next == (TransferState::AwaitingConfirmation { tx_id }),
        (
            TransferState::AwaitingSubmission { .. },
            ChainEvent::SubmitFailed { detail },
        ) => next == (TransferState::Failed { error: TransferError::TransactionError(detail) }),
        (TransferState::AwaitingConfirmation { tx_id }, ChainEvent::Confirmed) => {
            &&& next matches TransferState::Succeeded { tx_id: t, explorer_url: u }
            &&& t == tx_id
            &&& u@ == spec_explorer_url(tx_id@)
        },
        (
            TransferState::AwaitingConfirmation { .. },
            ChainEvent::ConfirmFailed { detail },
        ) => next == (TransferState::Failed { error: TransferError::TransactionError(detail) }),
        _ => false,
    }
}

/// The state every transfer starts in.
pub fn initial_state() -> (st: TransferState)
    ensures
        st == TransferState::ResolvingSigner,
{
    TransferState::ResolvingSigner
}

/// Whether the pipeline has reached one of its two terminal shapes.
pub fn is_terminal(st: &TransferState) -> (r: bool)
    ensures
        r == (*st is Succeeded || *st is Failed),
{
    match st {
        TransferState::Succeeded { .. } => true,
        TransferState::Failed { .. } => true,
        _ => false,
    }
}

/// The explorer link of a confirmed transaction: the fixed base URL with
/// the transaction id appended, nothing in between.
pub fn explorer_url(tx_id: &str) -> (r: String)
    ensures
        r@ == spec_explorer_url(tx_id@),
{
    String::from_str("https://snowtrace.io/tx/").concat(tx_id)
}

/// Advances the pipeline by one stage: consumes the driver's answer to the
/// work that `st` asked for and returns the next state, as fixed by
/// [`step_spec`].
pub fn step(st: TransferState, req: &TransferRequest, ev: ChainEvent) -> (next: TransferState)
    requires
        event_fits(st, ev),
    ensures
        step_spec(st, *req, ev, next),
{
    match (st, ev) {
        (TransferState::ResolvingSigner, ChainEvent::SignerResolved { address }) => {
            TransferState::Connecting { signer: address }
        },
        (TransferState::ResolvingSigner, ChainEvent::SignerFailed { detail }) => {
            TransferState::Failed { error: TransferError::InvalidPrivateKey(detail) }
        },
        (TransferState::Connecting { signer }, ChainEvent::Connected) => {
            TransferState::CheckingBalance { signer }
        },
        (TransferState::Connecting { .. }, ChainEvent::ConnectFailed { detail }) => {
            TransferState::Failed { error: TransferError::NetworkError(detail) }
        },
        (TransferState::CheckingBalance { signer }, ChainEvent::BalanceFetched) => {
            match normalize(req.amount.as_str(), PRECISION) {
                Err(e) => TransferState::Failed { error: e },
                Ok(value) => match validate_receiver(req.receiver_address.as_str()) {
                    Err(e) => TransferState::Failed { error: e },
                    Ok(receiver) => TransferState::AwaitingSubmission { signer, receiver, value },
                },
            }
        },
        (TransferState::CheckingBalance { .. }, ChainEvent::BalanceFailed { detail }) => {
            TransferState::Failed { error: TransferError::GetBalanceError(detail) }
        },
        (TransferState::AwaitingSubmission { .. }, ChainEvent::TransactionSubmitted { tx_id }) => {
            TransferState::AwaitingConfirmation { tx_id }
        },
        (TransferState::AwaitingSubmission { .. }, ChainEvent::SubmitFailed { detail }) => {
            TransferState::Failed { error: TransferError::TransactionError(detail) }
        },
        (TransferState::AwaitingConfirmation { tx_id }, ChainEvent::Confirmed) => {
            let url = explorer_url(tx_id.as_str());
            TransferState::Succeeded { tx_id, explorer_url: url }
        },
        (TransferState::AwaitingConfirmation { .. }, ChainEvent::ConfirmFailed { detail }) => {
            TransferState::Failed { error: TransferError::TransactionError(detail) }
        },
        _ => vstd::pervasive::unreached(),
    }
}

/// The states a run can stand in before submission has been asked for.
pub open spec fn pre_submission(st: TransferState) -> bool {
    ||| st is ResolvingSigner
    ||| st is Connecting
    ||| st is CheckingBalance
    ||| st is Failed
}

/// Whether the pipeline can go from `st` to `end` by consuming the events
/// of `evs` in order, each answering the state it meets.
pub open spec fn reachable_from(
    req: TransferRequest,
    st: TransferState,
    evs: Seq<ChainEvent>,
    end: TransferState,
) -> bool
    decreases evs.len(),
{
    if evs.len() == 0 {
        end == st
    } else {
        exists|mid: TransferState|
            {
                &&& event_fits(st, evs[0])
                &&& #[trigger] step_spec(st, req, evs[0], mid)
                &&& reachable_from(req, mid, evs.skip(1), end)
            }
    }
}

/// A request with a malformed receiver address never reaches submission:
/// from any state before submission, every run of the pipeline stays
/// before submission, because the receiver check fails the pipeline first.
pub proof fn lemma_bad_receiver_never_submits(
    req: TransferRequest,
    st: TransferState,
    evs: Seq<ChainEvent>,
    end: TransferState,
)
    requires
        !is_address_string(req.receiver_address@),
        pre_submission(st),
        reachable_from(req, st, evs, end),
    ensures
        pre_submission(end),
    decreases evs.len(),
{
    if evs.len() > 0 {
        let mid = choose|mid: TransferState|
            {
                &&& event_fits(st, evs[0])
                &&& #[trigger] step_spec(st, req, evs[0], mid)
                &&& reachable_from(req, mid, evs.skip(1), end)
            };
        assert(pre_submission(mid));
        lemma_bad_receiver_never_submits(req, mid, evs.skip(1), end);
    }
}

/// When the balance probe has passed and the amount is well-formed but the
/// receiver address is not, the pipeline fails with
/// `InvalidReceiverAddress` instead of asking for submission.
pub proof fn lemma_bad_receiver_error_kind(
    signer: String,
    req: TransferRequest,
    next: TransferState,
)
    requires
        step_spec(
            TransferState::CheckingBalance { signer },
            req,
            ChainEvent::BalanceFetched,
            next,
        ),
        spec_normalize(req.amount@, PRECISION as nat) is Some,
        !is_address_string(req.receiver_address@),
    ensures
        next matches TransferState::Failed { error } && error is InvalidReceiverAddress,
{
}

/// A connection failure is terminal with `NetworkError` for every request,
/// whatever stands in its amount field: the pipeline fails before amount
/// normalization is ever consulted.
pub proof fn lemma_connect_failure_fails_fast(
    signer: String,
    req: TransferRequest,
    detail: String,
    next: TransferState,
)
    requires
        step_spec(
            TransferState::Connecting { signer },
            req,
            ChainEvent::ConnectFailed { detail },
            next,
        ),
    ensures
        next == (TransferState::Failed { error: TransferError::NetworkError(detail) }),
{
}

/// Two confirmed submissions with distinct transaction ids end in distinct
/// outcomes: the pipeline reports exactly the id the chain assigned to
/// each submission, so resubmitting the same request deduplicates nothing.
pub proof fn lemma_distinct_submissions(
    req1: TransferRequest,
    req2: TransferRequest,
    t1: String,
    t2: String,
    n1: TransferState,
    n2: TransferState,
)
    requires
        step_spec(
            TransferState::AwaitingConfirmation { tx_id: t1 },
            req1,
            ChainEvent::Confirmed,
            n1,
        ),
        step_spec(
            TransferState::AwaitingConfirmation { tx_id: t2 },
            req2,
            ChainEvent::Confirmed,
            n2,
        ),
        t1@ != t2@,
    ensures
        n1 matches TransferState::Succeeded { tx_id: a, .. } && (n2 matches
            TransferState::Succeeded { tx_id: b, .. } && a@ != b@),
{
}

} // verus!

