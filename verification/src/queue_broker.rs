//! The protocol between workers and the broker of the indexing queue.
//!
//! The queue file is the durable truth. The protocol moves requests and replies
//! between processes; what a request does to the queue is settled elsewhere.

use vstd::prelude::*;

use crate::phrase;
use crate::phrase::say;
use crate::error;
use crate::error::Error;
use crate::index_queue;
use crate::index_queue::{BrokerRegistration, ClaimHandle, ClaimedJob, EnqueueOutcome};
use crate::strings;
use crate::strings::{chars_of, ends_with, same_text, text_between};
use crate::wal::WalCursor;

verus! {

/// The version of the protocol.
pub const QUEUE_PROTOCOL_VERSION: u32 = 1;

/// The most bytes that a message may have.
pub const MAX_QUEUE_MESSAGE_BYTES: usize = 1_048_576;

/// How long a readiness probe waits for the store.
pub const READY_BACKEND_TIMEOUT_MS: u64 = 500;

/// How long a broker that is shutting down still answers, so that nothing new is
/// sent to it.
pub const READINESS_DRAIN_DELAY_MS: u64 = 5_000;

/// How many requests may wait for the broker.
pub const BROKER_CHANNEL_CAPACITY: usize = 4_096;

/// How many requests the broker commits at a time.
pub const BROKER_MAX_BATCH: usize = 512;

/// How long a client waits for an answer.
pub const BROKER_REQUEST_TIMEOUT_MS: u64 = 6_000;

/// A request.
#[derive(Debug)]
pub struct QueueRequest {
    pub version: u32,
    pub operation: QueueOperation,
}

/// What is asked of the queue.
#[derive(Debug)]
pub enum QueueOperation {
    Enqueue { namespace: String, target_cursor: WalCursor },
    Claim { worker_id: String, lease_ms: u64 },
    Heartbeat { handle: ClaimHandle, lease_ms: u64 },
    Complete { handle: ClaimHandle },
    Fail { handle: ClaimHandle, retry_delay_ms: u64 },
}

/// An answer.
#[derive(Debug)]
pub struct QueueResponse {
    pub version: u32,
    pub result: QueueResponseKind,
}

/// What a request led to.
#[derive(Debug)]
pub enum QueueResponseKind {
    Enqueued { outcome: EnqueueOutcome },
    Claimed { job: Option<ClaimedJob> },
    Heartbeat { lease_expires_at_ms: u64 },
    Completed,
    Failed,
}

/// Why a request was refused.
#[derive(Clone, Copy, Debug, PartialEq, Eq, Structural)]
pub enum QueueErrorKind {
    InvalidRequest,
    InvalidClaim,
    StaleBroker,
    Internal,
}

/// What a refused request is answered.
#[derive(Debug)]
pub struct QueueErrorBody {
    pub kind: QueueErrorKind,
    pub message: String,
}

// ---------------------------------------------------------------------------
// Addresses
// ---------------------------------------------------------------------------

/// The parts of a URL that are looked at.
#[derive(Debug)]
pub struct ParsedUrl {
    pub scheme: String,
    pub text: String,
}

/// Which characters `char::is_whitespace` accepts.
pub uninterp spec fn whitespace(c: char) -> bool;

/// The scheme and the text of the URL that `url::Url::parse` reads, or else what its
/// error says.
pub uninterp spec fn parsed_url(text: Seq<char>) -> Result<(Seq<char>, Seq<char>), Seq<char>>;

/// The text of the URL that `url::Url::join` gives for a base and a reference, or else
/// what its error, or that of the base, says.
pub uninterp spec fn joined_url(base: Seq<char>, reference: Seq<char>) -> Result<
    Seq<char>,
    Seq<char>,
>;

/// Calls `char::is_whitespace`. Claimed: the answer depends on the character alone.
#[verifier::external_body]
fn is_whitespace(c: char) -> (b: bool)
    ensures
        b == whitespace(c),
{
    c.is_whitespace()
}

/// Calls `url::Url::parse`, and keeps the scheme and the text of the URL, or the text of
/// the error. Claimed: whether there is one, and what they are, depends on the text
/// alone.
#[verifier::external_body]
fn parse_url(text: &str) -> (r: Result<ParsedUrl, String>)
    ensures
        match r {
            Ok(u) => parsed_url(text@) == Ok::<(Seq<char>, Seq<char>), Seq<char>>(
                (u.scheme@, u.text@),
            ),
            Err(e) => parsed_url(text@) == Err::<(Seq<char>, Seq<char>), Seq<char>>(e@),
        },
{
    match url::Url::parse(text) {
        Ok(url) => Ok(ParsedUrl { scheme: url.scheme().to_owned(), text: url.into() }),
        Err(error) => Err(error.to_string()),
    }
}

/// Calls `url::Url::join` on a base that is given as text, and keeps the text of the
/// URL, or the text of the error. Claimed: whether there is one, and what it is, depends
/// on the two texts alone.
#[verifier::external_body]
fn join_url(base: &str, reference: &str) -> (r: Result<String, String>)
    ensures
        match r {
            Ok(u) => joined_url(base@, reference@) == Ok::<Seq<char>, Seq<char>>(u@),
            Err(e) => joined_url(base@, reference@) == Err::<Seq<char>, Seq<char>>(e@),
        },
{
    match url::Url::parse(base) {
        Ok(base) => match base.join(reference) {
            Ok(url) => Ok(url.into()),
            Err(error) => Err(error.to_string()),
        },
        Err(error) => Err(error.to_string()),
    }
}

/// A text without the whitespace that it starts with.
pub open spec fn without_leading(s: Seq<char>) -> Seq<char>
    decreases s.len(),
{
    if s.len() > 0 && whitespace(s[0]) {
        without_leading(s.drop_first())
    } else {
        s
    }
}

/// A text without the whitespace that it ends with.
pub open spec fn without_trailing(s: Seq<char>) -> Seq<char>
    decreases s.len(),
{
    if s.len() > 0 && whitespace(s.last()) {
        without_trailing(s.drop_last())
    } else {
        s
    }
}

/// A text without the whitespace around it.
pub open spec fn trimmed(text: Seq<char>) -> Seq<char> {
    without_trailing(without_leading(text))
}

fn trim(text: &str) -> (r: String)
    ensures
        r@ == trimmed(text@),
{
    let chars = chars_of(text);
    let len: usize = chars.len();
    let mut from: usize = 0;
    assert(chars@.skip(0) =~= chars@);
    while from < len && is_whitespace(chars[from])
        invariant
            from <= len,
            len == chars@.len(),
            without_leading(text@) == without_leading(chars@.skip(from as int)),
        decreases len - from,
    {
        assert(chars@.skip(from as int).drop_first() =~= chars@.skip(from + 1));
        from = from + 1;
    }
    let ghost rest = chars@.skip(from as int);
    assert(without_leading(text@) == rest);
    let mut to: usize = len;
    assert(chars@.subrange(from as int, len as int) =~= rest);
    while from < to && is_whitespace(chars[to - 1])
        invariant
            from <= to <= len,
            len == chars@.len(),
            without_trailing(rest) == without_trailing(chars@.subrange(from as int, to as int)),
        decreases to,
    {
        let ghost part = chars@.subrange(from as int, to as int);
        assert(part.last() == chars@[to - 1]);
        assert(part.drop_last() =~= chars@.subrange(from as int, to - 1));
        to = to - 1;
    }
    let ghost part = chars@.subrange(from as int, to as int);
    assert(part.len() > 0 ==> part.last() == chars@[to - 1]);
    text_between(&chars, from, to)
}

/// Where requests go, below the address of a broker.
pub open spec fn queue_path() -> Seq<char> {
    "v1/indexing-queue"@
}

/// An address that ends in a slash.
pub open spec fn with_slash(address: Seq<char>) -> Seq<char> {
    if strings::has_suffix(address, "/"@) {
        address
    } else {
        address.push('/')
    }
}

/// Why an address is refused, with what the error of its URL says.
pub open spec fn bad_address(address: Seq<char>, why: Seq<char>) -> Seq<char> {
    "invalid registered broker address "@ + phrase::quoted(address) + ": "@ + why
}

/// What an address leads to: one that is not empty once `given` is left of it, that is a
/// URL, and that uses HTTP. Of another, why it is refused.
pub open spec fn endpoint_of(
    address: Seq<char>,
    given: Seq<char>,
    parsed: Result<(Seq<char>, Seq<char>), Seq<char>>,
    joined: Result<Seq<char>, Seq<char>>,
) -> Result<Seq<char>, Seq<char>> {
    if given.len() == 0 {
        Err("registered broker address is empty"@)
    } else {
        match parsed {
            Err(why) => Err(bad_address(address, why)),
            Ok((scheme, _)) => if scheme != "http"@ && scheme != "https"@ {
                Err(
                    "registered broker address must use http or https, got "@ + phrase::quoted(
                        scheme,
                    ),
                )
            } else {
                match joined {
                    Err(why) => Err(bad_address(address, why)),
                    Ok(u) => Ok(u),
                }
            },
        }
    }
}

/// The endpoint that requests to an address go to, or why it is refused.
pub open spec fn endpoint_at(address: Seq<char>) -> Result<Seq<char>, Seq<char>> {
    let given = trimmed(address);
    let base = with_slash(given);
    endpoint_of(address, given, parsed_url(base), joined_url(base, queue_path()))
}

fn invalid_broker(text: &str) -> (e: Error)
    ensures
        e is InvalidQueueBroker,
        e->InvalidQueueBroker_0@ == text@,
{
    Error::InvalidQueueBroker(text.to_owned())
}

fn refused_address(address: &str, why: &str) -> (e: Error)
    ensures
        e is InvalidQueueBroker,
        e->InvalidQueueBroker_0@ == bad_address(address@, why@),
{
    Error::InvalidQueueBroker(
        say("invalid registered broker address ").quote(address).and(": ").and(why).done(),
    )
}

/// Decides about an address, given what is left of it without the whitespace around
/// it, how that reads as a URL and what the path of the queue below it is.
pub fn choose_endpoint(
    address: &str,
    given: &str,
    parsed: Result<ParsedUrl, String>,
    joined: Result<String, String>,
) -> (r: Result<String, Error>)
    ensures
        ({
            let p: Result<(Seq<char>, Seq<char>), Seq<char>> = match parsed {
                Ok(u) => Ok((u.scheme@, u.text@)),
                Err(e) => Err(e@),
            };
            let j: Result<Seq<char>, Seq<char>> = match joined {
                Ok(u) => Ok(u@),
                Err(e) => Err(e@),
            };
            match endpoint_of(address@, given@, p, j) {
                Ok(u) => r is Ok && r->Ok_0@ == u,
                Err(why) => r is Err && r->Err_0 is InvalidQueueBroker
                    && r->Err_0->InvalidQueueBroker_0@ == why,
            }
        }),
{
    if given.unicode_len() == 0 {
        return Err(invalid_broker("registered broker address is empty"));
    }
    let url = match parsed {
        Ok(url) => url,
        Err(why) => return Err(refused_address(address, why.as_str())),
    };
    if !same_text(url.scheme.as_str(), "http") && !same_text(url.scheme.as_str(), "https") {
        return Err(
            Error::InvalidQueueBroker(
                say("registered broker address must use http or https, got ").quote(
                    url.scheme.as_str(),
                ).done(),
            ),
        );
    }
    match joined {
        Ok(u) => Ok(u),
        Err(why) => Err(refused_address(address, why.as_str())),
    }
}

/// Where requests to the broker at an address go.
pub fn broker_endpoint(address: &str) -> (r: Result<String, Error>)
    ensures
        match endpoint_at(address@) {
            Ok(u) => r is Ok && r->Ok_0@ == u,
            Err(why) => r is Err && r->Err_0 is InvalidQueueBroker
                && r->Err_0->InvalidQueueBroker_0@ == why,
        },
{
    let given = trim(address);
    let mut base = given.clone();
    if !ends_with(base.as_str(), "/") {
        base.push('/');
    }
    let parsed = parse_url(base.as_str());
    let joined = join_url(base.as_str(), "v1/indexing-queue");
    choose_endpoint(address, given.as_str(), parsed, joined)
}

/// Whether a broker can be reached at an address.
pub fn validate_broker_address(address: &str) -> (r: Result<(), Error>)
    ensures
        match endpoint_at(address@) {
            Ok(_) => r is Ok,
            Err(why) => r is Err && r->Err_0 is InvalidQueueBroker
                && r->Err_0->InvalidQueueBroker_0@ == why,
        },
{
    match broker_endpoint(address) {
        Ok(_) => Ok(()),
        Err(e) => Err(e),
    }
}

// ---------------------------------------------------------------------------
// The broker's side
// ---------------------------------------------------------------------------

/// How a broker is.
#[derive(Clone, Copy, Debug, PartialEq, Eq, Structural)]
pub struct BrokerHealth {
    /// It is not shutting down.
    pub ready: bool,
    /// Its commit loop runs.
    pub healthy: bool,
}

/// What the store says of who the broker is.
#[derive(Debug)]
pub enum RegistrationProbe {
    Found(Option<BrokerRegistration>),
    Failed,
    TimedOut,
}

/// An answer to a probe: the status code, and why.
#[derive(Clone, Debug)]
pub struct ProbeAnswer {
    pub status: u16,
    pub state: String,
}

impl ProbeAnswer {
    /// The word that goes with the status code.
    pub fn word(&self) -> (w: String)
        ensures
            w@ == (if self.status == 200 {
                "ok"@
            } else {
                "unavailable"@
            }),
    {
        if self.status == 200 {
            "ok".to_owned()
        } else {
            "unavailable".to_owned()
        }
    }
}

fn probe_answer(status: u16, state: &str) -> (a: ProbeAnswer)
    ensures
        a.status == status,
        a.state@ == state@,
{
    ProbeAnswer { status, state: state.to_owned() }
}

/// Whether the broker is alive.
pub fn liveness(healthy: bool) -> (a: ProbeAnswer)
    ensures
        healthy ==> a.status == 200 && a.state@ == "live"@,
        !healthy ==> a.status == 500 && a.state@ == "broker_loop_stopped"@,
{
    if healthy {
        probe_answer(200, "live")
    } else {
        probe_answer(500, "broker_loop_stopped")
    }
}

/// What makes a broker unready without asking the store.
pub open spec fn unready_state(health: BrokerHealth) -> Option<Seq<char>> {
    if !health.ready {
        Some("draining"@)
    } else if !health.healthy {
        Some("broker_loop_stopped"@)
    } else {
        None
    }
}

/// The answer to a readiness probe that needs no look at the store.
pub fn unreadiness(health: BrokerHealth) -> (a: Option<ProbeAnswer>)
    ensures
        match a {
            Some(x) => x.status == 503 && unready_state(health) == Some(x.state@),
            None => unready_state(health) is None,
        },
{
    if !health.ready {
        Some(probe_answer(503, "draining"))
    } else if !health.healthy {
        Some(probe_answer(503, "broker_loop_stopped"))
    } else {
        None
    }
}

/// Two registrations are the same.
pub fn same_registration(a: &BrokerRegistration, b: &BrokerRegistration) -> (r: bool)
    ensures
        r == (a@ == b@),
{
    a.generation == b.generation && same_text(a.address.as_str(), b.address.as_str()) && same_text(
        a.owner_id.as_str(),
        b.owner_id.as_str(),
    )
}

/// The answer to a readiness probe, given what the store says: the broker is ready
/// if it is the registered one.
pub fn readiness(probe: &RegistrationProbe, own: &BrokerRegistration) -> (a: ProbeAnswer)
    ensures
        match *probe {
            RegistrationProbe::Found(found) => if found is Some && found->Some_0@ == own@ {
                a.status == 200 && a.state@ == "ready"@
            } else {
                a.status == 503 && a.state@ == "stale_broker"@
            },
            RegistrationProbe::Failed => a.status == 503 && a.state@ == "backend_unavailable"@,
            RegistrationProbe::TimedOut => a.status == 503 && a.state@ == "backend_timeout"@,
        },
{
    match probe {
        RegistrationProbe::Found(Some(found)) => if same_registration(found, own) {
            probe_answer(200, "ready")
        } else {
            probe_answer(503, "stale_broker")
        },
        RegistrationProbe::Found(None) => probe_answer(503, "stale_broker"),
        RegistrationProbe::Failed => probe_answer(503, "backend_unavailable"),
        RegistrationProbe::TimedOut => probe_answer(503, "backend_timeout"),
    }
}

/// Whether the broker takes a request now.
pub fn takes_requests(health: BrokerHealth) -> (r: Result<(), Error>)
    ensures
        match r {
            Ok(_) => health.ready && health.healthy,
            Err(e) => e is Io && !(health.ready && health.healthy),
        },
{
    if !health.ready {
        return Err(Error::Io("queue broker is draining".to_owned()));
    }
    if !health.healthy {
        return Err(Error::Io("queue broker group-commit loop is unavailable".to_owned()));
    }
    Ok(())
}

/// What a request asks for, if its version is known.
pub fn accept_request(request: QueueRequest) -> (r: Result<QueueOperation, Error>)
    ensures
        match r {
            Ok(operation) => request.version == QUEUE_PROTOCOL_VERSION && operation
                == request.operation,
            Err(e) => e is InvalidWrite && request.version != QUEUE_PROTOCOL_VERSION
                && e->InvalidWrite_0@ == "unsupported queue broker request version "@
                + strings::decimal(request.version as nat),
        },
{
    if request.version != QUEUE_PROTOCOL_VERSION {
        return Err(Error::InvalidWrite(
                say("unsupported queue broker request version ").number(
                    request.version as u64,
                ).done(),
            ));
    }
    Ok(request.operation)
}

/// The answer that says what a request led to.
pub fn answer_with(result: QueueResponseKind) -> (r: QueueResponse)
    ensures
        r.version == QUEUE_PROTOCOL_VERSION,
        r.result == result,
{
    QueueResponse { version: QUEUE_PROTOCOL_VERSION, result }
}

/// Which kind of refusal an error is.
pub open spec fn refusal_kind(e: Error) -> QueueErrorKind {
    match e {
        Error::InvalidWrite(_) => QueueErrorKind::InvalidRequest,
        Error::InvalidQueueClaim(_) => QueueErrorKind::InvalidClaim,
        Error::InvalidQueueBroker(_) => QueueErrorKind::StaleBroker,
        _ => QueueErrorKind::Internal,
    }
}

/// The status code of a refusal.
pub open spec fn refusal_status(kind: QueueErrorKind) -> u16 {
    match kind {
        QueueErrorKind::InvalidRequest => 400,
        QueueErrorKind::InvalidClaim => 409,
        QueueErrorKind::StaleBroker => 409,
        QueueErrorKind::Internal => 500,
    }
}

/// The text of the errors that are passed on word by word.
pub open spec fn refusal_text(e: Error) -> Option<Seq<char>> {
    match e {
        Error::InvalidWrite(m) => Some(m@),
        Error::InvalidQueueClaim(m) => Some(m@),
        Error::InvalidQueueBroker(m) => Some(m@),
        _ => None,
    }
}

/// What a refused request is answered.
pub fn refuse(error: Error) -> (r: (u16, QueueErrorBody))
    ensures
        r.1.kind == refusal_kind(error),
        r.0 == refusal_status(refusal_kind(error)),
        r.1.message@ == (match refusal_text(error) {
            Some(m) => m,
            None => error::message_of(error),
        }),
{
    match error {
        Error::InvalidWrite(message) => (
            400,
            QueueErrorBody { kind: QueueErrorKind::InvalidRequest, message },
        ),
        Error::InvalidQueueClaim(message) => (
            409,
            QueueErrorBody { kind: QueueErrorKind::InvalidClaim, message },
        ),
        Error::InvalidQueueBroker(message) => (
            409,
            QueueErrorBody { kind: QueueErrorKind::StaleBroker, message },
        ),
        _ => (
            500,
            QueueErrorBody { kind: QueueErrorKind::Internal, message: error.message() },
        ),
    }
}

// ---------------------------------------------------------------------------
// The client's side
// ---------------------------------------------------------------------------

/// The request for an operation.
pub fn request_for(operation: QueueOperation) -> (r: QueueRequest)
    ensures
        r.version == QUEUE_PROTOCOL_VERSION,
        r.operation == operation,
{
    QueueRequest { version: QUEUE_PROTOCOL_VERSION, operation }
}

/// Whether an answer is of a size that is read.
pub fn check_size(bytes: u64) -> (r: Result<(), Error>)
    ensures
        match r {
            Ok(_) => bytes <= MAX_QUEUE_MESSAGE_BYTES,
            Err(e) => e is Corrupt && bytes > MAX_QUEUE_MESSAGE_BYTES,
        },
{
    if bytes > MAX_QUEUE_MESSAGE_BYTES as u64 {
        return Err(
            Error::Corrupt("queue broker response exceeds the protocol size limit".to_owned()),
        );
    }
    Ok(())
}

/// What an answer says, if its version is known.
pub fn accept_response(response: QueueResponse) -> (r: Result<QueueResponseKind, Error>)
    ensures
        match r {
            Ok(result) => response.version == QUEUE_PROTOCOL_VERSION && result == response.result,
            Err(e) => e is Corrupt && response.version != QUEUE_PROTOCOL_VERSION && e->Corrupt_0@
                == "unsupported queue broker response version "@ + strings::decimal(
                response.version as nat,
            ),
        },
{
    if response.version != QUEUE_PROTOCOL_VERSION {
        return Err(Error::Corrupt(
                say("unsupported queue broker response version ").number(
                    response.version as u64,
                ).done(),
            ));
    }
    Ok(response.result)
}

/// An error is what a refusal under a status says.
pub open spec fn says_refusal(
    status: Seq<char>,
    kind: QueueErrorKind,
    message: Seq<char>,
    e: Error,
) -> bool {
    match kind {
        QueueErrorKind::InvalidRequest => e is InvalidWrite && e->InvalidWrite_0@ == message,
        QueueErrorKind::InvalidClaim => e is InvalidQueueClaim && e->InvalidQueueClaim_0@
            == message,
        QueueErrorKind::StaleBroker => e is InvalidQueueBroker && e->InvalidQueueBroker_0@
            == message,
        QueueErrorKind::Internal => e is Corrupt && e->Corrupt_0@ == "queue broker returned HTTP "@
            + status + ": "@ + message,
    }
}

/// The error that a refusal under a status says.
pub fn refusal_error(status: &str, body: QueueErrorBody) -> (e: Error)
    ensures
        says_refusal(status@, body.kind, body.message@, e),
{
    match body.kind {
        QueueErrorKind::InvalidRequest => Error::InvalidWrite(body.message),
        QueueErrorKind::InvalidClaim => Error::InvalidQueueClaim(body.message),
        QueueErrorKind::StaleBroker => Error::InvalidQueueBroker(body.message),
        QueueErrorKind::Internal => Error::Corrupt(
            say("queue broker returned HTTP ").and(status).and(": ").and(
                body.message.as_str(),
            ).done(),
        ),
    }
}

/// An error that the broker passes on by kind and text reaches the client as it
/// was.
pub proof fn law_refusals_arrive(e: Error, body: QueueErrorBody, status: Seq<char>, got: Error)
    requires
        refusal_text(e) is Some,
        body.kind == refusal_kind(e),
        body.message@ == refusal_text(e)->Some_0,
        says_refusal(status, body.kind, body.message@, got),
    ensures
        e is InvalidWrite ==> got is InvalidWrite && got->InvalidWrite_0@ == e->InvalidWrite_0@,
        e is InvalidQueueClaim ==> got is InvalidQueueClaim && got->InvalidQueueClaim_0@
            == e->InvalidQueueClaim_0@,
        e is InvalidQueueBroker ==> got is InvalidQueueBroker && got->InvalidQueueBroker_0@
            == e->InvalidQueueBroker_0@,
{
}

/// What a client does after a request.
#[derive(Clone, Copy, Debug, PartialEq, Eq, Structural)]
pub enum AfterRequest {
    /// Hands the result on.
    Done,
    /// Forgets the broker, looks up the registered one and asks that, once.
    AskReplacement,
    /// Forgets the broker and hands the error on: the broker may have carried the
    /// request out, so it is not repeated.
    Forget,
}

/// What a client does after a request to the broker it knew.
pub fn after_request<T>(result: &Result<T, Error>) -> (a: AfterRequest)
    ensures
        a == (match *result {
            Ok(_) => AfterRequest::Done,
            Err(e) => if e is InvalidQueueBroker {
                AfterRequest::AskReplacement
            } else if e is Io {
                AfterRequest::Forget
            } else {
                AfterRequest::Done
            },
        }),
{
    match result {
        Err(Error::InvalidQueueBroker(_)) => AfterRequest::AskReplacement,
        Err(Error::Io(_)) => AfterRequest::Forget,
        _ => AfterRequest::Done,
    }
}

/// What is left of a remembered broker when one has failed.
pub fn invalidate(cached: Option<BrokerRegistration>, failed: &BrokerRegistration) -> (r: Option<
    BrokerRegistration,
>)
    ensures
        cached is Some && cached->Some_0@ == failed@ ==> r is None,
        !(cached is Some && cached->Some_0@ == failed@) ==> r == cached,
{
    match cached {
        Some(known) => if same_registration(&known, failed) {
            None
        } else {
            Some(known)
        },
        None => None,
    }
}

/// The broker to ask: the remembered one, or else the registered one.
pub fn choose_broker(
    cached: Option<BrokerRegistration>,
    registered: Option<BrokerRegistration>,
) -> (r: Result<BrokerRegistration, Error>)
    ensures
        match (cached, registered) {
            (Some(b), _) => r == Ok::<BrokerRegistration, Error>(b),
            (None, Some(b)) => r == Ok::<BrokerRegistration, Error>(b),
            (None, None) => r is Err && r->Err_0 is InvalidQueueBroker,
        },
{
    match cached {
        Some(b) => Ok(b),
        None => match registered {
            Some(b) => Ok(b),
            None => Err(invalid_broker("no broker is registered")),
        },
    }
}

/// What a request led to, for people.
pub open spec fn response_words(response: QueueResponseKind) -> Seq<char> {
    match response {
        QueueResponseKind::Enqueued { outcome } => match outcome {
            EnqueueOutcome::Added { job_id } => "Enqueued { outcome: Added { job_id: "@
                + strings::decimal(job_id as nat) + " } }"@,
            EnqueueOutcome::Coalesced { job_id } => "Enqueued { outcome: Coalesced { job_id: "@
                + strings::decimal(job_id as nat) + " } }"@,
        },
        QueueResponseKind::Claimed { job } => match job {
            Some(c) => "Claimed { job: Some("@ + index_queue::claimed_words(c) + ") }"@,
            None => "Claimed { job: None }"@,
        },
        QueueResponseKind::Heartbeat { lease_expires_at_ms } =>
            "Heartbeat { lease_expires_at_ms: "@ + strings::decimal(lease_expires_at_ms as nat)
            + " }"@,
        QueueResponseKind::Completed => "Completed"@,
        QueueResponseKind::Failed => "Failed"@,
    }
}

fn response_text(response: &QueueResponseKind) -> (s: String)
    ensures
        s@ == response_words(*response),
{
    match response {
        QueueResponseKind::Enqueued { outcome } => match outcome {
            EnqueueOutcome::Added { job_id } => say("Enqueued { outcome: Added { job_id: ").number(
                *job_id,
            ).and(" } }").done(),
            EnqueueOutcome::Coalesced { job_id } => say(
                "Enqueued { outcome: Coalesced { job_id: ",
            ).number(*job_id).and(" } }").done(),
        },
        QueueResponseKind::Claimed { job } => match job {
            Some(c) => {
                let claimed = c.text();
                say("Claimed { job: Some(").and(claimed.as_str()).and(") }").done()
            },
            None => "Claimed { job: None }".to_owned(),
        },
        QueueResponseKind::Heartbeat { lease_expires_at_ms } => say(
            "Heartbeat { lease_expires_at_ms: ",
        ).number(*lease_expires_at_ms).and(" }").done(),
        QueueResponseKind::Completed => "Completed".to_owned(),
        QueueResponseKind::Failed => "Failed".to_owned(),
    }
}

/// The error is that an operation got an answer that is not its own.
pub open spec fn is_unexpected(e: Error, operation: Seq<char>, response: QueueResponseKind) -> bool {
    e is Corrupt && e->Corrupt_0@ == "queue broker returned "@ + response_words(response) + " for "@
        + operation
}

fn unexpected_response(operation: &str, response: &QueueResponseKind) -> (e: Error)
    ensures
        is_unexpected(e, operation@, *response),
{
    let got = response_text(response);
    Error::Corrupt(say("queue broker returned ").and(got.as_str()).and(" for ").and(operation).done())
}

/// What a notification led to.
pub fn enqueue_reply(response: QueueResponseKind) -> (r: Result<EnqueueOutcome, Error>)
    ensures
        match response {
            QueueResponseKind::Enqueued { outcome } => r == Ok::<EnqueueOutcome, Error>(outcome),
            _ => r is Err && is_unexpected(r->Err_0, "enqueue"@, response),
        },
{
    match response {
        QueueResponseKind::Enqueued { outcome } => Ok(outcome),
        other => Err(unexpected_response("enqueue", &other)),
    }
}

/// What asking for a job led to.
pub fn claim_reply(response: QueueResponseKind) -> (r: Result<Option<ClaimedJob>, Error>)
    ensures
        match response {
            QueueResponseKind::Claimed { job } => r == Ok::<Option<ClaimedJob>, Error>(job),
            _ => r is Err && is_unexpected(r->Err_0, "claim"@, response),
        },
{
    match response {
        QueueResponseKind::Claimed { job } => Ok(job),
        other => Err(unexpected_response("claim", &other)),
    }
}

/// Until when a renewed lease runs.
pub fn heartbeat_reply(response: QueueResponseKind) -> (r: Result<u64, Error>)
    ensures
        match response {
            QueueResponseKind::Heartbeat { lease_expires_at_ms } => r == Ok::<u64, Error>(
                lease_expires_at_ms,
            ),
            _ => r is Err && is_unexpected(r->Err_0, "heartbeat"@, response),
        },
{
    match response {
        QueueResponseKind::Heartbeat { lease_expires_at_ms } => Ok(lease_expires_at_ms),
        other => Err(unexpected_response("heartbeat", &other)),
    }
}

/// Whether a job was completed.
pub fn complete_reply(response: QueueResponseKind) -> (r: Result<(), Error>)
    ensures
        r is Ok == (response is Completed),
        r is Err ==> is_unexpected(r->Err_0, "complete"@, response),
{
    match response {
        QueueResponseKind::Completed => Ok(()),
        other => Err(unexpected_response("complete", &other)),
    }
}

/// Whether a job was given back.
pub fn fail_reply(response: QueueResponseKind) -> (r: Result<(), Error>)
    ensures
        r is Ok == (response is Failed),
        r is Err ==> is_unexpected(r->Err_0, "fail"@, response),
{
    match response {
        QueueResponseKind::Failed => Ok(()),
        other => Err(unexpected_response("fail", &other)),
    }
}

/// Trimming takes whitespace off both ends and nothing else: what is left stands in the
/// text, has none at its ends, and all that is not in it is whitespace.
pub proof fn law_trimmed_text_has_no_space_around_it(s: Seq<char>)
    ensures
        ({
            let r = trimmed(s);
            &&& r.len() > 0 ==> !whitespace(r[0]) && !whitespace(r.last())
            &&& exists|from: int| #[trigger] is_trimmed_at(s, r, from)
        }),
{
    lemma_leading(s);
    let a = without_leading(s);
    lemma_trailing(a);
    let r = trimmed(s);
    let from = s.len() - a.len();
    assert(r =~= s.subrange(from, from + r.len()));
    assert forall|i: int| 0 <= i < s.len() && !(from <= i < from + r.len()) implies whitespace(
        #[trigger] s[i],
    ) by {
        if i >= from + r.len() {
            assert(a[i - from] == s[i]);
        }
    }
    if r.len() > 0 {
        assert(r[0] == a[0]);
    }
    assert(is_trimmed_at(s, r, from));
}

/// A text stands in another from a position on, with nothing but whitespace around it.
pub open spec fn is_trimmed_at(s: Seq<char>, r: Seq<char>, from: int) -> bool {
    &&& 0 <= from
    &&& from + r.len() <= s.len()
    &&& r == s.subrange(from, from + r.len())
    &&& forall|i: int|
        0 <= i < s.len() && !(from <= i < from + r.len()) ==> whitespace(#[trigger] s[i])
}

proof fn lemma_leading(s: Seq<char>)
    ensures
        without_leading(s).len() <= s.len(),
        without_leading(s) == s.skip(s.len() - without_leading(s).len()),
        forall|i: int|
            0 <= i < s.len() - without_leading(s).len() ==> whitespace(#[trigger] s[i]),
        without_leading(s).len() > 0 ==> !whitespace(without_leading(s)[0]),
    decreases s.len(),
{
    if s.len() > 0 && whitespace(s[0]) {
        let rest = s.drop_first();
        lemma_leading(rest);
        let r = without_leading(s);
        assert(r =~= s.skip(s.len() - r.len()));
        assert forall|i: int| 0 <= i < s.len() - r.len() implies whitespace(#[trigger] s[i]) by {
            if i > 0 {
                assert(rest[i - 1] == s[i]);
            }
        }
    } else {
        assert(s.skip(0) =~= s);
    }
}

proof fn lemma_trailing(s: Seq<char>)
    ensures
        without_trailing(s).len() <= s.len(),
        without_trailing(s) == s.take(without_trailing(s).len() as int),
        forall|i: int| without_trailing(s).len() <= i < s.len() ==> whitespace(#[trigger] s[i]),
        without_trailing(s).len() > 0 ==> !whitespace(without_trailing(s).last()),
    decreases s.len(),
{
    if s.len() > 0 && whitespace(s.last()) {
        let front = s.drop_last();
        lemma_trailing(front);
        let r = without_trailing(s);
        assert(r =~= s.take(r.len() as int));
        assert forall|i: int| r.len() <= i < s.len() implies whitespace(#[trigger] s[i]) by {
            if i < front.len() {
                assert(front[i] == s[i]);
            }
        }
    } else {
        assert(s.take(s.len() as int) =~= s);
    }
}

/// A refusal is the broker's own fault exactly if its kind is internal, and a request that
/// lost its claim or met an old broker is told that there was a conflict.
pub proof fn law_refusals_tell_whose_fault_it_is(e: Error)
    ensures
        refusal_status(refusal_kind(e)) >= 500 <==> refusal_text(e) is None,
        refusal_status(refusal_kind(e)) == 409 <==> e is InvalidQueueClaim || e
            is InvalidQueueBroker,
        refusal_status(refusal_kind(e)) == 400 <==> e is InvalidWrite,
{
}

/// An address ends in one slash more only where it had none at its end.
pub proof fn law_addresses_end_in_a_slash(address: Seq<char>)
    ensures
        with_slash(address).len() > 0 && with_slash(address).last() == '/',
        with_slash(with_slash(address)) == with_slash(address),
        address.len() > 0 && address.last() == '/' ==> with_slash(address) == address,
        !(address.len() > 0 && address.last() == '/') ==> with_slash(address) == address.push('/'),
{
    reveal_strlit("/");
    lemma_slash(address);
    lemma_slash(with_slash(address));
}

proof fn lemma_slash(address: Seq<char>)
    ensures
        strings::has_suffix(address, "/"@) <==> address.len() > 0 && address.last() == '/',
{
    reveal_strlit("/");
    if address.len() > 0 {
        let tail = address.subrange(address.len() - 1, address.len() as int);
        assert(tail.len() == 1 && tail[0] == address.last());
        if address.last() == '/' {
            assert(tail =~= "/"@);
        } else {
            assert("/"@[0] == '/');
        }
    }
}

/// A broker is ready exactly if it takes requests and its loop runs; one that is leaving
/// says so, whatever its loop does.
pub proof fn law_ready_means_healthy(a: BrokerHealth, b: BrokerHealth)
    ensures
        unready_state(a) is None <==> a.ready && a.healthy,
        !a.ready && !b.ready ==> unready_state(a) == unready_state(b),
        !a.ready && b.ready ==> unready_state(a) != unready_state(b),
{
    reveal_strlit("draining");
    reveal_strlit("broker_loop_stopped");
    assert("draining"@.len() == 8 && "broker_loop_stopped"@.len() == 19);
}

} // verus!
