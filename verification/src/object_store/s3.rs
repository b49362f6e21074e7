//! The decisions of an S3-compatible store: how locations are written, which
//! responses are retried, and what responses mean.

use vstd::prelude::*;
use vstd::string::*;

use crate::phrase;
use crate::phrase::say;
use crate::strings;
use crate::error::{corrupt, Error};
use crate::object_store::{ObjectMeta, ObjectVersion};
use crate::order::same_bytes;
use crate::strings::{chars_of, ends_with, find_char, parse_unsigned, same_text, starts_with, text2, text3, text_after_last, text_between, trim_char};

verus! {

/// How often a conditional write that raced with another one is repeated.
pub const CONDITIONAL_CONFLICT_RETRIES: u32 = 4;

/// How often a request that failed in passing is repeated.
pub const TRANSIENT_RETRIES: u32 = 5;

/// The longest wait before the first repetition; it doubles with each.
pub const RETRY_BASE_MS: u64 = 50;

/// The longest wait before any repetition.
pub const RETRY_CAP_MS: u64 = 2000;

/// Where a store is.
#[derive(Clone, Debug)]
pub struct S3Config {
    pub endpoint: String,
    pub region: String,
    pub bucket: String,
    /// What keys in the bucket start with; empty for the root of the bucket.
    pub key_prefix: String,
    /// Whether the bucket is part of the path, and not of the host name.
    pub path_style: bool,
}

/// The settings of the environment that a location is read with.
#[derive(Clone, Debug)]
pub struct S3Env {
    pub region: Option<String>,
    pub default_region: Option<String>,
    pub endpoint: Option<String>,
    pub path_style: Option<String>,
}

/// What follows `s3://` in a location.
pub open spec fn location_rest(location: Seq<char>) -> Seq<char> {
    location.skip(5)
}

/// The bucket of a location: what follows `s3://` up to the first slash.
pub open spec fn location_bucket(location: Seq<char>) -> Seq<char> {
    location_rest(location).take(strings::first_char(location_rest(location), '/'))
}

/// The key prefix of a location: what follows the first slash, without slashes at
/// its ends, and with one behind it if there is anything.
pub open spec fn location_prefix(location: Seq<char>) -> Seq<char> {
    let rest = location_rest(location);
    let k = strings::first_char(rest, '/');
    if k >= rest.len() {
        Seq::empty()
    } else {
        let prefix = strings::trimmed_end(strings::trimmed_start(rest.skip(k + 1), '/'), '/');
        if prefix.len() == 0 {
            Seq::empty()
        } else {
            prefix + "/"@
        }
    }
}

/// A location starts with `s3://` and names a bucket.
pub open spec fn location_valid(location: Seq<char>) -> bool {
    strings::has_prefix(location, "s3://"@) && location_bucket(location).len() > 0
}

/// A text, ASCII letters in lower case.
pub open spec fn ascii_lower(c: char) -> char {
    if 'A' <= c <= 'Z' {
        (c as int + 32) as char
    } else {
        c
    }
}

/// `true`, in any case.
pub open spec fn says_true(s: Seq<char>) -> bool {
    s.len() == 4 && ascii_lower(s[0]) == 't' && ascii_lower(s[1]) == 'r' && ascii_lower(s[2])
        == 'u' && ascii_lower(s[3]) == 'e'
}

pub open spec fn opt_text(s: Option<String>) -> Option<Seq<char>> {
    match s {
        None => None,
        Some(s) => Some(s@),
    }
}

/// The region: the one set, the default one set, or `us-east-1`.
pub open spec fn region_of(env: S3Env) -> Seq<char> {
    match (env.region, env.default_region) {
        (Some(r), _) => r@,
        (None, Some(r)) => r@,
        (None, None) => "us-east-1"@,
    }
}

/// The endpoint: the one set, or that of the region.
pub open spec fn endpoint_of(env: S3Env) -> Seq<char> {
    match env.endpoint {
        Some(e) => e@,
        None => "https://s3."@ + region_of(env) + ".amazonaws.com"@,
    }
}

/// Path style: as set, and otherwise for endpoints that are not the provider's.
pub open spec fn path_style_of(env: S3Env) -> bool {
    match env.path_style {
        Some(v) => v@ == "1"@ || says_true(v@),
        None => !strings::has_suffix(endpoint_of(env), ".amazonaws.com"@),
    }
}

fn lower(c: char) -> (r: char)
    ensures
        r == ascii_lower(c),
{
    if 'A' <= c && c <= 'Z' {
        ((c as u8) + 32) as char
    } else {
        c
    }
}

fn is_true_text(s: &str) -> (b: bool)
    ensures
        b == says_true(s@),
{
    let c = chars_of(s);
    c.len() == 4 && lower(c[0]) == 't' && lower(c[1]) == 'r' && lower(c[2]) == 'u' && lower(c[3])
        == 'e'
}

impl S3Config {
    /// Reads `s3://bucket[/prefix]` under the settings of the environment.
    pub fn from_location(location: &str, env: &S3Env) -> (r: Result<S3Config, Error>)
        ensures
            match r {
                Ok(c) => {
                    &&& location_valid(location@)
                    &&& c.bucket@ == location_bucket(location@)
                    &&& c.key_prefix@ == location_prefix(location@)
                    &&& c.region@ == region_of(*env)
                    &&& c.endpoint@ == endpoint_of(*env)
                    &&& c.path_style == path_style_of(*env)
                },
                Err(e) => !location_valid(location@) && e is InvalidWrite && e->InvalidWrite_0@ == (
                if strings::has_prefix(location@, "s3://"@) {
                    "S3 location "@ + phrase::quoted(location@) + " is missing a bucket name"@
                } else {
                    "S3 location must start with s3://, got "@ + phrase::quoted(location@)
                }),
            },
    {
        proof {
            reveal_strlit("s3://");
        }
        if !starts_with(location, "s3://") {
            return Err(Error::InvalidWrite(
                    say("S3 location must start with s3://, got ").quote(location).done(),
                ));
        }
        let all = chars_of(location);
        let rest = chars_of(text_between(&all, 5, all.len()).as_str());
        assert(rest@ =~= location_rest(location@));
        let k = find_char(&rest, '/');
        let bucket = text_between(&rest, 0, k);
        assert(bucket@ =~= location_bucket(location@));
        if k == 0 {
            return Err(
                Error::InvalidWrite(
                    say("S3 location ").quote(location).and(" is missing a bucket name").done(),
                ),
            );
        }
        let mut key_prefix = String::new();
        if k < rest.len() {
            let tail = text_between(&rest, k + 1, rest.len());
            assert(tail@ =~= rest@.skip(k + 1));
            let prefix = trim_char(tail.as_str(), '/');
            if !prefix.as_str().is_empty() {
                key_prefix = text2(prefix.as_str(), "/");
            } else {
                assert(key_prefix@ =~= Seq::empty());
            }
        } else {
            assert(key_prefix@ =~= Seq::empty());
        }
        let region = match (&env.region, &env.default_region) {
            (Some(r), _) => r.clone(),
            (None, Some(r)) => r.clone(),
            (None, None) => "us-east-1".to_owned(),
        };
        let endpoint = match &env.endpoint {
            Some(e) => e.clone(),
            None => text3("https://s3.", region.as_str(), ".amazonaws.com"),
        };
        let path_style = match &env.path_style {
            Some(v) => same_text(v.as_str(), "1") || is_true_text(v.as_str()),
            None => !ends_with(endpoint.as_str(), ".amazonaws.com"),
        };
        Ok(S3Config { endpoint, region, bucket, key_prefix, path_style })
    }

    /// The key in the bucket of an object.
    pub fn full_key(&self, key: &str) -> (r: String)
        ensures
            r@ == self.key_prefix@ + key@,
    {
        text2(self.key_prefix.as_str(), key)
    }

    /// The object under a key in the bucket.
    pub fn object_key(&self, full: &str) -> (r: String)
        ensures
            strings::has_prefix(full@, self.key_prefix@) ==> r@ == full@.skip(
                self.key_prefix@.len() as int,
            ),
            !strings::has_prefix(full@, self.key_prefix@) ==> r@ == full@,
    {
        if starts_with(full, self.key_prefix.as_str()) {
            let all = chars_of(full);
            let n: usize = chars_of(self.key_prefix.as_str()).len();
            let r = text_between(&all, n, all.len());
            assert(r@ =~= full@.skip(n as int));
            r
        } else {
            full.to_owned()
        }
    }
}

/// An object's key, put under the prefix, is found again.
pub proof fn law_keys_round_trip(prefix: Seq<char>, key: Seq<char>)
    ensures
        strings::has_prefix(prefix + key, prefix),
        (prefix + key).skip(prefix.len() as int) == key,
{
    assert((prefix + key).subrange(0, prefix.len() as int) =~= prefix);
    assert((prefix + key).skip(prefix.len() as int) =~= key);
}

/// The version that an entity tag gives: the tag without its quotes.
pub fn etag_version(raw: &str) -> (v: ObjectVersion)
    ensures
        v.0@ == strings::trimmed_end(strings::trimmed_start(raw@, '"'), '"'),
{
    ObjectVersion(trim_char(raw, '"'))
}

/// The value of the header that makes a write conditional on a version.
pub fn if_match_value(expected: &ObjectVersion) -> (s: String)
    ensures
        s@ == "\""@ + expected.0@ + "\""@,
{
    text3("\"", expected.0.as_str(), "\"")
}

/// The size of an object as a `Content-Range` header has it: what follows the last
/// slash.
pub fn content_range_size(header: &str) -> (r: Option<u64>)
    ensures
        match strings::after_last(header@, '/') {
            None => r is None,
            Some(size) => match strings::unsigned_value(size) {
                Some(n) => if n <= u64::MAX {
                    r is Some && r->Some_0 as nat == n
                } else {
                    r is None
                },
                None => r is None,
            },
        },
{
    match text_after_last(header, '/') {
        None => None,
        Some(size) => parse_unsigned(size.as_str(), 0xffff_ffff_ffff_ffff),
    }
}

/// Whether a response is a failure in passing: a server error or throttling.
pub open spec fn retryable(status: u16) -> bool {
    status == 500 || status == 502 || status == 503 || status == 504
}

/// Whether a response is a failure in passing.
pub fn is_retryable_status(status: u16) -> (b: bool)
    ensures
        b == retryable(status),
{
    status == 500 || status == 502 || status == 503 || status == 504
}

/// Whether a request is sent again, after so many repetitions. A request that got
/// no response failed in passing.
pub fn sends_again(attempt: u32, status: Option<u16>) -> (b: bool)
    ensures
        b == (attempt < TRANSIENT_RETRIES && (match status {
            None => true,
            Some(status) => retryable(status),
        })),
{
    if attempt >= TRANSIENT_RETRIES {
        return false;
    }
    match status {
        None => true,
        Some(status) => is_retryable_status(status),
    }
}

/// Two to the power `n`.
pub open spec fn doubled(base: nat, n: nat) -> nat
    decreases n,
{
    if n == 0 {
        base
    } else {
        2 * doubled(base, (n - 1) as nat)
    }
}

/// The longest wait before a repetition: doubling from the base, up to the cap.
pub open spec fn backoff_ceiling(attempt: nat) -> nat {
    if doubled(RETRY_BASE_MS as nat, attempt) > RETRY_CAP_MS {
        RETRY_CAP_MS as nat
    } else {
        doubled(RETRY_BASE_MS as nat, attempt)
    }
}

proof fn lemma_doubled_grows(base: nat, a: nat, b: nat)
    requires
        a <= b,
    ensures
        doubled(base, a) <= doubled(base, b),
    decreases b,
{
    if a < b {
        lemma_doubled_grows(base, a, (b - 1) as nat);
    }
}

/// The longest wait before a repetition, in milliseconds.
pub fn backoff_ceiling_ms(attempt: u32) -> (ms: u64)
    ensures
        ms == backoff_ceiling(attempt as nat),
        ms <= RETRY_CAP_MS,
{
    let mut ms: u64 = RETRY_BASE_MS;
    let mut i: u32 = 0;
    while i < attempt && ms <= RETRY_CAP_MS
        invariant
            i <= attempt,
            ms == doubled(RETRY_BASE_MS as nat, i as nat),
            ms <= 2 * RETRY_CAP_MS,
        decreases attempt - i,
    {
        ms = 2 * ms;
        i = i + 1;
    }
    proof {
        lemma_doubled_grows(RETRY_BASE_MS as nat, i as nat, attempt as nat);
    }
    if ms > RETRY_CAP_MS {
        RETRY_CAP_MS
    } else {
        ms
    }
}

/// How many billionths there are in one.
pub const WHOLE: u32 = 1_000_000_000;

/// The wait before a repetition, in nanoseconds: a part of the longest one, given
/// in billionths and at most the whole.
pub fn backoff_delay(attempt: u32, jitter: u32) -> (nanos: u64)
    ensures
        nanos == backoff_ceiling(attempt as nat) * (if jitter > WHOLE {
            WHOLE
        } else {
            jitter
        }) / 1000,
        nanos <= RETRY_CAP_MS * 1_000_000,
{
    let ms: u64 = backoff_ceiling_ms(attempt);
    let part: u64 = if jitter > WHOLE {
        WHOLE as u64
    } else {
        jitter as u64
    };
    assert(ms * part <= 2000 * 1_000_000_000) by (nonlinear_arith)
        requires
            ms <= 2000,
            part <= 1_000_000_000,
    ;
    ms * part / 1000
}

/// The longest wait does not shrink from one repetition to the next, and is never
/// above the cap.
pub proof fn law_backoff_grows_to_the_cap(a: nat, b: nat)
    requires
        a <= b,
    ensures
        backoff_ceiling(0) == RETRY_BASE_MS,
        backoff_ceiling(a) <= backoff_ceiling(b) <= RETRY_CAP_MS,
{
    lemma_doubled_grows(RETRY_BASE_MS as nat, a, b);
}

/// The wait before a conditional write is repeated, in milliseconds.
pub fn conflict_delay_ms(attempt: u32) -> (ms: u64)
    ensures
        ms == 25 * (attempt + 1),
{
    25 * (attempt as u64 + 1)
}

/// What the response to a conditional write means.
#[derive(Clone, Copy, Debug, PartialEq, Eq, Structural)]
pub enum CondStep {
    /// It was written.
    Written,
    /// Another conditional write raced with it: send it again.
    Conflict,
    /// The condition did not hold, unless an earlier sending that got no response was
    /// written: read the object to find out.
    Reconcile,
    /// The condition did not hold.
    Refused,
    /// A response that is not expected.
    Unexpected,
}

/// What the response to a conditional write means. A refusal after a repetition is
/// in doubt.
pub fn conditional_step(status: u16, retried: bool) -> (s: CondStep)
    ensures
        s == (if status == 200 {
            CondStep::Written
        } else if status == 409 {
            CondStep::Conflict
        } else if status == 412 || status == 404 {
            if retried {
                CondStep::Reconcile
            } else {
                CondStep::Refused
            }
        } else {
            CondStep::Unexpected
        }),
{
    if status == 200 {
        CondStep::Written
    } else if status == 409 {
        CondStep::Conflict
    } else if status == 412 || status == 404 {
        if retried {
            CondStep::Reconcile
        } else {
            CondStep::Refused
        }
    } else {
        CondStep::Unexpected
    }
}

/// How a conditional write ended.
#[derive(Debug)]
pub enum CondOutcome {
    Stored(ObjectVersion),
    Conflict,
    PreconditionFailed(Option<ObjectVersion>),
}

/// Settles a write in doubt by what is there now: the same bytes mean that it was
/// written.
pub fn reconcile(mine: &[u8], current: Option<(&[u8], ObjectVersion)>) -> (o: CondOutcome)
    ensures
        match current {
            None => o == CondOutcome::PreconditionFailed(None),
            Some((bytes, version)) => if bytes@ == mine@ {
                o == CondOutcome::Stored(version)
            } else {
                o == CondOutcome::PreconditionFailed(Some(version))
            },
        },
{
    match current {
        None => CondOutcome::PreconditionFailed(None),
        Some((bytes, version)) => if same_bytes(bytes, mine) {
            CondOutcome::Stored(version)
        } else {
            CondOutcome::PreconditionFailed(Some(version))
        },
    }
}

/// What to do after a conditional write.
#[derive(Debug)]
pub enum CondDecision {
    Done(Result<ObjectVersion, Error>),
    /// Send it again, after a wait.
    Again,
}

/// What to do after a write that must not replace anything, sent so many times
/// before.
pub fn after_put_if_absent(key: &str, attempt: u32, outcome: CondOutcome) -> (d: CondDecision)
    ensures
        match outcome {
            CondOutcome::Stored(version) => d == CondDecision::Done(Ok(version)),
            CondOutcome::PreconditionFailed(_) => d is Done && d->Done_0 is Err
                && d->Done_0->Err_0 is AlreadyExists && d->Done_0->Err_0->AlreadyExists_0@ == key@,
            CondOutcome::Conflict => if attempt < CONDITIONAL_CONFLICT_RETRIES {
                d is Again
            } else {
                d is Done && d->Done_0 is Err && d->Done_0->Err_0 is Io
            },
        },
{
    match outcome {
        CondOutcome::Stored(version) => CondDecision::Done(Ok(version)),
        CondOutcome::PreconditionFailed(_) => CondDecision::Done(
            Err(Error::AlreadyExists(key.to_owned())),
        ),
        CondOutcome::Conflict => if attempt < CONDITIONAL_CONFLICT_RETRIES {
            CondDecision::Again
        } else {
            CondDecision::Done(Err(persistent_conflict(key)))
        },
    }
}

/// What to do after a write that must replace a version, sent so many times before.
pub fn after_compare_and_set(
    key: &str,
    expected: &ObjectVersion,
    attempt: u32,
    outcome: CondOutcome,
) -> (d: CondDecision)
    ensures
        match outcome {
            CondOutcome::Stored(version) => d == CondDecision::Done(Ok(version)),
            CondOutcome::PreconditionFailed(actual) => d is Done && d->Done_0 is Err
                && crate::object_store::is_mismatch(d->Done_0->Err_0, key@, expected.0@, actual),
            CondOutcome::Conflict => if attempt < CONDITIONAL_CONFLICT_RETRIES {
                d is Again
            } else {
                d is Done && d->Done_0 is Err && d->Done_0->Err_0 is Io
            },
        },
{
    match outcome {
        CondOutcome::Stored(version) => CondDecision::Done(Ok(version)),
        CondOutcome::PreconditionFailed(actual) => CondDecision::Done(
            Err(
                Error::CasMismatch {
                    key: key.to_owned(),
                    expected: expected.0.clone(),
                    actual: match actual {
                        Some(version) => Some(version.0),
                        None => None,
                    },
                },
            ),
        ),
        CondOutcome::Conflict => if attempt < CONDITIONAL_CONFLICT_RETRIES {
            CondDecision::Again
        } else {
            CondDecision::Done(Err(persistent_conflict(key)))
        },
    }
}

fn persistent_conflict(key: &str) -> (e: Error)
    ensures
        e is Io,
        e->Io_0@ == "S3 conditional-write conflict persisted for "@ + phrase::quoted(key@),
{
    Error::Io(say("S3 conditional-write conflict persisted for ").quote(key).done())
}

/// How to read a range.
#[derive(Clone, Copy, Debug, PartialEq, Eq, Structural)]
pub enum RangePlan {
    /// The range runs backwards: ask for the object's size and report it.
    Backwards,
    /// The range is empty, which a request cannot say: ask for the object's size, and
    /// check the range against it.
    Empty,
    /// Ask for the bytes from the first to the last.
    Fetch { first: u64, last: u64 },
}

/// How to read a range.
pub fn plan_range(start: u64, end: u64) -> (p: RangePlan)
    ensures
        p == (if start > end {
            RangePlan::Backwards
        } else if start == end {
            RangePlan::Empty
        } else {
            RangePlan::Fetch { first: start, last: (end - 1) as u64 }
        }),
{
    if start > end {
        RangePlan::Backwards
    } else if start == end {
        RangePlan::Empty
    } else {
        RangePlan::Fetch { first: start, last: end - 1 }
    }
}

/// What the response to a request for a range means.
#[derive(Clone, Copy, Debug, PartialEq, Eq, Structural)]
pub enum RangeStep {
    /// The body is the range.
    Body,
    /// The range runs past the object, which has that size.
    Past { size: u64 },
    /// The range lies outside the object: ask for its size and report it.
    Outside,
    NotFound,
    Unexpected,
}

/// What the response to a request for a range means. A store cuts a range short that
/// runs past the object; a range must be answered whole.
pub fn range_step(
    status: u16,
    start: u64,
    end: u64,
    body_len: u64,
    total: Option<u64>,
) -> (s: RangeStep)
    requires
        start < end,
    ensures
        s == (if status == 206 {
            if body_len == end - start {
                RangeStep::Body
            } else {
                RangeStep::Past {
                    size: match total {
                        Some(size) => size,
                        None => body_len,
                    },
                }
            }
        } else if status == 416 {
            RangeStep::Outside
        } else if status == 404 {
            RangeStep::NotFound
        } else {
            RangeStep::Unexpected
        }),
{
    if status == 206 {
        if body_len == end - start {
            RangeStep::Body
        } else {
            RangeStep::Past {
                size: match total {
                    Some(size) => size,
                    None => body_len,
                },
            }
        }
    } else if status == 416 {
        RangeStep::Outside
    } else if status == 404 {
        RangeStep::NotFound
    } else {
        RangeStep::Unexpected
    }
}

/// What the response to a plain request means.
#[derive(Clone, Copy, Debug, PartialEq, Eq, Structural)]
pub enum PlainStep {
    Done,
    NotFound,
    Unexpected,
}

/// What the response to a read means.
pub fn read_step(status: u16) -> (s: PlainStep)
    ensures
        s == (if status == 200 {
            PlainStep::Done
        } else if status == 404 {
            PlainStep::NotFound
        } else {
            PlainStep::Unexpected
        }),
{
    if status == 200 {
        PlainStep::Done
    } else if status == 404 {
        PlainStep::NotFound
    } else {
        PlainStep::Unexpected
    }
}

/// Whether a response to a deletion means that the object is gone.
pub fn delete_succeeded(status: u16) -> (b: bool)
    ensures
        b == (status == 204 || status == 200 || status == 404),
{
    status == 204 || status == 200 || status == 404
}

/// An entry of a listing as the store sends it.
#[derive(Debug)]
pub struct ListEntry {
    pub key: String,
    pub size: Option<u64>,
    pub etag: Option<String>,
}

/// A page of a listing as the store sends it.
#[derive(Debug)]
pub struct ListPage {
    pub entries: Vec<ListEntry>,
    pub next: Option<String>,
}

/// What an entry of a listing stands for: the key, the size and the entity tag.
pub open spec fn list_entry_view(e: ListEntry) -> (Seq<char>, Option<u64>, Option<Seq<char>>) {
    (e.key@, e.size, opt_text(e.etag))
}

/// What a page of a listing stands for.
pub open spec fn list_page_view(p: ListPage) -> (
    Seq<(Seq<char>, Option<u64>, Option<Seq<char>>)>,
    Option<Seq<char>>,
) {
    (
        Seq::new(p.entries@.len(), |i: int| list_entry_view(p.entries@[i])),
        opt_text(p.next),
    )
}

/// The page of a listing that a response text is, as `rusty_s3` reads it, or else what
/// its error says.
pub uninterp spec fn list_page_of(text: Seq<char>) -> Result<
    (Seq<(Seq<char>, Option<u64>, Option<Seq<char>>)>, Option<Seq<char>>),
    Seq<char>,
>;

/// Calls `rusty_s3::actions::ListObjectsV2::parse_response`, and keeps the key, size
/// and entity tag of each object and the token of the next page, or the text of the
/// error. Claimed: the result is a function of the text alone, named `list_page_of`;
/// nothing is said of which texts it reads.
#[verifier::external_body]
fn parse_list(text: &str) -> (r: Result<ListPage, String>)
    ensures
        match r {
            Ok(p) => list_page_of(text@) == Ok::<
                (Seq<(Seq<char>, Option<u64>, Option<Seq<char>>)>, Option<Seq<char>>),
                Seq<char>,
            >(list_page_view(p)),
            Err(e) => list_page_of(text@) == Err::<
                (Seq<(Seq<char>, Option<u64>, Option<Seq<char>>)>, Option<Seq<char>>),
                Seq<char>,
            >(e@),
        },
{
    let page = match rusty_s3::actions::ListObjectsV2::parse_response(text) {
        Ok(page) => page,
        Err(error) => return Err(error.to_string()),
    };
    let next = page.next_continuation_token;
    let entries = page
        .contents
        .into_iter()
        .map(|c| ListEntry { key: c.key, size: c.size, etag: c.etag })
        .collect();
    Ok(ListPage { entries, next })
}

/// An entry of a listing is complete.
pub open spec fn entry_complete(e: (Seq<char>, Option<u64>, Option<Seq<char>>)) -> bool {
    e.1 is Some && e.2 is Some
}

/// What a listed object is: its key below the prefix, its size and its version.
pub open spec fn lists(
    m: ObjectMeta,
    e: (Seq<char>, Option<u64>, Option<Seq<char>>),
    prefix: Seq<char>,
) -> bool {
    &&& m.key@ == (if strings::has_prefix(e.0, prefix) {
        e.0.skip(prefix.len() as int)
    } else {
        e.0
    })
    &&& e.1 == Some(m.size)
    &&& e.2 is Some
    &&& m.version.0@ == strings::trimmed_end(strings::trimmed_start(e.2->Some_0, '"'), '"')
}

/// Reads a page of a listing: the objects, and the token of the next page if there
/// is one. A text that is none, or an object without a size or a tag, is corrupt.
pub fn list_objects(config: &S3Config, text: &str) -> (r: Result<
    (Vec<ObjectMeta>, Option<String>),
    Error,
>)
    ensures
        match list_page_of(text@) {
            Err(why) => r is Err && r->Err_0 is Corrupt && r->Err_0->Corrupt_0@
                == "S3 list response: "@ + why,
            Ok(page) => listed(r, config.key_prefix@, page.0, page.1),
        },
{
    match parse_list(text) {
        Err(why) => Err(Error::Corrupt(text2("S3 list response: ", why.as_str()))),
        Ok(page) => list_page_objects(config, page),
    }
}

/// What reading a page of a listing gives.
pub open spec fn listed(
    r: Result<(Vec<ObjectMeta>, Option<String>), Error>,
    prefix: Seq<char>,
    entries: Seq<(Seq<char>, Option<u64>, Option<Seq<char>>)>,
    next: Option<Seq<char>>,
) -> bool {
    if forall|i: int| 0 <= i < entries.len() ==> entry_complete(#[trigger] entries[i]) {
        &&& r is Ok
        &&& opt_text(r->Ok_0.1) == next
        &&& r->Ok_0.0@.len() == entries.len()
        &&& forall|i: int|
            0 <= i < entries.len() ==> lists(#[trigger] r->Ok_0.0@[i], entries[i], prefix)
    } else {
        r is Err && r->Err_0 is Corrupt
    }
}

/// The objects of a page of a listing, under their keys below the prefix.
pub fn list_page_objects(config: &S3Config, page: ListPage) -> (r: Result<
    (Vec<ObjectMeta>, Option<String>),
    Error,
>)
    ensures
        listed(r, config.key_prefix@, list_page_view(page).0, list_page_view(page).1),
{
    let ghost entries = list_page_view(page).0;
    let mut out: Vec<ObjectMeta> = Vec::new();
    let mut i: usize = 0;
    while i < page.entries.len()
        invariant
            i <= page.entries@.len(),
            entries == list_page_view(page).0,
            out@.len() == i,
            forall|j: int| 0 <= j < i ==> entry_complete(#[trigger] entries[j]),
            forall|j: int|
                0 <= j < i ==> lists(#[trigger] out@[j], entries[j], config.key_prefix@),
        decreases page.entries@.len() - i,
    {
        let entry = &page.entries[i];
        assert(entries[i as int] == list_entry_view(*entry));
        match (&entry.size, &entry.etag) {
            (Some(size), Some(etag)) => {
                let meta = ObjectMeta {
                    key: config.object_key(entry.key.as_str()),
                    size: *size,
                    version: etag_version(etag.as_str()),
                };
                out.push(meta);
            },
            _ => {
                assert(!entry_complete(entries[i as int]));
                return Err(corrupt("S3 list response misses a size or a tag"));
            },
        }
        i = i + 1;
    }
    Ok((out, page.next))
}

/// A location that is written as `s3://`, a bucket, a slash and a prefix is read as these,
/// with as many slashes around the prefix as there may be; one without a prefix has none.
pub proof fn law_locations_read_back(bucket: Seq<char>, prefix: Seq<char>)
    requires
        bucket.len() > 0,
        !bucket.contains('/'),
        prefix.len() > 0,
        prefix[0] != '/',
        prefix.last() != '/',
    ensures
        ({
            let location = "s3://"@ + bucket + "/"@ + prefix;
            &&& location_valid(location)
            &&& location_bucket(location) == bucket
            &&& location_prefix(location) == prefix + "/"@
            &&& location_prefix(location + "/"@) == prefix + "/"@
        }),
        location_valid("s3://"@ + bucket),
        location_bucket("s3://"@ + bucket) == bucket,
        location_prefix("s3://"@ + bucket) == Seq::<char>::empty(),
        location_prefix("s3://"@ + bucket + "/"@) == Seq::<char>::empty(),
{
    reveal_strlit("s3://");
    reveal_strlit("/");
    lemma_location(bucket, "/"@ + prefix);
    lemma_location(bucket, "/"@ + prefix + "/"@);
    lemma_location(bucket, "/"@);
    lemma_location(bucket, Seq::empty());
    assert("s3://"@ + bucket + "/"@ + prefix =~= "s3://"@ + bucket + ("/"@ + prefix));
    assert("s3://"@ + bucket + "/"@ + prefix + "/"@ =~= "s3://"@ + bucket + ("/"@ + prefix + "/"@));
    assert("s3://"@ + bucket =~= "s3://"@ + bucket + Seq::empty());
    let n = bucket.len() as int;
    assert((bucket + ("/"@ + prefix)).skip(n + 1) =~= prefix);
    assert((bucket + ("/"@ + prefix + "/"@)).skip(n + 1) =~= prefix + "/"@);
    assert((bucket + "/"@).skip(n + 1) =~= Seq::empty());
    assert((prefix + "/"@).drop_last() =~= prefix);
    reveal_with_fuel(strings::trimmed_end, 2);
}

proof fn lemma_location(bucket: Seq<char>, tail: Seq<char>)
    requires
        bucket.len() > 0,
        !bucket.contains('/'),
        tail.len() > 0 ==> tail[0] == '/',
    ensures
        strings::has_prefix("s3://"@ + bucket + tail, "s3://"@),
        location_rest("s3://"@ + bucket + tail) == bucket + tail,
        location_bucket("s3://"@ + bucket + tail) == bucket,
        strings::first_char(bucket + tail, '/') == bucket.len(),
{
    reveal_strlit("s3://");
    let location = "s3://"@ + bucket + tail;
    let rest = bucket + tail;
    assert(location.subrange(0, 5) =~= "s3://"@);
    assert(location.skip(5) =~= rest);
    strings::law_first_and_last_are_found(rest, '/');
    let k = strings::first_char(rest, '/');
    if k < bucket.len() {
        assert(rest[k] == bucket[k]);
        assert(bucket.contains(bucket[k]));
    } else if k > bucket.len() {
        assert(rest.take(k)[bucket.len() as int] == '/');
        assert(rest.take(k).contains('/'));
    }
    assert(rest.take(bucket.len() as int) =~= bucket);
}

/// A version is the entity tag without the quotes around it, and the key of a listed object
/// is what follows the prefix of the store.
pub proof fn law_listed_objects_are_told_by_key_and_tag(
    m: ObjectMeta,
    prefix: Seq<char>,
    key: Seq<char>,
    tag: Seq<char>,
    size: u64,
)
    requires
        tag.len() > 0,
        tag[0] != '"',
        tag.last() != '"',
        lists(m, (prefix + key, Some(size), Some(seq!['"'] + tag + seq!['"'])), prefix),
    ensures
        m.key@ == key,
        m.version.0@ == tag,
        m.size == size,
{
    law_keys_round_trip(prefix, key);
    lemma_without_quotes(tag);
}

proof fn lemma_without_quotes(tag: Seq<char>)
    requires
        tag.len() > 0,
        tag[0] != '"',
        tag.last() != '"',
    ensures
        strings::trimmed_end(
            strings::trimmed_start(seq!['"'] + tag + seq!['"'], '"'),
            '"',
        ) == tag,
{
    let quoted = seq!['"'] + tag + seq!['"'];
    let rest = tag + seq!['"'];
    assert(quoted[0] == '"');
    assert(quoted.drop_first() =~= rest);
    assert(rest[0] == tag[0]);
    assert(strings::trimmed_start(rest, '"') == rest);
    assert(strings::trimmed_start(quoted, '"') == strings::trimmed_start(rest, '"'));
    assert(rest.last() == '"');
    assert(rest.drop_last() =~= tag);
    assert(strings::trimmed_end(tag, '"') == tag);
    assert(strings::trimmed_end(rest, '"') == strings::trimmed_end(tag, '"'));
}

/// The longest wait doubles until it reaches the cap.
pub proof fn law_backoff_doubles(n: nat)
    ensures
        2 * backoff_ceiling(n) <= RETRY_CAP_MS ==> backoff_ceiling(n + 1) == 2 * backoff_ceiling(n),
        2 * backoff_ceiling(n) > RETRY_CAP_MS ==> backoff_ceiling(n + 1) == RETRY_CAP_MS,
{
    lemma_doubled_grows(RETRY_BASE_MS as nat, n, n + 1);
}

/// Only a fault of the server passes: no answer that asks for another request does, nor
/// one that went well.
pub proof fn law_only_server_faults_pass(status: u16)
    ensures
        status < 500 || status > 504 ==> !retryable(status),
        500 <= status <= 504 ==> (retryable(status) <==> status != 501),
{
}

/// What is set counts before what stands in for it: a region before the default one, an
/// endpoint before that of the region, and a style before what the endpoint suggests. The
/// endpoint that stands in is the provider's, whose buckets are named by host.
pub proof fn law_settings_come_first(env: S3Env)
    ensures
        env.region matches Some(r) ==> region_of(env) == r@,
        env.region is None && env.default_region is Some ==> region_of(env)
            == env.default_region->Some_0@,
        env.endpoint matches Some(e) ==> endpoint_of(env) == e@,
        env.endpoint is None ==> strings::occurs_in(endpoint_of(env), region_of(env)),
        env.endpoint is None && env.path_style is None ==> !path_style_of(env),
        env.path_style is None && env.endpoint is Some && !strings::has_suffix(
            env.endpoint->Some_0@,
            ".amazonaws.com"@,
        ) ==> path_style_of(env),
        env.path_style matches Some(v) && v@ == "1"@ ==> path_style_of(env),
        env.path_style matches Some(v) && v@ == "0"@ ==> !path_style_of(env),
{
    reveal_strlit("0");
    reveal_strlit("1");
    assert("0"@[0] != "1"@[0]);
    if env.endpoint is None {
        let head = "https://s3."@;
        let tail = ".amazonaws.com"@;
        let region = region_of(env);
        let all = endpoint_of(env);
        assert(all =~= head + region + tail);
        strings::law_parts_make_up_the_text(all, region);
        assert(all =~= (head + region) + tail);
        strings::law_parts_make_up_the_text(all, tail);
    }
}

/// A setting says yes in letters of either case.
pub proof fn law_yes_has_no_case(s: Seq<char>, t: Seq<char>)
    requires
        s.len() == t.len(),
        forall|i: int| 0 <= i < s.len() ==> ascii_lower(#[trigger] s[i]) == ascii_lower(t[i]),
    ensures
        says_true(s) == says_true(t),
        says_true("true"@),
        says_true("TRUE"@),
        !says_true("false"@),
{
    reveal_strlit("true");
    reveal_strlit("TRUE");
    reveal_strlit("false");
    if s.len() == 4 {
        assert(ascii_lower(s[0]) == ascii_lower(t[0]));
        assert(ascii_lower(s[1]) == ascii_lower(t[1]));
        assert(ascii_lower(s[2]) == ascii_lower(t[2]));
        assert(ascii_lower(s[3]) == ascii_lower(t[3]));
    }
}

} // verus!
