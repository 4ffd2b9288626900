//! Delivery of one batch: request framing, the resume/skip gate, and the
//! bounded retry-with-backoff state machine.
//!
//! The network call itself is the caller's: the library builds the exact
//! request (URL, headers, gzip-compressed body), decides for each batch
//! index whether it is transmitted or only counted (the resume gate), and,
//! fed the outcome of every attempt, decides whether to stop, sleep and
//! retry, or give up for good. Whatever the outcomes, a session never makes
//! more than the configured number of attempts, and the backoff schedule
//! under the jitter is non-decreasing until it hits the cap.

use vstd::prelude::*;

use crate::mime::mime_str;
use crate::mime::Mime;
use std::io::Write;

verus! {

/// How documents are delivered: replacing what is there, or updating it.
#[derive(Debug, Clone, Copy, PartialEq, Eq, Structural)]
pub enum DocumentOperation {
    /// Deliver with HTTP POST: add the documents, replacing existing ones.
    AddOrReplace,
    /// Deliver with HTTP PUT: add the documents, updating existing ones.
    AddOrUpdate,
}

/// The HTTP method a delivery mode uses.
pub open spec fn op_method(op: DocumentOperation) -> Seq<char> {
    match op {
        DocumentOperation::AddOrReplace => "POST"@,
        DocumentOperation::AddOrUpdate => "PUT"@,
    }
}

impl DocumentOperation {
    /// The HTTP method this mode uses: `op_method`.
    pub fn method_str(&self) -> (r: &'static str)
        ensures
            r@ == op_method(*self),
    {
        match self {
            DocumentOperation::AddOrReplace => "POST",
            DocumentOperation::AddOrUpdate => "PUT",
        }
    }
}

/// The documents endpoint for an index, with the primary key as a query
/// parameter when one is given.
pub open spec fn documents_url(base: Seq<char>, index: Seq<char>, pk: Option<Seq<char>>) -> Seq<
    char,
> {
    let u = base + "/indexes/"@ + index + "/documents"@;
    match pk {
        Some(k) => u + "?primaryKey="@ + k,
        None => u,
    }
}

/// Builds the documents URL for an index: exactly [`documents_url`].
pub fn build_documents_url(base: &str, index: &str, primary_key: &Option<String>) -> (r: String)
    ensures
        r@ == documents_url(
            base@,
            index@,
            match primary_key {
                Some(k) => Some(k@),
                None => None,
            },
        ),
{
    let mut u = String::new();
    u.append(base);
    u.append("/indexes/");
    u.append(index);
    u.append("/documents");
    match primary_key {
        Some(k) => {
            u.append("?primaryKey=");
            u.append(k.as_str());
            proof {
                assert(u@ =~= documents_url(base@, index@, Some(k@)));
            }
        },
        None => {
            proof {
                assert(u@ =~= documents_url(base@, index@, None));
            }
        },
    }
    u
}

/// The headers a batch is delivered under: its content type, the gzip
/// content encoding, and the bearer credential when one is configured.
pub fn request_headers(mime: &Mime, api_key: &Option<String>) -> (r: Vec<(String, String)>)
    ensures
        r@.len() == (match api_key {
            Some(_) => 3int,
            None => 2int,
        }),
        r@[0].0@ == "Content-Type"@ && r@[0].1@ == mime_str(*mime),
        r@[1].0@ == "Content-Encoding"@ && r@[1].1@ == "gzip"@,
        api_key matches Some(k) ==> r@[2].0@ == "Authorization"@ && r@[2].1@ == "Bearer "@ + k@,
{
    let mut headers: Vec<(String, String)> = Vec::new();
    headers.push((String::from_str("Content-Type"), String::from_str(mime.as_str())));
    headers.push((String::from_str("Content-Encoding"), String::from_str("gzip")));
    match api_key {
        Some(k) => {
            let mut bearer = String::from_str("Bearer ");
            bearer.append(k.as_str());
            headers.push((String::from_str("Authorization"), bearer));
        },
        None => {},
    }
    headers
}

/// The gzip stream that compressing these bytes yields. The encoder writes
/// a fixed header (zero timestamp, unknown operating system), so the
/// stream is a function of the input bytes.
pub uninterp spec fn gzip_of(s: Seq<u8>) -> Seq<u8>;

/// Relies on flate2's write::GzEncoder at the default level: the gzip
/// header it emits is fixed, so equal inputs compress to equal streams.
/// Writing to a byte vector cannot fail.
#[verifier::external_body]
fn gzip_compress(data: &Vec<u8>) -> (r: Vec<u8>)
    ensures
        r@ == gzip_of(data@),
{
    let mut encoder = flate2::write::GzEncoder::new(Vec::new(), flate2::Compression::default());
    encoder.write_all(data.as_slice()).unwrap();
    encoder.finish().unwrap()
}

/// One batch, framed and ready to transmit: method, URL, headers, and the
/// gzip-compressed body.
pub struct UploadRequest {
    /// The delivery mode, deciding POST or PUT.
    pub operation: DocumentOperation,
    /// The documents endpoint to call.
    pub url: String,
    /// The headers to send, name and value.
    pub headers: Vec<(String, String)>,
    /// The gzip-compressed batch.
    pub body: Vec<u8>,
}

/// Frames one batch for delivery: the documents URL, the content-type,
/// content-encoding and credential headers, and the compressed body.
pub fn prepare_upload(
    operation: DocumentOperation,
    base: &str,
    index: &str,
    primary_key: &Option<String>,
    api_key: &Option<String>,
    mime: &Mime,
    batch: &Vec<u8>,
) -> (r: UploadRequest)
    ensures
        r.operation == operation,
        r.url@ == documents_url(
            base@,
            index@,
            match primary_key {
                Some(k) => Some(k@),
                None => None,
            },
        ),
        r.headers@.len() == (match api_key {
            Some(_) => 3int,
            None => 2int,
        }),
        r.headers@[0].0@ == "Content-Type"@ && r.headers@[0].1@ == mime_str(*mime),
        r.headers@[1].0@ == "Content-Encoding"@ && r.headers@[1].1@ == "gzip"@,
        api_key matches Some(k) ==> r.headers@[2].0@ == "Authorization"@ && r.headers@[2].1@
            == "Bearer "@ + k@,
        r.body@ == gzip_of(batch@),
{
    let url = build_documents_url(base, index, primary_key);
    let headers = request_headers(mime, api_key);
    let body = gzip_compress(batch);
    UploadRequest { operation, url, headers, body }
}

/// Whether a batch with this index is transmitted, given the caller's
/// resume offset: everything is sent when there is none, and otherwise
/// exactly the batches at or past it.
pub open spec fn should_send_spec(index: u64, skip: Option<u64>) -> bool {
    match skip {
        None => true,
        Some(n) => index >= n,
    }
}

/// What the consumer does with one batch: progress moves by one either
/// way.
#[derive(Debug, Clone, Copy, PartialEq, Eq, Structural)]
pub enum ConsumeAction {
    /// The batch was already applied in an earlier run: count it, send
    /// nothing.
    SkipButCount,
    /// Transmit the batch, then count it.
    Send,
}

/// Decides what to do with the batch at `index`: send it exactly when
/// [`should_send_spec`] says so, and only count it otherwise. Progress
/// advances by one in both cases.
pub fn consume_step(index: u64, skip: &Option<u64>) -> (r: ConsumeAction)
    ensures
        r is Send <==> should_send_spec(index, *skip),
        r is SkipButCount <==> !should_send_spec(index, *skip),
{
    match skip {
        None => ConsumeAction::Send,
        Some(n) => {
            if index >= *n {
                ConsumeAction::Send
            } else {
                ConsumeAction::SkipButCount
            }
        },
    }
}

/// Law: with a resume offset of `n`, the batches with index below `n`
/// trigger no transmission and the batches at or past `n` are all
/// transmitted; with no offset, every batch is.
pub proof fn lemma_skip_gate(index: u64, n: u64)
    ensures
        index < n ==> !should_send_spec(index, Some(n)),
        index >= n ==> should_send_spec(index, Some(n)),
        should_send_spec(index, None),
{
}

/// Whether an HTTP status means the batch was accepted.
pub open spec fn success_status(status: u16) -> bool {
    200 <= status <= 299
}

/// Whether an HTTP status means the batch was accepted: any 2xx does.
pub fn is_success(status: u16) -> (r: bool)
    ensures
        r == success_status(status),
{
    200 <= status && status <= 299
}

/// The retry policy: how many attempts a batch gets, and the delay bounds
/// of the exponential backoff between them.
#[derive(Debug, Clone, Copy, PartialEq, Eq, Structural)]
pub struct RetryPolicy {
    /// Total attempts allowed for one batch, the first included.
    pub max_attempts: u32,
    /// The delay before the first retry, in milliseconds.
    pub min_delay_ms: u64,
    /// The cap every delay is clamped to, in milliseconds.
    pub max_delay_ms: u64,
}

impl RetryPolicy {
    /// At least one attempt, and ordered delay bounds.
    pub open spec fn wf(&self) -> bool {
        self.max_attempts >= 1 && self.min_delay_ms <= self.max_delay_ms
    }
}

/// Two to the `n`.
pub open spec fn pow2(n: nat) -> int
    decreases n,
{
    if n == 0 {
        1
    } else {
        2 * pow2((n - 1) as nat)
    }
}

/// The backoff before retry number `attempt + 1`: the minimum delay
/// doubled `attempt` times, capped at the maximum.
pub open spec fn base_delay_ms(p: RetryPolicy, attempt: nat) -> int {
    let raw = p.min_delay_ms * pow2(attempt);
    if raw > p.max_delay_ms {
        p.max_delay_ms as int
    } else {
        raw
    }
}

/// Doubling starts at one and never goes below it.
pub proof fn lemma_pow2_pos(n: nat)
    ensures
        pow2(n) >= 1,
    decreases n,
{
    if n > 0 {
        lemma_pow2_pos((n - 1) as nat);
    }
}

/// Doubling is positive and never shrinks.
pub proof fn lemma_pow2_monotone(a: nat, b: nat)
    requires
        a <= b,
    ensures
        1 <= pow2(a) <= pow2(b),
    decreases b,
{
    if a == b {
        lemma_pow2_pos(a);
    } else {
        lemma_pow2_monotone(a, (b - 1) as nat);
    }
}

/// Law: the backoff schedule is non-decreasing — each delay is at least
/// the one before it — until it reaches the cap, and it always stays
/// between the configured bounds.
pub proof fn lemma_backoff_monotone(p: RetryPolicy, a1: nat, a2: nat)
    requires
        p.wf(),
        a1 <= a2,
    ensures
        base_delay_ms(p, a1) <= base_delay_ms(p, a2),
        p.min_delay_ms <= base_delay_ms(p, a1) <= p.max_delay_ms,
{
    lemma_pow2_monotone(a1, a2);
    assert(p.min_delay_ms * pow2(a1) <= p.min_delay_ms * pow2(a2)) by (nonlinear_arith)
        requires
            pow2(a1) <= pow2(a2),
            p.min_delay_ms >= 0,
    ;
    assert(p.min_delay_ms * 1 <= p.min_delay_ms * pow2(a1)) by (nonlinear_arith)
        requires
            1 <= pow2(a1),
            p.min_delay_ms >= 0,
    ;
}

impl RetryPolicy {
    /// The backoff before retry number `attempt + 1`, before jitter:
    /// exactly [`base_delay_ms`].
    pub fn delay_ms(&self, attempt: u32) -> (r: u64)
        requires
            self.wf(),
        ensures
            r as int == base_delay_ms(*self, attempt as nat),
    {
        let mut d: u64 = self.min_delay_ms;
        if d > self.max_delay_ms {
            d = self.max_delay_ms;
        }
        let mut i: u32 = 0;
        proof {
            assert(pow2(0) == 1);
        }
        while i < attempt
            invariant
                self.wf(),
                i <= attempt,
                d as int == base_delay_ms(*self, i as nat),
            decreases attempt - i,
        {
            proof {
                lemma_pow2_monotone(i as nat, (i + 1) as nat);
                assert(pow2((i + 1) as nat) == 2 * pow2(i as nat));
                assert(self.min_delay_ms * (2 * pow2(i as nat)) == 2 * (self.min_delay_ms * pow2(
                    i as nat,
                ))) by (nonlinear_arith);
                assert(self.min_delay_ms * 1 <= self.min_delay_ms * pow2(i as nat))
                    by (nonlinear_arith)
                    requires
                        1 <= pow2(i as nat),
                        self.min_delay_ms >= 0,
                ;
            }
            d = if d > self.max_delay_ms - d {
                self.max_delay_ms
            } else {
                d + d
            };
            i = i + 1;
        }
        d
    }

    /// The jittered backoff before retry number `attempt + 1`: the base
    /// delay scaled by the random draw `rand` (shrunk up to 29% or grown
    /// up to 29%), then clamped to the configured bounds. Exactly
    /// [`jittered_ms`], so always within the bounds.
    pub fn jittered_delay_ms(&self, attempt: u32, rand: u32) -> (r: u64)
        requires
            self.wf(),
            rand < 60,
        ensures
            r as int == jittered_ms(*self, attempt as nat, rand as int),
            self.min_delay_ms <= r <= self.max_delay_ms,
    {
        let base = self.delay_ms(attempt);
        let d100: u128 = (base as u128) * 100;
        let rl: u128 = rand as u128;
        let jd: u128 = if rand < 30 {
            proof {
                assert(d100 * rl <= d100 * 29) by (nonlinear_arith)
                    requires
                        rl <= 29,
                        d100 >= 0,
                ;
                vstd::arithmetic::div_mod::lemma_div_is_ordered(
                    (d100 * rl) as int,
                    (d100 * 29) as int,
                    100,
                );
                vstd::arithmetic::div_mod::lemma_div_is_ordered(
                    (d100 * 29) as int,
                    d100 * 100,
                    100,
                );
                vstd::arithmetic::div_mod::lemma_div_multiples_vanish(d100 as int, 100);
                assert((100 * (d100 as int)) / 100 == d100 as int);
                assert((d100 * rl) / 100 <= d100);
            }
            d100 - (d100 * rl) / 100
        } else {
            let half: u128 = rl / 2;
            proof {
                assert(d100 * half <= d100 * 29) by (nonlinear_arith)
                    requires
                        half <= 29,
                        d100 >= 0,
                ;
                vstd::arithmetic::div_mod::lemma_div_is_ordered(
                    (d100 * half) as int,
                    (d100 * 29) as int,
                    100,
                );
                vstd::arithmetic::div_mod::lemma_div_is_ordered(
                    (d100 * 29) as int,
                    d100 * 100,
                    100,
                );
                vstd::arithmetic::div_mod::lemma_div_multiples_vanish(d100 as int, 100);
                assert((d100 * half) / 100 <= d100);
            }
            d100 + (d100 * half) / 100
        };
        let d: u128 = jd / 100;
        if d < self.min_delay_ms as u128 {
            self.min_delay_ms
        } else if d > self.max_delay_ms as u128 {
            self.max_delay_ms
        } else {
            d as u64
        }
    }
}

/// The jittered backoff before retry number `attempt + 1`: the crate-style
/// integer jitter — a draw below 30 shrinks the delay by up to 29%, one at
/// or above doubles down to a growth of up to 29% — clamped to the
/// configured bounds.
pub open spec fn jittered_ms(p: RetryPolicy, attempt: nat, rand: int) -> int {
    let base = base_delay_ms(p, attempt);
    let d100 = base * 100;
    let jd = if rand < 30 {
        d100 - (d100 * rand) / 100
    } else {
        d100 + (d100 * (rand / 2)) / 100
    };
    let d = jd / 100;
    if d < p.min_delay_ms {
        p.min_delay_ms as int
    } else if d > p.max_delay_ms {
        p.max_delay_ms as int
    } else {
        d
    }
}

/// What one delivery attempt came back with.
#[derive(Debug, Clone, Copy, PartialEq, Eq, Structural)]
pub enum SendOutcome {
    /// The endpoint answered with this HTTP status.
    Status(u16),
    /// The request did not complete: connection failure or timeout.
    TransportError,
}

/// Whether an outcome ends the session successfully.
pub open spec fn outcome_ok(o: SendOutcome) -> bool {
    o matches SendOutcome::Status(s) && success_status(s)
}

/// Where a delivery session stands.
#[derive(Debug, Clone, Copy, PartialEq, Eq, Structural)]
pub enum SendPhase {
    /// An attempt should be made.
    Sending,
    /// A 2xx answer arrived: the batch is delivered.
    Delivered,
    /// Every allowed attempt failed: the run must abort.
    Failed,
}

/// What the session asks of its driver after an outcome is recorded.
#[derive(Debug, Clone, Copy, PartialEq, Eq, Structural)]
pub enum SendVerdict {
    /// Done: the batch was accepted.
    Delivered,
    /// Sleep this many milliseconds, then attempt again.
    RetryAfter(u64),
    /// The attempt bound is exhausted: fatal, abort the run.
    Exhausted,
}

/// What recording one outcome does to a session: the attempt is counted,
/// a 2xx outcome delivers, the last allowed failure exhausts the session,
/// and any other failure asks for a jittered sleep and another attempt.
pub open spec fn record_spec(s: SendSession, outcome: SendOutcome, rand: int) -> (
    SendSession,
    SendVerdict,
) {
    let attempts = (s.attempts + 1) as u32;
    if outcome_ok(outcome) {
        (SendSession { phase: SendPhase::Delivered, attempts, ..s }, SendVerdict::Delivered)
    } else if attempts == s.policy.max_attempts {
        (SendSession { phase: SendPhase::Failed, attempts, ..s }, SendVerdict::Exhausted)
    } else {
        (
            SendSession { attempts, ..s },
            SendVerdict::RetryAfter(jittered_ms(s.policy, s.attempts as nat, rand) as u64),
        )
    }
}

/// The retry state machine for one batch. The driver makes an attempt
/// whenever the phase is `Sending` and feeds the outcome back; the session
/// counts the attempt and answers with done, a jittered sleep, or fatal
/// exhaustion. However the outcomes fall, at most `max_attempts` attempts
/// are ever asked for, and an all-failure run asks for exactly that many.
pub struct SendSession {
    /// The policy the session enforces.
    pub policy: RetryPolicy,
    /// Attempts recorded so far.
    pub attempts: u32,
    /// Where the session stands.
    pub phase: SendPhase,
}

impl SendSession {
    /// The attempt count never passes the bound, and a session still
    /// sending has attempts left.
    pub open spec fn wf(&self) -> bool {
        &&& self.policy.wf()
        &&& self.attempts <= self.policy.max_attempts
        &&& self.phase is Sending ==> self.attempts < self.policy.max_attempts
    }

    /// A fresh session: no attempt made, ready to send.
    pub fn new(policy: RetryPolicy) -> (r: SendSession)
        requires
            policy.wf(),
        ensures
            r.wf(),
            r.policy == policy,
            r.attempts == 0,
            r.phase is Sending,
    {
        SendSession { policy, attempts: 0, phase: SendPhase::Sending }
    }

    /// Whether the driver should make an attempt now.
    pub fn wants_attempt(&self) -> (r: bool)
        ensures
            r == (self.phase is Sending),
    {
        matches!(self.phase, SendPhase::Sending)
    }

    /// Records the outcome of one attempt; `rand` (below 60) is the
    /// caller's random draw for the jitter. A 2xx outcome delivers the
    /// batch. A failure consumes the attempt: if it was the last allowed
    /// one the session is exhausted — fatal — and otherwise the driver is
    /// told to sleep the jittered backoff and try again.
    pub fn record(&mut self, outcome: &SendOutcome, rand: u32) -> (r: SendVerdict)
        requires
            old(self).wf(),
            old(self).phase is Sending,
            rand < 60,
        ensures
            final(self).wf(),
            (*final(self), r) == record_spec(*old(self), *outcome, rand as int),
            final(self).policy == old(self).policy,
            final(self).attempts == old(self).attempts + 1,
            if outcome_ok(*outcome) {
                r is Delivered && final(self).phase is Delivered
            } else if old(self).attempts + 1 == old(self).policy.max_attempts {
                r is Exhausted && final(self).phase is Failed
            } else {
                (r matches SendVerdict::RetryAfter(d) && d as int == jittered_ms(
                    old(self).policy,
                    old(self).attempts as nat,
                    rand as int,
                )) && final(self).phase is Sending
            },
    {
        let prior = self.attempts;
        self.attempts = self.attempts + 1;
        let ok = match outcome {
            SendOutcome::Status(s) => is_success(*s),
            SendOutcome::TransportError => false,
        };
        if ok {
            self.phase = SendPhase::Delivered;
            SendVerdict::Delivered
        } else if self.attempts == self.policy.max_attempts {
            self.phase = SendPhase::Failed;
            SendVerdict::Exhausted
        } else {
            let d = self.policy.jittered_delay_ms(prior, rand);
            SendVerdict::RetryAfter(d)
        }
    }
}


/// The session state after a fresh one has recorded `k` failures in a row.
pub open spec fn after_failures(p: RetryPolicy, outcome: SendOutcome, rand: int, k: nat) -> SendSession
    decreases k,
{
    if k == 0 {
        SendSession { policy: p, attempts: 0, phase: SendPhase::Sending }
    } else {
        record_spec(after_failures(p, outcome, rand, (k - 1) as nat), outcome, rand).0
    }
}

/// Law: a sender whose every attempt fails performs exactly the configured
/// maximum attempt count, no more and no fewer — after `k` failures it
/// still wants an attempt exactly when `k` is below the bound — each sleep
/// on the way is the jittered backoff of that attempt, and the last
/// failure is answered with fatal exhaustion, never a silent success.
pub proof fn lemma_all_failures_exhaust(p: RetryPolicy, outcome: SendOutcome, rand: int, k: nat)
    requires
        p.wf(),
        !outcome_ok(outcome),
        k <= p.max_attempts,
    ensures
        after_failures(p, outcome, rand, k).policy == p,
        after_failures(p, outcome, rand, k).attempts == k,
        after_failures(p, outcome, rand, k).phase is Sending <==> k < p.max_attempts,
        k == p.max_attempts ==> after_failures(p, outcome, rand, k).phase is Failed,
        0 < k < p.max_attempts ==> record_spec(
            after_failures(p, outcome, rand, (k - 1) as nat),
            outcome,
            rand,
        ).1 == SendVerdict::RetryAfter(jittered_ms(p, (k - 1) as nat, rand) as u64),
        k == p.max_attempts && k > 0 ==> record_spec(
            after_failures(p, outcome, rand, (k - 1) as nat),
            outcome,
            rand,
        ).1 == SendVerdict::Exhausted,
    decreases k,
{
    if k > 0 {
        lemma_all_failures_exhaust(p, outcome, rand, (k - 1) as nat);
    }
}

} // verus!
