//! The decisions of a client for OpenAI-compatible chat endpoints: where to send requests, when
//! to retry, and what to make of a reply.

use crate::text::{chars_of, joined, owned};
use rand::Rng;
use vstd::prelude::*;
use vstd::string::*;

verus! {

/// How long to wait for a connection, in nanoseconds: ten seconds.
pub const CONNECT_TIMEOUT_NS: u64 = 10_000_000_000;

/// How long to wait for a response, in nanoseconds: two minutes.
pub const RESPONSE_TIMEOUT_NS: u64 = 120_000_000_000;

/// How often a round-trip is tried in all.
pub const MAX_ATTEMPTS: u32 = 4;

/// Pause before the first retry, in nanoseconds; it doubles with each further one.
pub const RETRY_BACKOFF_BASE_NS: u64 = 2_000_000_000;

/// Longest pause before jitter, in nanoseconds.
pub const RETRY_BACKOFF_CAP_NS: u64 = 30_000_000_000;

/// What became of a request that got no reply.
#[derive(Debug, Clone, Copy, PartialEq, Eq, Structural)]
pub enum TransportError {
    /// The server took too long.
    Timeout,
    /// Reading or writing failed.
    Io,
    /// The connection could not be made.
    ConnectionFailed,
    /// The server answered with an error status.
    StatusCode(u16),
    /// Any other failure: a bad address, an unknown host and the like.
    Other,
}

/// Whether a failure is likely to pass: timeouts, connection and I/O failures, rate limits and
/// server errors are; client errors and bad addresses are not.
pub open spec fn retryable(err: TransportError) -> bool {
    match err {
        TransportError::Timeout | TransportError::Io | TransportError::ConnectionFailed => true,
        TransportError::StatusCode(code) => code == 429 || 500 <= code < 600,
        TransportError::Other => false,
    }
}

/// Whether a failed request is worth sending again.
pub fn is_retryable(err: &TransportError) -> (r: bool)
    ensures
        r == retryable(*err),
{
    match err {
        TransportError::Timeout | TransportError::Io | TransportError::ConnectionFailed => true,
        TransportError::StatusCode(code) => *code == 429 || (*code >= 500 && *code < 600),
        TransportError::Other => false,
    }
}

/// Errors of a chat round-trip.
pub enum LlmError {
    /// The request failed.
    Http(String),
    /// The request body could not be made.
    Json(String),
    /// The response is no chat response.
    BadResponse(String),
}

impl LlmError {
    /// The message for the user.
    pub fn message(&self) -> (r: String)
        ensures
            r@ == match self {
                LlmError::Http(e) => "HTTP error: "@ + e@,
                LlmError::Json(e) => "JSON error: "@ + e@,
                LlmError::BadResponse(s) => "bad LLM response: "@ + s@,
            },
    {
        match self {
            LlmError::Http(e) => joined("HTTP error: ", e.as_str()),
            LlmError::Json(e) => joined("JSON error: ", e.as_str()),
            LlmError::BadResponse(s) => joined("bad LLM response: ", s.as_str()),
        }
    }
}

/// A text without the slashes at its end.
pub open spec fn without_slashes(s: Seq<char>) -> Seq<char>
    decreases s.len(),
{
    if s.len() > 0 && s.last() == '/' {
        without_slashes(s.drop_last())
    } else {
        s
    }
}

/// Where and as whom to talk to an inference server.
pub struct LlmClient {
    base_url: String,
    model: String,
    api_key: Option<String>,
}

/// Model of [`LlmClient`].
#[verifier::ext_equal]
pub struct LlmClientView {
    /// Server root URL without trailing slashes.
    pub base_url: Seq<char>,
    /// Model name.
    pub model: Seq<char>,
    /// Key sent for authorization, if any.
    pub api_key: Option<Seq<char>>,
}

impl View for LlmClient {
    type V = LlmClientView;

    closed spec fn view(&self) -> LlmClientView {
        LlmClientView {
            base_url: self.base_url@,
            model: self.model@,
            api_key: match self.api_key {
                Some(key) => Some(key@),
                None => None,
            },
        }
    }
}

fn trim_slashes(s: &str) -> (r: String)
    ensures
        r@ == without_slashes(s@),
{
    let chars = chars_of(s);
    let mut n: usize = chars.len();
    assert(s@.take(n as int) =~= s@);
    while n > 0 && chars[n - 1] == '/'
        invariant
            n <= s@.len(),
            chars@ == s@,
            without_slashes(s@) == without_slashes(s@.take(n as int)),
        decreases n,
    {
        assert(s@.take(n as int).drop_last() =~= s@.take(n - 1));
        n = n - 1;
    }
    assert(s@.subrange(0, n as int) =~= s@.take(n as int));
    owned(s.substring_char(0, n))
}

impl LlmClient {
    /// A client of the server at `base_url`. With a key, requests carry it as a bearer token.
    pub fn new(base_url: &str, model: &str, api_key: Option<&str>) -> (r: Self)
        ensures
            r@ == (LlmClientView {
                base_url: without_slashes(base_url@),
                model: model@,
                api_key: match api_key {
                    Some(key) => Some(key@),
                    None => None,
                },
            }),
    {
        LlmClient {
            base_url: trim_slashes(base_url),
            model: owned(model),
            api_key: match api_key {
                Some(key) => Some(owned(key)),
                None => None,
            },
        }
    }

    /// The model that requests ask for.
    pub fn model(&self) -> (r: &str)
        ensures
            r@ == self@.model,
    {
        self.model.as_str()
    }

    /// The address that requests go to.
    pub fn endpoint(&self) -> (r: String)
        ensures
            r@ == self@.base_url + "/v1/chat/completions"@,
    {
        joined(self.base_url.as_str(), "/v1/chat/completions")
    }

    /// The authorization header, if there is a key.
    pub fn authorization(&self) -> (r: Option<String>)
        ensures
            match r {
                Some(header) => self@.api_key matches Some(key) && header@ == "Bearer "@ + key,
                None => self@.api_key is None,
            },
    {
        match &self.api_key {
            Some(key) => Some(joined("Bearer ", key.as_str())),
            None => None,
        }
    }
}

/// Two to the power of `n`.
pub open spec fn power_of_two(n: nat) -> nat
    decreases n,
{
    if n == 0 {
        1
    } else {
        2 * power_of_two((n - 1) as nat)
    }
}

/// The pause before retry number `attempt`, before jitter: it doubles each time, up to the cap.
pub open spec fn scaled_backoff(attempt: u32) -> nat {
    let scaled = RETRY_BACKOFF_BASE_NS as nat * power_of_two((attempt - 1) as nat);
    if scaled <= RETRY_BACKOFF_CAP_NS {
        scaled
    } else {
        RETRY_BACKOFF_CAP_NS as nat
    }
}

/// Calls `Rng::random_range` on the thread's generator: a number below `n`. Which one it is is
/// left to chance.
#[verifier::external_body]
fn random_below(n: u64) -> (r: u64)
    requires
        n > 0,
    ensures
        r < n,
{
    rand::rng().random_range(0..n)
}

/// The pause before retry number `attempt`, in nanoseconds: [`scaled_backoff`] plus up to a
/// quarter of it at random, so that concurrent clients do not retry all at once.
pub fn retry_backoff(attempt: u32) -> (r: u64)
    requires
        1 <= attempt <= 32,
    ensures
        scaled_backoff(attempt) <= r < scaled_backoff(attempt) + scaled_backoff(attempt) / 4,
{
    let mut scaled: u64 = RETRY_BACKOFF_BASE_NS;
    let mut i: u32 = 1;
    while i < attempt
        invariant
            1 <= i <= attempt,
            scaled >= RETRY_BACKOFF_BASE_NS,
            scaled == scaled_backoff(i),
        decreases attempt - i,
    {
        proof {
            lemma_power_grows((i - 1) as nat);
            assert(power_of_two(i as nat) == 2 * power_of_two((i - 1) as nat));
        }
        scaled = if scaled * 2 <= RETRY_BACKOFF_CAP_NS {
            scaled * 2
        } else {
            RETRY_BACKOFF_CAP_NS
        };
        i = i + 1;
    }
    scaled + random_below(scaled / 4)
}

proof fn lemma_power_grows(n: nat)
    ensures
        power_of_two(n) >= 1,
    decreases n,
{
    if n > 0 {
        lemma_power_grows((n - 1) as nat);
    }
}

/// Pauses never get shorter from one retry to the next, before jitter, and stay between the base
/// and the cap.
pub proof fn backoff_grows_and_caps(attempt: u32)
    requires
        1 <= attempt < u32::MAX,
    ensures
        RETRY_BACKOFF_BASE_NS <= scaled_backoff(attempt) <= RETRY_BACKOFF_CAP_NS,
        scaled_backoff(attempt) <= scaled_backoff((attempt + 1) as u32),
        scaled_backoff((attempt + 1) as u32) == if 2 * scaled_backoff(attempt)
            <= RETRY_BACKOFF_CAP_NS {
            2 * scaled_backoff(attempt)
        } else {
            RETRY_BACKOFF_CAP_NS as nat
        },
{
    lemma_power_grows((attempt - 1) as nat);
    assert(power_of_two(attempt as nat) == 2 * power_of_two((attempt - 1) as nat));
}

/// A chat round-trip in progress: which attempt it is at.
pub struct RoundTrip {
    attempt: u32,
}

impl RoundTrip {
    /// The attempt that comes next or has just been made.
    pub closed spec fn attempt(&self) -> u32 {
        self.attempt
    }

    /// Validity: there are no more attempts than allowed.
    pub open spec fn wf(&self) -> bool {
        1 <= self.attempt() <= MAX_ATTEMPTS
    }

    /// A round-trip at its first attempt.
    pub fn start() -> (r: Self)
        ensures
            r.wf(),
            r.attempt() == 1,
    {
        RoundTrip { attempt: 1 }
    }

    /// What to do once an attempt has failed: wait this many nanoseconds and try again, or give
    /// up. A failure that is likely to pass is tried again until there have been four attempts.
    pub fn failed(&mut self, err: &TransportError) -> (r: Option<u64>)
        requires
            old(self).wf(),
        ensures
            final(self).wf(),
            r is Some <==> old(self).attempt() < MAX_ATTEMPTS && retryable(*err),
            match r {
                Some(pause) => final(self).attempt() == old(self).attempt() + 1 && scaled_backoff(
                    old(self).attempt(),
                ) <= pause < scaled_backoff(old(self).attempt()) + scaled_backoff(
                    old(self).attempt(),
                ) / 4,
                None => final(self).attempt() == old(self).attempt(),
            },
    {
        if self.attempt < MAX_ATTEMPTS && is_retryable(err) {
            let pause = retry_backoff(self.attempt);
            self.attempt = self.attempt + 1;
            Some(pause)
        } else {
            None
        }
    }
}

/// The latency to report: the one given in place of the measured one, or else the measured one.
pub fn effective_latency(latency_override_ms: Option<u64>, actual_ms: u64) -> (r: u64)
    ensures
        r == match latency_override_ms {
            Some(ms) => ms,
            None => actual_ms,
        },
{
    match latency_override_ms {
        Some(ms) => ms,
        None => actual_ms,
    }
}

/// The reply in a response: the first of the choices it was parsed into. A response that could
/// not be parsed, or without choices, is handed back as an error.
pub fn reply_text(choices: Option<Vec<String>>, response: String) -> (r: Result<String, LlmError>)
    ensures
        match r {
            Ok(reply) => choices matches Some(list) && list@.len() > 0 && reply@ == list@[0]@,
            Err(e) => (choices matches Some(list) ==> list@.len() == 0) && (
            e matches LlmError::BadResponse(text) && text@ == response@),
        },
{
    match choices {
        Some(list) => if list.len() > 0 {
            Ok(list[0].clone())
        } else {
            Err(LlmError::BadResponse(response))
        },
        None => Err(LlmError::BadResponse(response)),
    }
}

/// A failure is worth another try if the connection failed, broke or timed out, if the server asked
/// for patience, or if the error is the server's own; it is not if the request itself is at fault.
pub proof fn passing_failures_are_retried(code: u16)
    ensures
        retryable(TransportError::Timeout),
        retryable(TransportError::Io),
        retryable(TransportError::ConnectionFailed),
        !retryable(TransportError::Other),
        code == 429 ==> retryable(TransportError::StatusCode(code)),
        code / 100 == 5 ==> retryable(TransportError::StatusCode(code)),
        code / 100 != 5 && code != 429 ==> !retryable(TransportError::StatusCode(code)),
{
}

/// What is cut off a text are the slashes at its end, all of them and nothing else.
pub proof fn only_trailing_slashes_are_cut(s: Seq<char>)
    ensures
        without_slashes(s).is_prefix_of(s),
        without_slashes(s).len() > 0 ==> without_slashes(s).last() != '/',
        forall|i: int| without_slashes(s).len() <= i < s.len() ==> (#[trigger] s[i]) == '/',
    decreases s.len(),
{
    if s.len() > 0 && s.last() == '/' {
        let front = s.drop_last();
        only_trailing_slashes_are_cut(front);
        assert forall|i: int| without_slashes(s).len() <= i < s.len() implies (#[trigger] s[i])
            == '/' by {
            if i < front.len() {
                assert(front[i] == s[i]);
            }
        }
    }
}

/// The pause before retry `attempt` is two seconds times two to the power of the retries before it,
/// but never more than thirty seconds.
pub proof fn pauses_double(attempt: u32)
    requires
        1 <= attempt,
    ensures
        ({
            let doubled = 2_000_000_000 * vstd::arithmetic::power2::pow2((attempt - 1) as nat);
            &&& doubled <= 30_000_000_000 ==> scaled_backoff(attempt) == doubled
            &&& doubled > 30_000_000_000 ==> scaled_backoff(attempt) == 30_000_000_000
        }),
{
    lemma_power_of_two((attempt - 1) as nat);
}

proof fn lemma_power_of_two(n: nat)
    ensures
        power_of_two(n) == vstd::arithmetic::power2::pow2(n),
    decreases n,
{
    if n == 0 {
        vstd::arithmetic::power2::lemma2_to64();
    } else {
        lemma_power_of_two((n - 1) as nat);
        vstd::arithmetic::power2::lemma_pow2_unfold(n);
    }
}

} // verus!
