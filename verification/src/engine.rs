//! The decision logic of the health-check engine: what one probe outcome
//! means for a check, how a check's retry/timeout policy plays out over a
//! sequence of probe outcomes, and how per-check outcomes aggregate into the
//! server's status.
//!
//! The engine's outside work — issuing the request, connecting, spawning the
//! command, sleeping, measuring the clock — is the surrounding application's;
//! it hands the plain outcomes to these functions and performs the actions
//! they decide.
use vstd::prelude::*;

use crate::model::CheckStatus;
use crate::model::HealthCheck;
use crate::model::HealthCheckMethod;
use crate::model::MethodV;
use crate::model::ServerStatus;
use crate::pattern::match_pattern;
use crate::pattern::regex_matches;
use crate::pattern::regex_pattern_valid;

verus! {

/// What one probe attempt produced, as plain values.
pub enum ProbeOutcome {
    /// An endpoint probe: response status and body, or nothing when no
    /// response was obtained.
    Http(Option<(u16, String)>),
    /// A port probe: whether the TCP connect completed.
    Port(bool),
    /// A command probe: the exit code, if the process exited with one, and
    /// the captured standard output; nothing when it could not be spawned.
    Shell(Option<(Option<i32>, String)>),
}

/// The mathematical value of a `ProbeOutcome`.
pub ghost enum ProbeOutcomeV {
    Http(Option<(u16, Seq<char>)>),
    Port(bool),
    Shell(Option<(Option<i32>, Seq<char>)>),
}

impl DeepView for ProbeOutcome {
    type V = ProbeOutcomeV;

    open spec fn deep_view(&self) -> ProbeOutcomeV {
        match self {
            ProbeOutcome::Http(None) => ProbeOutcomeV::Http(None),
            ProbeOutcome::Http(Some((code, body))) => ProbeOutcomeV::Http(
                Some((*code, body@)),
            ),
            ProbeOutcome::Port(ok) => ProbeOutcomeV::Port(*ok),
            ProbeOutcome::Shell(None) => ProbeOutcomeV::Shell(None),
            ProbeOutcome::Shell(Some((code, out))) => ProbeOutcomeV::Shell(
                Some((*code, out@)),
            ),
        }
    }
}

/// An endpoint probe passes when a response came and every configured
/// criterion holds of it: the status code, if one is configured, and the
/// body pattern, if one is configured.
pub open spec fn http_passes(
    status: Option<u16>,
    pattern: Option<Seq<char>>,
    resp: Option<(u16, Seq<char>)>,
) -> bool {
    match resp {
        None => false,
        Some((code, body)) => {
            &&& (status is Some ==> code == status->0)
            &&& (pattern is Some ==> regex_pattern_valid(pattern->0) && regex_matches(
                pattern->0,
                body,
            ))
        },
    }
}

/// A command probe passes when the process ran and every configured
/// criterion holds: the exit code, if one is configured, and the standard
/// output pattern, if one is configured.
pub open spec fn shell_passes(
    status: Option<i32>,
    pattern: Option<Seq<char>>,
    outcome: Option<(Option<i32>, Seq<char>)>,
) -> bool {
    match outcome {
        None => false,
        Some((code, out)) => {
            &&& (status is Some ==> code == Some(status->0))
            &&& (pattern is Some ==> regex_pattern_valid(pattern->0) && regex_matches(
                pattern->0,
                out,
            ))
        },
    }
}

/// Whether a probe outcome means the check passed, per strategy; an outcome
/// of the wrong kind never passes.
pub open spec fn check_passes(m: MethodV, o: ProbeOutcomeV) -> bool {
    match (m, o) {
        (MethodV::Http { url: _, status, regex }, ProbeOutcomeV::Http(resp)) => http_passes(
            status,
            regex,
            resp,
        ),
        (MethodV::Port { ip: _, port: _ }, ProbeOutcomeV::Port(ok)) => ok,
        (MethodV::Shell { command: _, status, regex }, ProbeOutcomeV::Shell(oc)) => shell_passes(
            status,
            regex,
            oc,
        ),
        _ => false,
    }
}

/// Decides whether one probe attempt satisfied the check: a clean AND over
/// the configured criteria. All transport failures arrive as empty outcomes
/// and collapse to `false`, never to an error.
pub fn check_health(check: &HealthCheckMethod, outcome: &ProbeOutcome) -> (r: bool)
    ensures
        r == check_passes(check.deep_view(), outcome.deep_view()),
{
    match (check, outcome) {
        (
            HealthCheckMethod::Http { url: _, status, regex },
            ProbeOutcome::Http(resp),
        ) => match resp {
            None => false,
            Some((code, body)) => {
                if let Some(expected) = status {
                    if *code != *expected {
                        return false;
                    }
                }
                match regex {
                    Some(pat) => match match_pattern(pat.as_str(), body.as_str()) {
                        Some(b) => b,
                        None => false,
                    },
                    None => true,
                }
            },
        },
        (HealthCheckMethod::Port { ip: _, port: _ }, ProbeOutcome::Port(ok)) => *ok,
        (
            HealthCheckMethod::Shell { command: _, status, regex },
            ProbeOutcome::Shell(oc),
        ) => match oc {
            None => false,
            Some((code, out)) => {
                if let Some(expected) = status {
                    let code_ok = match code {
                        Some(c) => *c == *expected,
                        None => false,
                    };
                    if !code_ok {
                        return false;
                    }
                }
                match regex {
                    Some(pat) => match match_pattern(pat.as_str(), out.as_str()) {
                        Some(b) => b,
                        None => false,
                    },
                    None => true,
                }
            },
        },
        _ => false,
    }
}

/// Whether the check's timeout budget is exhausted after `elapsed_ms`
/// milliseconds: the engine abandons the check exactly then.
pub fn check_deadline_reached(check: &HealthCheck, elapsed_ms: u64) -> (r: bool)
    ensures
        r == (elapsed_ms >= check.timeout),
{
    elapsed_ms >= check.timeout
}

/// Some entry of `cs` is `TimedOut`.
pub open spec fn any_timed_out(cs: Seq<CheckStatus>) -> bool {
    exists|i: int| 0 <= i < cs.len() && cs[i] == CheckStatus::TimedOut
}

/// Aggregates the terminal statuses of a server's checks: `TimedOut` when
/// any check timed out, `Healthy` otherwise — in particular for a server
/// with no checks at all.
pub fn aggregate_status(results: &Vec<CheckStatus>) -> (r: ServerStatus)
    ensures
        r == if any_timed_out(results@) {
            ServerStatus::TimedOut
        } else {
            ServerStatus::Healthy
        },
{
    let mut i: usize = 0;
    while i < results.len()
        invariant
            i <= results@.len(),
            forall|j: int| 0 <= j < i ==> results@[j] != CheckStatus::TimedOut,
        decreases results@.len() - i,
    {
        if results[i] == CheckStatus::TimedOut {
            return ServerStatus::TimedOut;
        }
        i += 1;
    }
    ServerStatus::Healthy
}

/// `k` is the number of probe attempts the retry/timeout policy admits:
/// attempts start at multiples of the retry interval, and the first one at
/// or past the timeout is not made.
pub open spec fn is_attempt_budget(timeout: int, retry: int, k: int) -> bool {
    &&& k >= 0
    &&& k * retry >= timeout
    &&& (k == 0 || (k - 1) * retry < timeout)
}

/// Plays the retry/timeout policy of one check against a given sequence of
/// probe results: attempt `k` happens at model time `k * retry_ms`; the
/// check times out at the first attempt time at or past `timeout_ms`, and
/// succeeds at the first attempt whose probe passed. Returns the terminal
/// status together with how many attempts were made.
pub fn run_check_model(timeout_ms: u64, retry_ms: u64, probes: &Vec<bool>) -> (r: (
    CheckStatus,
    usize,
))
    requires
        retry_ms >= 1,
        timeout_ms + retry_ms <= u64::MAX,
        probes@.len() * retry_ms >= timeout_ms,
    ensures
        r.0 == CheckStatus::TimedOut || r.0 == CheckStatus::Healthy,
        r.0 == CheckStatus::TimedOut ==> is_attempt_budget(
            timeout_ms as int,
            retry_ms as int,
            r.1 as int,
        ) && forall|j: int| 0 <= j < r.1 ==> !probes@[j],
        r.0 == CheckStatus::Healthy ==> {
            &&& 1 <= r.1 <= probes@.len()
            &&& probes@[r.1 - 1]
            &&& forall|j: int| 0 <= j < r.1 - 1 ==> !probes@[j]
            &&& (r.1 - 1) * retry_ms < timeout_ms
        },
{
    let total = probes.len();
    let mut k: usize = 0;
    let mut elapsed: u64 = 0;
    while elapsed < timeout_ms
        invariant
            retry_ms >= 1,
            timeout_ms + retry_ms <= u64::MAX,
            total == probes@.len(),
            probes@.len() * retry_ms >= timeout_ms,
            elapsed == k * retry_ms,
            k <= total,
            k == 0 || (k - 1) * retry_ms < timeout_ms,
            forall|j: int| 0 <= j < k ==> !probes@[j],
        decreases (if elapsed < timeout_ms {
            timeout_ms - elapsed
        } else {
            0int
        }),
    {
        proof {
            assert(k < probes@.len()) by (nonlinear_arith)
                requires
                    k * retry_ms == elapsed,
                    elapsed < timeout_ms,
                    probes@.len() * retry_ms >= timeout_ms,
                    retry_ms >= 1,
            ;
        }
        if probes[k] {
            return (CheckStatus::Healthy, k + 1);
        }
        proof {
            assert((k + 1) * retry_ms == k * retry_ms + retry_ms) by (nonlinear_arith);
        }
        elapsed = elapsed + retry_ms;
        k = k + 1;
    }
    (CheckStatus::TimedOut, k)
}

} // verus!
