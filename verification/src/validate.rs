//! Load-time validation: every health check must be able to determine
//! success, and the whole configuration is validated before any server's
//! status is touched — a single invalid entry aborts the load with no
//! partial result.
use vstd::prelude::*;
use vstd::string::StringSliceAdditionalSpecFns;

use crate::ip::is_ip_literal;
use crate::ip::is_valid_ip;
use crate::model::HealthCheckMethod;
use crate::model::MethodV;
use crate::model::Server;
use crate::model::ServerConfigError;
use crate::model::all_deps_defined;
use crate::model::names_unique;
use crate::pattern::pattern_ok;
use crate::pattern::regex_pattern_valid;
use crate::resolve::acyclic;
use crate::resolve::deps_before;
use crate::resolve::ResolveOutcome;
use crate::resolve::determine_wakeup_order;
use crate::resolve::find_server_index;
use crate::resolve::is_reordering;
use crate::resolve::resolve_error_witnessed;
use crate::resolve::resolve_model;

verus! {

/// A strategy can determine success: an endpoint or command probe has at
/// least one criterion configured, and a port probe's address is an IP
/// literal.
pub open spec fn method_valid(m: MethodV) -> bool {
    match m {
        MethodV::Http { url: _, status, regex } => status is Some || regex is Some,
        MethodV::Port { ip, port: _ } => is_ip_literal(vstd::utf8::encode_utf8(ip)),
        MethodV::Shell { command: _, status, regex } => status is Some || regex is Some,
    }
}

/// Every configured pattern of the strategy is a valid regular expression.
pub open spec fn method_patterns_ok(m: MethodV) -> bool {
    match m {
        MethodV::Http { url: _, status: _, regex } => regex is Some ==> regex_pattern_valid(
            regex->0,
        ),
        MethodV::Port { ip: _, port: _ } => true,
        MethodV::Shell { command: _, status: _, regex } => regex is Some
            ==> regex_pattern_valid(regex->0),
    }
}

/// Every check of every server can determine success.
pub open spec fn all_checks_valid(ss: Seq<Server>) -> bool {
    forall|i: int, j: int|
        0 <= i < ss.len() && 0 <= j < ss[i].check.len() ==> method_valid(
            (#[trigger] ss[i].check[j]).method.deep_view(),
        )
}

/// Every configured pattern of every server compiles.
pub open spec fn all_patterns_ok(ss: Seq<Server>) -> bool {
    forall|i: int, j: int|
        0 <= i < ss.len() && 0 <= j < ss[i].check.len() ==> method_patterns_ok(
            (#[trigger] ss[i].check[j]).method.deep_view(),
        )
}

/// Validates one strategy's configured fields: accepts exactly the
/// strategies that can determine success, and rejects the rest with
/// `BadHealthCheckDefinition`.
pub fn validate_health_check(healthcheck: &HealthCheckMethod) -> (r: Result<
    (),
    ServerConfigError,
>)
    ensures
        r is Ok <==> method_valid(healthcheck.deep_view()),
        r is Err ==> r->Err_0 is BadHealthCheckDefinition,
{
    match healthcheck {
        HealthCheckMethod::Http { url: _, status, regex } => {
            if status.is_none() && regex.is_none() {
                Err(
                    ServerConfigError::BadHealthCheckDefinition(
                        "HTTP health check requires an HTTP status code to match and/or a Regex to match in the response".to_owned(),
                    ),
                )
            } else {
                Ok(())
            }
        },
        HealthCheckMethod::Port { ip, port: _ } => {
            if is_valid_ip(ip.as_str()) {
                Ok(())
            } else {
                Err(
                    ServerConfigError::BadHealthCheckDefinition(
                        "Port check requires a valid IP address".to_owned(),
                    ),
                )
            }
        },
        HealthCheckMethod::Shell { command: _, status, regex } => {
            if status.is_none() && regex.is_none() {
                Err(
                    ServerConfigError::BadHealthCheckDefinition(
                        "Health check via shell command requires an return code to match and/or a Regex to match in the standard output".to_owned(),
                    ),
                )
            } else {
                Ok(())
            }
        },
    }
}

/// Returns the configured pattern of a strategy, if any.
fn method_pattern(m: &HealthCheckMethod) -> (r: Option<&String>)
    ensures
        match m.deep_view() {
            MethodV::Http { url: _, status: _, regex } => r.deep_view() == regex,
            MethodV::Port { ip: _, port: _ } => r is None,
            MethodV::Shell { command: _, status: _, regex } => r.deep_view() == regex,
        },
{
    match m {
        HealthCheckMethod::Http { url: _, status: _, regex } => regex.as_ref(),
        HealthCheckMethod::Port { ip: _, port: _ } => None,
        HealthCheckMethod::Shell { command: _, status: _, regex } => regex.as_ref(),
    }
}

/// Validates a decoded server list and produces the activation order.
///
/// All-or-nothing, before any status is touched: duplicate names and
/// patterns that do not compile are malformed input (`ParseError`); a check
/// that cannot determine success is `BadHealthCheckDefinition`; an unknown
/// or cyclic dependency is `UndefinedDependency` or `CircularDependency`.
/// Exactly when none of these occurs, the servers come back reordered so
/// that every server stands after all of its dependencies.
pub fn parse_server_dependencies(servers: &Vec<Server>) -> (r: Result<
    Vec<Server>,
    ServerConfigError,
>)
    ensures
        match r {
            Ok(out) => {
                &&& names_unique(servers@)
                &&& all_patterns_ok(servers@)
                &&& all_checks_valid(servers@)
                &&& all_deps_defined(servers@)
                &&& acyclic(servers@)
                &&& is_reordering(out@, servers@)
                &&& deps_before(out@)
                &&& (resolve_model(servers@) matches ResolveOutcome::Order { order }
                    && out@.len() == order.len() && (forall|i: int|
                    0 <= i < out@.len() ==> (#[trigger] out@[i]).deep_view()
                        == servers@[order[i] as int].deep_view()))
            },
            Err(e) => match e {
                ServerConfigError::ParseError(_) => !names_unique(servers@) || !all_patterns_ok(
                    servers@,
                ),
                ServerConfigError::BadHealthCheckDefinition(_) => !all_checks_valid(servers@),
                ServerConfigError::UndefinedDependency(d) => resolve_error_witnessed(servers@, e)
                    && resolve_model(servers@) == (ResolveOutcome::Undefined { name: d@ }),
                ServerConfigError::CircularDependency(nm) => resolve_error_witnessed(servers@, e)
                    && resolve_model(servers@) == (ResolveOutcome::Circular { name: nm@ }),
            },
        },
        names_unique(servers@) && all_patterns_ok(servers@) && all_checks_valid(servers@)
            && all_deps_defined(servers@) && acyclic(servers@) ==> r is Ok,
        r is Err && r->Err_0 is BadHealthCheckDefinition ==> names_unique(servers@)
            && all_patterns_ok(servers@),
        r is Err && (r->Err_0 is UndefinedDependency || r->Err_0 is CircularDependency)
            ==> names_unique(servers@) && all_patterns_ok(servers@) && all_checks_valid(servers@),
{
    let n = servers.len();
    // reject duplicate names: the configuration keys servers by name
    let mut i: usize = 0;
    while i < n
        invariant
            n == servers@.len(),
            i <= n,
            forall|a: int, b: int| 0 <= b < a < i ==> servers@[a].name@ != servers@[b].name@,
        decreases n - i,
    {
        match find_server_index(servers, &servers[i].name) {
            Some(first) => {
                if first != i {
                    let mut msg = "duplicate server name: ".to_owned();
                    msg.append(servers[i].name.as_str());
                    return Err(ServerConfigError::ParseError(msg));
                }
            },
            None => {
                // unreachable: the server itself carries its name
                proof {
                    assert(crate::model::has_server_named(servers@, servers@[i as int].name@));
                }
            },
        }
        i += 1;
    }
    proof {
        assert(names_unique(servers@));
    }
    // reject patterns that do not compile: malformed input, as if the
    // decoder had refused them
    let mut i: usize = 0;
    while i < n
        invariant
            n == servers@.len(),
            i <= n,
            names_unique(servers@),
            forall|a: int, j: int|
                0 <= a < i && 0 <= j < servers@[a].check.len() ==> method_patterns_ok(
                    (#[trigger] servers@[a].check[j]).method.deep_view(),
                ),
        decreases n - i,
    {
        let checks = &servers[i].check;
        let mut j: usize = 0;
        while j < checks.len()
            invariant
                checks@ == servers@[i as int].check@,
                i < n == servers@.len(),
                j <= checks@.len(),
                forall|j2: int|
                    0 <= j2 < j ==> method_patterns_ok(
                        (#[trigger] checks@[j2]).method.deep_view(),
                    ),
            decreases checks@.len() - j,
        {
            if let Some(pat) = method_pattern(&checks[j].method) {
                if !pattern_ok(pat.as_str()) {
                    let mut msg = "invalid regular expression: ".to_owned();
                    msg.append(pat.as_str());
                    return Err(ServerConfigError::ParseError(msg));
                }
            }
            j += 1;
        }
        i += 1;
    }
    // reject checks whose configured fields cannot determine success
    let mut i: usize = 0;
    while i < n
        invariant
            n == servers@.len(),
            i <= n,
            names_unique(servers@),
            all_patterns_ok(servers@),
            forall|a: int, j: int|
                0 <= a < i && 0 <= j < servers@[a].check.len() ==> method_valid(
                    (#[trigger] servers@[a].check[j]).method.deep_view(),
                ),
        decreases n - i,
    {
        let checks = &servers[i].check;
        let mut j: usize = 0;
        while j < checks.len()
            invariant
                checks@ == servers@[i as int].check@,
                i < n == servers@.len(),
                j <= checks@.len(),
                names_unique(servers@),
                all_patterns_ok(servers@),
                forall|j2: int|
                    0 <= j2 < j ==> method_valid((#[trigger] checks@[j2]).method.deep_view()),
            decreases checks@.len() - j,
        {
            match validate_health_check(&checks[j].method) {
                Ok(()) => {},
                Err(e) => {
                    return Err(e);
                },
            }
            j += 1;
        }
        i += 1;
    }
    // order by dependencies, rejecting undefined names and cycles
    determine_wakeup_order(servers)
}

} // verus!
