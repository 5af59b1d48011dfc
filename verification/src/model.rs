//! Data model: servers, their health checks, and the configuration errors.
//!
//! Durations are carried as whole milliseconds; the surrounding application
//! converts to and from its clock's own duration type at the boundary.
use vstd::prelude::*;
use vstd::string::StringSliceAdditionalSpecFns;

verus! {

/// A configuration error, surfaced at load time; never at run time.
#[derive(Debug, Clone, PartialEq, Eq)]
pub enum ServerConfigError {
    /// Malformed input, rejected before any server is touched.
    ParseError(String),
    /// A `depends` entry names a server that does not exist.
    UndefinedDependency(String),
    /// A dependency cycle was found; carries the name of the server whose
    /// re-entry closed the loop.
    CircularDependency(String),
    /// A health check's configured fields cannot determine success.
    BadHealthCheckDefinition(String),
}

/// The run status of a single health check. Transitions are monotonic:
/// Waiting, then Running, then exactly one of Healthy or TimedOut.
#[derive(Debug, Clone, Copy, PartialEq, Eq, Structural)]
pub enum CheckStatus {
    Waiting,
    Running,
    TimedOut,
    Healthy,
}

/// The aggregate status of a server. Transitions are monotonic:
/// Waiting, then WOLSent once the activation signal is issued, then exactly
/// one of Healthy or TimedOut once every check has resolved.
#[derive(Debug, Clone, Copy, PartialEq, Eq, Structural)]
pub enum ServerStatus {
    Waiting,
    WOLSent,
    Healthy,
    TimedOut,
}

impl Default for CheckStatus {
    fn default() -> (r: Self)
        ensures
            r == CheckStatus::Waiting,
    {
        CheckStatus::Waiting
    }
}

impl Default for ServerStatus {
    fn default() -> (r: Self)
        ensures
            r == ServerStatus::Waiting,
    {
        ServerStatus::Waiting
    }
}

/// Interval between failed probe attempts when the configuration names none,
/// in milliseconds.
pub fn default_retry_duration() -> (r: u64)
    ensures
        r == 10_000u64,
{
    10_000
}

/// Budget before a check is abandoned when the configuration names none,
/// in milliseconds. Five minutes: some servers take long to come up, and the
/// configuration can override this per check.
pub fn default_timeout_duration() -> (r: u64)
    ensures
        r == 300_000u64,
{
    300_000
}

/// One verification strategy. `regex` fields hold the textual pattern; it is
/// compiled only where a probe's response is matched against it.
#[derive(Debug)]
pub enum HealthCheckMethod {
    Http { url: String, status: Option<u16>, regex: Option<String> },
    Port { ip: String, port: u16 },
    Shell { command: String, status: Option<i32>, regex: Option<String> },
}

/// One health check: a strategy together with its retry interval and timeout
/// budget (both in milliseconds) and its mutable run status.
#[derive(Debug)]
pub struct HealthCheck {
    pub retry: u64,
    pub timeout: u64,
    pub method: HealthCheckMethod,
    pub status: CheckStatus,
}

/// A configured server: identity, activation parameters, the names of the
/// servers it depends on, and its health checks.
#[derive(Debug)]
pub struct Server {
    pub name: String,
    pub mac: String,
    pub interface: String,
    pub vlan: Option<u16>,
    pub depends: Vec<String>,
    pub check: Vec<HealthCheck>,
    pub status: ServerStatus,
}

/// The mathematical value of a `HealthCheckMethod`.
#[verifier::ext_equal]
pub ghost enum MethodV {
    Http { url: Seq<char>, status: Option<u16>, regex: Option<Seq<char>> },
    Port { ip: Seq<char>, port: u16 },
    Shell { command: Seq<char>, status: Option<i32>, regex: Option<Seq<char>> },
}

/// The mathematical value of a `HealthCheck`.
#[verifier::ext_equal]
pub ghost struct HealthCheckV {
    pub retry: u64,
    pub timeout: u64,
    pub method: MethodV,
    pub status: CheckStatus,
}

/// The mathematical value of a `Server`.
#[verifier::ext_equal]
pub ghost struct ServerV {
    pub name: Seq<char>,
    pub mac: Seq<char>,
    pub interface: Seq<char>,
    pub vlan: Option<u16>,
    pub depends: Seq<Seq<char>>,
    pub check: Seq<HealthCheckV>,
    pub status: ServerStatus,
}

impl DeepView for HealthCheckMethod {
    type V = MethodV;

    open spec fn deep_view(&self) -> MethodV {
        match self {
            HealthCheckMethod::Http { url, status, regex } => MethodV::Http {
                url: url@,
                status: *status,
                regex: regex.deep_view(),
            },
            HealthCheckMethod::Port { ip, port } => MethodV::Port { ip: ip@, port: *port },
            HealthCheckMethod::Shell { command, status, regex } => MethodV::Shell {
                command: command@,
                status: *status,
                regex: regex.deep_view(),
            },
        }
    }
}

impl DeepView for HealthCheck {
    type V = HealthCheckV;

    open spec fn deep_view(&self) -> HealthCheckV {
        HealthCheckV {
            retry: self.retry,
            timeout: self.timeout,
            method: self.method.deep_view(),
            status: self.status,
        }
    }
}

impl DeepView for Server {
    type V = ServerV;

    open spec fn deep_view(&self) -> ServerV {
        ServerV {
            name: self.name@,
            mac: self.mac@,
            interface: self.interface@,
            vlan: self.vlan,
            depends: self.depends.deep_view(),
            check: self.check.deep_view(),
            status: self.status,
        }
    }
}

impl Clone for HealthCheckMethod {
    fn clone(&self) -> (r: Self)
        ensures
            r.deep_view() == self.deep_view(),
    {
        match self {
            HealthCheckMethod::Http { url, status, regex } => HealthCheckMethod::Http {
                url: url.clone(),
                status: *status,
                regex: clone_pattern(regex),
            },
            HealthCheckMethod::Port { ip, port } => HealthCheckMethod::Port {
                ip: ip.clone(),
                port: *port,
            },
            HealthCheckMethod::Shell { command, status, regex } => HealthCheckMethod::Shell {
                command: command.clone(),
                status: *status,
                regex: clone_pattern(regex),
            },
        }
    }
}

fn clone_pattern(p: &Option<String>) -> (r: Option<String>)
    ensures
        r.deep_view() == p.deep_view(),
{
    match p {
        Some(s) => Some(s.clone()),
        None => None,
    }
}

impl Clone for HealthCheck {
    fn clone(&self) -> (r: Self)
        ensures
            r.deep_view() == self.deep_view(),
    {
        HealthCheck {
            retry: self.retry,
            timeout: self.timeout,
            method: self.method.clone(),
            status: self.status,
        }
    }
}

fn clone_names(v: &Vec<String>) -> (r: Vec<String>)
    ensures
        r.deep_view() == v.deep_view(),
{
    let mut r: Vec<String> = Vec::new();
    let mut i: usize = 0;
    while i < v.len()
        invariant
            i <= v.len(),
            r.len() == i,
            forall|j: int| 0 <= j < i ==> r[j]@ == v[j]@,
        decreases v.len() - i,
    {
        r.push(v[i].clone());
        i += 1;
    }
    proof {
        assert(r.deep_view() =~~= v.deep_view());
    }
    r
}

fn clone_checks(v: &Vec<HealthCheck>) -> (r: Vec<HealthCheck>)
    ensures
        r.deep_view() == v.deep_view(),
{
    let mut r: Vec<HealthCheck> = Vec::new();
    let mut i: usize = 0;
    while i < v.len()
        invariant
            i <= v.len(),
            r.len() == i,
            forall|j: int| 0 <= j < i ==> r[j].deep_view() == v[j].deep_view(),
        decreases v.len() - i,
    {
        r.push(v[i].clone());
        i += 1;
    }
    proof {
        assert(r.deep_view() =~~= v.deep_view());
    }
    r
}

impl Clone for Server {
    fn clone(&self) -> (r: Self)
        ensures
            r.deep_view() == self.deep_view(),
    {
        let r = Server {
            name: self.name.clone(),
            mac: self.mac.clone(),
            interface: self.interface.clone(),
            vlan: self.vlan,
            depends: clone_names(&self.depends),
            check: clone_checks(&self.check),
            status: self.status,
        };
        proof {
            assert(r.deep_view() =~~= self.deep_view());
        }
        r
    }
}

proof fn lemma_encode_utf8_concat(a: Seq<char>, b: Seq<char>)
    ensures
        vstd::utf8::encode_utf8(a + b) == vstd::utf8::encode_utf8(a) + vstd::utf8::encode_utf8(b),
    decreases a.len(),
{
    if a.len() == 0 {
        assert(a + b =~= b);
        assert(vstd::utf8::encode_utf8(a) =~= Seq::<u8>::empty());
        assert(vstd::utf8::encode_utf8(a) + vstd::utf8::encode_utf8(b) =~= vstd::utf8::encode_utf8(
            b,
        ));
    } else {
        lemma_encode_utf8_concat(a.drop_first(), b);
        assert((a + b).drop_first() =~= a.drop_first() + b);
        assert((a + b)[0] == a[0]);
        assert(vstd::utf8::encode_scalar(a[0] as u32) + (vstd::utf8::encode_utf8(a.drop_first())
            + vstd::utf8::encode_utf8(b)) =~= (vstd::utf8::encode_scalar(a[0] as u32)
            + vstd::utf8::encode_utf8(a.drop_first())) + vstd::utf8::encode_utf8(b));
    }
}

/// Shortens a command for display: a command longer than `max_length` bytes
/// is cut to `max_length - 3` bytes and given a three-dot ellipsis, so the
/// result is exactly `max_length` bytes; a shorter one is returned as it is.
/// The cut must fall on a character boundary.
pub fn truncate_command(command: &str, max_length: usize) -> (r: String)
    requires
        max_length >= 3,
        command.len() > max_length ==> vstd::utf8::is_char_boundary(
            command.spec_bytes(),
            max_length - 3,
        ),
    ensures
        command.len() > max_length ==> vstd::utf8::encode_utf8(r@)
            == command.spec_bytes().subrange(0, max_length - 3) + seq![0x2Eu8, 0x2Eu8, 0x2Eu8],
        command.len() <= max_length ==> r@ == command@,
{
    if command.len() > max_length {
        let (pre, _) = command.split_at(max_length - 3);
        let mut r = pre.to_owned();
        r.append("...");
        proof {
            reveal_strlit("...");
            lemma_encode_utf8_concat(pre@, "..."@);
            assert(vstd::utf8::is_ascii_chars("..."@));
            vstd::utf8::is_ascii_chars_encode_utf8("..."@);
            assert(vstd::utf8::encode_utf8("..."@) =~= seq![0x2Eu8, 0x2Eu8, 0x2Eu8]);
            assert(r@ == pre@ + "..."@);
            assert(vstd::utf8::encode_utf8(pre@) == pre.spec_bytes());
            assert(pre.spec_bytes() == command.spec_bytes().subrange(0, max_length - 3));
            assert(vstd::utf8::encode_utf8(r@) =~= command.spec_bytes().subrange(
                0,
                max_length - 3,
            ) + seq![0x2Eu8, 0x2Eu8, 0x2Eu8]);
        }
        r
    } else {
        command.to_owned()
    }
}

/// Whether some server in `ss` carries the name `n`.
pub open spec fn has_server_named(ss: Seq<Server>, n: Seq<char>) -> bool {
    exists|i: int| 0 <= i < ss.len() && ss[i].name@ == n
}

/// Whether every `depends` entry of every server names a server in `ss`.
pub open spec fn all_deps_defined(ss: Seq<Server>) -> bool {
    forall|i: int, j: int|
        0 <= i < ss.len() && 0 <= j < ss[i].depends.len() ==> has_server_named(
            ss,
            #[trigger] ss[i].depends[j]@,
        )
}

/// Whether the servers of `ss` all carry distinct names.
pub open spec fn names_unique(ss: Seq<Server>) -> bool {
    forall|i: int, j: int| 0 <= i < j < ss.len() ==> ss[i].name@ != ss[j].name@
}

} // verus!
