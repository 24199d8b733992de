//! Finding the running League client and reading its connection parameters
//! from the command line of `LeagueClientUx.exe`.
use vstd::prelude::*;

use crate::error::{message_spec, AppError};
use crate::models::ClientAuth;
use crate::text::{concat, eq_ignore_case, eq_ignore_case_seq, is_blank, owned, trim_seq};
use crate::update::{parse_u32, parse_u32_spec};

verus! {

#[verifier::external_type_specification]
#[verifier::external_body]
pub struct ExRegex(regex::Regex);

/// Whether `regex::Regex::new` accepts a pattern.
pub uninterp spec fn regex_valid(pattern: Seq<char>) -> bool;

/// What group 1 of the leftmost match of `pattern` in `text` holds, as
/// `regex::Regex::captures` and `Captures::get(1)` give it; `None` when
/// nothing matches or the group took no part.
pub uninterp spec fn regex_first_capture(pattern: Seq<char>, text: Seq<char>) -> Option<Seq<char>>;

/// A compiled pattern together with the text it was compiled from.
pub struct Pattern {
    regex: regex::Regex,
    source: Ghost<Seq<char>>,
}

impl Pattern {
    /// The text the pattern was compiled from.
    pub closed spec fn source(&self) -> Seq<char> {
        self.source@
    }
}

/// `regex::Regex::new`: compiles a pattern; the result depends on the
/// pattern alone (named `regex_valid`).
#[verifier::external_body]
fn compile_pattern(pattern: &str) -> (r: Option<Pattern>)
    ensures
        r is Some <==> regex_valid(pattern@),
        r matches Some(p) ==> p.source() == pattern@,
{
    match regex::Regex::new(pattern) {
        Ok(regex) => Some(Pattern { regex, source: Ghost(pattern@) }),
        Err(_) => None,
    }
}

/// `regex::Regex::captures` then `Captures::get(1)`: group 1 of the
/// leftmost match, named `regex_first_capture` of the pattern and the text.
#[verifier::external_body]
fn first_capture(pattern: &Pattern, text: &str) -> (r: Option<String>)
    ensures
        match r {
            Some(s) => regex_first_capture(pattern.source(), text@) == Some(s@),
            None => regex_first_capture(pattern.source(), text@) is None,
        },
{
    pattern.regex.captures(text).and_then(|c| c.get(1)).map(|m| m.as_str().to_string())
}

/// The `u16` that a text parses as, as `str::parse::<u16>` gives it.
pub open spec fn parse_u16_spec(s: Seq<char>) -> Option<u16> {
    match parse_u32_spec(s) {
        Some(v) => if v <= u16::MAX {
            Some(v as u16)
        } else {
            None
        },
        None => None,
    }
}

pub fn parse_u16(s: &str) -> (r: Option<u16>)
    ensures
        r == parse_u16_spec(s@),
{
    match parse_u32(s) {
        Some(v) => if v <= u16::MAX as u32 {
            Some(v as u16)
        } else {
            None
        },
        None => None,
    }
}

/// How the parameters were found.
pub open spec fn discovery_source() -> Seq<char> {
    "process-command-line"@
}

/// The views of an optional string.
pub open spec fn opt_view(s: Option<String>) -> Option<Seq<char>> {
    match s {
        Some(v) => Some(v@),
        None => None,
    }
}

/// `a` holds the parameters given by the captured values: the port and the
/// token are required, the process id falls back to `fallback_pid`, region
/// and platform default to empty, the Riot client's port and token are kept
/// when present (the port when it parses).
pub open spec fn auth_from_captures_spec(
    a: ClientAuth,
    port: Option<Seq<char>>,
    token: Option<Seq<char>>,
    pid: Option<Seq<char>>,
    region: Option<Seq<char>>,
    rso: Option<Seq<char>>,
    riot_port: Option<Seq<char>>,
    riot_token: Option<Seq<char>>,
    fallback_pid: u32,
) -> bool {
    &&& port is Some && parse_u16_spec(port->0) == Some(a.port)
    &&& token == Some(a.auth_token@)
    &&& a.pid == match pid {
        Some(p) => match parse_u32_spec(p) {
            Some(v) => v,
            None => fallback_pid,
        },
        None => fallback_pid,
    }
    &&& a.region@ == match region {
        Some(r) => r,
        None => Seq::empty(),
    }
    &&& a.rso_platform_id@ == match rso {
        Some(r) => r,
        None => Seq::empty(),
    }
    &&& a.riot_client_port == match riot_port {
        Some(p) => parse_u16_spec(p),
        None => None,
    }
    &&& opt_view(a.riot_client_auth_token) == riot_token
    &&& a.source@ == discovery_source()
}

/// The parameters from the captured values, when the port parses and the
/// token is there.
pub fn client_auth_from_captures(
    port: Option<String>,
    token: Option<String>,
    pid: Option<String>,
    region: Option<String>,
    rso: Option<String>,
    riot_port: Option<String>,
    riot_token: Option<String>,
    fallback_pid: u32,
) -> (r: Option<ClientAuth>)
    ensures
        r is Some <==> (port is Some && parse_u16_spec(port->0@) is Some && token is Some),
        r matches Some(a) ==> auth_from_captures_spec(
            a,
            opt_view(port),
            opt_view(token),
            opt_view(pid),
            opt_view(region),
            opt_view(rso),
            opt_view(riot_port),
            opt_view(riot_token),
            fallback_pid,
        ),
{
    let port = match &port {
        Some(p) => match parse_u16(p.as_str()) {
            Some(v) => v,
            None => {
                return None;
            },
        },
        None => {
            return None;
        },
    };
    let auth_token = match token {
        Some(t) => t,
        None => {
            return None;
        },
    };
    let pid = match &pid {
        Some(p) => match parse_u32(p.as_str()) {
            Some(v) => v,
            None => fallback_pid,
        },
        None => fallback_pid,
    };
    let region = match region {
        Some(r) => r,
        None => String::new(),
    };
    let rso_platform_id = match rso {
        Some(r) => r,
        None => String::new(),
    };
    let riot_client_port = match &riot_port {
        Some(p) => parse_u16(p.as_str()),
        None => None,
    };
    Some(
        ClientAuth {
            port,
            pid,
            auth_token,
            region,
            rso_platform_id,
            riot_client_port,
            riot_client_auth_token: riot_token,
            source: owned("process-command-line"),
        },
    )
}

pub open spec fn port_pattern() -> Seq<char> {
    "--app-port=([0-9]+)"@
}

pub open spec fn auth_pattern() -> Seq<char> {
    "--remoting-auth-token=([A-Za-z0-9_-]+)"@
}

pub open spec fn pid_pattern() -> Seq<char> {
    "--app-pid=([0-9]+)"@
}

pub open spec fn region_pattern() -> Seq<char> {
    "--region=([A-Za-z0-9_-]+)"@
}

pub open spec fn rso_pattern() -> Seq<char> {
    "--rso_platform_id=([A-Za-z0-9_-]+)"@
}

pub open spec fn riot_port_pattern() -> Seq<char> {
    "--riotclient-app-port=([0-9]+)"@
}

pub open spec fn riot_auth_pattern() -> Seq<char> {
    "--riotclient-auth-token=([A-Za-z0-9_-]+)"@
}

/// All the patterns of the command line compile.
pub open spec fn patterns_valid() -> bool {
    &&& regex_valid(port_pattern())
    &&& regex_valid(auth_pattern())
    &&& regex_valid(pid_pattern())
    &&& regex_valid(region_pattern())
    &&& regex_valid(rso_pattern())
    &&& regex_valid(riot_port_pattern())
    &&& regex_valid(riot_auth_pattern())
}

/// Reads the connection parameters from a `LeagueClientUx.exe` command line:
/// each `--name=value` argument found by its pattern, as
/// `client_auth_from_captures` combines them; `None` when a pattern does
/// not compile, the port or the token is missing, or the port does not parse.
pub fn parse_ux_command_line(command_line: &str, fallback_pid: u32) -> (r: Option<ClientAuth>)
    ensures
        !patterns_valid() ==> r is None,
        patterns_valid() ==> {
            let c = command_line@;
            let port = regex_first_capture(port_pattern(), c);
            let token = regex_first_capture(auth_pattern(), c);
            &&& r is Some <==> (port is Some && parse_u16_spec(port->0) is Some && token is Some)
            &&& r matches Some(a) ==> auth_from_captures_spec(
                a,
                port,
                token,
                regex_first_capture(pid_pattern(), c),
                regex_first_capture(region_pattern(), c),
                regex_first_capture(rso_pattern(), c),
                regex_first_capture(riot_port_pattern(), c),
                regex_first_capture(riot_auth_pattern(), c),
                fallback_pid,
            )
        },
{
    let port_re = match compile_pattern("--app-port=([0-9]+)") {
        Some(p) => p,
        None => {
            return None;
        },
    };
    let auth_re = match compile_pattern("--remoting-auth-token=([A-Za-z0-9_-]+)") {
        Some(p) => p,
        None => {
            return None;
        },
    };
    let pid_re = match compile_pattern("--app-pid=([0-9]+)") {
        Some(p) => p,
        None => {
            return None;
        },
    };
    let region_re = match compile_pattern("--region=([A-Za-z0-9_-]+)") {
        Some(p) => p,
        None => {
            return None;
        },
    };
    let rso_re = match compile_pattern("--rso_platform_id=([A-Za-z0-9_-]+)") {
        Some(p) => p,
        None => {
            return None;
        },
    };
    let riot_port_re = match compile_pattern("--riotclient-app-port=([0-9]+)") {
        Some(p) => p,
        None => {
            return None;
        },
    };
    let riot_auth_re = match compile_pattern("--riotclient-auth-token=([A-Za-z0-9_-]+)") {
        Some(p) => p,
        None => {
            return None;
        },
    };
    client_auth_from_captures(
        first_capture(&port_re, command_line),
        first_capture(&auth_re, command_line),
        first_capture(&pid_re, command_line),
        first_capture(&region_re, command_line),
        first_capture(&rso_re, command_line),
        first_capture(&riot_port_re, command_line),
        first_capture(&riot_auth_re, command_line),
        fallback_pid,
    )
}

/// The process name of the League client's user interface.
pub open spec fn ux_process_name() -> Seq<char> {
    "LeagueClientUx.exe"@
}

pub fn is_ux_process(name: &str) -> (r: bool)
    ensures
        r == eq_ignore_case_seq(name@, ux_process_name()),
{
    eq_ignore_case(name, "LeagueClientUx.exe")
}

/// The outcome of a scan: the clients found; else, when a client process
/// was seen, its parameters could not be read; else no client runs.
pub fn discovery_result(clients: Vec<ClientAuth>, saw_ux: bool) -> (r: Result<Vec<ClientAuth>, AppError>)
    ensures
        clients@.len() > 0 ==> r == Ok::<Vec<ClientAuth>, AppError>(clients),
        clients@.len() == 0 && saw_ux ==> r matches Err(AppError::ClientAuthNotFound),
        clients@.len() == 0 && !saw_ux ==> r matches Err(AppError::ClientNotFound),
{
    if clients.len() > 0 {
        Ok(clients)
    } else if saw_ux {
        Err(AppError::ClientAuthNotFound)
    } else {
        Err(AppError::ClientNotFound)
    }
}

/// The first client found, the scan's error passed on.
pub fn primary_client(found: Result<Vec<ClientAuth>, AppError>) -> (r: Result<ClientAuth, AppError>)
    ensures
        match found {
            Ok(v) => if v@.len() > 0 {
                r == Ok::<ClientAuth, AppError>(v@[0])
            } else {
                r matches Err(AppError::ClientAuthNotFound)
            },
            Err(e) => r == Err::<ClientAuth, AppError>(e),
        },
{
    match found {
        Ok(mut v) => {
            if v.len() > 0 {
                Ok(v.remove(0))
            } else {
                Err(AppError::ClientAuthNotFound)
            }
        },
        Err(e) => Err(e),
    }
}

/// Whether the command line read through the process information must be
/// read again through the process environment block: when that read failed
/// or gave a blank line.
pub fn needs_peb_read(primary: &Result<String, AppError>) -> (r: bool)
    ensures
        r == match primary {
            Ok(line) => trim_seq(line@).len() == 0,
            Err(_) => true,
        },
{
    match primary {
        Ok(line) => is_blank(line.as_str()),
        Err(_) => true,
    }
}

/// The command line from the two ways of reading it: the first when it gave
/// a non-blank line; else the second's answer, except that when both failed
/// the error names both.
pub fn command_line_from_reads(
    primary: Result<String, AppError>,
    fallback: Result<String, AppError>,
) -> (r: Result<String, AppError>)
    ensures
        match primary {
            Ok(line) => if trim_seq(line@).len() > 0 {
                r == Ok::<String, AppError>(line)
            } else {
                r == fallback
            },
            Err(pe) => match fallback {
                Ok(line) => r == Ok::<String, AppError>(line),
                Err(fe) => r matches Err(AppError::Windows(m)) && m@ == message_spec(pe) + "; PEB 兜底失败："@
                    + message_spec(fe),
            },
        },
{
    match primary {
        Ok(line) => {
            if is_blank(line.as_str()) {
                fallback
            } else {
                Ok(line)
            }
        },
        Err(pe) => match fallback {
            Ok(line) => Ok(line),
            Err(fe) => {
                let a = pe.message();
                let b = concat(a.as_str(), "; PEB 兜底失败：");
                let c = fe.message();
                Err(AppError::Windows(concat(b.as_str(), c.as_str())))
            },
        },
    }
}

} // verus!
