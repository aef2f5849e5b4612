//! The HTTP server's settings and the rules that keep it local and
//! authenticated: defaults, validation, the listen address, and the bearer
//! token check.
use vstd::prelude::*;

use crate::entities::{decimal_digits, push_decimal};
use crate::text::{
    chars_of, eq_ignore_ascii_case, eq_ignore_case, extend_chars, starts_with, starts_with_chars,
    string_of, trim, trim_chars,
};

verus! {

/// The port the server listens on unless configured otherwise.
pub fn default_port() -> (p: u16)
    ensures
        p == 8080,
{
    8080
}

/// The address the server binds unless configured otherwise: loopback only.
pub fn default_bind() -> (s: String)
    ensures
        s@ == "127.0.0.1"@,
{
    "127.0.0.1".to_owned()
}

/// The largest request body accepted unless configured otherwise: 1 MiB.
pub fn default_request_body_limit_bytes() -> (n: usize)
    ensures
        n == 1024 * 1024,
{
    1024 * 1024
}

/// `s` without one pair of surrounding square brackets, if it has them.
pub open spec fn unbracket(s: Seq<char>) -> Seq<char> {
    if s.len() >= 2 && s[0] == '[' && s.last() == ']' {
        s.subrange(1, s.len() - 1)
    } else {
        s
    }
}

/// The host part of a bind setting: the setting without one pair of square
/// brackets around it (`[::1]` names the host `::1`).
pub fn bind_host(bind: &str) -> (host: String)
    ensures
        host@ == unbracket(bind@),
{
    let v = chars_of(bind);
    if v.len() >= 2 && v[0] == '[' && v[v.len() - 1] == ']' {
        let mut inner: Vec<char> = Vec::new();
        let mut i: usize = 1;
        while i < v.len() - 1
            invariant
                1 <= i <= v@.len() - 1,
                v@.len() >= 2,
                inner@ == v@.subrange(1, i as int),
            decreases v.len() - 1 - i,
        {
            inner.push(v[i]);
            proof { assert(v@.subrange(1, i + 1) =~= v@.subrange(1, i as int).push(v@[i as int])); }
            i = i + 1;
        }
        string_of(&inner)
    } else {
        string_of(&v)
    }
}

/// Whether a bind setting keeps the server on this machine: its host is
/// `localhost` in any ASCII case, or a loopback IP address.
/// `host_is_loopback_ip` is whether the host parses as an IP address that
/// is a loopback address.
pub open spec fn is_local_bind_spec(bind: Seq<char>, host_is_loopback_ip: bool) -> bool {
    eq_ignore_case(unbracket(bind), "localhost"@) || host_is_loopback_ip
}

/// Whether a bind setting is local; `host_is_loopback_ip` tells whether
/// `bind_host(bind)` parses as a loopback IP address.
pub fn is_local_bind(bind: &str, host_is_loopback_ip: bool) -> (r: bool)
    ensures
        r == is_local_bind_spec(bind@, host_is_loopback_ip),
{
    let host = chars_of(bind_host(bind).as_str());
    let localhost = chars_of("localhost");
    eq_ignore_ascii_case(&host, &localhost) || host_is_loopback_ip
}

/// The server settings that the rules below read.
#[derive(Debug, Clone, PartialEq, Eq)]
pub struct ServerSettings {
    pub bind: String,
    pub port: u16,
    pub allow_non_local: bool,
    pub auth_token: Option<String>,
    pub request_body_limit_bytes: usize,
}

/// Why server settings were refused.
#[derive(Debug, Clone, PartialEq, Eq)]
pub enum SettingsError {
    /// The bind setting is blank.
    EmptyBind,
    /// The request body limit is zero.
    ZeroBodyLimit,
    /// An auth token is configured but empty.
    EmptyAuthToken,
    /// The bind setting is not local and non-local binding was not allowed;
    /// the setting is kept.
    NonLocalBind(String),
}

/// The outcome of validating server settings, the non-local bind setting
/// taken by its characters.
pub ghost enum SettingsCheck {
    Valid,
    EmptyBind,
    ZeroBodyLimit,
    EmptyAuthToken,
    NonLocalBind(Seq<char>),
}

/// The checks in order: a non-blank bind, a positive body limit, no empty
/// auth token, and a local bind unless non-local binding is allowed. An auth
/// token never stands in for the opt-in.
pub open spec fn settings_check(s: ServerSettings, host_is_loopback_ip: bool) -> SettingsCheck {
    if trim(s.bind@).len() == 0 {
        SettingsCheck::EmptyBind
    } else if s.request_body_limit_bytes == 0 {
        SettingsCheck::ZeroBodyLimit
    } else if s.auth_token matches Some(t) && t@.len() == 0 {
        SettingsCheck::EmptyAuthToken
    } else if !is_local_bind_spec(s.bind@, host_is_loopback_ip) && !s.allow_non_local {
        SettingsCheck::NonLocalBind(s.bind@)
    } else {
        SettingsCheck::Valid
    }
}

/// The outcome a validation result stands for.
pub open spec fn settings_outcome(r: Result<(), SettingsError>) -> SettingsCheck {
    match r {
        Ok(()) => SettingsCheck::Valid,
        Err(SettingsError::EmptyBind) => SettingsCheck::EmptyBind,
        Err(SettingsError::ZeroBodyLimit) => SettingsCheck::ZeroBodyLimit,
        Err(SettingsError::EmptyAuthToken) => SettingsCheck::EmptyAuthToken,
        Err(SettingsError::NonLocalBind(b)) => SettingsCheck::NonLocalBind(b@),
    }
}

impl ServerSettings {
    /// Validates the settings; `host_is_loopback_ip` tells whether
    /// `bind_host(&self.bind)` parses as a loopback IP address.
    pub fn validate(&self, host_is_loopback_ip: bool) -> (r: Result<(), SettingsError>)
        ensures
            settings_outcome(r) == settings_check(*self, host_is_loopback_ip),
    {
        let b = trim_chars(&chars_of(self.bind.as_str()));
        if b.len() == 0 {
            return Err(SettingsError::EmptyBind);
        }
        if self.request_body_limit_bytes == 0 {
            return Err(SettingsError::ZeroBodyLimit);
        }
        match &self.auth_token {
            Some(t) => {
                if t.as_str().is_empty() {
                    return Err(SettingsError::EmptyAuthToken);
                }
            },
            None => {},
        }
        if !is_local_bind(self.bind.as_str(), host_is_loopback_ip) && !self.allow_non_local {
            return Err(SettingsError::NonLocalBind(self.bind.clone()));
        }
        Ok(())
    }
}

impl SettingsError {
    /// What the error says.
    pub fn message(&self) -> (m: String)
        ensures
            m@ == settings_error_text(settings_outcome(Err(*self))),
    {
        match self {
            SettingsError::EmptyBind => "bind cannot be empty".to_owned(),
            SettingsError::ZeroBodyLimit => "request_body_limit_bytes must be greater than zero".to_owned(),
            SettingsError::EmptyAuthToken => "auth_token cannot be empty".to_owned(),
            SettingsError::NonLocalBind(b) => {
                let mut v: Vec<char> = chars_of("non-local bind (");
                extend_chars(&mut v, &chars_of(b.as_str()));
                extend_chars(&mut v, &chars_of(") requires allow_non_local = true"));
                string_of(&v)
            },
        }
    }
}

/// The text of each refusal.
pub open spec fn settings_error_text(c: SettingsCheck) -> Seq<char> {
    match c {
        SettingsCheck::EmptyBind => "bind cannot be empty"@,
        SettingsCheck::ZeroBodyLimit => "request_body_limit_bytes must be greater than zero"@,
        SettingsCheck::EmptyAuthToken => "auth_token cannot be empty"@,
        SettingsCheck::NonLocalBind(b) => "non-local bind ("@ + b + ") requires allow_non_local = true"@,
        SettingsCheck::Valid => Seq::empty(),
    }
}

/// The address to listen on: the host and the port joined by `:`, an IPv6
/// host in square brackets. `host_is_ipv6` tells whether `bind_host(bind)`
/// parses as an IPv6 address.
pub open spec fn bind_address_spec(bind: Seq<char>, port: u16, host_is_ipv6: bool) -> Seq<char> {
    let host = unbracket(bind);
    if host_is_ipv6 {
        seq!['['] + host + seq![']', ':'] + decimal_digits(port as nat)
    } else {
        host + seq![':'] + decimal_digits(port as nat)
    }
}

/// The listen address of a bind setting and a port.
pub fn format_bind_address(bind: &str, port: u16, host_is_ipv6: bool) -> (r: String)
    ensures
        r@ == bind_address_spec(bind@, port, host_is_ipv6),
{
    let host = chars_of(bind_host(bind).as_str());
    let mut v: Vec<char> = Vec::new();
    if host_is_ipv6 {
        v.push('[');
        extend_chars(&mut v, &host);
        v.push(']');
    } else {
        extend_chars(&mut v, &host);
    }
    v.push(':');
    push_decimal(&mut v, port as u64);
    proof {
        if host_is_ipv6 {
            assert(v@ =~= bind_address_spec(bind@, port, host_is_ipv6));
        } else {
            assert(v@ =~= bind_address_spec(bind@, port, host_is_ipv6));
        }
    }
    string_of(&v)
}

/// Compares two byte strings in time that depends on their lengths only,
/// not on where they differ.
pub fn constant_time_eq(left: &[u8], right: &[u8]) -> (r: bool)
    ensures
        r == (left@ == right@),
{
    if left.len() != right.len() {
        return false;
    }
    let mut difference: u8 = 0;
    let mut i: usize = 0;
    while i < left.len()
        invariant
            i <= left@.len(),
            left@.len() == right@.len(),
            (difference == 0) <==> (forall|k: int| 0 <= k < i ==> left@[k] == right@[k]),
        decreases left.len() - i,
    {
        let a = left[i];
        let b = right[i];
        let d = difference;
        assert((d | (a ^ b)) == 0u8 <==> (d == 0u8 && a == b)) by (bit_vector);
        difference = d | (a ^ b);
        proof {
            if difference == 0 {
                assert forall|k: int| 0 <= k < i + 1 implies left@[k] == right@[k] by {
                    if k < i {
                    }
                }
            }
        }
        i = i + 1;
    }
    proof {
        if difference == 0 {
            assert(left@ =~= right@);
        }
    }
    difference == 0
}

/// The token a request presents: the text of its `Authorization` header
/// after `Bearer `, when the header has that form.
pub open spec fn presented_token(header: Option<Seq<char>>) -> Option<Seq<char>> {
    match header {
        Some(h) => if starts_with(h, "Bearer "@) {
            Some(h.skip(7))
        } else {
            None
        },
        None => None,
    }
}

/// Whether a request may pass: always when no token is configured, and
/// otherwise only when it presents exactly the configured token.
pub open spec fn authorized_spec(expected: Option<Seq<char>>, header: Option<Seq<char>>) -> bool {
    match expected {
        None => true,
        Some(e) => presented_token(header) == Some(e),
    }
}

/// Decides whether a request is authorized; `header` is the value of its
/// `Authorization` header, when it has one that is valid text.
pub fn authorized(expected: Option<&str>, header: Option<&str>) -> (r: bool)
    ensures
        r == authorized_spec(
            match expected { Some(e) => Some(e@), None => None },
            match header { Some(h) => Some(h@), None => None },
        ),
{
    let e = match expected {
        None => return true,
        Some(e) => e,
    };
    let h = match header {
        None => return false,
        Some(h) => h,
    };
    let hv = chars_of(h);
    let prefix = chars_of("Bearer ");
    proof { reveal_strlit("Bearer "); }
    if !starts_with_chars(&hv, &prefix) {
        return false;
    }
    let mut token: Vec<char> = Vec::new();
    let mut i: usize = 7;
    while i < hv.len()
        invariant
            7 <= i <= hv@.len(),
            token@ == hv@.subrange(7, i as int),
        decreases hv.len() - i,
    {
        token.push(hv[i]);
        proof { assert(hv@.subrange(7, i + 1) =~= hv@.subrange(7, i as int).push(hv@[i as int])); }
        i = i + 1;
    }
    proof { assert(token@ =~= hv@.skip(7)); }
    let t = string_of(&token);
    let same = constant_time_eq(t.as_str().as_bytes(), e.as_bytes());
    proof {
        vstd::utf8::encode_utf8_decode_utf8(t@);
        vstd::utf8::encode_utf8_decode_utf8(e@);
    }
    same
}

} // verus!
