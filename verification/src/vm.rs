//! MicroVM configuration: the validated data model handed to the VMM.
//!
//! Port mappings, environment bindings, resource limits and volume mounts
//! are parsed from their string forms and rendered back when the VMM is
//! driven. Applying a configuration is planned here as an exact call
//! sequence; the FFI layer that carries it out lives outside this crate.

use vstd::prelude::*;

use crate::error::{InvalidMicroVMConfigError, MonocoreError, MonocoreResult};
use crate::monitor::{dec_str, dec_string};
use crate::path::{normalize_path, normalize_path_spec, SupportedPathType};

verus! {

/// The log level to use for the microVM.
#[derive(Debug, Clone, Copy, Default, PartialEq, Eq, Structural)]
pub enum LogLevel {
    /// No logging.
    #[default]
    Off,
    /// Error messages.
    Error,
    /// Warning messages.
    Warn,
    /// Informational messages.
    Info,
    /// Debug messages.
    Debug,
    /// Trace messages.
    Trace,
}

/// The numeric code of a log level.
pub open spec fn log_level_code(l: LogLevel) -> u32 {
    match l {
        LogLevel::Off => 0,
        LogLevel::Error => 1,
        LogLevel::Warn => 2,
        LogLevel::Info => 3,
        LogLevel::Debug => 4,
        LogLevel::Trace => 5,
    }
}

impl LogLevel {
    /// Returns the numeric code of this log level.
    pub fn to_code(self) -> (r: u32)
        ensures
            r == log_level_code(self),
    {
        match self {
            LogLevel::Off => 0,
            LogLevel::Error => 1,
            LogLevel::Warn => 2,
            LogLevel::Info => 3,
            LogLevel::Debug => 4,
            LogLevel::Trace => 5,
        }
    }
}

/// Whether a character is a decimal digit.
pub open spec fn is_digit(c: char) -> bool {
    '0' <= c && c <= '9'
}

/// The value of a decimal digit character.
pub open spec fn digit_val(c: char) -> int {
    c as int - '0' as int
}

/// Whether every character of `s` is a decimal digit.
pub open spec fn all_digits(s: Seq<char>) -> bool {
    forall|i: int| 0 <= i < s.len() ==> is_digit(#[trigger] s[i])
}

/// The value of a decimal digit string.
pub open spec fn dec_val(s: Seq<char>) -> int
    decreases s.len(),
{
    if s.len() == 0 {
        0
    } else {
        dec_val(s.drop_last()) * 10 + digit_val(s.last())
    }
}

/// A longer digit string never has a smaller value.
proof fn lemma_dec_val_monotone(s: Seq<char>, i: int)
    requires
        all_digits(s),
        0 <= i <= s.len(),
    ensures
        dec_val(s) >= dec_val(s.take(i)),
        dec_val(s) >= 0,
    decreases s.len() - i,
{
    if i == s.len() {
        assert(s.take(i) =~= s);
        lemma_dec_val_nonneg(s);
    } else {
        assert(s.take(i + 1).drop_last() =~= s.take(i));
        assert(s.take(i + 1).last() == s[i]);
        lemma_dec_val_nonneg(s.take(i));
        lemma_dec_val_monotone(s, i + 1);
    }
}

/// A digit string's value is never negative.
proof fn lemma_dec_val_nonneg(s: Seq<char>)
    requires
        all_digits(s),
    ensures
        dec_val(s) >= 0,
    decreases s.len(),
{
    if s.len() > 0 {
        assert(all_digits(s.drop_last())) by {
            assert(forall|i: int| 0 <= i < s.len() - 1 ==> s.drop_last()[i] == s[i]);
        }
        lemma_dec_val_nonneg(s.drop_last());
        assert(is_digit(s.last()));
    }
}

/// The first position of `c` in `s`, or `-1` if it does not occur.
pub open spec fn find_char(s: Seq<char>, c: char) -> int
    decreases s.len(),
{
    if s.len() == 0 {
        -1
    } else if s[0] == c {
        0
    } else {
        let r = find_char(s.drop_first(), c);
        if r == -1 {
            -1
        } else {
            r + 1
        }
    }
}

/// What `find_char` finds: the first occurrence, or none at all.
pub proof fn lemma_find_char(s: Seq<char>, c: char)
    ensures
        find_char(s, c) == -1 ==> forall|i: int| 0 <= i < s.len() ==> s[i] != c,
        find_char(s, c) != -1 ==> 0 <= find_char(s, c) < s.len() && s[find_char(s, c)] == c
            && forall|i: int| 0 <= i < find_char(s, c) ==> s[i] != c,
    decreases s.len(),
{
    if s.len() > 0 {
        lemma_find_char(s.drop_first(), c);
        if s[0] != c {
            let r = find_char(s.drop_first(), c);
            if r == -1 {
                assert forall|i: int| 0 <= i < s.len() implies s[i] != c by {
                    if i > 0 {
                        assert(s.drop_first()[i - 1] == s[i]);
                        assert(s.drop_first()[i - 1] != c);
                    }
                }
            } else {
                assert(s[r + 1] == s.drop_first()[r]);
                assert forall|i: int| 0 <= i < r + 1 implies s[i] != c by {
                    if i > 0 {
                        assert(s.drop_first()[i - 1] == s[i]);
                        assert(s.drop_first()[i - 1] != c);
                    }
                }
            }
        }
    }
}

/// Finds the first position of `c` in `s`.
fn find_char_exec(s: &str, c: char) -> (r: Option<usize>)
    ensures
        match r {
            Option::Some(i) => find_char(s@, c) == i,
            Option::None => find_char(s@, c) == -1,
        },
{
    let n = s.unicode_len();
    let mut i: usize = 0;
    while i < n
        invariant
            0 <= i <= n,
            n == s@.len(),
            forall|j: int| 0 <= j < i ==> s@[j] != c,
        decreases n - i,
    {
        if s.get_char(i) == c {
            proof {
                lemma_find_char(s@, c);
                if find_char(s@, c) == -1 {
                    assert(s@[i as int] != c);
                }
                if find_char(s@, c) < i {
                    assert(s@[find_char(s@, c)] != c);
                }
                if find_char(s@, c) > i {
                    assert(s@[i as int] != c);
                }
            }
            return Option::Some(i);
        }
        i += 1;
    }
    proof {
        lemma_find_char(s@, c);
        if find_char(s@, c) != -1 {
            assert(s@[find_char(s@, c)] != c);
        }
    }
    Option::None
}

/// Parses a decimal number of at most `max`.
///
/// Returns the value exactly when the string is one or more digits and its
/// value does not exceed `max`.
fn parse_dec(s: &str, max: u64) -> (r: Option<u64>)
    ensures
        r is Some <==> s@.len() >= 1 && all_digits(s@) && dec_val(s@) <= max,
        r matches Option::Some(v) ==> v == dec_val(s@),
{
    let n = s.unicode_len();
    if n == 0 {
        return Option::None;
    }
    let mut acc: u128 = 0;
    let mut i: usize = 0;
    proof {
        assert(s@.take(0) =~= Seq::<char>::empty());
    }
    while i < n
        invariant
            0 <= i <= n,
            n == s@.len(),
            all_digits(s@.take(i as int)),
            acc == dec_val(s@.take(i as int)),
            acc <= max,
            max <= u64::MAX,
        decreases n - i,
    {
        let c = s.get_char(i);
        if !(c >= '0' && c <= '9') {
            proof {
                assert(!is_digit(s@[i as int]));
            }
            return Option::None;
        }
        let d = (c as u32) - ('0' as u32);
        proof {
            assert(s@.take(i + 1int).drop_last() =~= s@.take(i as int));
            assert(s@.take(i + 1int).last() == s@[i as int]);
            assert(all_digits(s@.take(i + 1int)));
            assert(d == digit_val(s@[i as int]));
        }
        acc = acc * 10 + (d as u128);
        if acc > max as u128 {
            proof {
                if all_digits(s@) {
                    lemma_dec_val_monotone(s@, i + 1int);
                }
            }
            return Option::None;
        }
        i += 1;
    }
    proof {
        assert(s@.take(n as int) =~= s@);
    }
    Option::Some(acc as u64)
}

/// The protocol of a port mapping.
#[derive(Debug, Clone, Copy, PartialEq, Eq, Structural)]
pub enum PortProto {
    /// TCP, the default.
    Tcp,
    /// UDP.
    Udp,
}

/// A host-to-guest port mapping.
#[derive(Debug, Clone, Copy, PartialEq, Eq, Structural)]
pub struct PortPair {
    /// The host port.
    pub host: u16,
    /// The guest port.
    pub guest: u16,
    /// The protocol.
    pub proto: PortProto,
}

/// The parsed form of a port mapping string `host:guest[/tcp|/udp]`, or
/// `None` where the string has no such form.
pub open spec fn port_pair_spec(s: Seq<char>) -> Option<PortPair> {
    let ci = find_char(s, ':');
    if ci < 0 {
        Option::None
    } else {
        let host_part = s.take(ci);
        let rest = s.skip(ci + 1);
        let si = find_char(rest, '/');
        let guest_part = if si < 0 {
            rest
        } else {
            rest.take(si)
        };
        let proto = if si < 0 {
            Some(PortProto::Tcp)
        } else if rest.skip(si + 1) == "tcp"@ {
            Some(PortProto::Tcp)
        } else if rest.skip(si + 1) == "udp"@ {
            Some(PortProto::Udp)
        } else {
            Option::None
        };
        if host_part.len() >= 1 && all_digits(host_part) && dec_val(host_part) <= 0xFFFF
            && guest_part.len() >= 1 && all_digits(guest_part) && dec_val(guest_part) <= 0xFFFF
            && proto is Some {
            Some(
                PortPair {
                    host: dec_val(host_part) as u16,
                    guest: dec_val(guest_part) as u16,
                    proto: proto.unwrap(),
                },
            )
        } else {
            Option::None
        }
    }
}

/// Parses a port mapping from its string form `host:guest[/tcp|/udp]`.
///
/// Fails with `InvalidConfig` exactly on strings of no such form.
pub fn parse_port_pair(s: &str) -> (r: MonocoreResult<PortPair>)
    ensures
        match r {
            Result::Ok(p) => port_pair_spec(s@) == Some(p),
            Result::Err(e) => port_pair_spec(s@) is None && e matches MonocoreError::InvalidConfig(
                _,
            ),
        },
{
    let n = s.unicode_len();
    let ci = match find_char_exec(s, ':') {
        Option::Some(i) => i,
        Option::None => {
            return Result::Err(MonocoreError::InvalidConfig(String::from_str(s)));
        },
    };
    proof {
        lemma_find_char(s@, ':');
    }
    let host_str = s.substring_char(0, ci);
    let rest = s.substring_char(ci + 1, n);
    proof {
        assert(host_str@ =~= s@.take(ci as int));
        assert(rest@ =~= s@.skip(ci + 1int));
    }
    let rn = rest.unicode_len();
    let si = find_char_exec(rest, '/');
    proof {
        lemma_find_char(rest@, '/');
    }
    let guest_str = match si {
        Option::Some(j) => rest.substring_char(0, j),
        Option::None => rest,
    };
    let proto = match si {
        Option::Some(j) => {
            let p = rest.substring_char(j + 1, rn);
            proof {
                reveal_strlit("tcp");
                reveal_strlit("udp");
                assert(p@ =~= rest@.skip(j + 1int));
            }
            if str_eq_chars(p, "tcp") {
                Option::Some(PortProto::Tcp)
            } else if str_eq_chars(p, "udp") {
                Option::Some(PortProto::Udp)
            } else {
                Option::None
            }
        },
        Option::None => Option::Some(PortProto::Tcp),
    };
    proof {
        if si is Some {
            assert(guest_str@ =~= rest@.take(si.unwrap() as int));
        }
    }
    let proto = match proto {
        Option::Some(p) => p,
        Option::None => {
            return Result::Err(MonocoreError::InvalidConfig(String::from_str(s)));
        },
    };
    let host = match parse_dec(host_str, 0xFFFF) {
        Option::Some(v) => v as u16,
        Option::None => {
            return Result::Err(MonocoreError::InvalidConfig(String::from_str(s)));
        },
    };
    let guest = match parse_dec(guest_str, 0xFFFF) {
        Option::Some(v) => v as u16,
        Option::None => {
            return Result::Err(MonocoreError::InvalidConfig(String::from_str(s)));
        },
    };
    Result::Ok(PortPair { host, guest, proto })
}

/// Whether two strings hold the same characters.
fn str_eq_chars(a: &str, b: &str) -> (r: bool)
    ensures
        r == (a@ == b@),
{
    let n = a.unicode_len();
    let m = b.unicode_len();
    if n != m {
        return false;
    }
    let mut i: usize = 0;
    while i < n
        invariant
            0 <= i <= n,
            n == a@.len(),
            n == b@.len(),
            forall|j: int| 0 <= j < i ==> a@[j] == b@[j],
        decreases n - i,
    {
        if a.get_char(i) != b.get_char(i) {
            return false;
        }
        i += 1;
    }
    proof {
        assert(a@ =~= b@);
    }
    true
}

/// The rendered form of a port mapping: `host:guest/tcp` or
/// `host:guest/udp`.
pub open spec fn render_port_pair(p: PortPair) -> Seq<char> {
    dec_str(p.host as nat) + ":"@ + dec_str(p.guest as nat) + "/"@ + (match p.proto {
        PortProto::Tcp => "tcp"@,
        PortProto::Udp => "udp"@,
    })
}

impl PortPair {
    /// Renders this port mapping as `host:guest/proto`.
    pub fn to_display_string(&self) -> (r: String)
        ensures
            r@ == render_port_pair(*self),
    {
        let h = dec_string(self.host as u64);
        let g = dec_string(self.guest as u64);
        let proto = match self.proto {
            PortProto::Tcp => "tcp",
            PortProto::Udp => "udp",
        };
        h.concat(":").concat(g.as_str()).concat("/").concat(proto)
    }
}

/// Whether a character may start an environment variable name.
pub open spec fn is_env_head(c: char) -> bool {
    ('A' <= c && c <= 'Z') || ('a' <= c && c <= 'z') || c == '_'
}

/// Whether a character may continue an environment variable name.
pub open spec fn is_env_tail(c: char) -> bool {
    is_env_head(c) || is_digit(c)
}

/// Whether `k` is a well-formed environment variable name.
pub open spec fn valid_env_key(k: Seq<char>) -> bool {
    k.len() >= 1 && is_env_head(k[0]) && forall|i: int| 1 <= i < k.len() ==> is_env_tail(#[trigger] k[i])
}

/// An environment binding.
#[derive(Debug, Clone, PartialEq, Eq)]
pub struct EnvPair {
    /// The variable name.
    pub name: String,
    /// The bound value.
    pub value: String,
}

impl View for EnvPair {
    type V = (Seq<char>, Seq<char>);

    open spec fn view(&self) -> (Seq<char>, Seq<char>) {
        (self.name@, self.value@)
    }
}

/// The parsed form of an environment binding `KEY=VALUE`, split at the
/// first `=`, or `None` where the key is not well-formed.
pub open spec fn env_pair_spec(s: Seq<char>) -> Option<(Seq<char>, Seq<char>)> {
    let ei = find_char(s, '=');
    if ei < 0 {
        Option::None
    } else {
        let key = s.take(ei);
        let value = s.skip(ei + 1);
        if valid_env_key(key) {
            Some((key, value))
        } else {
            Option::None
        }
    }
}

/// Parses an environment binding from its string form `KEY=VALUE`.
///
/// Fails with `InvalidConfig` exactly when there is no `=` or the key does
/// not match `[A-Za-z_][A-Za-z0-9_]*`.
pub fn parse_env_pair(s: &str) -> (r: MonocoreResult<EnvPair>)
    ensures
        match r {
            Result::Ok(p) => env_pair_spec(s@) == Some(p@),
            Result::Err(e) => env_pair_spec(s@) is None && e matches MonocoreError::InvalidConfig(
                _,
            ),
        },
{
    let n = s.unicode_len();
    let ei = match find_char_exec(s, '=') {
        Option::Some(i) => i,
        Option::None => {
            return Result::Err(MonocoreError::InvalidConfig(String::from_str(s)));
        },
    };
    proof {
        lemma_find_char(s@, '=');
    }
    let key = s.substring_char(0, ei);
    let value = s.substring_char(ei + 1, n);
    proof {
        assert(key@ =~= s@.take(ei as int));
        assert(value@ =~= s@.skip(ei + 1int));
    }
    let kn = key.unicode_len();
    if kn == 0 {
        return Result::Err(MonocoreError::InvalidConfig(String::from_str(s)));
    }
    let c0 = key.get_char(0);
    if !((c0 >= 'A' && c0 <= 'Z') || (c0 >= 'a' && c0 <= 'z') || c0 == '_') {
        return Result::Err(MonocoreError::InvalidConfig(String::from_str(s)));
    }
    let mut i: usize = 1;
    while i < kn
        invariant
            1 <= i <= kn,
            kn == key@.len(),
            find_char(s@, '=') == ei,
            0 <= ei < s@.len(),
            key@ == s@.take(ei as int),
            value@ == s@.skip(ei + 1int),
            forall|j: int| 1 <= j < i ==> is_env_tail(#[trigger] key@[j]),
        decreases kn - i,
    {
        let c = key.get_char(i);
        if !((c >= 'A' && c <= 'Z') || (c >= 'a' && c <= 'z') || c == '_' || (c >= '0' && c
            <= '9')) {
            proof {
                assert(!is_env_tail(key@[i as int]));
            }
            return Result::Err(MonocoreError::InvalidConfig(String::from_str(s)));
        }
        i += 1;
    }
    Result::Ok(EnvPair { name: String::from_str(key), value: String::from_str(value) })
}

/// The rendered form of an environment binding: `KEY=VALUE`.
pub open spec fn render_env_pair(name: Seq<char>, value: Seq<char>) -> Seq<char> {
    name + "="@ + value
}

impl EnvPair {
    /// Renders this binding as `KEY=VALUE`.
    pub fn to_display_string(&self) -> (r: String)
        ensures
            r@ == render_env_pair(self.name@, self.value@),
    {
        self.name.clone().concat("=").concat(self.value.as_str())
    }
}

/// A resource limit for the guest.
#[derive(Debug, Clone, PartialEq, Eq)]
pub struct LinuxRlimit {
    /// The limit's name, of the form `RLIMIT_<NAME>`.
    pub name: String,
    /// The soft limit.
    pub soft: u64,
    /// The hard limit.
    pub hard: u64,
}

impl View for LinuxRlimit {
    type V = (Seq<char>, u64, u64);

    open spec fn view(&self) -> (Seq<char>, u64, u64) {
        (self.name@, self.soft, self.hard)
    }
}

/// Whether `n` is a well-formed resource limit name: `RLIMIT_` followed by
/// at least one character.
pub open spec fn valid_rlimit_name(n: Seq<char>) -> bool {
    n.len() > 7 && n.take(7) == "RLIMIT_"@
}

/// The parsed form of a resource limit `RLIMIT_<NAME>=<soft>:<hard>`, or
/// `None` where the string has no such form.
pub open spec fn rlimit_spec(s: Seq<char>) -> Option<(Seq<char>, u64, u64)> {
    let ei = find_char(s, '=');
    if ei < 0 {
        Option::None
    } else {
        let name = s.take(ei);
        let rest = s.skip(ei + 1);
        let ci = find_char(rest, ':');
        if ci < 0 {
            Option::None
        } else {
            let soft_part = rest.take(ci);
            let hard_part = rest.skip(ci + 1);
            if valid_rlimit_name(name) && soft_part.len() >= 1 && all_digits(soft_part) && dec_val(
                soft_part,
            ) <= u64::MAX && hard_part.len() >= 1 && all_digits(hard_part) && dec_val(hard_part)
                <= u64::MAX {
                Some((name, dec_val(soft_part) as u64, dec_val(hard_part) as u64))
            } else {
                Option::None
            }
        }
    }
}

/// Parses a resource limit from its string form `RLIMIT_<NAME>=<soft>:<hard>`.
///
/// Fails with `InvalidConfig` exactly on strings of no such form.
pub fn parse_rlimit(s: &str) -> (r: MonocoreResult<LinuxRlimit>)
    ensures
        match r {
            Result::Ok(p) => rlimit_spec(s@) == Some(p@),
            Result::Err(e) => rlimit_spec(s@) is None && e matches MonocoreError::InvalidConfig(_),
        },
{
    proof {
        reveal_strlit("RLIMIT_");
    }
    let n = s.unicode_len();
    let ei = match find_char_exec(s, '=') {
        Option::Some(i) => i,
        Option::None => {
            return Result::Err(MonocoreError::InvalidConfig(String::from_str(s)));
        },
    };
    proof {
        lemma_find_char(s@, '=');
    }
    let name = s.substring_char(0, ei);
    let rest = s.substring_char(ei + 1, n);
    proof {
        assert(name@ =~= s@.take(ei as int));
        assert(rest@ =~= s@.skip(ei + 1int));
    }
    let nn = name.unicode_len();
    if nn <= 7 {
        return Result::Err(MonocoreError::InvalidConfig(String::from_str(s)));
    }
    let prefix = name.substring_char(0, 7);
    proof {
        assert(prefix@ =~= name@.take(7));
    }
    if !str_eq_chars(prefix, "RLIMIT_") {
        return Result::Err(MonocoreError::InvalidConfig(String::from_str(s)));
    }
    let rn = rest.unicode_len();
    let ci = match find_char_exec(rest, ':') {
        Option::Some(i) => i,
        Option::None => {
            return Result::Err(MonocoreError::InvalidConfig(String::from_str(s)));
        },
    };
    proof {
        lemma_find_char(rest@, ':');
    }
    let soft_str = rest.substring_char(0, ci);
    let hard_str = rest.substring_char(ci + 1, rn);
    proof {
        assert(soft_str@ =~= rest@.take(ci as int));
        assert(hard_str@ =~= rest@.skip(ci + 1int));
    }
    let soft = match parse_dec(soft_str, u64::MAX) {
        Option::Some(v) => v,
        Option::None => {
            return Result::Err(MonocoreError::InvalidConfig(String::from_str(s)));
        },
    };
    let hard = match parse_dec(hard_str, u64::MAX) {
        Option::Some(v) => v,
        Option::None => {
            return Result::Err(MonocoreError::InvalidConfig(String::from_str(s)));
        },
    };
    Result::Ok(LinuxRlimit { name: String::from_str(name), soft, hard })
}

/// The rendered form of a resource limit: `NAME=soft:hard`.
pub open spec fn render_rlimit(name: Seq<char>, soft: u64, hard: u64) -> Seq<char> {
    name + "="@ + dec_str(soft as nat) + ":"@ + dec_str(hard as nat)
}

impl LinuxRlimit {
    /// Renders this limit as `NAME=soft:hard`.
    pub fn to_display_string(&self) -> (r: String)
        ensures
            r@ == render_rlimit(self.name@, self.soft, self.hard),
    {
        let s = dec_string(self.soft);
        let h = dec_string(self.hard);
        self.name.clone().concat("=").concat(s.as_str()).concat(":").concat(h.as_str())
    }
}

/// A host-to-guest volume mount, held in normalized form.
#[derive(Debug, Clone, PartialEq, Eq)]
pub struct PathPair {
    /// The host path, normalized and absolute.
    pub host: String,
    /// The guest path, normalized and absolute.
    pub guest: String,
}

impl View for PathPair {
    type V = (Seq<char>, Seq<char>);

    open spec fn view(&self) -> (Seq<char>, Seq<char>) {
        (self.host@, self.guest@)
    }
}

/// The parsed form of a volume mount `host_abs:guest_abs`: both sides
/// normalized as absolute paths, or `None` where either is rejected.
pub open spec fn path_pair_spec(s: Seq<char>) -> Option<(Seq<char>, Seq<char>)> {
    let ci = find_char(s, ':');
    if ci < 0 {
        Option::None
    } else {
        let host = normalize_path_spec(s.take(ci), SupportedPathType::Absolute);
        let guest = normalize_path_spec(s.skip(ci + 1), SupportedPathType::Absolute);
        if host is Some && guest is Some {
            Some((host.unwrap(), guest.unwrap()))
        } else {
            Option::None
        }
    }
}

/// Parses a volume mount from its string form `host_abs:guest_abs`,
/// normalizing both sides.
///
/// Fails with `PathValidation` exactly when there is no `:` or either side
/// does not normalize as an absolute path.
pub fn parse_path_pair(s: &str) -> (r: MonocoreResult<PathPair>)
    ensures
        match r {
            Result::Ok(p) => path_pair_spec(s@) == Some(p@),
            Result::Err(e) => path_pair_spec(s@) is None && e matches MonocoreError::PathValidation(
                _,
            ),
        },
{
    let n = s.unicode_len();
    let ci = match find_char_exec(s, ':') {
        Option::Some(i) => i,
        Option::None => {
            return Result::Err(MonocoreError::PathValidation(String::from_str(s)));
        },
    };
    proof {
        lemma_find_char(s@, ':');
    }
    let host_str = s.substring_char(0, ci);
    let guest_str = s.substring_char(ci + 1, n);
    proof {
        assert(host_str@ =~= s@.take(ci as int));
        assert(guest_str@ =~= s@.skip(ci + 1int));
    }
    let host = match normalize_path(host_str, SupportedPathType::Absolute) {
        Result::Ok(h) => h,
        Result::Err(_) => {
            return Result::Err(MonocoreError::PathValidation(String::from_str(s)));
        },
    };
    let guest = match normalize_path(guest_str, SupportedPathType::Absolute) {
        Result::Ok(g) => g,
        Result::Err(_) => {
            return Result::Err(MonocoreError::PathValidation(String::from_str(s)));
        },
    };
    Result::Ok(PathPair { host, guest })
}

/// A configuration for a microVM.
#[derive(Debug)]
pub struct MicroVMConfig {
    /// The log level to use for the microVM.
    pub log_level: LogLevel,
    /// The path to the root directory for the microVM.
    pub root_path: String,
    /// The number of vCPUs to use for the microVM.
    pub num_vcpus: u8,
    /// The amount of RAM in MiB to use for the microVM.
    pub ram_mib: u32,
    /// The virtio-fs mounts to use for the microVM.
    pub virtiofs: Vec<PathPair>,
    /// The port map to use for the microVM.
    pub port_map: Vec<PortPair>,
    /// The resource limits to use for the microVM.
    pub rlimits: Vec<LinuxRlimit>,
    /// The working directory path to use for the microVM.
    pub workdir_path: Option<String>,
    /// The executable path to use for the microVM.
    pub exec_path: Option<String>,
    /// The arguments to pass to the executable.
    pub argv: Vec<String>,
    /// The environment variables to set for the executable.
    pub env: Vec<EnvPair>,
    /// The console output path to use for the microVM.
    pub console_output: Option<String>,
}

impl MicroVMConfig {
    /// Validates the configuration: the root path must exist on the host
    /// (its presence is handed in by the caller, who checks the
    /// filesystem), the vCPU count must be at least 1, and the RAM must be
    /// at least 1 MiB. Each check fails with its own error, in this order.
    pub fn validate(&self, root_path_exists: bool) -> (r: MonocoreResult<()>)
        ensures
            r is Ok <==> root_path_exists && self.num_vcpus >= 1 && self.ram_mib >= 1,
            !root_path_exists ==> (r matches Result::Err(MonocoreError::InvalidMicroVMConfig(
                InvalidMicroVMConfigError::RootPathDoesNotExist(p),
            )) && p@ == self.root_path@),
            root_path_exists && self.num_vcpus == 0 ==> r == MonocoreResult::<()>::Err(
                MonocoreError::InvalidMicroVMConfig(InvalidMicroVMConfigError::NumVCPUsIsZero),
            ),
            root_path_exists && self.num_vcpus >= 1 && self.ram_mib == 0 ==> r
                == MonocoreResult::<()>::Err(
                MonocoreError::InvalidMicroVMConfig(InvalidMicroVMConfigError::RamIsZero),
            ),
    {
        if !root_path_exists {
            return Result::Err(
                MonocoreError::InvalidMicroVMConfig(
                    InvalidMicroVMConfigError::RootPathDoesNotExist(self.root_path.clone()),
                ),
            );
        }
        if self.num_vcpus == 0 {
            return Result::Err(
                MonocoreError::InvalidMicroVMConfig(InvalidMicroVMConfigError::NumVCPUsIsZero),
            );
        }
        if self.ram_mib == 0 {
            return Result::Err(
                MonocoreError::InvalidMicroVMConfig(InvalidMicroVMConfigError::RamIsZero),
            );
        }
        Result::Ok(())
    }

    /// Plans the calls that apply this configuration to a VMM context, in
    /// the exact order the VMM requires. The caller carries the plan out
    /// over the FFI boundary; each call there is checked and any failure is
    /// fatal to the VM.
    pub fn plan(&self) -> (r: Vec<FfiCall>)
        ensures
            r@.map_values(|c: FfiCall| c@) == plan_spec(self),
    {
        let mut r: Vec<FfiCall> = Vec::new();
        r.push(FfiCall::SetLogLevel(self.log_level.to_code()));
        r.push(FfiCall::SetVmConfig { vcpus: self.num_vcpus, ram_mib: self.ram_mib });
        r.push(FfiCall::SetRoot(self.root_path.clone()));
        let mut i: usize = 0;
        while i < self.virtiofs.len()
            invariant
                0 <= i <= self.virtiofs@.len(),
                r@.len() == 3 + i,
                r@[0]@ == FfiCallV::SetLogLevel(log_level_code(self.log_level)),
                r@[1]@ == (FfiCallV::SetVmConfig {
                    vcpus: self.num_vcpus,
                    ram_mib: self.ram_mib,
                }),
                r@[2]@ == FfiCallV::SetRoot(self.root_path@),
                forall|j: int|
                    0 <= j < i ==> r@[3 + j]@ == (FfiCallV::AddVirtioFs {
                        tag: self.virtiofs@[j].guest@,
                        host: self.virtiofs@[j].host@,
                    }),
            decreases self.virtiofs@.len() - i,
        {
            r.push(
                FfiCall::AddVirtioFs {
                    tag: self.virtiofs[i].guest.clone(),
                    host: self.virtiofs[i].host.clone(),
                },
            );
            i += 1;
        }
        r.push(FfiCall::SetPortMap(render_ports(&self.port_map)));
        if self.rlimits.len() > 0 {
            r.push(FfiCall::SetRlimits(render_rlimits(&self.rlimits)));
        }
        match &self.workdir_path {
            Option::Some(w) => {
                r.push(FfiCall::SetWorkdir(w.clone()));
            },
            Option::None => {},
        }
        match &self.exec_path {
            Option::Some(p) => {
                r.push(
                    FfiCall::SetExec {
                        path: p.clone(),
                        argv: clone_strings(&self.argv),
                        env: render_envs(&self.env),
                    },
                );
            },
            Option::None => {
                r.push(FfiCall::SetEnv(render_envs(&self.env)));
            },
        }
        match &self.console_output {
            Option::Some(o) => {
                r.push(FfiCall::SetConsoleOutput(o.clone()));
            },
            Option::None => {},
        }
        proof {
            assert(r@.map_values(|c: FfiCall| c@) =~= plan_spec(self));
        }
        r
    }
}

/// One call in the plan that applies a configuration to the VMM.
#[derive(Debug)]
pub enum FfiCall {
    /// Set the VMM log level.
    SetLogLevel(u32),
    /// Set the vCPU count and RAM size.
    SetVmConfig {
        /// The number of vCPUs.
        vcpus: u8,
        /// The amount of RAM in MiB.
        ram_mib: u32,
    },
    /// Set the root filesystem path.
    SetRoot(String),
    /// Add one virtio-fs mount.
    AddVirtioFs {
        /// The mount tag: the guest path.
        tag: String,
        /// The host path to expose.
        host: String,
    },
    /// Set the port map, one rendered mapping per entry.
    SetPortMap(Vec<String>),
    /// Set the resource limits, one rendered limit per entry.
    SetRlimits(Vec<String>),
    /// Set the guest working directory.
    SetWorkdir(String),
    /// Set the executable, its arguments and its environment.
    SetExec {
        /// The executable path.
        path: String,
        /// The argument list.
        argv: Vec<String>,
        /// The rendered environment bindings.
        env: Vec<String>,
    },
    /// Set the environment alone, where no executable is configured.
    SetEnv(Vec<String>),
    /// Set the console output path.
    SetConsoleOutput(String),
}

/// The mathematical form of one planned call.
pub ghost enum FfiCallV {
    /// Set the VMM log level.
    SetLogLevel(u32),
    /// Set the vCPU count and RAM size.
    SetVmConfig {
        /// The number of vCPUs.
        vcpus: u8,
        /// The amount of RAM in MiB.
        ram_mib: u32,
    },
    /// Set the root filesystem path.
    SetRoot(Seq<char>),
    /// Add one virtio-fs mount.
    AddVirtioFs {
        /// The mount tag: the guest path.
        tag: Seq<char>,
        /// The host path to expose.
        host: Seq<char>,
    },
    /// Set the port map.
    SetPortMap(Seq<Seq<char>>),
    /// Set the resource limits.
    SetRlimits(Seq<Seq<char>>),
    /// Set the guest working directory.
    SetWorkdir(Seq<char>),
    /// Set the executable, its arguments and its environment.
    SetExec {
        /// The executable path.
        path: Seq<char>,
        /// The argument list.
        argv: Seq<Seq<char>>,
        /// The rendered environment bindings.
        env: Seq<Seq<char>>,
    },
    /// Set the environment alone.
    SetEnv(Seq<Seq<char>>),
    /// Set the console output path.
    SetConsoleOutput(Seq<char>),
}

impl View for FfiCall {
    type V = FfiCallV;

    open spec fn view(&self) -> FfiCallV {
        match self {
            FfiCall::SetLogLevel(l) => FfiCallV::SetLogLevel(*l),
            FfiCall::SetVmConfig { vcpus, ram_mib } => FfiCallV::SetVmConfig {
                vcpus: *vcpus,
                ram_mib: *ram_mib,
            },
            FfiCall::SetRoot(p) => FfiCallV::SetRoot(p@),
            FfiCall::AddVirtioFs { tag, host } => FfiCallV::AddVirtioFs { tag: tag@, host: host@ },
            FfiCall::SetPortMap(v) => FfiCallV::SetPortMap(v@.map_values(|x: String| x@)),
            FfiCall::SetRlimits(v) => FfiCallV::SetRlimits(v@.map_values(|x: String| x@)),
            FfiCall::SetWorkdir(p) => FfiCallV::SetWorkdir(p@),
            FfiCall::SetExec { path, argv, env } => FfiCallV::SetExec {
                path: path@,
                argv: argv@.map_values(|x: String| x@),
                env: env@.map_values(|x: String| x@),
            },
            FfiCall::SetEnv(v) => FfiCallV::SetEnv(v@.map_values(|x: String| x@)),
            FfiCall::SetConsoleOutput(p) => FfiCallV::SetConsoleOutput(p@),
        }
    }
}

/// The exact call sequence that applies a configuration: log level, vCPUs
/// and RAM, root path, one call per virtio-fs mount, the port map, the
/// resource limits where any are set, the working directory where one is
/// set, then either the executable with its arguments and environment or
/// the environment alone, and finally the console output where one is set.
pub open spec fn plan_spec(c: &MicroVMConfig) -> Seq<FfiCallV> {
    seq![
        FfiCallV::SetLogLevel(log_level_code(c.log_level)),
        FfiCallV::SetVmConfig { vcpus: c.num_vcpus, ram_mib: c.ram_mib },
        FfiCallV::SetRoot(c.root_path@),
    ] + c.virtiofs@.map_values(
        |p: PathPair| FfiCallV::AddVirtioFs { tag: p.guest@, host: p.host@ },
    ) + seq![FfiCallV::SetPortMap(c.port_map@.map_values(|p: PortPair| render_port_pair(p)))] + (
    if c.rlimits@.len() > 0 {
        seq![
            FfiCallV::SetRlimits(
                c.rlimits@.map_values(|l: LinuxRlimit| render_rlimit(l.name@, l.soft, l.hard)),
            ),
        ]
    } else {
        Seq::<FfiCallV>::empty()
    }) + (match c.workdir_path {
        Option::Some(ref w) => seq![FfiCallV::SetWorkdir(w@)],
        Option::None => Seq::<FfiCallV>::empty(),
    }) + (match c.exec_path {
        Option::Some(ref p) => seq![
            FfiCallV::SetExec {
                path: p@,
                argv: c.argv@.map_values(|x: String| x@),
                env: c.env@.map_values(|e: EnvPair| render_env_pair(e.name@, e.value@)),
            },
        ],
        Option::None => seq![
            FfiCallV::SetEnv(c.env@.map_values(|e: EnvPair| render_env_pair(e.name@, e.value@))),
        ],
    }) + (match c.console_output {
        Option::Some(ref o) => seq![FfiCallV::SetConsoleOutput(o@)],
        Option::None => Seq::<FfiCallV>::empty(),
    })
}

/// Renders every port mapping of a list.
fn render_ports(ports: &Vec<PortPair>) -> (r: Vec<String>)
    ensures
        r@.map_values(|x: String| x@) == ports@.map_values(|p: PortPair| render_port_pair(p)),
{
    let mut r: Vec<String> = Vec::new();
    let mut i: usize = 0;
    while i < ports.len()
        invariant
            0 <= i <= ports@.len(),
            r@.len() == i,
            forall|j: int| 0 <= j < i ==> #[trigger] r@[j]@ == render_port_pair(ports@[j]),
        decreases ports@.len() - i,
    {
        r.push(ports[i].to_display_string());
        i += 1;
    }
    proof {
        assert(r@.map_values(|x: String| x@) =~= ports@.map_values(
            |p: PortPair| render_port_pair(p),
        ));
    }
    r
}

/// Renders every resource limit of a list.
fn render_rlimits(rlimits: &Vec<LinuxRlimit>) -> (r: Vec<String>)
    ensures
        r@.map_values(|x: String| x@) == rlimits@.map_values(
            |l: LinuxRlimit| render_rlimit(l.name@, l.soft, l.hard),
        ),
{
    let mut r: Vec<String> = Vec::new();
    let mut i: usize = 0;
    while i < rlimits.len()
        invariant
            0 <= i <= rlimits@.len(),
            r@.len() == i,
            forall|j: int|
                0 <= j < i ==> #[trigger] r@[j]@ == render_rlimit(
                    rlimits@[j].name@,
                    rlimits@[j].soft,
                    rlimits@[j].hard,
                ),
        decreases rlimits@.len() - i,
    {
        r.push(rlimits[i].to_display_string());
        i += 1;
    }
    proof {
        assert(r@.map_values(|x: String| x@) =~= rlimits@.map_values(
            |l: LinuxRlimit| render_rlimit(l.name@, l.soft, l.hard),
        ));
    }
    r
}

/// Renders every environment binding of a list.
fn render_envs(envs: &Vec<EnvPair>) -> (r: Vec<String>)
    ensures
        r@.map_values(|x: String| x@) == envs@.map_values(
            |e: EnvPair| render_env_pair(e.name@, e.value@),
        ),
{
    let mut r: Vec<String> = Vec::new();
    let mut i: usize = 0;
    while i < envs.len()
        invariant
            0 <= i <= envs@.len(),
            r@.len() == i,
            forall|j: int|
                0 <= j < i ==> #[trigger] r@[j]@ == render_env_pair(
                    envs@[j].name@,
                    envs@[j].value@,
                ),
        decreases envs@.len() - i,
    {
        r.push(envs[i].to_display_string());
        i += 1;
    }
    proof {
        assert(r@.map_values(|x: String| x@) =~= envs@.map_values(
            |e: EnvPair| render_env_pair(e.name@, e.value@),
        ));
    }
    r
}

/// Copies a list of strings.
fn clone_strings(v: &Vec<String>) -> (r: Vec<String>)
    ensures
        r@.map_values(|x: String| x@) == v@.map_values(|x: String| x@),
{
    let mut r: Vec<String> = Vec::new();
    let mut i: usize = 0;
    while i < v.len()
        invariant
            0 <= i <= v@.len(),
            r@.len() == i,
            forall|j: int| 0 <= j < i ==> #[trigger] r@[j]@ == v@[j]@,
        decreases v@.len() - i,
    {
        r.push(v[i].clone());
        i += 1;
    }
    proof {
        assert(r@.map_values(|x: String| x@) =~= v@.map_values(|x: String| x@));
    }
    r
}

} // verus!
