//! Forwarding rules: `LISTEN=TARGET` pairs from the command line or from the
//! environment, their targets, and the checks a set of rules must pass.
use vstd::prelude::*;
use vstd::string::StringSliceAdditionalSpecFns;

use crate::handshake::MAX_HOST_SIZE;
use crate::text::{
    decimal_chars, decimal_value, digit_char, find_byte, is_digit, lemma_utf8_append, lemma_utf8_ascii, parse_u16,
    port_digits, push_decimal, rfind_byte, rsplit_once, same_bytes, same_text, spec_parse_u16, split_all,
    split_around, split_once, utf8,
};

verus! {

/// Rules used when neither the command line nor the environment gives any.
pub const DEFAULT_SERVERS: &'static str = "0.0.0.0:25565=mc.hypixel.net:25565";

/// Environment variable that holds comma-separated rules.
pub const SERVERS_ENV: &'static str = "HYPFORWARD_SERVERS";

/// A socket address to listen on, held as plain values: the IP address
/// (IPv4 addresses in the low 32 bits), the port, and for IPv6 the flow label
/// and scope id. Two addresses are the same listen address exactly when all
/// fields agree.
#[derive(Clone, Copy, Debug, PartialEq, Eq, Structural)]
pub struct ListenAddr {
    pub is_v6: bool,
    pub ip: u128,
    pub port: u16,
    pub flowinfo: u32,
    pub scope_id: u32,
}

impl ListenAddr {
    /// The IPv4 listen address `ip:port`.
    pub fn v4(ip: u32, port: u16) -> (addr: Self)
        ensures
            addr == (ListenAddr { is_v6: false, ip: ip as u128, port, flowinfo: 0, scope_id: 0 }),
    {
        ListenAddr { is_v6: false, ip: ip as u128, port, flowinfo: 0, scope_id: 0 }
    }

    /// The IPv6 listen address `[ip%scope_id]:port` with flow label `flowinfo`.
    pub fn v6(ip: u128, port: u16, flowinfo: u32, scope_id: u32) -> (addr: Self)
        ensures
            addr == (ListenAddr { is_v6: true, ip, port, flowinfo, scope_id }),
    {
        ListenAddr { is_v6: true, ip, port, flowinfo, scope_id }
    }
}

/// A listen text together with the socket address it names.
pub struct ResolvedListen {
    pub text: String,
    pub addr: ListenAddr,
}

/// The address that `table` gives for the listen text `text`: that of its
/// first entry with this text.
pub open spec fn lookup_listen(table: Seq<ResolvedListen>, text: Seq<u8>) -> Option<ListenAddr>
    decreases table.len(),
{
    if table.len() == 0 {
        None
    } else if utf8(table[0].text@) == text {
        Some(table[0].addr)
    } else {
        lookup_listen(table.drop_first(), text)
    }
}

/// One forwarding rule: where to listen and where to connect.
#[derive(Clone, Debug)]
pub struct Forward {
    pub listen: ListenAddr,
    pub target_host: String,
    pub target_port: u16,
}

/// A forwarding rule in the abstract: the target host by its UTF-8 bytes.
pub struct ForwardSpec {
    pub listen: ListenAddr,
    pub host: Seq<u8>,
    pub port: u16,
}

impl View for Forward {
    type V = ForwardSpec;

    open spec fn view(&self) -> ForwardSpec {
        ForwardSpec { listen: self.listen, host: utf8(self.target_host@), port: self.target_port }
    }
}

/// Why a set of forwarding rules is refused.
#[derive(Clone, Debug)]
pub enum ConfigError {
    /// A `--forward` or `-f` flag (named) came last, without its rule.
    MissingRuleValue(String),
    /// Usage was asked for with `--help` or `-h`.
    Help,
    /// An argument that is not a flag the proxy knows.
    UnknownArgument(String),
    /// A rule without `=`.
    InvalidRule(String),
    /// A listen text that names no socket address.
    InvalidListen(String),
    /// A target without `:` before its port (the whole target).
    MissingPort(String),
    /// A target host that is empty, holds a NUL byte or is too long.
    InvalidHost(String),
    /// A target port that is not a 16-bit decimal number.
    InvalidPort(String),
    /// A target port of zero.
    ZeroPort,
    /// No rule at all.
    NoRules,
    /// A listen address that an earlier rule already uses.
    DuplicateListen(ListenAddr),
}

/// A configuration error in the abstract, texts by their UTF-8 bytes.
pub enum ConfigFault {
    MissingRuleValue(Seq<u8>),
    Help,
    UnknownArgument(Seq<u8>),
    InvalidRule(Seq<u8>),
    InvalidListen(Seq<u8>),
    MissingPort(Seq<u8>),
    InvalidHost(Seq<u8>),
    InvalidPort(Seq<u8>),
    ZeroPort,
    NoRules,
    DuplicateListen(ListenAddr),
}

impl View for ConfigError {
    type V = ConfigFault;

    open spec fn view(&self) -> ConfigFault {
        match self {
            ConfigError::MissingRuleValue(s) => ConfigFault::MissingRuleValue(utf8(s@)),
            ConfigError::Help => ConfigFault::Help,
            ConfigError::UnknownArgument(s) => ConfigFault::UnknownArgument(utf8(s@)),
            ConfigError::InvalidRule(s) => ConfigFault::InvalidRule(utf8(s@)),
            ConfigError::InvalidListen(s) => ConfigFault::InvalidListen(utf8(s@)),
            ConfigError::MissingPort(s) => ConfigFault::MissingPort(utf8(s@)),
            ConfigError::InvalidHost(s) => ConfigFault::InvalidHost(utf8(s@)),
            ConfigError::InvalidPort(s) => ConfigFault::InvalidPort(utf8(s@)),
            ConfigError::ZeroPort => ConfigFault::ZeroPort,
            ConfigError::NoRules => ConfigFault::NoRules,
            ConfigError::DuplicateListen(a) => ConfigFault::DuplicateListen(*a),
        }
    }
}

/// A host without the square brackets around it, when it has both.
pub open spec fn strip_brackets(host: Seq<u8>) -> Seq<u8> {
    if host.len() >= 2 && host[0] == 0x5b && host[host.len() - 1] == 0x5d {
        host.subrange(1, host.len() - 1)
    } else {
        host
    }
}

/// A target host the proxy accepts: not empty, without NUL bytes, and at
/// most `MAX_HOST_SIZE` bytes.
pub open spec fn valid_host(host: Seq<u8>) -> bool {
    host.len() > 0 && !host.contains(0u8) && host.len() <= MAX_HOST_SIZE
}

/// The host and port of a target `HOST:PORT` (the host possibly in square
/// brackets), split at the last colon; or why it is refused.
pub open spec fn spec_parse_target(value: Seq<u8>) -> Result<(Seq<u8>, u16), ConfigFault> {
    match rsplit_once(value, 0x3a) {
        None => Err(ConfigFault::MissingPort(value)),
        Some((bracketed, port_text)) => {
            let host = strip_brackets(bracketed);
            if !valid_host(host) {
                Err(ConfigFault::InvalidHost(host))
            } else {
                match spec_parse_u16(port_text) {
                    None => Err(ConfigFault::InvalidPort(port_text)),
                    Some(port) => if port == 0 {
                        Err(ConfigFault::ZeroPort)
                    } else {
                        Ok((host, port))
                    },
                }
            }
        },
    }
}

/// A rule `LISTEN=TARGET`, split at its first `=`, with its listen text looked
/// up in `table`; or why it is refused.
pub open spec fn spec_parse_rule(rule: Seq<u8>, table: Seq<ResolvedListen>) -> Result<ForwardSpec, ConfigFault> {
    match split_once(rule, 0x3d) {
        None => Err(ConfigFault::InvalidRule(rule)),
        Some((listen, target)) => match lookup_listen(table, listen) {
            None => Err(ConfigFault::InvalidListen(listen)),
            Some(addr) => match spec_parse_target(target) {
                Err(e) => Err(e),
                Ok((host, port)) => Ok(ForwardSpec { listen: addr, host, port }),
            },
        },
    }
}

/// The rules parsed in order, up to the first that is refused.
pub open spec fn spec_parse_rules(rules: Seq<Seq<u8>>, table: Seq<ResolvedListen>) -> Result<
    Seq<ForwardSpec>,
    ConfigFault,
>
    decreases rules.len(),
{
    if rules.len() == 0 {
        Ok(Seq::empty())
    } else {
        match spec_parse_rules(rules.drop_last(), table) {
            Err(e) => Err(e),
            Ok(forwards) => match spec_parse_rule(rules.last(), table) {
                Err(e) => Err(e),
                Ok(forward) => Ok(forwards.push(forward)),
            },
        }
    }
}

/// A flag that introduces a rule.
pub open spec fn is_forward_flag(arg: Seq<char>) -> bool {
    arg == "--forward"@ || arg == "-f"@
}

/// A flag that asks for usage.
pub open spec fn is_help_flag(arg: Seq<char>) -> bool {
    arg == "--help"@ || arg == "-h"@
}

/// The rules that the arguments from index `i` on give, and the argument
/// error that stops them, if any.
pub open spec fn scan_args(args: Seq<&str>, i: int) -> (Seq<Seq<u8>>, Option<ConfigFault>)
    decreases args.len() - i,
{
    if i < 0 || i >= args.len() {
        (Seq::empty(), None)
    } else if is_forward_flag(args[i]@) {
        if i + 1 >= args.len() {
            (Seq::empty(), Some(ConfigFault::MissingRuleValue(args[i].spec_bytes())))
        } else {
            let rest = scan_args(args, i + 2);
            (seq![args[i + 1].spec_bytes()] + rest.0, rest.1)
        }
    } else if is_help_flag(args[i]@) {
        (Seq::empty(), Some(ConfigFault::Help))
    } else {
        (Seq::empty(), Some(ConfigFault::UnknownArgument(args[i].spec_bytes())))
    }
}

/// The pieces that are not empty, in order.
pub open spec fn non_empty(pieces: Seq<Seq<u8>>) -> Seq<Seq<u8>>
    decreases pieces.len(),
{
    if pieces.len() == 0 {
        Seq::empty()
    } else if pieces.last().len() > 0 {
        non_empty(pieces.drop_last()).push(pieces.last())
    } else {
        non_empty(pieces.drop_last())
    }
}

/// The text that environment rules come from.
pub open spec fn environment_text(environment: Option<&str>) -> Seq<u8> {
    match environment {
        Some(text) => text.spec_bytes(),
        None => DEFAULT_SERVERS.spec_bytes(),
    }
}

/// The comma-separated rules of the environment (or of the default), empty
/// pieces left out.
pub open spec fn environment_rules(environment: Option<&str>) -> Seq<Seq<u8>> {
    non_empty(split_all(environment_text(environment), 0x2c))
}

/// The rules to parse and the argument error to report if they all parse:
/// those of the arguments when the arguments give a rule or an error, else
/// those of the environment.
pub open spec fn spec_select_rules(args: Seq<&str>, environment: Option<&str>) -> (
    Seq<Seq<u8>>,
    Option<ConfigFault>,
) {
    let (rules, error) = scan_args(args, 0);
    if rules.len() > 0 || error is Some {
        (rules, error)
    } else {
        (environment_rules(environment), None)
    }
}

/// True when some rule before index `j` listens where rule `j` does.
pub open spec fn listens_before(forwards: Seq<ForwardSpec>, j: int) -> bool {
    exists|i: int| 0 <= i < j && #[trigger] forwards[i].listen == forwards[j].listen
}

/// Index of the first rule whose listen address an earlier rule already uses.
pub open spec fn first_duplicate(forwards: Seq<ForwardSpec>) -> Option<int>
    decreases forwards.len(),
{
    if forwards.len() == 0 {
        None
    } else {
        match first_duplicate(forwards.drop_last()) {
            Some(j) => Some(j),
            None => if listens_before(forwards, forwards.len() - 1) {
                Some(forwards.len() - 1)
            } else {
                None
            },
        }
    }
}

/// The checks on the parsed rules: at least one, and no listen address twice.
pub open spec fn spec_check_forwards(forwards: Seq<ForwardSpec>) -> Result<Seq<ForwardSpec>, ConfigFault> {
    if forwards.len() == 0 {
        Err(ConfigFault::NoRules)
    } else {
        match first_duplicate(forwards) {
            Some(j) => Err(ConfigFault::DuplicateListen(forwards[j].listen)),
            None => Ok(forwards),
        }
    }
}

/// Parsing selected rules: the first refused rule, else the pending argument
/// error, else the checks on the parsed rules.
pub open spec fn spec_parse_selected(
    rules: Seq<Seq<u8>>,
    pending: Option<ConfigFault>,
    table: Seq<ResolvedListen>,
) -> Result<Seq<ForwardSpec>, ConfigFault> {
    match spec_parse_rules(rules, table) {
        Err(e) => Err(e),
        Ok(forwards) => match pending {
            Some(e) => Err(e),
            None => spec_check_forwards(forwards),
        },
    }
}

/// The forwarding rules that the arguments and environment configure.
pub open spec fn spec_parse_forwards(args: Seq<&str>, environment: Option<&str>, table: Seq<ResolvedListen>) -> Result<
    Seq<ForwardSpec>,
    ConfigFault,
> {
    let (rules, pending) = spec_select_rules(args, environment);
    spec_parse_selected(rules, pending, table)
}

/// The abstract rules of a list of rules.
pub open spec fn forward_views(forwards: Seq<Forward>) -> Seq<ForwardSpec> {
    forwards.map_values(|f: Forward| f@)
}

/// The bytes of a list of texts.
pub open spec fn text_bytes(texts: Seq<&str>) -> Seq<Seq<u8>> {
    texts.map_values(|t: &str| t.spec_bytes())
}

/// `host` without surrounding square brackets, when it has both.
fn strip_brackets_str(host: &str) -> (stripped: &str)
    ensures
        stripped.spec_bytes() == strip_brackets(host.spec_bytes()),
{
    let bytes = host.as_bytes();
    if bytes.len() >= 2 && bytes[0] == 0x5b && bytes[bytes.len() - 1] == 0x5d {
        let (_, rest) = split_around(host, 0);
        let (inner, _) = split_around(rest, rest.len() - 1);
        assert(inner.spec_bytes() == host.spec_bytes().subrange(1, host.spec_bytes().len() - 1));
        inner
    } else {
        host
    }
}

/// Splits a target `HOST:PORT` at its last colon and checks both parts: the
/// host, without square brackets around it, must be non-empty, free of NUL
/// bytes and at most `MAX_HOST_SIZE` bytes; the port a non-zero `u16`.
pub fn parse_target(value: &str) -> (result: Result<(String, u16), ConfigError>)
    ensures
        match result {
            Ok((host, port)) => spec_parse_target(value.spec_bytes()) == Ok::<(Seq<u8>, u16), ConfigFault>(
                (utf8(host@), port),
            ),
            Err(error) => spec_parse_target(value.spec_bytes()) == Err::<(Seq<u8>, u16), ConfigFault>(error@),
        },
        result matches Err(ConfigError::InvalidHost(host)) ==> utf8(host@).len() == 0 || utf8(host@).contains(0u8)
            || utf8(host@).len() > MAX_HOST_SIZE,
{
    proof {
        lemma_parse_target_refuses_only_bad_hosts(value.spec_bytes());
    }
    let colon = match rfind_byte(value.as_bytes(), 0x3a) {
        Some(i) => i,
        None => {
            return Err(ConfigError::MissingPort(value.to_owned()));
        },
    };
    proof {
        value.spec_bytes().index_of_last_ensures(0x3a);
    }
    let (bracketed, port_text) = split_around(value, colon);
    let host = strip_brackets_str(bracketed);
    let host_bytes = host.as_bytes();
    if host_bytes.len() == 0 || find_byte(host_bytes, 0).is_some() || host_bytes.len() > MAX_HOST_SIZE {
        proof {
            host_bytes@.index_of_first_ensures(0u8);
        }
        return Err(ConfigError::InvalidHost(host.to_owned()));
    }
    proof {
        host_bytes@.index_of_first_ensures(0u8);
    }
    let port = match parse_u16(port_text.as_bytes()) {
        Some(port) => port,
        None => {
            return Err(ConfigError::InvalidPort(port_text.to_owned()));
        },
    };
    if port == 0 {
        return Err(ConfigError::ZeroPort);
    }
    Ok((host.to_owned(), port))
}

/// The listen text of a rule: what comes before its first `=`.
pub fn rule_listen_text(rule: &str) -> (listen: Option<&str>)
    ensures
        match listen {
            Some(text) => split_once(rule.spec_bytes(), 0x3d) matches Some((l, _)) && l == text.spec_bytes(),
            None => split_once(rule.spec_bytes(), 0x3d) is None,
        },
{
    match find_byte(rule.as_bytes(), 0x3d) {
        Some(i) => {
            proof {
                rule.spec_bytes().index_of_first_ensures(0x3d);
            }
            let (listen, _) = split_around(rule, i);
            Some(listen)
        },
        None => None,
    }
}

/// The address that `table` gives for `text`.
fn find_listen(table: &[ResolvedListen], text: &str) -> (addr: Option<ListenAddr>)
    ensures
        addr == lookup_listen(table@, text.spec_bytes()),
{
    let mut i: usize = 0;
    assert(table@.subrange(0, table@.len() as int) == table@);
    while i < table.len()
        invariant
            i <= table.len(),
            lookup_listen(table@, text.spec_bytes()) == lookup_listen(
                table@.subrange(i as int, table@.len() as int),
                text.spec_bytes(),
            ),
        decreases table.len() - i,
    {
        let ghost rest = table@.subrange(i as int, table@.len() as int);
        assert(rest.drop_first() == table@.subrange(i + 1, table@.len() as int));
        let entry = &table[i];
        if same_bytes(entry.text.as_str().as_bytes(), text.as_bytes()) {
            return Some(entry.addr);
        }
        i = i + 1;
    }
    None
}

impl Forward {
    /// Parses a rule `LISTEN=TARGET`. The listen text (before the first `=`)
    /// is looked up in `resolved`, which gives the socket address of each
    /// listen text that names one; the target is read by `parse_target`.
    pub fn parse(value: &str, resolved: &[ResolvedListen]) -> (result: Result<Forward, ConfigError>)
        ensures
            match result {
                Ok(forward) => spec_parse_rule(value.spec_bytes(), resolved@) == Ok::<ForwardSpec, ConfigFault>(
                    forward@,
                ),
                Err(error) => spec_parse_rule(value.spec_bytes(), resolved@) == Err::<ForwardSpec, ConfigFault>(
                    error@,
                ),
            },
    {
        let (listen_text, target) = match find_byte(value.as_bytes(), 0x3d) {
            Some(i) => {
                proof {
                    value.spec_bytes().index_of_first_ensures(0x3d);
                }
                split_around(value, i)
            },
            None => {
                return Err(ConfigError::InvalidRule(value.to_owned()));
            },
        };
        let listen = match find_listen(resolved, listen_text) {
            Some(addr) => addr,
            None => {
                return Err(ConfigError::InvalidListen(listen_text.to_owned()));
            },
        };
        let (target_host, target_port) = match parse_target(target) {
            Ok(parsed) => parsed,
            Err(error) => {
                return Err(error);
            },
        };
        Ok(Forward { listen, target_host, target_port })
    }
}

/// A refused rule stops the parsing of every list it starts.
proof fn lemma_rules_error_extends(rules: Seq<Seq<u8>>, k: int, table: Seq<ResolvedListen>)
    requires
        0 <= k <= rules.len(),
        spec_parse_rules(rules.subrange(0, k), table) is Err,
    ensures
        spec_parse_rules(rules, table) == spec_parse_rules(rules.subrange(0, k), table),
    decreases rules.len() - k,
{
    if k == rules.len() {
        assert(rules.subrange(0, k) == rules);
    } else {
        let shorter = rules.drop_last();
        assert(shorter.subrange(0, k) == rules.subrange(0, k));
        lemma_rules_error_extends(shorter, k, table);
    }
}

/// A duplicate found among the first rules is the first duplicate of any list
/// they start.
proof fn lemma_duplicate_extends(forwards: Seq<ForwardSpec>, k: int)
    requires
        0 <= k <= forwards.len(),
        first_duplicate(forwards.subrange(0, k)) is Some,
    ensures
        first_duplicate(forwards) == first_duplicate(forwards.subrange(0, k)),
    decreases forwards.len() - k,
{
    if k == forwards.len() {
        assert(forwards.subrange(0, k) == forwards);
    } else {
        let shorter = forwards.drop_last();
        assert(shorter.subrange(0, k) == forwards.subrange(0, k));
        lemma_duplicate_extends(shorter, k);
    }
}

/// Rules without a first duplicate listen on pairwise different addresses.
pub proof fn lemma_no_duplicate_distinct(forwards: Seq<ForwardSpec>)
    requires
        first_duplicate(forwards) is None,
    ensures
        forall|i: int, j: int|
            0 <= i < j < forwards.len() ==> #[trigger] forwards[i].listen != #[trigger] forwards[j].listen,
    decreases forwards.len(),
{
    if forwards.len() > 0 {
        let shorter = forwards.drop_last();
        lemma_no_duplicate_distinct(shorter);
        assert forall|i: int, j: int| 0 <= i < j < forwards.len() implies #[trigger] forwards[i].listen
            != #[trigger] forwards[j].listen by {
            if j < forwards.len() - 1 {
                assert(shorter[i] == forwards[i] && shorter[j] == forwards[j]);
            } else {
                if forwards[i].listen == forwards[j].listen {
                    assert(listens_before(forwards, forwards.len() - 1));
                }
            }
        }
    }
}

/// Whatever the arguments, the environment and the listen table, rules that
/// are accepted are at least one and listen on pairwise different addresses.
pub proof fn lemma_accepted_forwards_distinct(args: Seq<&str>, environment: Option<&str>, table: Seq<ResolvedListen>)
    ensures
        spec_parse_forwards(args, environment, table) matches Ok(forwards) ==> {
            &&& forwards.len() > 0
            &&& forall|i: int, j: int|
                0 <= i < j < forwards.len() ==> #[trigger] forwards[i].listen != #[trigger] forwards[j].listen
        },
{
    let (rules, pending) = spec_select_rules(args, environment);
    if let Ok(forwards) = spec_parse_rules(rules, table) {
        if forwards.len() > 0 && first_duplicate(forwards) is None {
            lemma_no_duplicate_distinct(forwards);
        }
    }
}

/// The rules that the arguments give, and the argument error that stops them.
fn scan_arguments<'a>(args: &[&'a str]) -> (scanned: (Vec<&'a str>, Option<ConfigError>))
    ensures
        text_bytes(scanned.0@) == scan_args(args@, 0).0,
        match scanned.1 {
            Some(error) => scan_args(args@, 0).1 == Some(error@),
            None => scan_args(args@, 0).1 is None,
        },
{
    let mut rules: Vec<&'a str> = Vec::new();
    let mut i: usize = 0;
    while i < args.len()
        invariant
            i <= args.len(),
            scan_args(args@, 0).0 == text_bytes(rules@) + scan_args(args@, i as int).0,
            scan_args(args@, 0).1 == scan_args(args@, i as int).1,
        decreases args.len() - i,
    {
        let arg = args[i];
        if same_text(arg, "--forward") || same_text(arg, "-f") {
            if i + 1 >= args.len() {
                assert(text_bytes(rules@) + Seq::<Seq<u8>>::empty() == text_bytes(rules@));
                return (rules, Some(ConfigError::MissingRuleValue(arg.to_owned())));
            }
            let ghost before = rules@;
            rules.push(args[i + 1]);
            assert(text_bytes(rules@) == text_bytes(before).push(args@[i + 1].spec_bytes()));
            assert(text_bytes(before) + scan_args(args@, i as int).0 == text_bytes(rules@) + scan_args(
                args@,
                i + 2,
            ).0);
            i = i + 2;
        } else if same_text(arg, "--help") || same_text(arg, "-h") {
            assert(text_bytes(rules@) + Seq::<Seq<u8>>::empty() == text_bytes(rules@));
            return (rules, Some(ConfigError::Help));
        } else {
            assert(text_bytes(rules@) + Seq::<Seq<u8>>::empty() == text_bytes(rules@));
            return (rules, Some(ConfigError::UnknownArgument(arg.to_owned())));
        }
    }
    assert(text_bytes(rules@) + Seq::<Seq<u8>>::empty() == text_bytes(rules@));
    (rules, None)
}

/// The non-empty comma-separated rules of `text`.
fn comma_separated_rules<'a>(text: &'a str) -> (rules: Vec<&'a str>)
    ensures
        text_bytes(rules@) == non_empty(split_all(text.spec_bytes(), 0x2c)),
{
    let mut rules: Vec<&'a str> = Vec::new();
    let mut rest: &'a str = text;
    let ghost mut pieces: Seq<Seq<u8>> = Seq::empty();
    assert(pieces + split_all(rest.spec_bytes(), 0x2c) == split_all(rest.spec_bytes(), 0x2c));
    loop
        invariant
            split_all(text.spec_bytes(), 0x2c) == pieces + split_all(rest.spec_bytes(), 0x2c),
            text_bytes(rules@) == non_empty(pieces),
        decreases rest.spec_bytes().len(),
    {
        let ghost old_rules = rules@;
        match find_byte(rest.as_bytes(), 0x2c) {
            Some(i) => {
                proof {
                    rest.spec_bytes().index_of_first_ensures(0x2c);
                }
                let (piece, after) = split_around(rest, i);
                assert(split_all(rest.spec_bytes(), 0x2c) == seq![piece.spec_bytes()] + split_all(
                    after.spec_bytes(),
                    0x2c,
                ));
                if piece.as_bytes().len() > 0 {
                    rules.push(piece);
                }
                proof {
                    let grown = pieces.push(piece.spec_bytes());
                    assert(grown.drop_last() == pieces);
                    assert(text_bytes(rules@) == non_empty(grown));
                    assert(split_all(text.spec_bytes(), 0x2c) == grown + split_all(after.spec_bytes(), 0x2c));
                    pieces = grown;
                }
                rest = after;
            },
            None => {
                if rest.as_bytes().len() > 0 {
                    rules.push(rest);
                    assert(text_bytes(rules@) == text_bytes(old_rules).push(rest.spec_bytes()));
                }
                proof {
                    let grown = pieces.push(rest.spec_bytes());
                    assert(grown.drop_last() == pieces);
                    assert(text_bytes(rules@) == non_empty(grown));
                    assert(split_all(text.spec_bytes(), 0x2c) == grown);
                }
                return rules;
            },
        }
    }
}

/// Chooses the rules to parse: those of `args` when they give a rule or an
/// argument error (which is then pending, reported after the rules parse),
/// else the comma-separated rules of `environment`, or of `DEFAULT_SERVERS`
/// when there is no environment value.
pub fn select_rules<'a>(args: &[&'a str], environment: Option<&'a str>) -> (selected: (
    Vec<&'a str>,
    Option<ConfigError>,
))
    ensures
        text_bytes(selected.0@) == spec_select_rules(args@, environment).0,
        match selected.1 {
            Some(error) => spec_select_rules(args@, environment).1 == Some(error@),
            None => spec_select_rules(args@, environment).1 is None,
        },
        scan_args(args@, 0).0.len() == 0 && scan_args(args@, 0).1 is None ==> {
            &&& selected.1 is None
            &&& environment matches Some(text) ==> text_bytes(selected.0@) == non_empty(
                split_all(text.spec_bytes(), 0x2c),
            )
            &&& environment is None ==> text_bytes(selected.0@) == non_empty(
                split_all(DEFAULT_SERVERS.spec_bytes(), 0x2c),
            )
        },
{
    proof {
        if let Some(text) = environment {
            lemma_environment_rules_selected(args@, text);
        }
    }
    let (rules, pending) = scan_arguments(args);
    if rules.len() > 0 || pending.is_some() {
        return (rules, pending);
    }
    let text = match environment {
        Some(text) => text,
        None => DEFAULT_SERVERS,
    };
    (comma_separated_rules(text), None)
}

/// Checks parsed rules: there must be one at least, and no listen address may
/// come twice (the later rule is reported).
pub fn check_forwards(forwards: Vec<Forward>) -> (result: Result<Vec<Forward>, ConfigError>)
    ensures
        match result {
            Ok(checked) => spec_check_forwards(forward_views(forwards@)) == Ok::<Seq<ForwardSpec>, ConfigFault>(
                forward_views(checked@),
            ),
            Err(error) => spec_check_forwards(forward_views(forwards@)) == Err::<Seq<ForwardSpec>, ConfigFault>(
                error@,
            ),
        },
        result matches Err(ConfigError::DuplicateListen(addr)) ==> exists|i: int, j: int|
            0 <= i < j < forwards.len() && #[trigger] forwards@[i].listen == addr && #[trigger] forwards@[j].listen
                == addr,
        forwards.len() > 0 && (forall|i: int, j: int|
            0 <= i < j < forwards.len() ==> #[trigger] forwards@[i].listen != #[trigger] forwards@[j].listen)
            ==> result is Ok,
{
    proof {
        let views = forward_views(forwards@);
        lemma_check_forwards_duplicates(views);
        assert forall|i: int| 0 <= i < forwards.len() implies #[trigger] views[i].listen == forwards@[i].listen by {}
    }
    let ghost views = forward_views(forwards@);
    if forwards.len() == 0 {
        return Err(ConfigError::NoRules);
    }
    let mut j: usize = 0;
    assert(views.subrange(0, 0) == Seq::<ForwardSpec>::empty());
    while j < forwards.len()
        invariant
            j <= forwards.len(),
            views == forward_views(forwards@),
            first_duplicate(views.subrange(0, j as int)) is None,
        decreases forwards.len() - j,
    {
        let mut k: usize = 0;
        while k < j
            invariant
                k <= j < forwards.len(),
                views == forward_views(forwards@),
                first_duplicate(views.subrange(0, j as int)) is None,
                forall|m: int| 0 <= m < k ==> views[m].listen != views[j as int].listen,
            decreases j - k,
        {
            if forwards[k].listen == forwards[j].listen {
                proof {
                    let prefix = views.subrange(0, j + 1);
                    assert(prefix.drop_last() == views.subrange(0, j as int));
                    assert(views[k as int] == forwards@[k as int]@);
                    assert(views[j as int] == forwards@[j as int]@);
                    assert(prefix[k as int].listen == prefix[j as int].listen);
                    assert(listens_before(prefix, j as int));
                    assert(first_duplicate(prefix) == Some(j as int));
                    lemma_duplicate_extends(views, j + 1);
                }
                return Err(ConfigError::DuplicateListen(forwards[j].listen));
            }
            assert(views[k as int] == forwards@[k as int]@);
            assert(views[j as int] == forwards@[j as int]@);
            k = k + 1;
        }
        proof {
            let prefix = views.subrange(0, j + 1);
            assert(prefix.drop_last() == views.subrange(0, j as int));
            if listens_before(prefix, j as int) {
                let m = choose|m: int| 0 <= m < j && #[trigger] prefix[m].listen == prefix[j as int].listen;
                assert(views[m].listen == views[j as int].listen);
            }
        }
        j = j + 1;
    }
    assert(views.subrange(0, forwards.len() as int) == views);
    Ok(forwards)
}

/// Parses selected rules in order and stops at the first one refused; when
/// all parse, reports `pending` if there is one, and otherwise checks the
/// rules with `check_forwards`.
pub fn parse_selected(rules: &[&str], pending: Option<ConfigError>, resolved: &[ResolvedListen]) -> (result:
    Result<Vec<Forward>, ConfigError>)
    ensures
        match result {
            Ok(forwards) => spec_parse_selected(
                text_bytes(rules@),
                match pending {
                    Some(e) => Some(e@),
                    None => None,
                },
                resolved@,
            ) == Ok::<Seq<ForwardSpec>, ConfigFault>(forward_views(forwards@)),
            Err(error) => spec_parse_selected(
                text_bytes(rules@),
                match pending {
                    Some(e) => Some(e@),
                    None => None,
                },
                resolved@,
            ) == Err::<Seq<ForwardSpec>, ConfigFault>(error@),
        },
{
    let ghost all = text_bytes(rules@);
    let mut forwards: Vec<Forward> = Vec::new();
    let mut i: usize = 0;
    assert(all.subrange(0, 0) == Seq::<Seq<u8>>::empty());
    assert(forward_views(forwards@) == Seq::<ForwardSpec>::empty());
    while i < rules.len()
        invariant
            i <= rules.len(),
            all == text_bytes(rules@),
            spec_parse_rules(all.subrange(0, i as int), resolved@) == Ok::<Seq<ForwardSpec>, ConfigFault>(
                forward_views(forwards@),
            ),
        decreases rules.len() - i,
    {
        let ghost prefix = all.subrange(0, i + 1);
        assert(prefix.drop_last() == all.subrange(0, i as int));
        assert(prefix.last() == rules@[i as int].spec_bytes());
        match Forward::parse(rules[i], resolved) {
            Ok(forward) => {
                let ghost before = forwards@;
                forwards.push(forward);
                assert(forward_views(forwards@) == forward_views(before).push(forward@));
            },
            Err(error) => {
                proof {
                    lemma_rules_error_extends(all, i + 1, resolved@);
                }
                return Err(error);
            },
        }
        i = i + 1;
    }
    assert(all.subrange(0, rules.len() as int) == all);
    match pending {
        Some(error) => Err(error),
        None => check_forwards(forwards),
    }
}

/// Reads the forwarding rules that `args` and `environment` configure:
/// `--forward RULE` or `-f RULE` on the command line, else the
/// comma-separated rules of `environment` (or `DEFAULT_SERVERS`). `resolved`
/// gives the socket address of each listen text that names one.
pub fn parse_forwards(args: &[&str], environment: Option<&str>, resolved: &[ResolvedListen]) -> (result: Result<
    Vec<Forward>,
    ConfigError,
>)
    ensures
        match result {
            Ok(forwards) => {
                &&& spec_parse_forwards(args@, environment, resolved@) == Ok::<Seq<ForwardSpec>, ConfigFault>(
                    forward_views(forwards@),
                )
                &&& forwards.len() > 0
                &&& forall|i: int, j: int|
                    0 <= i < j < forwards.len() ==> #[trigger] forwards@[i].listen != #[trigger] forwards@[j].listen
            },
            Err(error) => spec_parse_forwards(args@, environment, resolved@) == Err::<
                Seq<ForwardSpec>,
                ConfigFault,
            >(error@),
        },
{
    let (rules, pending) = select_rules(args, environment);
    let result = parse_selected(rules.as_slice(), pending, resolved);
    proof {
        lemma_accepted_forwards_distinct(args@, environment, resolved@);
        if let Ok(forwards) = &result {
            assert forall|i: int, j: int| 0 <= i < j < forwards.len() implies #[trigger] forwards@[i].listen
                != #[trigger] forwards@[j].listen by {
                assert(forward_views(forwards@)[i].listen == forwards@[i].listen);
                assert(forward_views(forwards@)[j].listen == forwards@[j].listen);
            }
        }
    }
    result
}

/// The address `HOST:PORT` for a target, the host in square brackets when
/// `bracketed`.
pub open spec fn spec_target_address(host: Seq<char>, port: u16, bracketed: bool) -> Seq<char> {
    if bracketed {
        seq!['['] + host + seq![']', ':'] + decimal_chars(port as nat)
    } else {
        host + seq![':'] + decimal_chars(port as nat)
    }
}

impl Forward {
    /// The `HOST:PORT` address to connect to; the host is put in square
    /// brackets when `host_is_ipv6` says that it is an IPv6 address.
    pub fn target_address(&self, host_is_ipv6: bool) -> (address: String)
        ensures
            address@ == spec_target_address(self.target_host@, self.target_port, host_is_ipv6),
            !host_is_ipv6 ==> address@ == self.target_host@ + seq![':'] + decimal_chars(self.target_port as nat),
            host_is_ipv6 ==> address@ == seq!['['] + self.target_host@ + seq![']', ':'] + decimal_chars(
                self.target_port as nat,
            ),
    {
        proof {
            reveal_strlit("[");
            reveal_strlit("]:");
            reveal_strlit(":");
        }
        let mut address = String::new();
        if host_is_ipv6 {
            address.append("[");
            address.append(self.target_host.as_str());
            address.append("]:");
        } else {
            address.append(self.target_host.as_str());
            address.append(":");
        }
        push_decimal(&mut address, self.target_port);
        address
    }
}

/// The decimal writing of a number is a run of digits with that value.
pub proof fn lemma_decimal_bytes(n: nat)
    ensures
        utf8(decimal_chars(n)).len() > 0,
        forall|i: int| 0 <= i < utf8(decimal_chars(n)).len() ==> is_digit(#[trigger] utf8(decimal_chars(n))[i]),
        decimal_value(utf8(decimal_chars(n))) == n,
    decreases n,
{
    let c = digit_char(n % 10);
    assert((c as u32) == n % 10 + 0x30);
    assert(((c as u32) as u8) as int == n % 10 + 0x30);
    lemma_utf8_ascii(c);
    if n < 10 {
        assert(utf8(decimal_chars(n)) == seq![(c as u32) as u8]);
        assert(seq![(c as u32) as u8].drop_last() == Seq::<u8>::empty());
        assert(decimal_value(Seq::<u8>::empty()) == 0);
        assert(n % 10 == n);
    } else {
        lemma_decimal_bytes(n / 10);
        let front = utf8(decimal_chars(n / 10));
        lemma_utf8_append(decimal_chars(n / 10), seq![c]);
        assert(decimal_chars(n) == decimal_chars(n / 10) + seq![c]);
        let whole = utf8(decimal_chars(n));
        assert(whole == front.push((c as u32) as u8));
        assert(whole.drop_last() == front);
        assert(whole.last() == (c as u32) as u8);
        assert(decimal_value(whole) == decimal_value(front) * 10 + n % 10);
        assert(n == (n / 10) * 10 + n % 10);
    }
}

/// A host written `[HOST]`.
pub open spec fn in_brackets(host: Seq<u8>) -> bool {
    host.len() >= 2 && host[0] == 0x5b && host[host.len() - 1] == 0x5d
}

/// The address of a target reads back as its host and port: for a valid
/// host, a non-zero port, and square brackets whenever the host itself starts
/// with `[` and ends with `]`.
pub proof fn lemma_target_address_roundtrip(host: Seq<char>, port: u16, bracketed: bool)
    requires
        valid_host(utf8(host)),
        port != 0,
        bracketed || !in_brackets(utf8(host)),
    ensures
        spec_parse_target(utf8(spec_target_address(host, port, bracketed))) == Ok::<(Seq<u8>, u16), ConfigFault>(
            (utf8(host), port),
        ),
{
    let h = utf8(host);
    let d = utf8(decimal_chars(port as nat));
    lemma_decimal_bytes(port as nat);
    lemma_utf8_ascii('[');
    lemma_utf8_ascii(']');
    lemma_utf8_ascii(':');
    let address = spec_target_address(host, port, bracketed);
    let before = if bracketed {
        seq!['['] + host + seq![']']
    } else {
        host
    };
    assert(address == before + seq![':'] + decimal_chars(port as nat));
    lemma_utf8_append(before + seq![':'], decimal_chars(port as nat));
    lemma_utf8_append(before, seq![':']);
    let b = utf8(before);
    if bracketed {
        lemma_utf8_append(seq!['['] + host, seq![']']);
        lemma_utf8_append(seq!['['], host);
        assert(b == seq![0x5bu8] + h + seq![0x5du8]);
    }
    let bytes = utf8(address);
    assert(bytes == b + seq![0x3au8] + d);
    let colon = b.len() as int;
    assert(bytes[colon] == 0x3a);
    bytes.index_of_last_ensures(0x3a);
    let k = bytes.index_of_last(0x3a).unwrap();
    if k > colon {
        assert(bytes[k] == d[k - colon - 1]);
        assert(is_digit(d[k - colon - 1]));
    }
    assert(bytes.subrange(0, colon) == b);
    assert(bytes.subrange(colon + 1, bytes.len() as int) == d);
    if bracketed {
        assert(b.subrange(1, b.len() - 1) == h);
    }
    assert(strip_brackets(b) == h);
    assert(port_digits(d) == d);
}

/// `prefix`, then `middle`, then `suffix`.
fn joined(prefix: &str, middle: &str, suffix: &str) -> (text: String)
    ensures
        text@ == prefix@ + middle@ + suffix@,
{
    let mut text = String::from_str(prefix);
    text.append(middle);
    text.append(suffix);
    text
}

/// The message of a configuration error, the text of `describe` below.
pub open spec fn spec_message(error: ConfigError, listen_display: Seq<char>) -> Seq<char> {
    match error {
        ConfigError::MissingRuleValue(flag) => flag@ + " requires LISTEN=TARGET"@,
        ConfigError::Help => Seq::empty(),
        ConfigError::UnknownArgument(arg) => "unknown argument '"@ + arg@ + "'"@,
        ConfigError::InvalidRule(rule) => "invalid forwarding rule '"@ + rule@ + "': expected LISTEN=TARGET"@,
        ConfigError::InvalidListen(listen) => "invalid listen address '"@ + listen@ + "'"@,
        ConfigError::MissingPort(target) => "invalid target address '"@ + target@ + "': port is required"@,
        ConfigError::InvalidHost(host) => "invalid target host '"@ + host@ + "'"@,
        ConfigError::InvalidPort(port) => "invalid target port '"@ + port@ + "'"@,
        ConfigError::ZeroPort => "target port must not be zero"@,
        ConfigError::NoRules => "no forwarding rules configured"@,
        ConfigError::DuplicateListen(_) => "duplicate listen address '"@ + listen_display + "'"@,
    }
}

impl ConfigError {
    /// The message that reports this error; usage requests have none. The
    /// address of a `DuplicateListen` error is written as `listen_display`,
    /// which other errors ignore.
    pub fn message(&self, listen_display: &str) -> (message: String)
        ensures
            message@ == spec_message(*self, listen_display@),
    {
        match self {
            ConfigError::MissingRuleValue(flag) => {
                let mut text = String::from_str(flag.as_str());
                text.append(" requires LISTEN=TARGET");
                text
            },
            ConfigError::Help => String::new(),
            ConfigError::UnknownArgument(arg) => joined("unknown argument '", arg.as_str(), "'"),
            ConfigError::InvalidRule(rule) => joined(
                "invalid forwarding rule '",
                rule.as_str(),
                "': expected LISTEN=TARGET",
            ),
            ConfigError::InvalidListen(listen) => joined("invalid listen address '", listen.as_str(), "'"),
            ConfigError::MissingPort(target) => joined(
                "invalid target address '",
                target.as_str(),
                "': port is required",
            ),
            ConfigError::InvalidHost(host) => joined("invalid target host '", host.as_str(), "'"),
            ConfigError::InvalidPort(port) => joined("invalid target port '", port.as_str(), "'"),
            ConfigError::ZeroPort => String::from_str("target port must not be zero"),
            ConfigError::NoRules => String::from_str("no forwarding rules configured"),
            ConfigError::DuplicateListen(_) => joined("duplicate listen address '", listen_display, "'"),
        }
    }

    /// The process exit status for this error: 0 for a usage request, 2
    /// otherwise.
    pub fn exit_code(&self) -> (code: i32)
        ensures
            code == (if *self is Help {
                0i32
            } else {
                2i32
            }),
    {
        match self {
            ConfigError::Help => 0,
            _ => 2,
        }
    }
}

/// Without arguments that give a rule or an error, the rules are the
/// non-empty comma-separated pieces of the environment text itself.
pub proof fn lemma_environment_rules_selected(args: Seq<&str>, text: &str)
    ensures
        scan_args(args, 0).0.len() == 0 && scan_args(args, 0).1 is None ==> spec_select_rules(args, Some(text))
            == (non_empty(split_all(text.spec_bytes(), 0x2c)), None::<ConfigFault>),
{
}

/// With no arguments, an environment text that is one non-empty rule without
/// a comma is the only rule selected.
pub proof fn lemma_single_environment_rule(text: &str)
    requires
        text.spec_bytes().len() > 0,
        !text.spec_bytes().contains(0x2c),
    ensures
        spec_select_rules(Seq::empty(), Some(text)) == (seq![text.spec_bytes()], None::<ConfigFault>),
{
    let t = text.spec_bytes();
    t.index_of_first_ensures(0x2c);
    assert(split_all(t, 0x2c) == seq![t]);
    let pieces = seq![t];
    assert(pieces.drop_last() == Seq::<Seq<u8>>::empty());
    assert(pieces.last() == t);
    assert(non_empty(Seq::<Seq<u8>>::empty()) == Seq::<Seq<u8>>::empty());
    assert(non_empty(pieces) == Seq::<Seq<u8>>::empty().push(t));
    assert(scan_args(Seq::<&str>::empty(), 0) == (Seq::<Seq<u8>>::empty(), None::<ConfigFault>));
}

/// `parse_target` refuses a host only when it is empty, holds a NUL byte, or
/// has more than `MAX_HOST_SIZE` bytes.
pub proof fn lemma_parse_target_refuses_only_bad_hosts(value: Seq<u8>)
    ensures
        spec_parse_target(value) matches Err(ConfigFault::InvalidHost(host)) ==> host.len() == 0 || host.contains(
            0u8,
        ) || host.len() > MAX_HOST_SIZE,
{
}

/// Any host that is not empty, has no NUL byte, has at most `MAX_HOST_SIZE`
/// bytes and is not itself written in square brackets, followed by a colon
/// and a non-zero port in decimal, is accepted as that host and port.
pub proof fn lemma_parse_target_accepts(host: Seq<u8>, port: u16)
    requires
        host.len() > 0,
        !host.contains(0u8),
        host.len() <= MAX_HOST_SIZE,
        !(host.len() >= 2 && host[0] == 0x5b && host[host.len() - 1] == 0x5d),
        port != 0,
    ensures
        spec_parse_target(host + seq![0x3au8] + utf8(decimal_chars(port as nat))) == Ok::<
            (Seq<u8>, u16),
            ConfigFault,
        >((host, port)),
{
    let d = utf8(decimal_chars(port as nat));
    lemma_decimal_bytes(port as nat);
    let bytes = host + seq![0x3au8] + d;
    let colon = host.len() as int;
    assert(bytes[colon] == 0x3a);
    bytes.index_of_last_ensures(0x3a);
    let k = bytes.index_of_last(0x3a).unwrap();
    if k > colon {
        assert(bytes[k] == d[k - colon - 1]);
        assert(is_digit(d[k - colon - 1]));
    }
    assert(bytes.subrange(0, colon) == host);
    assert(bytes.subrange(colon + 1, bytes.len() as int) == d);
    assert(strip_brackets(host) == host);
    assert(port_digits(d) == d);
}

/// The first duplicate that the check finds is a rule whose listen address an
/// earlier rule has.
proof fn lemma_first_duplicate_sound(forwards: Seq<ForwardSpec>)
    ensures
        first_duplicate(forwards) matches Some(j) ==> 0 <= j < forwards.len() && exists|i: int|
            0 <= i < j && #[trigger] forwards[i].listen == forwards[j].listen,
    decreases forwards.len(),
{
    if forwards.len() > 0 {
        let shorter = forwards.drop_last();
        lemma_first_duplicate_sound(shorter);
        if let Some(j) = first_duplicate(shorter) {
            let i = choose|i: int| 0 <= i < j && #[trigger] shorter[i].listen == shorter[j].listen;
            assert(forwards[i] == shorter[i] && forwards[j] == shorter[j]);
        }
    }
}

/// The check refuses rules as duplicates only when two of them listen on the
/// same address (the one reported), and accepts any non-empty rules whose
/// listen addresses are pairwise different.
pub proof fn lemma_check_forwards_duplicates(forwards: Seq<ForwardSpec>)
    ensures
        spec_check_forwards(forwards) matches Err(ConfigFault::DuplicateListen(addr)) ==> exists|i: int, j: int|
            0 <= i < j < forwards.len() && #[trigger] forwards[i].listen == addr && #[trigger] forwards[j].listen
                == addr,
        forwards.len() > 0 && (forall|i: int, j: int|
            0 <= i < j < forwards.len() ==> #[trigger] forwards[i].listen != #[trigger] forwards[j].listen)
            ==> spec_check_forwards(forwards) == Ok::<Seq<ForwardSpec>, ConfigFault>(forwards),
{
    lemma_first_duplicate_sound(forwards);
    if let Some(j) = first_duplicate(forwards) {
        let i = choose|i: int| 0 <= i < j && #[trigger] forwards[i].listen == forwards[j].listen;
        assert(forwards[i].listen == forwards[j].listen);
    }
}

/// The address of a target is its host, a colon and its port in decimal; an
/// IPv6 host goes in square brackets, any other host as it is.
pub proof fn lemma_target_address_forms(host: Seq<char>, port: u16)
    ensures
        spec_target_address(host, port, false) == host + seq![':'] + decimal_chars(port as nat),
        spec_target_address(host, port, true) == seq!['['] + host + seq![']', ':'] + decimal_chars(port as nat),
{
}

} // verus!
