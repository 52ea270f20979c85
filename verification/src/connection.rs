//! What the file browser decides while it connects: the settings that
//! `ssh -G` resolves for a profile, and whether a server's host key is trusted.
use crate::preview::split_lines;
use crate::profiles::{parse_port, parse_u16};
use crate::text::{chars_of, push_chars, slice_chars, string_of};
use base64::Engine;
use vstd::prelude::*;

verus! {

/// The lines of `t` as `str::lines` gives them: split at line feeds, with
/// the carriage return of a `\r\n` pair removed, and no empty last line.
pub open spec fn std_lines(t: Seq<char>) -> Seq<Seq<char>> {
    let parts = split_lines(t);
    let n = parts.len() as int;
    let body = parts.subrange(0, n - 1).map_values(|l: Seq<char>| drop_one_cr(l));
    if parts[n - 1].len() == 0 {
        body
    } else {
        body.push(parts[n - 1])
    }
}

pub open spec fn drop_one_cr(l: Seq<char>) -> Seq<char> {
    if l.len() > 0 && l.last() == '\r' {
        l.drop_last()
    } else {
        l
    }
}

pub open spec fn has_prefix(l: Seq<char>, prefix: Seq<char>) -> bool {
    prefix.len() <= l.len() && l.subrange(0, prefix.len() as int) == prefix
}

/// The rest of the first line that starts with `prefix`.
pub open spec fn first_value(lines: Seq<Seq<char>>, prefix: Seq<char>) -> Option<Seq<char>>
    decreases lines.len(),
{
    if lines.len() == 0 {
        None
    } else if has_prefix(lines[0], prefix) {
        Some(lines[0].subrange(prefix.len() as int, lines[0].len() as int))
    } else {
        first_value(lines.drop_first(), prefix)
    }
}

/// The rest of every line that starts with `prefix`, in order.
pub open spec fn all_values(lines: Seq<Seq<char>>, prefix: Seq<char>) -> Seq<Seq<char>>
    decreases lines.len(),
{
    if lines.len() == 0 {
        Seq::empty()
    } else {
        let rest = all_values(lines.drop_first(), prefix);
        if has_prefix(lines[0], prefix) {
            seq![lines[0].subrange(prefix.len() as int, lines[0].len() as int)] + rest
        } else {
            rest
        }
    }
}

/// The value of `key` in `ssh -G` output: the rest of the first line that
/// starts with the key and a space, or nothing.
pub open spec fn config_value(config: Seq<char>, key: Seq<char>) -> Seq<char> {
    match first_value(std_lines(config), key.push(' ')) {
        Some(v) => v,
        None => Seq::empty(),
    }
}

/// Where a private key named in the configuration lies.
#[derive(Clone, Debug, PartialEq, Eq)]
pub enum IdentitySource {
    /// A path under the user's home directory, given after `~/`.
    InHome(String),
    /// A path as written.
    Path(String),
}

pub enum IdentityView {
    InHome(Seq<char>),
    Path(Seq<char>),
}

impl View for IdentitySource {
    type V = IdentityView;

    open spec fn view(&self) -> IdentityView {
        match self {
            IdentitySource::InHome(p) => IdentityView::InHome(p@),
            IdentitySource::Path(p) => IdentityView::Path(p@),
        }
    }
}

pub open spec fn identity_of(path: Seq<char>) -> IdentityView {
    if has_prefix(path, seq!['~', '/']) {
        IdentityView::InHome(path.subrange(2, path.len() as int))
    } else {
        IdentityView::Path(path)
    }
}

/// The settings that `ssh -G` resolved for a connection.
#[derive(Clone, Debug)]
pub struct ResolvedConfig {
    pub host: String,
    pub user: String,
    pub port: u16,
    /// The private keys to try, before checking which exist.
    pub identities: Vec<IdentitySource>,
    pub host_alias: String,
}

pub open spec fn jump_host_error() -> Seq<char> {
    "The file browser currently needs a direct SSH connection; jump hosts are supported in terminal tabs only."@
}

pub open spec fn no_home_error() -> Seq<char> {
    "Cannot locate the home directory"@
}

pub open spec fn port_unresolved_error() -> Seq<char> {
    "Cannot resolve SSH port"@
}

/// A proxy setting that sends the connection through another host.
pub open spec fn uses_proxy(v: Seq<char>) -> bool {
    v.len() > 0 && v != "none"@
}

/// What parsing `ssh -G` output gives, when the home directory was found or not:
/// an error for a jump host or proxy command, a missing home directory or an
/// unreadable port, and otherwise the resolved settings.
pub open spec fn resolve_spec(config: Seq<char>, home_found: bool) -> Result<
    (Seq<char>, Seq<char>, u16, Seq<IdentityView>, Seq<char>),
    Seq<char>,
> {
    if uses_proxy(config_value(config, "proxyjump"@)) || uses_proxy(
        config_value(config, "proxycommand"@),
    ) {
        Err(jump_host_error())
    } else if !home_found {
        Err(no_home_error())
    } else if parse_u16(config_value(config, "port"@)) is None {
        Err(port_unresolved_error())
    } else {
        Ok(
            (
                config_value(config, "hostname"@),
                config_value(config, "user"@),
                parse_u16(config_value(config, "port"@)).unwrap(),
                all_values(std_lines(config), "identityfile "@).map_values(
                    |p: Seq<char>| identity_of(p),
                ),
                config_value(config, "hostkeyalias"@),
            ),
        )
    }
}

pub open spec fn resolved_view(r: Result<ResolvedConfig, String>) -> Result<
    (Seq<char>, Seq<char>, u16, Seq<IdentityView>, Seq<char>),
    Seq<char>,
> {
    match r {
        Ok(c) => Ok(
            (
                c.host@,
                c.user@,
                c.port,
                c.identities@.map_values(|i: IdentitySource| i@),
                c.host_alias@,
            ),
        ),
        Err(e) => Err(e@),
    }
}

/// The lines of `t`, as `str::lines` gives them.
fn lines_of(t: &Vec<char>) -> (r: Vec<Vec<char>>)
    ensures
        r@.map_values(|l: Vec<char>| l@) == std_lines(t@),
{
    let mut parts: Vec<Vec<char>> = Vec::new();
    let mut line: Vec<char> = Vec::new();
    let mut i: usize = 0;
    while i < t.len()
        invariant
            i <= t.len(),
            split_lines(t@.take(i as int)) == parts@.map_values(|l: Vec<char>| l@).push(line@),
        decreases t.len() - i,
    {
        assert(t@.take(i + 1).drop_last() == t@.take(i as int));
        if t[i] == '\n' {
            let ghost before = parts@.map_values(|l: Vec<char>| l@).push(line@);
            parts.push(line);
            line = Vec::new();
            assert(parts@.map_values(|l: Vec<char>| l@) =~= before);
            assert(split_lines(t@.take(i + 1)) =~= parts@.map_values(|l: Vec<char>| l@).push(
                line@,
            ));
        } else {
            line.push(t[i]);
            assert(split_lines(t@.take(i + 1)) =~= parts@.map_values(|l: Vec<char>| l@).push(
                line@,
            ));
        }
        i = i + 1;
    }
    assert(t@.take(t.len() as int) == t@);
    let ghost all = parts@.map_values(|l: Vec<char>| l@).push(line@);
    let mut out: Vec<Vec<char>> = Vec::new();
    let mut k: usize = 0;
    while k < parts.len()
        invariant
            k <= parts.len(),
            all == parts@.map_values(|l: Vec<char>| l@).push(line@),
            out@.map_values(|l: Vec<char>| l@) == all.subrange(0, k as int).map_values(
                |l: Seq<char>| drop_one_cr(l),
            ),
        decreases parts.len() - k,
    {
        let part = &parts[k];
        let keep = if part.len() > 0 && part[part.len() - 1] == '\r' {
            part.len() - 1
        } else {
            part.len()
        };
        let ghost before = out@.map_values(|l: Vec<char>| l@);
        let piece = slice_chars(part, 0, keep);
        let ghost pv = piece@;
        out.push(piece);
        assert(all[k as int] == part@);
        assert(pv == drop_one_cr(part@));
        assert(out@.map_values(|l: Vec<char>| l@) =~= before.push(pv));
        assert(all.subrange(0, k + 1).map_values(|l: Seq<char>| drop_one_cr(l)) =~= all.subrange(
            0,
            k as int,
        ).map_values(|l: Seq<char>| drop_one_cr(l)).push(drop_one_cr(all[k as int])));
        assert(out@.map_values(|l: Vec<char>| l@) =~= all.subrange(0, k + 1).map_values(
            |l: Seq<char>| drop_one_cr(l),
        ));
        k = k + 1;
    }
    assert(all.subrange(0, all.len() - 1) == parts@.map_values(|l: Vec<char>| l@));
    if line.len() > 0 {
        let ghost before = out@.map_values(|l: Vec<char>| l@);
        out.push(line);
        assert(out@.map_values(|l: Vec<char>| l@) =~= before.push(all[all.len() - 1]));
    }
    out
}

fn has_prefix_chars(l: &Vec<char>, prefix: &Vec<char>) -> (r: bool)
    ensures
        r == has_prefix(l@, prefix@),
{
    if prefix.len() > l.len() {
        return false;
    }
    let mut k: usize = 0;
    while k < prefix.len()
        invariant
            prefix.len() <= l.len(),
            k <= prefix.len(),
            forall|m: int| 0 <= m < k ==> l@[m] == prefix@[m],
        decreases prefix.len() - k,
    {
        if l[k] != prefix[k] {
            assert(l@.subrange(0, prefix.len() as int)[k as int] != prefix@[k as int]);
            return false;
        }
        k = k + 1;
    }
    assert(l@.subrange(0, prefix.len() as int) =~= prefix@);
    true
}

/// The rest of the first of `lines` that starts with `prefix`.
fn find_value(lines: &Vec<Vec<char>>, prefix: &Vec<char>) -> (r: Option<Vec<char>>)
    ensures
        match r {
            Some(v) => first_value(lines@.map_values(|l: Vec<char>| l@), prefix@) == Some(v@),
            None => first_value(lines@.map_values(|l: Vec<char>| l@), prefix@) is None,
        },
{
    let ghost all = lines@.map_values(|l: Vec<char>| l@);
    let mut i: usize = 0;
    assert(all.subrange(0, all.len() as int) == all);
    while i < lines.len()
        invariant
            i <= lines.len(),
            all == lines@.map_values(|l: Vec<char>| l@),
            first_value(all, prefix@) == first_value(all.subrange(i as int, all.len() as int), prefix@),
        decreases lines.len() - i,
    {
        let l = &lines[i];
        let ghost rest = all.subrange(i as int, all.len() as int);
        assert(rest[0] == l@);
        assert(rest.drop_first() == all.subrange(i + 1, all.len() as int));
        if has_prefix_chars(l, prefix) {
            return Some(slice_chars(l, prefix.len(), l.len()));
        }
        i = i + 1;
    }
    assert(all.subrange(i as int, all.len() as int) =~= Seq::<Seq<char>>::empty());
    None
}

/// The rest of every one of `lines` that starts with `prefix`, in order.
fn find_values(lines: &Vec<Vec<char>>, prefix: &Vec<char>) -> (r: Vec<Vec<char>>)
    ensures
        r@.map_values(|l: Vec<char>| l@) == all_values(lines@.map_values(|l: Vec<char>| l@), prefix@),
{
    let ghost all = lines@.map_values(|l: Vec<char>| l@);
    let mut out: Vec<Vec<char>> = Vec::new();
    let mut i: usize = 0;
    assert(all.subrange(0, all.len() as int) == all);
    assert(out@.map_values(|l: Vec<char>| l@) =~= Seq::<Seq<char>>::empty());
    while i < lines.len()
        invariant
            i <= lines.len(),
            all == lines@.map_values(|l: Vec<char>| l@),
            out@.map_values(|l: Vec<char>| l@) + all_values(all.subrange(i as int, all.len() as int), prefix@)
                == all_values(all, prefix@),
        decreases lines.len() - i,
    {
        let l = &lines[i];
        let ghost rest = all.subrange(i as int, all.len() as int);
        let ghost before = out@.map_values(|l: Vec<char>| l@);
        assert(rest[0] == l@);
        assert(rest.drop_first() == all.subrange(i + 1, all.len() as int));
        if has_prefix_chars(l, prefix) {
            let v = slice_chars(l, prefix.len(), l.len());
            let ghost vv = v@;
            out.push(v);
            assert(out@.map_values(|l: Vec<char>| l@) =~= before.push(vv));
            assert(before.push(vv) + all_values(all.subrange(i + 1, all.len() as int), prefix@) =~= before
                + (seq![vv] + all_values(all.subrange(i + 1, all.len() as int), prefix@)));
        }
        i = i + 1;
    }
    assert(all.subrange(i as int, all.len() as int) =~= Seq::<Seq<char>>::empty());
    assert(out@.map_values(|l: Vec<char>| l@) + Seq::<Seq<char>>::empty() == out@.map_values(
        |l: Vec<char>| l@,
    ));
    out
}

fn config_lookup(lines: &Vec<Vec<char>>, key: &str) -> (r: Vec<char>)
    ensures
        r@ == match first_value(lines@.map_values(|l: Vec<char>| l@), key@.push(' ')) {
            Some(v) => v,
            None => Seq::empty(),
        },
{
    let mut prefix = chars_of(key);
    prefix.push(' ');
    match find_value(lines, &prefix) {
        Some(v) => v,
        None => Vec::new(),
    }
}

fn is_set_value(v: &Vec<char>) -> (r: bool)
    ensures
        r == uses_proxy(v@),
{
    let none = chars_of("none");
    proof {
        reveal_strlit("none");
    }
    let same = v.len() == 4 && v[0] == 'n' && v[1] == 'o' && v[2] == 'n' && v[3] == 'e';
    assert(same == (v@ == none@)) by {
        if v@ == none@ {
            assert(v@[0] == 'n' && v@[1] == 'o' && v@[2] == 'n' && v@[3] == 'e');
        }
        if same {
            assert(v@ =~= none@);
        }
    }
    v.len() > 0 && !same
}

/// Parses the output of `ssh -G`; `home_found` tells whether the user's
/// home directory is known, which keys under `~/` need.
pub fn parse_ssh_config(config: &str, home_found: bool) -> (r: Result<ResolvedConfig, String>)
    ensures
        resolved_view(r) == resolve_spec(config@, home_found),
{
    let text = chars_of(config);
    let lines = lines_of(&text);
    let jump = config_lookup(&lines, "proxyjump");
    let command = config_lookup(&lines, "proxycommand");
    if is_set_value(&jump) || is_set_value(&command) {
        return Err(
            "The file browser currently needs a direct SSH connection; jump hosts are supported in terminal tabs only.".to_owned(),
        );
    }
    if !home_found {
        return Err("Cannot locate the home directory".to_owned());
    }
    let port_text = config_lookup(&lines, "port");
    let port = match parse_port(&port_text) {
        Some(p) => p,
        None => return Err("Cannot resolve SSH port".to_owned()),
    };
    let prefix = chars_of("identityfile ");
    let paths = find_values(&lines, &prefix);
    let mut identities: Vec<IdentitySource> = Vec::new();
    let mut i: usize = 0;
    let ghost pv = paths@.map_values(|l: Vec<char>| l@);
    while i < paths.len()
        invariant
            i <= paths.len(),
            pv == paths@.map_values(|l: Vec<char>| l@),
            identities@.map_values(|x: IdentitySource| x@) == pv.take(i as int).map_values(
                |p: Seq<char>| identity_of(p),
            ),
        decreases paths.len() - i,
    {
        let p = &paths[i];
        let home_relative = p.len() >= 2 && p[0] == '~' && p[1] == '/';
        assert(home_relative == has_prefix(p@, seq!['~', '/'])) by {
            if has_prefix(p@, seq!['~', '/']) {
                assert(p@.subrange(0, 2)[0] == '~' && p@.subrange(0, 2)[1] == '/');
            }
            if home_relative {
                assert(p@.subrange(0, 2) =~= seq!['~', '/']);
            }
        }
        let item = if home_relative {
            IdentitySource::InHome(string_of(&slice_chars(p, 2, p.len())))
        } else {
            IdentitySource::Path(string_of(p))
        };
        let ghost before = identities@.map_values(|x: IdentitySource| x@);
        let ghost iv = item@;
        identities.push(item);
        assert(pv[i as int] == p@);
        assert(identities@.map_values(|x: IdentitySource| x@) =~= before.push(iv));
        assert(pv.take(i + 1).map_values(|p: Seq<char>| identity_of(p)) =~= pv.take(
            i as int,
        ).map_values(|p: Seq<char>| identity_of(p)).push(identity_of(p@)));
        i = i + 1;
    }
    assert(pv.take(paths.len() as int) == pv);
    let host = config_lookup(&lines, "hostname");
    let user = config_lookup(&lines, "user");
    let alias = config_lookup(&lines, "hostkeyalias");
    Ok(
        ResolvedConfig {
            host: string_of(&host),
            user: string_of(&user),
            port,
            identities,
            host_alias: string_of(&alias),
        },
    )
}

/// The name under which a host key is looked up: the host key alias when
/// the configuration sets one, and the host name otherwise.
pub open spec fn key_lookup_name(host: Seq<char>, alias: Seq<char>) -> Seq<char> {
    if alias.len() == 0 || alias == "none"@ {
        host
    } else {
        alias
    }
}

impl ResolvedConfig {
    /// The name under which the server's host key is looked up.
    pub fn check_host(&self) -> (r: &str)
        ensures
            r@ == key_lookup_name(self.host@, self.host_alias@),
    {
        let alias = chars_of(self.host_alias.as_str());
        if !is_set_value(&alias) {
            self.host.as_str()
        } else {
            self.host_alias.as_str()
        }
    }
}

/// The letter for the six bits `v` in the standard base64 alphabet.
pub open spec fn base64_char(v: int) -> char {
    if v < 26 {
        ((65 + v) as u32) as char
    } else if v < 52 {
        ((97 + v - 26) as u32) as char
    } else if v < 62 {
        ((48 + v - 52) as u32) as char
    } else if v == 62 {
        '+'
    } else {
        '/'
    }
}

/// `b` in base64 with the standard alphabet (RFC 4648) and no padding.
pub open spec fn base64_unpadded(b: Seq<u8>) -> Seq<char>
    decreases b.len(),
{
    if b.len() == 0 {
        Seq::empty()
    } else if b.len() == 1 {
        seq![base64_char(b[0] as int / 4), base64_char((b[0] % 4) * 16)]
    } else if b.len() == 2 {
        seq![
            base64_char(b[0] as int / 4),
            base64_char((b[0] % 4) * 16 + b[1] / 16),
            base64_char((b[1] % 16) * 4),
        ]
    } else {
        seq![
            base64_char(b[0] as int / 4),
            base64_char((b[0] % 4) * 16 + b[1] / 16),
            base64_char((b[1] % 16) * 4 + b[2] / 64),
            base64_char(b[2] as int % 64),
        ] + base64_unpadded(b.subrange(3, b.len() as int))
    }
}

/// `base64::engine::general_purpose::STANDARD_NO_PAD.encode`: the base64
/// of `bytes` with the standard alphabet and no padding.
#[verifier::external_body]
fn encode_base64(bytes: &[u8]) -> (r: String)
    requires
        bytes.len() <= usize::MAX / 2,
    ensures
        r@ == base64_unpadded(bytes@),
{
    base64::engine::general_purpose::STANDARD_NO_PAD.encode(bytes)
}

/// The fingerprint shown for a host key with SHA-256 digest `hash`.
pub fn host_key_fingerprint(hash: &[u8]) -> (r: String)
    requires
        hash.len() <= usize::MAX / 2,
    ensures
        r@ == "SHA256:"@ + base64_unpadded(hash@),
{
    let mut r = "SHA256:".to_owned();
    let encoded = encode_base64(hash);
    let e = chars_of(encoded.as_str());
    push_chars(&mut r, &e);
    r
}

/// What the known-hosts files say of the server's key.
#[derive(Clone, Copy, Debug, PartialEq, Eq)]
pub enum HostKeyCheck {
    Match,
    NotFound,
    Mismatch,
    Failure,
}

/// How a connection goes on after the host key check.
#[derive(Debug, PartialEq, Eq)]
pub enum HostKeyDecision {
    /// The key is known, or the user trusted this fingerprint: authenticate.
    Proceed,
    /// The key is unknown: ask the user to trust this fingerprint.
    AskTrust(String),
}

pub open spec fn key_changed_text(host: Seq<char>, fingerprint: Seq<char>) -> Seq<char> {
    "Host key changed for "@ + host + ". Connection blocked. Received "@ + fingerprint
}

pub open spec fn verification_failed_text() -> Seq<char> {
    "Host key verification failed."@
}

/// The decision on a host key: known keys and keys whose fingerprint the
/// user trusted proceed, unknown keys ask, and changed keys block.
pub open spec fn decide_host_key(
    check: HostKeyCheck,
    trusted: Option<Seq<char>>,
    fingerprint: Seq<char>,
    host: Seq<char>,
) -> Result<Option<Seq<char>>, Seq<char>> {
    match check {
        HostKeyCheck::Match => Ok(None),
        HostKeyCheck::NotFound => if trusted == Some(fingerprint) {
            Ok(None)
        } else {
            Ok(Some(fingerprint))
        },
        HostKeyCheck::Mismatch => Err(key_changed_text(host, fingerprint)),
        HostKeyCheck::Failure => Err(verification_failed_text()),
    }
}

pub open spec fn decision_view(r: Result<HostKeyDecision, String>) -> Result<Option<Seq<char>>, Seq<char>> {
    match r {
        Ok(HostKeyDecision::Proceed) => Ok(None),
        Ok(HostKeyDecision::AskTrust(f)) => Ok(Some(f@)),
        Err(e) => Err(e@),
    }
}

fn same_chars(a: &str, b: &str) -> (r: bool)
    ensures
        r == (a@ == b@),
{
    let x = chars_of(a);
    let y = chars_of(b);
    if x.len() != y.len() {
        return false;
    }
    let mut i: usize = 0;
    while i < x.len()
        invariant
            x.len() == y.len(),
            x@ == a@,
            y@ == b@,
            i <= x.len(),
            forall|k: int| 0 <= k < i ==> x@[k] == y@[k],
        decreases x.len() - i,
    {
        if x[i] != y[i] {
            assert(x@[i as int] != y@[i as int]);
            return false;
        }
        i = i + 1;
    }
    assert(x@ =~= y@);
    true
}

/// Decides how to go on after checking the server's host key for `host`.
pub fn host_key_decision(
    check: HostKeyCheck,
    trusted: Option<&str>,
    fingerprint: &str,
    host: &str,
) -> (r: Result<HostKeyDecision, String>)
    ensures
        decision_view(r) == decide_host_key(
            check,
            match trusted {
                Some(t) => Some(t@),
                None => None,
            },
            fingerprint@,
            host@,
        ),
{
    match check {
        HostKeyCheck::Match => Ok(HostKeyDecision::Proceed),
        HostKeyCheck::NotFound => {
            let accepted = match trusted {
                Some(t) => same_chars(t, fingerprint),
                None => false,
            };
            if accepted {
                Ok(HostKeyDecision::Proceed)
            } else {
                Ok(HostKeyDecision::AskTrust(fingerprint.to_owned()))
            }
        },
        HostKeyCheck::Mismatch => {
            let mut message = "Host key changed for ".to_owned();
            push_chars(&mut message, &chars_of(host));
            push_chars(&mut message, &chars_of(". Connection blocked. Received "));
            push_chars(&mut message, &chars_of(fingerprint));
            Err(message)
        },
        HostKeyCheck::Failure => Err("Host key verification failed.".to_owned()),
    }
}


/// A host key that differs from the known one is never accepted, whatever
/// fingerprint the user trusted.
pub proof fn changed_host_keys_are_refused(
    trusted: Option<Seq<char>>,
    fingerprint: Seq<char>,
    host: Seq<char>,
)
    ensures
        decide_host_key(HostKeyCheck::Mismatch, trusted, fingerprint, host) is Err,
        decide_host_key(HostKeyCheck::Failure, trusted, fingerprint, host) is Err,
{
}

/// An unknown host key lets the connection go on only when the user trusted
/// exactly its fingerprint; otherwise the user is asked about that fingerprint.
pub proof fn unknown_host_keys_need_their_fingerprint_trusted(
    trusted: Option<Seq<char>>,
    fingerprint: Seq<char>,
    host: Seq<char>,
)
    ensures
        decide_host_key(HostKeyCheck::NotFound, trusted, fingerprint, host) == if trusted == Some(
            fingerprint,
        ) {
            Ok::<Option<Seq<char>>, Seq<char>>(None)
        } else {
            Ok::<Option<Seq<char>>, Seq<char>>(Some(fingerprint))
        },
{
}

} // verus!
