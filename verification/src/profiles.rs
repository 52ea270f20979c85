//! Saved connection profiles and the OpenSSH arguments they stand for.
use crate::text::{
    all_chars, chars_of, decimal, digits, is_ascii_alphanumeric, is_control, is_control_char,
    push_chars, string_of, trim, trimmed,
};
use vstd::prelude::*;

verus! {

/// A saved connection.
#[derive(Clone, Debug, Default, PartialEq)]
pub struct Profile {
    pub name: String,
    pub host: String,
    pub user: String,
    pub port: String,
    pub identity: String,
}

/// What a `Profile` holds, as plain values.
pub struct ProfileView {
    pub name: Seq<char>,
    pub host: Seq<char>,
    pub user: Seq<char>,
    pub port: Seq<char>,
    pub identity: Seq<char>,
}

impl View for Profile {
    type V = ProfileView;

    open spec fn view(&self) -> ProfileView {
        ProfileView {
            name: self.name@,
            host: self.host@,
            user: self.user@,
            port: self.port@,
            identity: self.identity@,
        }
    }
}

/// What checking the private key path on this machine gave.
#[derive(Clone, Copy, Debug, PartialEq, Eq)]
pub enum KeyCheck {
    /// Not an absolute path here, or it holds control characters.
    NotAbsolute,
    /// An absolute path with no regular file behind it.
    Missing,
    /// An absolute path of a regular file.
    Found,
}

pub open spec fn host_char(c: char) -> bool {
    is_ascii_alphanumeric(c) || c == '.' || c == '-' || c == '_' || c == ':'
}

pub open spec fn user_char(c: char) -> bool {
    is_ascii_alphanumeric(c) || c == '.' || c == '_' || c == '-' || c == '@' || c == '\\'
}

/// A host name, address or alias that cannot be read as an option or as shell syntax.
pub open spec fn valid_host(h: Seq<char>) -> bool {
    h.len() > 0 && h[0] != '-' && all_chars(h, |c: char| host_char(c))
}

/// An empty user name (the SSH configuration decides), or a safe one.
pub open spec fn valid_user(u: Seq<char>) -> bool {
    u.len() == 0 || (u[0] != '-' && all_chars(u, |c: char| user_char(c)))
}

pub open spec fn digit_value(c: char) -> nat {
    ((c as u32) - 48) as nat
}

/// The number that the decimal digits `d` write.
pub open spec fn digits_value(d: Seq<char>) -> nat
    decreases d.len(),
{
    if d.len() == 0 {
        0
    } else {
        digits_value(d.drop_last()) * 10 + digit_value(d.last())
    }
}

/// What `u16::from_str` gives: an optional `+` and at least one decimal
/// digit, of a value that fits.
pub open spec fn parse_u16(s: Seq<char>) -> Option<u16> {
    let d = if s.len() > 0 && s[0] == '+' {
        s.drop_first()
    } else {
        s
    };
    if d.len() == 0 || !all_chars(d, |c: char| '0' <= c <= '9') || digits_value(d) > 65535 {
        None
    } else {
        Some(digits_value(d) as u16)
    }
}

pub open spec fn has_control(s: Seq<char>) -> bool {
    exists|i: int| 0 <= i < s.len() && is_control(#[trigger] s[i])
}

pub open spec fn host_error() -> Seq<char> {
    "Enter a hostname, IPv4/IPv6 address, or SSH config alias."@
}

pub open spec fn user_error() -> Seq<char> {
    "The username contains unsupported characters."@
}

pub open spec fn port_error() -> Seq<char> {
    "Port must be between 1 and 65535."@
}

pub open spec fn key_path_error() -> Seq<char> {
    "The private key must have an absolute filesystem path."@
}

pub open spec fn missing_key_prefix() -> Seq<char> {
    "Private key file does not exist: "@
}

/// The options given to every connection: ask before trusting a host key,
/// and detect unreachable or silent servers.
pub open spec fn base_args() -> Seq<Seq<char>> {
    seq![
        "-tt"@,
        "-o"@,
        "StrictHostKeyChecking=ask"@,
        "-o"@,
        "ConnectTimeout=15"@,
        "-o"@,
        "ServerAliveInterval=30"@,
        "-o"@,
        "ServerAliveCountMax=3"@,
    ]
}

/// The OpenSSH arguments for profile `p`, given what checking its private
/// key gave (unused when it has none), or the error shown instead.
pub open spec fn ssh_args_spec(p: ProfileView, key: KeyCheck) -> Result<Seq<Seq<char>>, Seq<char>> {
    let host = trimmed(p.host);
    let user = trimmed(p.user);
    let port = trimmed(p.port);
    let identity = trimmed(p.identity);
    if !valid_host(host) {
        Err(host_error())
    } else if !valid_user(user) {
        Err(user_error())
    } else if port.len() > 0 && !(parse_u16(port) matches Some(n) && n > 0) {
        Err(port_error())
    } else if identity.len() > 0 && key == KeyCheck::NotAbsolute {
        Err(key_path_error())
    } else if identity.len() > 0 && key == KeyCheck::Missing {
        Err(missing_key_prefix() + identity)
    } else {
        Ok(base_args() + (if user.len() > 0 {
            seq!["-l"@, user]
        } else {
            Seq::empty()
        }) + (if port.len() > 0 {
            seq!["-p"@, decimal(parse_u16(port).unwrap() as nat)]
        } else {
            Seq::empty()
        }) + (if identity.len() > 0 {
            seq!["-i"@, identity]
        } else {
            Seq::empty()
        }) + seq!["--"@, host])
    }
}

/// The option words that take their value from a profile field.
pub open spec fn option_word(w: Seq<char>) -> bool {
    w == "-l"@ || w == "-p"@ || w == "-i"@ || w == "--"@
}

/// The fixed options, then option words and values in turn, where no value
/// is empty or begins with `-`, so none can be read as an option.
pub open spec fn options_then_values(args: Seq<Seq<char>>) -> bool {
    &&& args.len() >= 9
    &&& args.len() % 2 == 1
    &&& args.subrange(0, 9) == base_args()
    &&& forall|k: int| 9 <= k < args.len() && k % 2 == 1 ==> option_word(#[trigger] args[k])
    &&& forall|k: int|
        10 <= k < args.len() && k % 2 == 0 ==> (#[trigger] args[k]).len() > 0 && args[k][0]
            != '-'
}

pub open spec fn args_view(r: Result<Vec<String>, String>) -> Result<Seq<Seq<char>>, Seq<char>> {
    match r {
        Ok(v) => Ok(v@.map_values(|s: String| s@)),
        Err(e) => Err(e@),
    }
}

/// `std::path::Path::is_absolute` for `path`. What counts as absolute
/// depends on the platform (a leading `/`, or a drive or UNC prefix); on
/// each of them an absolute path is non-empty and does not begin with `-`,
/// which is all that is stated.
#[verifier::external_body]
fn path_is_absolute(path: &str) -> (r: bool)
    ensures
        r ==> path@.len() > 0 && path@[0] != '-',
{
    std::path::Path::new(path).is_absolute()
}

/// `std::path::Path::is_file` for `path`: whether a regular file is there
/// now. It depends on the disk, so nothing is stated of the result.
#[verifier::external_body]
fn path_is_file(path: &str) -> bool {
    std::path::Path::new(path).is_file()
}

fn all_host_chars(v: &Vec<char>) -> (r: bool)
    ensures
        r == all_chars(v@, |c: char| host_char(c)),
{
    let mut i: usize = 0;
    while i < v.len()
        invariant
            i <= v.len(),
            forall|k: int| 0 <= k < i ==> host_char(#[trigger] v@[k]),
        decreases v.len() - i,
    {
        let c = v[i];
        if !(('0' <= c && c <= '9') || ('a' <= c && c <= 'z') || ('A' <= c && c <= 'Z') || c
            == '.' || c == '-' || c == '_' || c == ':') {
            assert(!host_char(v@[i as int]));
            return false;
        }
        i = i + 1;
    }
    true
}

fn all_user_chars(v: &Vec<char>) -> (r: bool)
    ensures
        r == all_chars(v@, |c: char| user_char(c)),
{
    let mut i: usize = 0;
    while i < v.len()
        invariant
            i <= v.len(),
            forall|k: int| 0 <= k < i ==> user_char(#[trigger] v@[k]),
        decreases v.len() - i,
    {
        let c = v[i];
        if !(('0' <= c && c <= '9') || ('a' <= c && c <= 'z') || ('A' <= c && c <= 'Z') || c
            == '.' || c == '_' || c == '-' || c == '@' || c == '\\') {
            assert(!user_char(v@[i as int]));
            return false;
        }
        i = i + 1;
    }
    true
}

fn contains_control(v: &Vec<char>) -> (r: bool)
    ensures
        r == has_control(v@),
{
    let mut i: usize = 0;
    while i < v.len()
        invariant
            i <= v.len(),
            forall|k: int| 0 <= k < i ==> !is_control(#[trigger] v@[k]),
        decreases v.len() - i,
    {
        if is_control_char(v[i]) {
            return true;
        }
        i = i + 1;
    }
    false
}

/// `u16::from_str` of the characters `s`.
pub fn parse_port(s: &Vec<char>) -> (r: Option<u16>)
    ensures
        r == parse_u16(s@),
{
    let start: usize = if s.len() > 0 && s[0] == '+' {
        1
    } else {
        0
    };
    let ghost d = if s@.len() > 0 && s@[0] == '+' {
        s@.drop_first()
    } else {
        s@
    };
    assert(d == s@.subrange(start as int, s.len() as int));
    if start == s.len() {
        return None;
    }
    let mut value: u32 = 0;
    let mut i = start;
    while i < s.len()
        invariant
            start <= i <= s.len(),
            start < s.len(),
            d == s@.subrange(start as int, s.len() as int),
            d == if s@.len() > 0 && s@[0] == '+' {
                s@.drop_first()
            } else {
                s@
            },
            forall|k: int| start <= k < i ==> '0' <= #[trigger] s@[k] <= '9',
            value as nat == if digits_value(s@.subrange(start as int, i as int)) > 65535 {
                65536
            } else {
                digits_value(s@.subrange(start as int, i as int))
            },
        decreases s.len() - i,
    {
        let c = s[i];
        if !('0' <= c && c <= '9') {
            assert(d[i - start] == c);
            assert(!all_chars(d, |c: char| '0' <= c <= '9'));
            return None;
        }
        assert(s@.subrange(start as int, i + 1).drop_last() == s@.subrange(start as int, i as int));
        let next = value * 10 + (c as u32 - 48);
        value = if next > 65535 {
            65536
        } else {
            next
        };
        i = i + 1;
    }
    assert(s@.subrange(start as int, s.len() as int) == d);
    assert(all_chars(d, |c: char| '0' <= c <= '9')) by {
        assert forall|k: int| 0 <= k < d.len() implies '0' <= #[trigger] d[k] <= '9' by {
            assert(d[k] == s@[k + start]);
        }
    }
    if value > 65535 {
        None
    } else {
        Some(value as u16)
    }
}

fn text(s: &str) -> (r: String)
    ensures
        r@ == s@,
{
    s.to_owned()
}

impl Profile {
    /// A copy of this profile with the same fields.
    pub fn duplicate(&self) -> (r: Profile)
        ensures
            r@ == self@,
    {
        Profile {
            name: self.name.clone(),
            host: self.host.clone(),
            user: self.user.clone(),
            port: self.port.clone(),
            identity: self.identity.clone(),
        }
    }

    /// The name shown for the profile: its name, or its host when the name is blank.
    pub fn label(&self) -> (r: &str)
        ensures
            r@ == if trimmed(self.name@).len() == 0 {
                self.host@
            } else {
                self.name@
            },
    {
        if trim(self.name.as_str()).len() == 0 {
            self.host.as_str()
        } else {
            self.name.as_str()
        }
    }

    /// The OpenSSH arguments for this profile, given what checking its
    /// private key path gave; that outcome is unused when it has none.
    pub fn ssh_args_checked(&self, key: KeyCheck) -> (r: Result<Vec<String>, String>)
        ensures
            args_view(r) == ssh_args_spec(self@, key),
    {
        let host = trim(self.host.as_str());
        if host.len() == 0 || host[0] == '-' || !all_host_chars(&host) {
            return Err(text("Enter a hostname, IPv4/IPv6 address, or SSH config alias."));
        }
        let user = trim(self.user.as_str());
        if user.len() > 0 && (user[0] == '-' || !all_user_chars(&user)) {
            return Err(text("The username contains unsupported characters."));
        }
        let port = trim(self.port.as_str());
        let mut port_number: u16 = 0;
        if port.len() > 0 {
            match parse_port(&port) {
                Some(n) if n > 0 => {
                    port_number = n;
                },
                _ => {
                    return Err(text("Port must be between 1 and 65535."));
                },
            }
        }
        let identity = trim(self.identity.as_str());
        if identity.len() > 0 {
            match key {
                KeyCheck::NotAbsolute => {
                    return Err(text("The private key must have an absolute filesystem path."));
                },
                KeyCheck::Missing => {
                    let mut message = text("Private key file does not exist: ");
                    push_chars(&mut message, &identity);
                    return Err(message);
                },
                KeyCheck::Found => {},
            }
        }
        let mut args: Vec<String> = Vec::new();
        args.push(text("-tt"));
        args.push(text("-o"));
        args.push(text("StrictHostKeyChecking=ask"));
        args.push(text("-o"));
        args.push(text("ConnectTimeout=15"));
        args.push(text("-o"));
        args.push(text("ServerAliveInterval=30"));
        args.push(text("-o"));
        args.push(text("ServerAliveCountMax=3"));
        assert(args@.map_values(|s: String| s@) =~= base_args());
        let ghost after_base = args@.map_values(|s: String| s@);
        if user.len() > 0 {
            args.push(text("-l"));
            args.push(string_of(&user));
        }
        let ghost after_user = args@.map_values(|s: String| s@);
        assert(after_user =~= after_base + if user@.len() > 0 {
            seq!["-l"@, user@]
        } else {
            Seq::empty()
        });
        if port.len() > 0 {
            args.push(text("-p"));
            let number = digits(port_number as u64, 10);
            args.push(string_of(&number));
        }
        let ghost after_port = args@.map_values(|s: String| s@);
        assert(after_port =~= after_user + if port@.len() > 0 {
            seq!["-p"@, decimal(parse_u16(port@).unwrap() as nat)]
        } else {
            Seq::empty()
        });
        if identity.len() > 0 {
            args.push(text("-i"));
            args.push(string_of(&identity));
        }
        let ghost after_identity = args@.map_values(|s: String| s@);
        assert(after_identity =~= after_port + if identity@.len() > 0 {
            seq!["-i"@, identity@]
        } else {
            Seq::empty()
        });
        args.push(text("--"));
        args.push(string_of(&host));
        assert(args@.map_values(|s: String| s@) =~= after_identity + seq!["--"@, host@]);
        Ok(args)
    }

    /// The OpenSSH arguments for this profile, or the error shown instead.
    /// A private key path is checked on this machine only when the host,
    /// user and port are valid: it must be absolute, without control
    /// characters, and name a regular file.
    pub fn ssh_args(&self) -> (r: Result<Vec<String>, String>)
        ensures
            trimmed(self.identity@).len() == 0 ==> args_view(r) == ssh_args_spec(
                self@,
                KeyCheck::Found,
            ),
            has_control(trimmed(self.identity@)) ==> args_view(r) == ssh_args_spec(
                self@,
                KeyCheck::NotAbsolute,
            ),
            args_view(r) == ssh_args_spec(self@, KeyCheck::NotAbsolute) || args_view(r)
                == ssh_args_spec(self@, KeyCheck::Missing) || args_view(r) == ssh_args_spec(
                self@,
                KeyCheck::Found,
            ),
            args_view(r) matches Ok(args) ==> args.len() >= 11 && options_then_values(args),
    {
        let first = self.ssh_args_checked(KeyCheck::Found);
        let identity = trim(self.identity.as_str());
        if first.is_err() || identity.len() == 0 {
            proof {
                if identity.len() == 0 {
                    profile_values_are_not_options(self@, KeyCheck::Found);
                }
                ssh_args_end_with_the_host(self@, KeyCheck::Found);
            }
            return first;
        }
        let path = string_of(&identity);
        let key = if contains_control(&identity) || !path_is_absolute(path.as_str()) {
            KeyCheck::NotAbsolute
        } else if !path_is_file(path.as_str()) {
            KeyCheck::Missing
        } else {
            KeyCheck::Found
        };
        proof {
            profile_values_are_not_options(self@, key);
            ssh_args_end_with_the_host(self@, key);
        }
        self.ssh_args_checked(key)
    }
}

proof fn lemma_decimal_is_not_an_option(n: nat)
    ensures
        decimal(n).len() > 0,
        decimal(n)[0] != '-',
    decreases n,
{
    if n >= 10 {
        lemma_decimal_is_not_an_option(n / 10);
    }
}

proof fn lemma_push_option(args: Seq<Seq<char>>, w: Seq<char>, v: Seq<char>)
    requires
        options_then_values(args),
        option_word(w),
        v.len() > 0,
        v[0] != '-',
    ensures
        options_then_values(args + seq![w, v]),
{
    let next = args + seq![w, v];
    assert(next.subrange(0, 9) == args.subrange(0, 9));
    assert forall|k: int| 9 <= k < next.len() && k % 2 == 1 implies option_word(
        #[trigger] next[k],
    ) by {
        if k < args.len() {
            assert(next[k] == args[k]);
        }
    }
    assert forall|k: int| 10 <= k < next.len() && k % 2 == 0 implies (#[trigger] next[k]).len()
        > 0 && next[k][0] != '-' by {
        if k < args.len() {
            assert(next[k] == args[k]);
        }
    }
}

/// In a successful argument list, each value taken from the profile (the
/// user, the port, the private key path and the host) stands right after
/// its option word, and none can be read as an option: none is empty or
/// begins with `-`. For a key path, that rests on the check of the path
/// (an absolute path never begins with `-`), which `ssh_args` makes.
pub proof fn profile_values_are_not_options(p: ProfileView, key: KeyCheck)
    requires
        key == KeyCheck::Found && trimmed(p.identity).len() > 0 ==> trimmed(p.identity)[0]
            != '-',
    ensures
        ssh_args_spec(p, key) matches Ok(args) ==> options_then_values(args),
{
    if let Ok(args) = ssh_args_spec(p, key) {
        let user = trimmed(p.user);
        let port = trimmed(p.port);
        let identity = trimmed(p.identity);
        let host = trimmed(p.host);
        let e: Seq<Seq<char>> = Seq::empty();
        let a0 = base_args();
        assert(a0.subrange(0, 9) == base_args());
        assert(options_then_values(a0));
        let su = if user.len() > 0 {
            seq!["-l"@, user]
        } else {
            e
        };
        let a1 = a0 + su;
        if user.len() > 0 {
            lemma_push_option(a0, "-l"@, user);
        } else {
            assert(a1 == a0);
        }
        let sp = if port.len() > 0 {
            seq!["-p"@, decimal(parse_u16(port).unwrap() as nat)]
        } else {
            e
        };
        let a2 = a1 + sp;
        if port.len() > 0 {
            lemma_decimal_is_not_an_option(parse_u16(port).unwrap() as nat);
            lemma_push_option(a1, "-p"@, decimal(parse_u16(port).unwrap() as nat));
        } else {
            assert(a2 == a1);
        }
        let si = if identity.len() > 0 {
            seq!["-i"@, identity]
        } else {
            e
        };
        let a3 = a2 + si;
        if identity.len() > 0 {
            lemma_push_option(a2, "-i"@, identity);
        } else {
            assert(a3 == a2);
        }
        lemma_push_option(a3, "--"@, host);
        assert(args == a3 + seq!["--"@, host]);
    }
}

/// A successful argument list ends with `--` and the host, and the host
/// cannot be read as an option; host keys are always checked by asking.
pub proof fn ssh_args_end_with_the_host(p: ProfileView, key: KeyCheck)
    ensures
        ssh_args_spec(p, key) matches Ok(args) ==> {
            &&& args.len() >= 11
            &&& args[args.len() - 2] == "--"@
            &&& args[args.len() - 1] == trimmed(p.host)
            &&& valid_host(args[args.len() - 1])
            &&& args[args.len() - 1][0] != '-'
            &&& args[2] == "StrictHostKeyChecking=ask"@
        },
{
    if let Ok(args) = ssh_args_spec(p, key) {
        let tail = seq!["--"@, trimmed(p.host)];
        assert(args[args.len() - 2] == tail[0]);
        assert(args[args.len() - 1] == tail[1]);
        assert(args[2] == base_args()[2]);
    }
}

/// Without a user, port or key, the arguments leave those to the SSH
/// configuration: only the fixed options, `--` and the host.
pub proof fn ssh_args_keep_config_defaults(p: ProfileView, key: KeyCheck)
    requires
        trimmed(p.user).len() == 0,
        trimmed(p.port).len() == 0,
        trimmed(p.identity).len() == 0,
        valid_host(trimmed(p.host)),
    ensures
        ssh_args_spec(p, key) == Ok::<Seq<Seq<char>>, Seq<char>>(
            base_args() + seq!["--"@, trimmed(p.host)],
        ),
{
    let e: Seq<Seq<char>> = Seq::empty();
    assert(base_args() + e + e + e == base_args());
}

/// A port is accepted exactly when it is a number from 1 to 65535,
/// optionally with a leading `+`.
pub proof fn ports_must_be_in_range(p: ProfileView, key: KeyCheck)
    requires
        valid_host(trimmed(p.host)),
        valid_user(trimmed(p.user)),
        trimmed(p.port).len() > 0,
    ensures
        (ssh_args_spec(p, key) == Err::<Seq<Seq<char>>, Seq<char>>(port_error())) <==> !(
        parse_u16(trimmed(p.port)) matches Some(n) && 1 <= n),
{
    reveal_strlit("Port must be between 1 and 65535.");
    reveal_strlit("The private key must have an absolute filesystem path.");
    reveal_strlit("Private key file does not exist: ");
    let a = port_error();
    let b = key_path_error();
    assert(a.len() != b.len());
    let m = missing_key_prefix();
    let id = trimmed(p.identity);
    if parse_u16(trimmed(p.port)) matches Some(n) && 1 <= n {
        if trimmed(p.identity).len() > 0 && key == KeyCheck::Missing {
            assert((m + id)[0] == 'P');
            assert((m + id)[1] == 'r');
            assert(a[1] == 'o');
        }
    }
}

} // verus!
