//! Remote listing entries, worker events, remote path rules and the
//! classification of SFTP errors.
use crate::paths::PathSet;
use crate::preview::Chunk;
use crate::text::{
    all_chars, ascii_lowercase, ascii_lowercase_chars, chars_of, contains_chars, contains_seq,
    push_chars, string_of,
};
use vstd::prelude::*;

verus! {

/// One item of a remote directory listing.
#[derive(Clone, Debug)]
pub struct Entry {
    pub path: String,
    pub name: String,
    pub directory: bool,
    pub file: bool,
    pub size: u64,
}

/// What an `Entry` holds, as plain values.
pub struct EntryView {
    pub path: Seq<char>,
    pub name: Seq<char>,
    pub directory: bool,
    pub file: bool,
    pub size: u64,
}

impl View for Entry {
    type V = EntryView;

    open spec fn view(&self) -> EntryView {
        EntryView {
            path: self.path@,
            name: self.name@,
            directory: self.directory,
            file: self.file,
            size: self.size,
        }
    }
}

/// The view of a listing.
pub open spec fn listing_view(entries: Seq<Entry>) -> Seq<EntryView> {
    entries.map_values(|e: Entry| e@)
}

impl Entry {
    /// A copy of this entry with the same contents.
    pub fn duplicate(&self) -> (r: Entry)
        ensures
            r@ == self@,
    {
        Entry {
            path: self.path.clone(),
            name: self.name.clone(),
            directory: self.directory,
            file: self.file,
            size: self.size,
        }
    }
}

/// What the file worker reports to the window.
pub enum Event {
    Connected(String),
    Disconnected(String),
    Trust(String),
    Entries(String, Vec<Entry>),
    ListFailed { path: String, error: String },
    Refreshed(Vec<(String, Result<Vec<Entry>, String>)>),
    Preview { id: u64, result: Result<Chunk, String> },
    Progress { name: String, done: u64, total: u64 },
    Done(String),
    Error(String),
}

/// The event for the outcome of listing `path`.
pub fn list_event(path: String, result: Result<Vec<Entry>, String>) -> (e: Event)
    ensures
        match result {
            Ok(entries) => e == Event::Entries(path, entries),
            Err(error) => e == Event::ListFailed { path, error },
        },
{
    match result {
        Ok(entries) => Event::Entries(path, entries),
        Err(error) => Event::ListFailed { path, error },
    }
}

pub open spec fn lost_connection_text() -> Seq<char> {
    "The file connection was lost. Reconnect files to continue.\n"@
}

/// The message shown when the SFTP connection broke with `error`.
pub fn connection_lost_message(error: &str) -> (r: String)
    ensures
        r@ == lost_connection_text() + error@,
{
    let mut r = "The file connection was lost. Reconnect files to continue.\n".to_owned();
    let e = chars_of(error);
    push_chars(&mut r, &e);
    r
}

/// Whether `needle` occurs in `hay` at `i`.
pub open spec fn occurs_at(hay: Seq<char>, needle: Seq<char>, i: int) -> bool {
    0 <= i <= hay.len() - needle.len() && hay.subrange(i, i + needle.len()) == needle
}

/// The first position of `needle` in `hay`.
pub open spec fn first_index(hay: Seq<char>, needle: Seq<char>) -> Option<int> {
    if exists|i: int| #[trigger] occurs_at(hay, needle, i) {
        Some(choose|i: int| #[trigger] occurs_at(hay, needle, i) && forall|j: int| 0 <= j < i ==> !occurs_at(hay, needle, j))
    } else {
        None
    }
}

/// The last position of `needle` in `hay`.
pub open spec fn last_index(hay: Seq<char>, needle: Seq<char>) -> Option<int> {
    if exists|i: int| #[trigger] occurs_at(hay, needle, i) {
        Some(choose|i: int| #[trigger] occurs_at(hay, needle, i) && forall|j: int| i < j ==> !occurs_at(hay, needle, j))
    } else {
        None
    }
}

/// What `i32::from_str` gives: an optional sign and at least one decimal
/// digit, of a value that fits.
pub open spec fn parse_i32(s: Seq<char>) -> Option<i32> {
    let negative = s.len() > 0 && s[0] == '-';
    let d = if s.len() > 0 && (s[0] == '+' || s[0] == '-') {
        s.drop_first()
    } else {
        s
    };
    let v = crate::profiles::digits_value(d);
    if d.len() == 0 || !all_chars(d, |c: char| '0' <= c <= '9') || (negative && v > 2147483648)
        || (!negative && v > 2147483647) {
        None
    } else if negative {
        Some((0 - v) as i32)
    } else {
        Some(v as i32)
    }
}

pub open spec fn session_marker() -> Seq<char> {
    "[Session("@
}

pub open spec fn sftp_marker() -> Seq<char> {
    "[SFTP("@
}

pub open spec fn code_end_marker() -> Seq<char> {
    ")]"@
}

/// The libssh2 session error code in an error message: the number between
/// the last `[Session(` and the `)]` after it. A message that holds an SFTP
/// status (`[SFTP(`) has none, since such a status does not break the session.
pub open spec fn session_code(e: Seq<char>) -> Option<i32> {
    if contains_seq(e, sftp_marker()) {
        None
    } else {
        match last_index(e, session_marker()) {
            None => None,
            Some(i) => {
                let rest = e.subrange(i + session_marker().len(), e.len() as int);
                match first_index(rest, code_end_marker()) {
                    None => None,
                    Some(j) => parse_i32(rest.subrange(0, j)),
                }
            },
        }
    }
}

/// The session error codes after which the SSH transport is unusable.
pub open spec fn is_transport_code(c: i32) -> bool {
    c == -1 || c == -7 || c == -9 || c == -13 || c == -26 || c == -27 || c == -30 || c == -43
        || c == -45
}

pub open spec fn transport_failure(e: Seq<char>) -> bool {
    session_code(e) matches Some(c) && is_transport_code(c)
}

/// The first position of `needle` in `hay` at or after `from`.
fn find_from(hay: &Vec<char>, needle: &Vec<char>, from: usize) -> (r: Option<usize>)
    requires
        from <= hay.len(),
        needle.len() > 0,
    ensures
        r matches Some(i) ==> from <= i && occurs_at(hay@, needle@, i as int) && forall|j: int|
            from <= j < i ==> !occurs_at(hay@, needle@, j),
        r is None ==> forall|j: int| from <= j ==> !occurs_at(hay@, needle@, j),
{
    if needle.len() > hay.len() {
        return None;
    }
    let last = hay.len() - needle.len();
    if from > last {
        return None;
    }
    let mut i = from;
    while i <= last
        invariant
            last == hay.len() - needle.len(),
            1 <= needle.len() <= hay.len(),
            from <= i <= last + 1,
            forall|j: int| from <= j < i ==> !occurs_at(hay@, needle@, j),
        decreases last + 1 - i,
    {
        let mut k: usize = 0;
        let mut same = true;
        while k < needle.len()
            invariant
                k <= needle.len(),
                i <= last,
                last == hay.len() - needle.len(),
                same ==> forall|m: int| 0 <= m < k ==> hay@[i + m] == needle@[m],
                !same ==> !occurs_at(hay@, needle@, i as int),
            decreases needle.len() - k,
        {
            if hay[i + k] != needle[k] {
                assert(hay@.subrange(i as int, i + needle.len())[k as int] != needle@[k as int]);
                same = false;
            }
            k = k + 1;
        }
        if same {
            assert(hay@.subrange(i as int, i + needle.len()) =~= needle@);
            return Some(i);
        }
        i = i + 1;
    }
    None
}

/// The last position of `needle` in `hay`.
fn find_last(hay: &Vec<char>, needle: &Vec<char>) -> (r: Option<usize>)
    requires
        needle.len() > 0,
    ensures
        r matches Some(i) ==> occurs_at(hay@, needle@, i as int) && forall|j: int|
            i < j ==> !occurs_at(hay@, needle@, j),
        r is None ==> forall|j: int| !occurs_at(hay@, needle@, j),
{
    let mut found: Option<usize> = None;
    let mut from: usize = 0;
    loop
        invariant
            from <= hay.len(),
            needle.len() > 0,
            found matches Some(i) ==> i < from && occurs_at(hay@, needle@, i as int) && forall|j: int|
                i < j < from ==> !occurs_at(hay@, needle@, j),
            found is None ==> forall|j: int| 0 <= j < from ==> !occurs_at(hay@, needle@, j),
        decreases hay.len() - from,
    {
        match find_from(hay, needle, from) {
            Some(i) => {
                found = Some(i);
                if i + 1 > hay.len() {
                    return found;
                }
                from = i + 1;
            },
            None => {
                return found;
            },
        }
    }
}

/// `i32::from_str` of the characters `s`.
fn parse_signed(s: &Vec<char>) -> (r: Option<i32>)
    ensures
        r == parse_i32(s@),
{
    let negative = s.len() > 0 && s[0] == '-';
    let start: usize = if s.len() > 0 && (s[0] == '+' || s[0] == '-') {
        1
    } else {
        0
    };
    let ghost d = if s@.len() > 0 && (s@[0] == '+' || s@[0] == '-') {
        s@.drop_first()
    } else {
        s@
    };
    assert(d == s@.subrange(start as int, s.len() as int));
    if start == s.len() {
        return None;
    }
    let mut value: u64 = 0;
    let mut i = start;
    while i < s.len()
        invariant
            start <= i <= s.len(),
            start < s.len(),
            d == s@.subrange(start as int, s.len() as int),
            d == if s@.len() > 0 && (s@[0] == '+' || s@[0] == '-') {
                s@.drop_first()
            } else {
                s@
            },
            forall|k: int| start <= k < i ==> '0' <= #[trigger] s@[k] <= '9',
            value as nat == if crate::profiles::digits_value(s@.subrange(start as int, i as int))
                > 2147483648 {
                2147483649
            } else {
                crate::profiles::digits_value(s@.subrange(start as int, i as int))
            },
        decreases s.len() - i,
    {
        let c = s[i];
        if !('0' <= c && c <= '9') {
            assert(d[i - start] == c);
            assert(!all_chars(d, |c: char| '0' <= c <= '9'));
            return None;
        }
        assert(s@.subrange(start as int, i + 1).drop_last() == s@.subrange(start as int, i as int));
        let next = value * 10 + (c as u64 - 48);
        value = if next > 2147483648 {
            2147483649
        } else {
            next
        };
        i = i + 1;
    }
    assert(s@.subrange(start as int, s.len() as int) == d);
    assert(all_chars(d, |c: char| '0' <= c <= '9')) by {
        assert forall|k: int| 0 <= k < d.len() implies '0' <= #[trigger] d[k] <= '9' by {
            assert(d[k] == s@[k + start]);
        }
    }
    if negative {
        if value > 2147483648 {
            None
        } else {
            Some((0 - value as i64) as i32)
        }
    } else {
        if value > 2147483647 {
            None
        } else {
            Some(value as i32)
        }
    }
}

/// The libssh2 session error code that `error` reports, if any.
pub fn session_error_code(error: &str) -> (r: Option<i32>)
    ensures
        r == session_code(error@),
{
    let e = chars_of(error);
    let sftp = chars_of("[SFTP(");
    if contains_chars(&e, &sftp) {
        return None;
    }
    let marker = chars_of("[Session(");
    proof {
        reveal_strlit("[Session(");
        reveal_strlit(")]");
    }
    let start = match find_last(&e, &marker) {
        Some(i) => i,
        None => {
            assert(!exists|i: int| #[trigger] occurs_at(e@, marker@, i));
            return None;
        },
    };
    assert(occurs_at(e@, marker@, start as int));
    proof {
        assert(forall|j: int| start < j ==> !occurs_at(e@, marker@, j));
        assert(last_index(e@, session_marker()) == Some(start as int));
    }
    let skip = marker.len();
    assert(start + skip <= e.len());
    let after = start + skip;
    let rest = crate::text::slice_chars(&e, after, e.len());
    let close = chars_of(")]");
    let end = match find_from(&rest, &close, 0) {
        Some(j) => j,
        None => {
            assert(!exists|j: int| #[trigger] occurs_at(rest@, close@, j));
            return None;
        },
    };
    assert(first_index(rest@, code_end_marker()) == Some(end as int));
    let digits = crate::text::slice_chars(&rest, 0, end);
    parse_signed(&digits)
}

/// Whether `error` reports a session error after which the SSH transport is unusable.
pub fn is_transport_failure(error: &str) -> (r: bool)
    ensures
        r == transport_failure(error@),
{
    match session_error_code(error) {
        Some(c) => c == -1 || c == -7 || c == -9 || c == -13 || c == -26 || c == -27 || c == -30
            || c == -43 || c == -45,
        None => false,
    }
}

pub open spec fn category(e: Seq<char>) -> Seq<char> {
    let lower = ascii_lowercase(e);
    if session_code(e) matches Some(c) && (c == -9 || c == -30) {
        "timeout"@
    } else if transport_failure(e) {
        "connection"@
    } else if contains_seq(lower, "permission"@) || contains_seq(lower, "sftp(3)"@) {
        "permission_denied"@
    } else if contains_seq(lower, "timeout"@) || contains_seq(lower, "timed out"@) {
        "timeout"@
    } else if contains_seq(lower, "no such file"@) || contains_seq(lower, "sftp(2)"@) {
        "not_found"@
    } else if contains_seq(lower, "socket"@) || contains_seq(lower, "disconnect"@) || contains_seq(
        lower,
        "connect the file"@,
    ) {
        "connection"@
    } else {
        "other"@
    }
}

/// The category under which a failure is logged. Server-provided text can
/// hold remote paths or user names, so only the category is recorded.
pub fn error_category(error: &str) -> (r: &'static str)
    ensures
        r@ == category(error@),
{
    let code = session_error_code(error);
    if let Some(c) = code {
        if c == -9 || c == -30 {
            return "timeout";
        }
    }
    if is_transport_failure(error) {
        return "connection";
    }
    let e = chars_of(error);
    let lower = ascii_lowercase_chars(&e);
    let has = |word: &str| -> (r: bool)
        ensures
            r == contains_seq(lower@, word@),
        {
            let w = chars_of(word);
            contains_chars(&lower, &w)
        };
    if has("permission") || has("sftp(3)") {
        "permission_denied"
    } else if has("timeout") || has("timed out") {
        "timeout"
    } else if has("no such file") || has("sftp(2)") {
        "not_found"
    } else if has("socket") || has("disconnect") || has("connect the file") {
        "connection"
    } else {
        "other"
    }
}

/// A path as the remote side writes it: with forward slashes only.
pub open spec fn posix_path(p: Seq<char>) -> Seq<char> {
    p.map_values(|c: char| if c == '\\' { '/' } else { c })
}

/// `path` with every backslash turned into a forward slash.
pub fn remote_string(path: &str) -> (r: String)
    ensures
        r@ == posix_path(path@),
{
    let v = chars_of(path);
    let mut out: Vec<char> = Vec::new();
    let mut i: usize = 0;
    while i < v.len()
        invariant
            i <= v.len(),
            out@ == posix_path(v@.take(i as int)),
        decreases v.len() - i,
    {
        let c = v[i];
        out.push(if c == '\\' { '/' } else { c });
        assert(posix_path(v@.take(i + 1)) =~= posix_path(v@.take(i as int)).push(
            if v@[i as int] == '\\' { '/' } else { v@[i as int] },
        ));
        i = i + 1;
    }
    assert(v@.take(v.len() as int) == v@);
    string_of(&out)
}

pub open spec fn unsupported_name_text() -> Seq<char> {
    "Unsupported file name."@
}

/// A name that can stand for one item inside a folder: not empty, not `.`
/// or `..`, and without slashes, backslashes or NUL characters.
pub open spec fn valid_item_name(name: Seq<char>) -> bool {
    &&& name.len() > 0
    &&& name != seq!['.']
    &&& name != seq!['.', '.']
    &&& forall|i: int| 0 <= i < name.len() ==> #[trigger] name[i] != '/' && name[i] != '\\' && name[i] != '\0'
}

/// The path of item `name` inside remote folder `parent`.
pub open spec fn joined(parent: Seq<char>, name: Seq<char>) -> Seq<char> {
    crate::text::drop_trailing(parent, |c: char| c == '/') + seq!['/'] + name
}

/// The remote path of `name` inside `parent`, which cannot leave `parent`.
pub fn join_remote(parent: &str, name: &str) -> (r: Result<String, String>)
    ensures
        valid_item_name(name@) ==> (r matches Ok(p) && p@ == joined(parent@, name@)),
        !valid_item_name(name@) ==> (r matches Err(e) && e@ == unsupported_name_text()),
{
    let n = chars_of(name);
    let mut ok = n.len() > 0 && !(n.len() == 1 && n[0] == '.') && !(n.len() == 2 && n[0] == '.'
        && n[1] == '.');
    proof {
        if n@ == seq!['.'] {
            assert(n@[0] == '.');
        }
        if n@ == seq!['.', '.'] {
            assert(n@[0] == '.' && n@[1] == '.');
        }
        if n@.len() == 1 && n@[0] == '.' {
            assert(n@ =~= seq!['.']);
        }
        if n@.len() == 2 && n@[0] == '.' && n@[1] == '.' {
            assert(n@ =~= seq!['.', '.']);
        }
    }
    let mut i: usize = 0;
    while i < n.len()
        invariant
            i <= n.len(),
            ok ==> forall|k: int| 0 <= k < i ==> #[trigger] n@[k] != '/' && n@[k] != '\\' && n@[k] != '\0',
            ok ==> n@.len() > 0 && n@ != seq!['.'] && n@ != seq!['.', '.'],
            !ok ==> !valid_item_name(n@),
        decreases n.len() - i,
    {
        let c = n[i];
        if c == '/' || c == '\\' || c == '\0' {
            ok = false;
        }
        i = i + 1;
    }
    if !ok {
        return Err("Unsupported file name.".to_owned());
    }
    let p = chars_of(parent);
    let mut end = p.len();
    while end > 0 && p[end - 1] == '/'
        invariant
            end <= p.len(),
            forall|k: int| end <= k < p.len() ==> #[trigger] p@[k] == '/',
        decreases end,
    {
        end = end - 1;
    }
    proof {
        let slash = |c: char| c == '/';
        crate::text::lemma_drop_trailing_skip(p@, slash, end as int);
        let core = p@.subrange(0, end as int);
        if core.len() > 0 {
            assert(core.last() == p@[end - 1]);
        }
        assert(crate::text::drop_trailing(core, slash) == core);
    }
    let mut out = crate::text::slice_chars(&p, 0, end);
    out.push('/');
    let mut j: usize = 0;
    let ghost base = out@;
    while j < n.len()
        invariant
            j <= n.len(),
            out@ == base + n@.take(j as int),
        decreases n.len() - j,
    {
        out.push(n[j]);
        assert(base + n@.take(j + 1) =~= (base + n@.take(j as int)).push(n@[j as int]));
        j = j + 1;
    }
    assert(n@.take(n.len() as int) == n@);
    Ok(string_of(&out))
}

pub open spec fn result_view(r: Result<Vec<Entry>, String>) -> Result<Seq<EntryView>, Seq<char>> {
    match r {
        Ok(v) => Ok(listing_view(v@)),
        Err(e) => Err(e@),
    }
}

pub open spec fn listings_view(v: Seq<(String, Result<Vec<Entry>, String>)>) -> Seq<
    (Seq<char>, Result<Seq<EntryView>, Seq<char>>),
> {
    v.map_values(|x: (String, Result<Vec<Entry>, String>)| (x.0@, result_view(x.1)))
}

/// The open folders among `entries`, listed at `depth`, as the next level to read.
pub open spec fn followed(expanded: Set<Seq<char>>, entries: Seq<EntryView>, depth: int) -> Seq<
    (Seq<char>, int),
>
    decreases entries.len(),
{
    if entries.len() == 0 {
        Seq::empty()
    } else {
        let before = followed(expanded, entries.drop_last(), depth);
        let e = entries.last();
        if e.directory && expanded.contains(e.path) {
            before.push((e.path, depth + 1))
        } else {
            before
        }
    }
}

/// The folders to read after a listing at `depth` gave `result`.
pub open spec fn children(
    expanded: Set<Seq<char>>,
    result: Result<Seq<EntryView>, Seq<char>>,
    depth: int,
) -> Seq<(Seq<char>, int)> {
    match result {
        Ok(entries) => if depth < crate::tree::MAX_DEPTH {
            followed(expanded, entries, depth)
        } else {
            Seq::empty()
        },
        Err(_) => Seq::empty(),
    }
}

/// The folders, with their depths, requested by a refresh from `root` once
/// the first `n` listings of `done` have arrived: the root, then the open
/// folders of each fresh listing, in order.
pub open spec fn refresh_queue(
    root: Seq<char>,
    expanded: Set<Seq<char>>,
    done: Seq<(Seq<char>, Result<Seq<EntryView>, Seq<char>>)>,
    n: nat,
) -> Seq<(Seq<char>, int)>
    decreases n,
{
    if n == 0 {
        seq![(root, 0int)]
    } else {
        let q = refresh_queue(root, expanded, done, (n - 1) as nat);
        if n - 1 < q.len() {
            q + children(expanded, done[n - 1].1, q[n - 1].1)
        } else {
            q
        }
    }
}

/// `done` reads exactly the folders of the refresh queue, in order.
pub open spec fn refresh_follows(
    root: Seq<char>,
    expanded: Set<Seq<char>>,
    done: Seq<(Seq<char>, Result<Seq<EntryView>, Seq<char>>)>,
) -> bool {
    let q = refresh_queue(root, expanded, done, done.len());
    &&& q.len() == done.len()
    &&& forall|k: int| 0 <= k < done.len() ==> #[trigger] done[k].0 == q[k].0
}

proof fn lemma_queue_prefix(
    root: Seq<char>,
    expanded: Set<Seq<char>>,
    a: Seq<(Seq<char>, Result<Seq<EntryView>, Seq<char>>)>,
    b: Seq<(Seq<char>, Result<Seq<EntryView>, Seq<char>>)>,
    n: nat,
)
    requires
        n <= a.len(),
        n <= b.len(),
        forall|k: int| 0 <= k < n ==> a[k] == b[k],
    ensures
        refresh_queue(root, expanded, a, n) == refresh_queue(root, expanded, b, n),
    decreases n,
{
    if n > 0 {
        lemma_queue_prefix(root, expanded, a, b, (n - 1) as nat);
        assert(a[n - 1] == b[n - 1]);
    }
}

proof fn lemma_queue_grows(
    root: Seq<char>,
    expanded: Set<Seq<char>>,
    done: Seq<(Seq<char>, Result<Seq<EntryView>, Seq<char>>)>,
    n: nat,
)
    ensures
        refresh_queue(root, expanded, done, n).len() >= 1,
        forall|k: int|
            0 <= k < refresh_queue(root, expanded, done, n).len() ==> refresh_queue(
                root,
                expanded,
                done,
                n + 1,
            )[k] == #[trigger] refresh_queue(root, expanded, done, n)[k],
    decreases n,
{
    if n > 0 {
        lemma_queue_grows(root, expanded, done, (n - 1) as nat);
    }
}

/// `read` may have given `item.1` for the path `item.0`.
pub open spec fn read_gave<F: Fn(&str) -> Result<Vec<Entry>, String>>(
    read: F,
    item: (String, Result<Vec<Entry>, String>),
) -> bool {
    exists|p: &str| p@ == item.0@ && #[trigger] read.ensures((p,), item.1)
}

/// Reads `root` and then, breadth first, every open folder that a fresh
/// listing shows, down to the depth limit. Each folder is stored with what
/// `read` gave for it. A failed listing reads nothing
/// below it, and folders that are gone or collapsed are not requested.
pub fn refresh_listings<F: Fn(&str) -> Result<Vec<Entry>, String>>(
    root: String,
    expanded: &PathSet,
    read: F,
) -> (r: Vec<(String, Result<Vec<Entry>, String>)>)
    requires
        forall|p: &str| #[trigger] read.requires((p,)),
    ensures
        refresh_follows(root@, expanded@, listings_view(r@)),
        forall|k: int| 0 <= k < r@.len() ==> #[trigger] read_gave(read, r@[k]),
{
    let ghost root_view = root@;
    let mut listings: Vec<(String, Result<Vec<Entry>, String>)> = Vec::new();
    let mut level: Vec<String> = Vec::new();
    level.push(root);
    let mut depth: usize = 0;
    assert(refresh_queue(root_view, expanded@, listings_view(listings@), 0) =~= seq![(root_view, 0int)]);
    while depth <= crate::tree::MAX_DEPTH && level.len() > 0
        invariant
            forall|p: &str| #[trigger] read.requires((p,)),
            forall|k: int| 0 <= k < listings.len() ==> #[trigger] read_gave(read, listings@[k]),
            depth <= crate::tree::MAX_DEPTH + 1,
            depth > crate::tree::MAX_DEPTH ==> level.len() == 0,
            refresh_queue(root_view, expanded@, listings_view(listings@), listings.len() as nat).len()
                == listings.len() + level.len(),
            forall|k: int|
                0 <= k < listings.len() ==> #[trigger] listings_view(listings@)[k].0
                    == refresh_queue(
                    root_view,
                    expanded@,
                    listings_view(listings@),
                    listings.len() as nat,
                )[k].0,
            forall|k: int|
                0 <= k < level.len() ==> refresh_queue(
                    root_view,
                    expanded@,
                    listings_view(listings@),
                    listings.len() as nat,
                )[listings.len() + k] == (#[trigger] level@[k]@, depth as int),
        decreases crate::tree::MAX_DEPTH + 1 - depth,
    {
        let mut next: Vec<String> = Vec::new();
        let base = listings.len();
        let mut i: usize = 0;
        while i < level.len()
            invariant
                forall|p: &str| #[trigger] read.requires((p,)),
                forall|k: int| 0 <= k < listings.len() ==> #[trigger] read_gave(read, listings@[k]),
                depth <= crate::tree::MAX_DEPTH,
                base + i == listings.len(),
                i <= level.len(),
                refresh_queue(root_view, expanded@, listings_view(listings@), listings.len() as nat).len()
                    == base + level.len() + next.len(),
                forall|k: int|
                    0 <= k < listings.len() ==> #[trigger] listings_view(listings@)[k].0
                        == refresh_queue(
                        root_view,
                        expanded@,
                        listings_view(listings@),
                        listings.len() as nat,
                    )[k].0,
                forall|k: int|
                    i <= k < level.len() ==> refresh_queue(
                        root_view,
                        expanded@,
                        listings_view(listings@),
                        listings.len() as nat,
                    )[base + k] == (#[trigger] level@[k]@, depth as int),
                forall|k: int|
                    0 <= k < next.len() ==> refresh_queue(
                        root_view,
                        expanded@,
                        listings_view(listings@),
                        listings.len() as nat,
                    )[base + level.len() + k] == (#[trigger] next@[k]@, depth + 1),
                depth == crate::tree::MAX_DEPTH ==> next.len() == 0,
            decreases level.len() - i,
        {
            let path = &level[i];
            let name = path.as_str();
            let result = read(name);
            let ghost answer = result;
            let ghost before = listings_view(listings@);
            let ghost n = listings.len() as nat;
            let ghost q = refresh_queue(root_view, expanded@, before, n);
            let ghost next_before = next@;
            if depth < crate::tree::MAX_DEPTH {
                if let Ok(entries) = &result {
                    let mut j: usize = 0;
                    while j < entries.len()
                        invariant
                            forall|p: &str| #[trigger] read.requires((p,)),
                            j <= entries.len(),
                            next@.len() >= next_before.len(),
                            forall|k: int| 0 <= k < next_before.len() ==> next@[k] == next_before[k],
                            next@.subrange(next_before.len() as int, next@.len() as int).map_values(
                                |p: String| (p@, depth + 1),
                            ) == followed(expanded@, listing_view(entries@.take(j as int)), depth as int),
                        decreases entries.len() - j,
                    {
                        let entry = &entries[j];
                        let ghost prior = next@;
                        if entry.directory && expanded.contains(entry.path.as_str()) {
                            next.push(entry.path.clone());
                        }
                        assert(listing_view(entries@.take(j + 1)).drop_last() =~= listing_view(
                            entries@.take(j as int),
                        ));
                        assert(next@.subrange(next_before.len() as int, next@.len() as int).map_values(
                            |p: String| (p@, depth + 1),
                        ) =~= followed(expanded@, listing_view(entries@.take(j + 1)), depth as int));
                        j = j + 1;
                    }
                    assert(entries@.take(entries.len() as int) == entries@);
                }
            }
            let ghost added = next@.subrange(next_before.len() as int, next@.len() as int);
            listings.push((path.clone(), result));
            proof {
                assert(read.ensures((name,), answer));
                assert(listings@[n as int].1 == answer);
                assert(read_gave(read, listings@[n as int]));
                let after = listings_view(listings@);
                assert(after == before.push(after[n as int]));
                lemma_queue_prefix(root_view, expanded@, before, after, n);
                lemma_queue_grows(root_view, expanded@, after, n);
                assert(q[n as int] == (level@[i as int]@, depth as int));
                assert(added.map_values(|p: String| (p@, depth + 1)) == children(
                    expanded@,
                    after[n as int].1,
                    depth as int,
                ));
                let q2 = refresh_queue(root_view, expanded@, after, n + 1);
                assert(q2 == q + children(expanded@, after[n as int].1, depth as int));
                assert forall|k: int| 0 <= k < next@.len() implies q2[base + level.len() + k]
                    == (#[trigger] next@[k]@, depth + 1) by {
                    assert(q.len() == base + level.len() + next_before.len());
                    if k >= next_before.len() {
                        assert(added[k - next_before.len()] == next@[k]);
                        assert(added.map_values(|p: String| (p@, depth + 1))[k - next_before.len()]
                            == (next@[k]@, depth + 1));
                        assert(q2[q.len() + (k - next_before.len())] == children(
                            expanded@,
                            after[n as int].1,
                            depth as int,
                        )[k - next_before.len()]);
                    } else {
                        assert(next@[k] == next_before[k]);
                        assert(q[base + level.len() + k] == (next_before[k]@, depth + 1));
                        assert(q2[base + level.len() + k] == q[base + level.len() + k]);
                    }
                }
            }
            i = i + 1;
        }
        level = next;
        depth = depth + 1;
    }
    listings
}

/// A joined path stays directly inside its folder: it is the folder
/// without trailing slashes, one slash, and a name that is not `.` or `..`
/// and holds no separator.
pub proof fn joined_paths_stay_inside(parent: Seq<char>, name: Seq<char>)
    requires
        valid_item_name(name),
    ensures
        ({
            let base = crate::text::drop_trailing(parent, |c: char| c == '/');
            let p = joined(parent, name);
            &&& p.len() == base.len() + 1 + name.len()
            &&& p.subrange(0, base.len() as int) == base
            &&& p[base.len() as int] == '/'
            &&& p.subrange(base.len() as int + 1, p.len() as int) == name
            &&& forall|i: int| base.len() < i < p.len() ==> #[trigger] p[i] != '/' && p[i] != '\\'
        }),
{
    let base = crate::text::drop_trailing(parent, |c: char| c == '/');
    let p = joined(parent, name);
    assert(p.subrange(0, base.len() as int) == base);
    assert(p.subrange(base.len() as int + 1, p.len() as int) == name);
    assert forall|i: int| base.len() < i < p.len() implies #[trigger] p[i] != '/' && p[i] != '\\' by {
        assert(p[i] == name[i - base.len() - 1]);
    }
}

/// An SFTP status in a message never counts as a broken transport.
pub proof fn sftp_statuses_are_not_transport_failures(e: Seq<char>)
    requires
        contains_seq(e, sftp_marker()),
    ensures
        session_code(e) is None,
        !transport_failure(e),
{
}

proof fn lemma_followed(expanded: Set<Seq<char>>, entries: Seq<EntryView>, depth: int)
    ensures
        forall|k: int|
            0 <= k < followed(expanded, entries, depth).len() ==> expanded.contains(
                #[trigger] followed(expanded, entries, depth)[k].0,
            ) && followed(expanded, entries, depth)[k].1 == depth + 1,
    decreases entries.len(),
{
    if entries.len() > 0 {
        let before = followed(expanded, entries.drop_last(), depth);
        lemma_followed(expanded, entries.drop_last(), depth);
        let f = followed(expanded, entries, depth);
        assert forall|k: int| 0 <= k < f.len() implies expanded.contains(#[trigger] f[k].0) && f[k].1
            == depth + 1 by {
            if k < before.len() {
                assert(f[k] == before[k]);
                assert(expanded.contains(before[k].0));
            }
        }
    }
}

proof fn lemma_queue_open(
    root: Seq<char>,
    expanded: Set<Seq<char>>,
    done: Seq<(Seq<char>, Result<Seq<EntryView>, Seq<char>>)>,
    n: nat,
)
    ensures
        refresh_queue(root, expanded, done, n)[0] == (root, 0int),
        forall|k: int|
            1 <= k < refresh_queue(root, expanded, done, n).len() ==> expanded.contains(
                #[trigger] refresh_queue(root, expanded, done, n)[k].0,
            ) && 1 <= refresh_queue(root, expanded, done, n)[k].1 <= crate::tree::MAX_DEPTH,
    decreases n,
{
    if n > 0 {
        let m = (n - 1) as nat;
        lemma_queue_open(root, expanded, done, m);
        lemma_queue_grows(root, expanded, done, m);
        let q = refresh_queue(root, expanded, done, m);
        let kids = children(expanded, done[m as int].1, q[m as int].1);
        match done[m as int].1 {
            Ok(entries) => {
                lemma_followed(expanded, entries, q[m as int].1);
            },
            Err(_) => {},
        }
        let q2 = refresh_queue(root, expanded, done, n);
        assert forall|k: int| 1 <= k < q2.len() implies expanded.contains(#[trigger] q2[k].0)
            && 1 <= q2[k].1 <= crate::tree::MAX_DEPTH by {
            if k < q.len() {
                assert(q2[k] == q[k]);
                assert(expanded.contains(q[k].0));
            } else {
                assert(m < q.len());
                assert(q2[k] == kids[k - q.len()]);
                if let Ok(entries) = done[m as int].1 {
                    if q[m as int].1 < crate::tree::MAX_DEPTH {
                        assert(kids == followed(expanded, entries, q[m as int].1));
                        assert(expanded.contains(followed(expanded, entries, q[m as int].1)[k - q.len()].0));
                    }
                }
                if m >= 1 {
                    assert(expanded.contains(q[m as int].0));
                    assert(1 <= q[m as int].1 <= crate::tree::MAX_DEPTH);
                } else {
                    assert(q[0] == (root, 0int));
                }
            }
        }
    }
}

/// A refresh reads the root first and otherwise only folders that are open
/// in the tree, each below the root and within the depth limit.
pub proof fn refresh_reads_only_open_folders(
    root: Seq<char>,
    expanded: Set<Seq<char>>,
    done: Seq<(Seq<char>, Result<Seq<EntryView>, Seq<char>>)>,
)
    requires
        refresh_follows(root, expanded, done),
    ensures
        done.len() >= 1,
        done[0].0 == root,
        forall|k: int| 1 <= k < done.len() ==> expanded.contains(#[trigger] done[k].0),
{
    let q = refresh_queue(root, expanded, done, done.len());
    lemma_queue_open(root, expanded, done, done.len());
    lemma_queue_grows(root, expanded, done, done.len());
    assert(done[0].0 == q[0].0);
    assert forall|k: int| 1 <= k < done.len() implies expanded.contains(#[trigger] done[k].0) by {
        assert(done[k].0 == q[k].0);
    }
}


proof fn lemma_followed_has(expanded: Set<Seq<char>>, entries: Seq<EntryView>, depth: int, i: int)
    requires
        0 <= i < entries.len(),
        entries[i].directory,
        expanded.contains(entries[i].path),
    ensures
        exists|t: int|
            0 <= t < followed(expanded, entries, depth).len() && #[trigger] followed(
                expanded,
                entries,
                depth,
            )[t] == (entries[i].path, depth + 1),
    decreases entries.len(),
{
    let before = followed(expanded, entries.drop_last(), depth);
    let f = followed(expanded, entries, depth);
    if i == entries.len() - 1 {
        assert(f[before.len() as int] == (entries[i].path, depth + 1));
    } else {
        assert(entries.drop_last()[i] == entries[i]);
        lemma_followed_has(expanded, entries.drop_last(), depth, i);
        let t = choose|t: int| 0 <= t < before.len() && #[trigger] before[t] == (entries[i].path, depth + 1);
        assert(f[t] == before[t]);
    }
}

proof fn lemma_queue_keeps(
    root: Seq<char>,
    expanded: Set<Seq<char>>,
    done: Seq<(Seq<char>, Result<Seq<EntryView>, Seq<char>>)>,
    n: nat,
    m: nat,
)
    requires
        n <= m,
    ensures
        refresh_queue(root, expanded, done, n).len() <= refresh_queue(root, expanded, done, m).len(),
        forall|k: int|
            0 <= k < refresh_queue(root, expanded, done, n).len() ==> refresh_queue(
                root,
                expanded,
                done,
                m,
            )[k] == #[trigger] refresh_queue(root, expanded, done, n)[k],
    decreases m - n,
{
    if n < m {
        let p = (m - 1) as nat;
        lemma_queue_keeps(root, expanded, done, n, p);
        lemma_queue_grows(root, expanded, done, p);
    }
}

proof fn lemma_queue_stalls(
    root: Seq<char>,
    expanded: Set<Seq<char>>,
    done: Seq<(Seq<char>, Result<Seq<EntryView>, Seq<char>>)>,
    m: nat,
    n: nat,
)
    requires
        m <= n,
        refresh_queue(root, expanded, done, m).len() <= m,
    ensures
        refresh_queue(root, expanded, done, n) == refresh_queue(root, expanded, done, m),
    decreases n - m,
{
    if m < n {
        lemma_queue_stalls(root, expanded, done, m + 1, n);
    }
}

/// How many levels below the root the `k`-th folder read by a refresh lies.
pub open spec fn refresh_depth(
    root: Seq<char>,
    expanded: Set<Seq<char>>,
    done: Seq<(Seq<char>, Result<Seq<EntryView>, Seq<char>>)>,
    k: int,
) -> int {
    refresh_queue(root, expanded, done, done.len())[k].1
}

/// Whether entry `i` of a fresh listing `result` is an open folder.
pub open spec fn lists_open_folder(
    expanded: Set<Seq<char>>,
    result: Result<Seq<EntryView>, Seq<char>>,
    i: int,
) -> bool {
    result matches Ok(entries) && 0 <= i < entries.len() && entries[i].directory
        && expanded.contains(entries[i].path)
}

/// A refresh misses no open folder: the root is read first, at depth 0, and
/// whenever a folder read at a depth above the limit gave a fresh listing,
/// each open folder in that listing is read later by the same refresh, one
/// level deeper.
pub proof fn refresh_reads_every_open_folder(
    root: Seq<char>,
    expanded: Set<Seq<char>>,
    done: Seq<(Seq<char>, Result<Seq<EntryView>, Seq<char>>)>,
)
    requires
        refresh_follows(root, expanded, done),
    ensures
        done.len() >= 1,
        done[0].0 == root,
        refresh_depth(root, expanded, done, 0) == 0,
        forall|k: int, i: int|
            0 <= k < done.len() && refresh_depth(root, expanded, done, k) < crate::tree::MAX_DEPTH
                && #[trigger] lists_open_folder(expanded, done[k].1, i) ==> exists|j: int|
                k < j < done.len() && #[trigger] done[j].0 == done[k].1->Ok_0[i].path
                    && refresh_depth(root, expanded, done, j) == refresh_depth(
                    root,
                    expanded,
                    done,
                    k,
                ) + 1,
{
    let nn = done.len();
    let q = refresh_queue(root, expanded, done, nn);
    lemma_queue_open(root, expanded, done, nn);
    refresh_reads_only_open_folders(root, expanded, done);
    assert forall|k: int, i: int|
        0 <= k < done.len() && refresh_depth(root, expanded, done, k) < crate::tree::MAX_DEPTH
            && #[trigger] lists_open_folder(expanded, done[k].1, i) implies exists|j: int|
        k < j < done.len() && #[trigger] done[j].0 == done[k].1->Ok_0[i].path && refresh_depth(
            root,
            expanded,
            done,
            j,
        ) == refresh_depth(root, expanded, done, k) + 1 by {
        let kn = k as nat;
        let qk = refresh_queue(root, expanded, done, kn);
        if qk.len() <= kn {
            lemma_queue_stalls(root, expanded, done, kn, nn);
            assert(false);
        }
        lemma_queue_keeps(root, expanded, done, kn, nn);
        lemma_queue_keeps(root, expanded, done, kn + 1, nn);
        assert(q[k] == qk[k]);
        let entries = done[k].1->Ok_0;
        let d = qk[k].1;
        lemma_followed_has(expanded, entries, d, i);
        let f = followed(expanded, entries, d);
        let t = choose|t: int| 0 <= t < f.len() && #[trigger] f[t] == (entries[i].path, d + 1);
        let q1 = refresh_queue(root, expanded, done, kn + 1);
        assert(children(expanded, done[k].1, d) == f);
        assert(q1 == qk + f);
        let j = qk.len() + t;
        assert(q1[j] == f[t]);
        assert(q[j] == q1[j]);
        assert(done[j].0 == q[j].0);
    }
}

proof fn lemma_followed_source(expanded: Set<Seq<char>>, entries: Seq<EntryView>, depth: int)
    ensures
        forall|t: int|
            0 <= t < followed(expanded, entries, depth).len() ==> exists|i: int|
                0 <= i < entries.len() && entries[i].directory && expanded.contains(
                    entries[i].path,
                ) && #[trigger] followed(expanded, entries, depth)[t] == (
                    entries[i].path,
                    depth + 1,
                ),
    decreases entries.len(),
{
    if entries.len() > 0 {
        let rest = entries.drop_last();
        lemma_followed_source(expanded, rest, depth);
        let before = followed(expanded, rest, depth);
        let f = followed(expanded, entries, depth);
        assert forall|t: int| 0 <= t < f.len() implies exists|i: int|
            0 <= i < entries.len() && entries[i].directory && expanded.contains(entries[i].path)
                && #[trigger] f[t] == (entries[i].path, depth + 1) by {
            if t < before.len() {
                assert(f[t] == before[t]);
                let i = choose|i: int|
                    0 <= i < rest.len() && rest[i].directory && expanded.contains(rest[i].path)
                        && #[trigger] before[t] == (rest[i].path, depth + 1);
                assert(rest[i] == entries[i]);
            } else {
                assert(f[t] == (entries[entries.len() - 1].path, depth + 1));
            }
        }
    }
}

proof fn lemma_queue_sources(
    root: Seq<char>,
    expanded: Set<Seq<char>>,
    done: Seq<(Seq<char>, Result<Seq<EntryView>, Seq<char>>)>,
    n: nat,
)
    ensures
        forall|j: int|
            1 <= j < refresh_queue(root, expanded, done, n).len() ==> exists|k: int, i: int|
                0 <= k < j && k < n && refresh_queue(root, expanded, done, n)[k].1
                    < crate::tree::MAX_DEPTH && lists_open_folder(expanded, done[k].1, i)
                    && done[k].1->Ok_0[i].path == (#[trigger] refresh_queue(
                    root,
                    expanded,
                    done,
                    n,
                )[j]).0 && refresh_queue(root, expanded, done, n)[j].1 == refresh_queue(
                    root,
                    expanded,
                    done,
                    n,
                )[k].1 + 1,
    decreases n,
{
    if n > 0 {
        let m = (n - 1) as nat;
        lemma_queue_sources(root, expanded, done, m);
        lemma_queue_grows(root, expanded, done, m);
        let q = refresh_queue(root, expanded, done, m);
        let q2 = refresh_queue(root, expanded, done, n);
        assert forall|j: int| 1 <= j < q2.len() implies exists|k: int, i: int|
            0 <= k < j && k < n && q2[k].1 < crate::tree::MAX_DEPTH && lists_open_folder(
                expanded,
                done[k].1,
                i,
            ) && done[k].1->Ok_0[i].path == (#[trigger] q2[j]).0 && q2[j].1 == q2[k].1 + 1 by {
            if j < q.len() {
                let (k, i) = choose|k: int, i: int|
                    0 <= k < j && k < m && q[k].1 < crate::tree::MAX_DEPTH && lists_open_folder(
                        expanded,
                        done[k].1,
                        i,
                    ) && done[k].1->Ok_0[i].path == (#[trigger] q[j]).0 && q[j].1 == q[k].1 + 1;
                assert(q2[k] == q[k]);
                assert(q2[j] == q[j]);
            } else {
                assert(m < q.len());
                let kids = children(expanded, done[m as int].1, q[m as int].1);
                assert(q2 == q + kids);
                assert(q2[j] == kids[j - q.len()]);
                let entries = done[m as int].1->Ok_0;
                let d = q[m as int].1;
                assert(done[m as int].1 is Ok && d < crate::tree::MAX_DEPTH);
                lemma_followed_source(expanded, entries, d);
                let t = j - q.len();
                let i = choose|i: int|
                    0 <= i < entries.len() && entries[i].directory && expanded.contains(
                        entries[i].path,
                    ) && #[trigger] followed(expanded, entries, d)[t] == (entries[i].path, d + 1);
                assert(q2[m as int] == q[m as int]);
                assert(lists_open_folder(expanded, done[m as int].1, i));
            }
        }
    }
}

/// A refresh reads nothing it was not led to: after the root, every folder
/// it reads was listed, as an open folder, by a fresh listing it read
/// earlier at a depth above the limit, and lies one level below it.
pub proof fn refresh_reads_only_listed_open_folders(
    root: Seq<char>,
    expanded: Set<Seq<char>>,
    done: Seq<(Seq<char>, Result<Seq<EntryView>, Seq<char>>)>,
)
    requires
        refresh_follows(root, expanded, done),
    ensures
        forall|j: int|
            1 <= j < done.len() ==> exists|k: int, i: int|
                0 <= k < j && refresh_depth(root, expanded, done, k) < crate::tree::MAX_DEPTH
                    && lists_open_folder(expanded, done[k].1, i) && done[k].1->Ok_0[i].path == (
                #[trigger] done[j]).0 && refresh_depth(root, expanded, done, j) == refresh_depth(
                    root,
                    expanded,
                    done,
                    k,
                ) + 1,
{
    let q = refresh_queue(root, expanded, done, done.len());
    lemma_queue_sources(root, expanded, done, done.len());
    assert forall|j: int| 1 <= j < done.len() implies exists|k: int, i: int|
        0 <= k < j && refresh_depth(root, expanded, done, k) < crate::tree::MAX_DEPTH
            && lists_open_folder(expanded, done[k].1, i) && done[k].1->Ok_0[i].path == (
        #[trigger] done[j]).0 && refresh_depth(root, expanded, done, j) == refresh_depth(
            root,
            expanded,
            done,
            k,
        ) + 1 by {
        assert(done[j].0 == q[j].0);
        let (k, i) = choose|k: int, i: int|
            0 <= k < j && k < done.len() && q[k].1 < crate::tree::MAX_DEPTH && lists_open_folder(
                expanded,
                done[k].1,
                i,
            ) && done[k].1->Ok_0[i].path == (#[trigger] q[j]).0 && q[j].1 == q[k].1 + 1;
    }
}

/// A logged failure carries one of five fixed categories, never text of
/// the server's.
pub proof fn failures_are_logged_by_category_only(e: Seq<char>)
    ensures
        category(e) == "timeout"@ || category(e) == "connection"@ || category(e)
            == "permission_denied"@ || category(e) == "not_found"@ || category(e) == "other"@,
{
}

} // verus!
