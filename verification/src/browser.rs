//! The state of the remote file browser and its decisions: what each worker
//! event does to it, which requests it sends, and how previews are paged.
//! Sending a request and rendering the state are left to the caller.
use crate::files::{listing_view, Entry, EntryView, Event};
use crate::paths::{same_text, PathMap, PathSet};
use crate::preview::{chunk_lines, strings_view, Chunk, FilePreview, CHUNK_BYTES};
use crate::profiles::{args_view, ssh_args_spec, KeyCheck, Profile, ProfileView};
use crate::text::{
    chars_of, drop_trailing, lemma_drop_trailing_skip, push_chars, slice_chars, string_of,
    lowercased, trim, trimmed, lowercase,
};
use crate::tree::{
    matches_step, next_revision, search_consistent, set_view, DirectoryTree, RowView, TreeCache,
    TreeState,
};
use std::sync::Arc;
use vstd::prelude::*;
use vstd::slice::slice_subrange;

verus! {

/// What the browser asks of the file worker. The password of a connection
/// and the local side of a transfer stay with the caller.
pub enum Request {
    Connect { profile: Profile, trusted: Option<String> },
    List(String),
    Refresh { root: String, expanded: PathSet },
    Preview { id: u64, remote: String, offset: u64 },
    ClosePreview,
}

/// What a chunk holds: its offset, the file's size and its bytes.
pub open spec fn chunk_view(c: Chunk) -> (u64, u64, Seq<u8>) {
    (c.offset, c.size, c.bytes@)
}

/// What a preview holds, as plain values.
pub struct PreviewView {
    pub id: u64,
    pub path: Seq<char>,
    pub name: Seq<char>,
    pub host: Seq<char>,
    pub offset: u64,
    pub chunk: Option<(u64, u64, Seq<u8>)>,
    pub lines: Seq<Seq<char>>,
    pub binary: bool,
    pub error: Option<Seq<char>>,
}

pub open spec fn preview_view(p: FilePreview) -> PreviewView {
    PreviewView {
        id: p.id,
        path: p.path@,
        name: p.name@,
        host: p.host@,
        offset: p.offset,
        chunk: match p.chunk {
            Some(c) => Some(chunk_view(c)),
            None => None,
        },
        lines: strings_view(p.lines@),
        binary: p.binary,
        error: match p.error {
            Some(e) => Some(e@),
            None => None,
        },
    }
}

/// The remote file browser: its connection, its tree, the open folders, the
/// selection and the preview.
pub struct FileBrowser {
    pub files_connected: bool,
    pub files_busy: bool,
    pub file_worker_stopped: bool,
    /// The folders whose listing was asked for and has not come back.
    pub file_list_pending: PathSet,
    pub files_label: String,
    pub pending_profile: Option<Profile>,
    pub fingerprint: Option<String>,
    pub root: String,
    /// Where uploads go.
    pub destination: String,
    pub tree: DirectoryTree,
    pub tree_cache: TreeCache,
    pub file_search: String,
    pub file_search_query: String,
    /// Folders opened or closed by hand during a search.
    pub file_search_expanded: PathMap<bool>,
    pub expanded: PathSet,
    pub selected_file: Option<Entry>,
    pub preview: Option<FilePreview>,
    pub preview_active: bool,
    /// The preview read that was sent and has not come back.
    pub preview_inflight: Option<u64>,
    pub resume_preview_after_connect: bool,
    pub next_preview_id: u64,
    pub progress: Option<(String, u64, u64)>,
    pub message: String,
}

/// What a `FileBrowser` holds, as plain values; the search cache aside.
pub struct BrowserView {
    pub files_connected: bool,
    pub files_busy: bool,
    pub file_worker_stopped: bool,
    pub file_list_pending: Set<Seq<char>>,
    pub files_label: Seq<char>,
    pub pending_profile: Option<ProfileView>,
    pub fingerprint: Option<Seq<char>>,
    pub root: Seq<char>,
    pub destination: Seq<char>,
    pub tree: TreeState,
    pub file_search: Seq<char>,
    pub file_search_query: Seq<char>,
    pub file_search_expanded: Map<Seq<char>, bool>,
    pub expanded: Set<Seq<char>>,
    pub selected_file: Option<EntryView>,
    pub preview: Option<PreviewView>,
    pub preview_active: bool,
    pub preview_inflight: Option<u64>,
    pub resume_preview_after_connect: bool,
    pub next_preview_id: u64,
    pub progress: Option<(Seq<char>, u64, u64)>,
    pub message: Seq<char>,
}

impl View for FileBrowser {
    type V = BrowserView;

    open spec fn view(&self) -> BrowserView {
        BrowserView {
            files_connected: self.files_connected,
            files_busy: self.files_busy,
            file_worker_stopped: self.file_worker_stopped,
            file_list_pending: self.file_list_pending@,
            files_label: self.files_label@,
            pending_profile: match self.pending_profile {
                Some(p) => Some(p@),
                None => None,
            },
            fingerprint: match self.fingerprint {
                Some(f) => Some(f@),
                None => None,
            },
            root: self.root@,
            destination: self.destination@,
            tree: self.tree@,
            file_search: self.file_search@,
            file_search_query: self.file_search_query@,
            file_search_expanded: self.file_search_expanded@,
            expanded: self.expanded@,
            selected_file: match self.selected_file {
                Some(e) => Some(e@),
                None => None,
            },
            preview: match self.preview {
                Some(p) => Some(preview_view(p)),
                None => None,
            },
            preview_active: self.preview_active,
            preview_inflight: self.preview_inflight,
            resume_preview_after_connect: self.resume_preview_after_connect,
            next_preview_id: self.next_preview_id,
            progress: match self.progress {
                Some(p) => Some((p.0@, p.1, p.2)),
                None => None,
            },
            message: self.message@,
        }
    }
}

pub open spec fn worker_restart_text() -> Seq<char> {
    "The file worker stopped. Restart the app to reconnect."@
}

pub open spec fn list_worker_stopped_text() -> Seq<char> {
    "The file worker stopped. Reconnect to try again."@
}

pub open spec fn worker_stopped_text() -> Seq<char> {
    "The file worker stopped. Reconnect the file browser to continue."@
}

pub open spec fn preview_worker_stopped_text() -> Seq<char> {
    "The file worker stopped. Reconnect to read the file."@
}

pub open spec fn not_a_file_text() -> Seq<char> {
    "Select a regular file to preview its contents."@
}

/// The tree after a failure of `path` was cleared.
pub open spec fn retried(t: TreeState, path: Seq<char>) -> TreeState {
    TreeState {
        listings: t.listings,
        failures: t.failures.remove(path),
        revision: if t.failures.contains_key(path) {
            next_revision(t.revision)
        } else {
            t.revision
        },
    }
}

/// The tree after listing `path` failed with `error`.
pub open spec fn failed(t: TreeState, path: Seq<char>, error: Seq<char>) -> TreeState {
    TreeState {
        listings: t.listings,
        failures: t.failures.insert(path, error),
        revision: next_revision(t.revision),
    }
}

/// The tree after every path of `paths` failed with `error`, in order.
pub open spec fn failed_all(t: TreeState, paths: Seq<Seq<char>>, error: Seq<char>) -> TreeState
    decreases paths.len(),
{
    if paths.len() == 0 {
        t
    } else {
        failed(failed_all(t, paths.drop_last(), error), paths.last(), error)
    }
}

/// A preview that waits for a new read of `offset` under request `id`.
pub open spec fn restarted(p: PreviewView, id: u64, offset: u64) -> PreviewView {
    PreviewView { id, offset, chunk: None, lines: Seq::empty(), error: None, ..p }
}

/// Whether a preview read is to be sent now.
pub open spec fn preview_due(v: BrowserView) -> bool {
    &&& v.preview_inflight is None
    &&& !v.files_busy
    &&& v.files_connected
    &&& v.preview matches Some(p) && p.chunk is None && p.error is None
}

/// The state once a due preview read is counted as sent.
pub open spec fn pumped(v: BrowserView) -> BrowserView {
    if preview_due(v) {
        BrowserView { preview_inflight: Some(v.preview->Some_0.id), ..v }
    } else {
        v
    }
}

/// `r` is the read of the preview when one is due, and nothing otherwise.
pub open spec fn pump_request(v: BrowserView, r: Option<Request>) -> bool {
    if preview_due(v) {
        let p = v.preview->Some_0;
        r matches Some(Request::Preview { id, remote, offset }) && id == p.id && remote@ == p.path
            && offset == p.offset
    } else {
        r is None
    }
}

/// A new preview of `entry` under request `id`, shown as from `host`.
pub open spec fn new_preview(id: u64, entry: EntryView, host: Seq<char>) -> PreviewView {
    PreviewView {
        id,
        path: entry.path,
        name: entry.name,
        host,
        offset: 0,
        chunk: None,
        lines: Seq::empty(),
        binary: false,
        error: None,
    }
}

/// The state once `entry` was chosen for a preview, before its read is sent.
pub open spec fn preview_opened(v: BrowserView, entry: EntryView) -> BrowserView {
    if entry.file {
        BrowserView {
            preview: Some(new_preview(v.next_preview_id, entry, v.files_label)),
            next_preview_id: (v.next_preview_id + 1) as u64,
            preview_active: true,
            ..v
        }
    } else {
        BrowserView {
            resume_preview_after_connect: false,
            preview: None,
            preview_active: false,
            message: not_a_file_text(),
            ..v
        }
    }
}

/// The state once the preview moved to `offset`, before its read is sent.
pub open spec fn paged(v: BrowserView, offset: u64) -> BrowserView {
    match v.preview {
        Some(p) => BrowserView {
            preview: Some(restarted(p, v.next_preview_id, offset)),
            next_preview_id: (v.next_preview_id + 1) as u64,
            ..v
        },
        None => v,
    }
}

/// The profile a connection is opened for: the one of the last attempt when
/// a fingerprint was just trusted or a preview is to be resumed, else the draft.
pub open spec fn chosen_profile(v: BrowserView, draft: ProfileView, trusting: bool) -> ProfileView {
    if trusting || v.resume_preview_after_connect {
        match v.pending_profile {
            Some(p) => p,
            None => draft,
        }
    } else {
        draft
    }
}

pub open spec fn opening_text(host: Seq<char>) -> Seq<char> {
    "Opening SFTP connection to "@ + host + "\u{2026}"@
}

/// The state once a connection to `profile` was asked for, given what
/// checking its arguments gave; the worker is taken as running again and no
/// listing is pending.
pub open spec fn opened(
    v: BrowserView,
    profile: ProfileView,
    checked: Result<Seq<Seq<char>>, Seq<char>>,
) -> BrowserView {
    let v = BrowserView {
        file_worker_stopped: false,
        file_list_pending: Set::empty(),
        ..v
    };
    match checked {
        Err(e) => BrowserView { message: e, ..v },
        Ok(_) => BrowserView {
            pending_profile: Some(profile),
            preview: if v.resume_preview_after_connect {
                v.preview
            } else {
                None
            },
            preview_active: v.resume_preview_after_connect && v.preview_active,
            files_busy: true,
            files_connected: false,
            tree: TreeState {
                listings: Map::empty(),
                failures: Map::empty(),
                revision: next_revision(v.tree.revision),
            },
            file_search: Seq::empty(),
            file_search_query: Seq::empty(),
            file_search_expanded: Map::empty(),
            expanded: Set::empty(),
            selected_file: None,
            fingerprint: None,
            files_label: if trimmed(profile.name).len() == 0 {
                profile.host
            } else {
                profile.name
            },
            message: opening_text(profile.host),
            ..v
        },
    }
}

/// A search cache that holds nothing yet.
pub open spec fn fresh_cache(c: TreeCache) -> bool {
    &&& c.cached_key() is None
    &&& c.cached_matches() is None
    &&& c.cached_expanded() == Set::<Seq<char>>::empty()
    &&& c.cached_rows() == Seq::<RowView>::empty()
    &&& !c.rows_stale()
    &&& !c.scroll_pending()
    &&& c.searches() == 0
    &&& c.flattenings() == 0
}

/// Whether `entries` lists `p` as a folder.
pub open spec fn lists_folder(entries: Seq<EntryView>, p: Seq<char>) -> bool {
    exists|j: int| 0 <= j < entries.len() && #[trigger] entries[j].path == p && entries[j].directory
}

/// The folders of `previous` that `entries` no longer lists as folders.
pub open spec fn removed_folders(previous: Seq<EntryView>, entries: Seq<EntryView>) -> Set<Seq<char>> {
    Set::new(|p: Seq<char>| lists_folder(previous, p) && !lists_folder(entries, p))
}

/// Whether `p` lies in one of the `removed` folders: it is one of them, or
/// its part before one of its slashes is.
pub open spec fn under(removed: Set<Seq<char>>, p: Seq<char>) -> bool {
    removed.contains(p) || exists|i: int|
        0 <= i < p.len() && p[i] == '/' && #[trigger] removed.contains(p.take(i))
}

/// The entries of `m` outside the `removed` folders.
pub open spec fn outside<V>(m: Map<Seq<char>, V>, removed: Set<Seq<char>>) -> Map<Seq<char>, V> {
    Map::new(|p: Seq<char>| m.contains_key(p) && !under(removed, p), |p: Seq<char>| m[p])
}

/// The tree without what lies in the `removed` folders; its revision moves
/// if anything was dropped.
pub open spec fn pruned_tree(t: TreeState, removed: Set<Seq<char>>) -> TreeState {
    let listings = outside(t.listings, removed);
    let failures = outside(t.failures, removed);
    TreeState {
        listings,
        failures,
        revision: if listings == t.listings && failures == t.failures {
            t.revision
        } else {
            next_revision(t.revision)
        },
    }
}

/// The state once everything in the `removed` folders is forgotten; an
/// upload destination among them falls back to `path`, and the selection is
/// cleared with it.
pub open spec fn pruned(v: BrowserView, removed: Set<Seq<char>>, path: Seq<char>) -> BrowserView {
    let gone = under(removed, v.destination);
    BrowserView {
        tree: pruned_tree(v.tree, removed),
        expanded: v.expanded.filter(|p: Seq<char>| !under(removed, p)),
        file_search_expanded: outside(v.file_search_expanded, removed),
        destination: if gone {
            path
        } else {
            v.destination
        },
        selected_file: if gone {
            None
        } else {
            v.selected_file
        },
        ..v
    }
}

/// The position of the last slash of `s`.
pub open spec fn last_slash(s: Seq<char>) -> Option<int>
    decreases s.len(),
{
    if s.len() == 0 {
        None
    } else if s.last() == '/' {
        Some(s.len() - 1)
    } else {
        last_slash(s.drop_last())
    }
}

proof fn lemma_last_slash(s: Seq<char>)
    ensures
        last_slash(s) matches Some(k) ==> 0 <= k < s.len() && s[k] == '/',
    decreases s.len(),
{
    if s.len() > 0 && s.last() != '/' {
        lemma_last_slash(s.drop_last());
    }
}

/// The folder that holds remote path `s`: its part before the last slash,
/// or the root when that part is empty.
pub open spec fn parent_of(s: Seq<char>) -> Option<Seq<char>> {
    match last_slash(s) {
        Some(k) => Some(
            if k == 0 {
                seq!['/']
            } else {
                s.take(k)
            },
        ),
        None => None,
    }
}

/// The first regular file of `entries` at `path`.
pub open spec fn first_file(entries: Seq<EntryView>, path: Seq<char>) -> Option<EntryView>
    decreases entries.len(),
{
    if entries.len() == 0 {
        None
    } else if entries[0].file && entries[0].path == path {
        Some(entries[0])
    } else {
        first_file(entries.subrange(1, entries.len() as int), path)
    }
}

/// The selection once `path` was listed as `entries`: a selected file in
/// that folder is taken from the new listing, and dropped if it is gone.
pub open spec fn reselected(
    selected: Option<EntryView>,
    path: Seq<char>,
    entries: Seq<EntryView>,
) -> Option<EntryView> {
    match selected {
        Some(s) => if parent_of(s.path) == Some(path) {
            first_file(entries, s.path)
        } else {
            selected
        },
        None => None,
    }
}

/// The state once the listing of `path` came back as `entries`: folders it
/// no longer holds are forgotten with everything under them, the selection
/// follows the new listing, and the listing is stored.
#[verifier::opaque]
pub open spec fn entries_applied(v: BrowserView, path: Seq<char>, entries: Seq<EntryView>) -> BrowserView {
    let v1 = if v.tree.listings.contains_key(path) && removed_folders(
        v.tree.listings[path],
        entries,
    ) != Set::<Seq<char>>::empty() {
        pruned(v, removed_folders(v.tree.listings[path], entries), path)
    } else {
        v
    };
    BrowserView {
        selected_file: reselected(v1.selected_file, path, entries),
        tree: TreeState {
            listings: v1.tree.listings.insert(path, entries),
            failures: v1.tree.failures.remove(path),
            revision: next_revision(v1.tree.revision),
        },
        ..v1
    }
}

/// Whether `entries` lists `path` as a folder.
fn lists_folder_at(entries: &Vec<Entry>, path: &String) -> (r: bool)
    ensures
        r == lists_folder(listing_view(entries@), path@),
{
    let mut i: usize = 0;
    while i < entries.len()
        invariant
            i <= entries.len(),
            forall|j: int|
                0 <= j < i ==> !(#[trigger] entries@[j].path@ == path@ && entries@[j].directory),
        decreases entries.len() - i,
    {
        if entries[i].directory && same_text(&entries[i].path, path) {
            assert(listing_view(entries@)[i as int].path == path@);
            return true;
        }
        i = i + 1;
    }
    proof {
        if lists_folder(listing_view(entries@), path@) {
            let j = choose|j: int|
                0 <= j < listing_view(entries@).len() && #[trigger] listing_view(entries@)[j].path
                    == path@ && listing_view(entries@)[j].directory;
            assert(entries@[j].path@ == path@);
        }
    }
    false
}

/// The folders of `previous` that `entries` no longer lists as folders.
fn removed_folders_of(previous: &Vec<Entry>, entries: &Vec<Entry>) -> (r: PathSet)
    ensures
        r@ == removed_folders(listing_view(previous@), listing_view(entries@)),
{
    let mut removed = PathSet::new();
    let mut i: usize = 0;
    while i < previous.len()
        invariant
            i <= previous.len(),
            forall|p: Seq<char>|
                #[trigger] removed@.contains(p) <==> (lists_folder(
                    listing_view(previous@).take(i as int),
                    p,
                ) && !lists_folder(listing_view(entries@), p)),
        decreases previous.len() - i,
    {
        let old_entry = &previous[i];
        if old_entry.directory && !lists_folder_at(entries, &old_entry.path) {
            removed.insert(old_entry.path.clone());
        }
        proof {
            let before = listing_view(previous@).take(i as int);
            let after = listing_view(previous@).take(i + 1);
            assert forall|p: Seq<char>| lists_folder(after, p) == (lists_folder(before, p) || (
            after[i as int].path == p && after[i as int].directory)) by {
                if lists_folder(after, p) {
                    let j = choose|j: int| 0 <= j < after.len() && #[trigger] after[j].path == p && after[j].directory;
                    if j < i {
                        assert(before[j] == after[j]);
                    }
                }
                if lists_folder(before, p) {
                    let j = choose|j: int| 0 <= j < before.len() && #[trigger] before[j].path == p && before[j].directory;
                    assert(before[j] == after[j]);
                }
            }
        }
        i = i + 1;
    }
    proof {
        assert(listing_view(previous@).take(previous@.len() as int) =~= listing_view(previous@));
        assert(removed@ =~= removed_folders(listing_view(previous@), listing_view(entries@)));
    }
    removed
}

/// Whether `path` lies in one of the `removed` folders.
fn is_under(removed: &PathSet, path: &str) -> (r: bool)
    ensures
        r == under(removed@, path@),
{
    if removed.contains(path) {
        return true;
    }
    let v = chars_of(path);
    let mut i: usize = 0;
    while i < v.len()
        invariant
            i <= v.len(),
            v@ == path@,
            forall|k: int|
                0 <= k < i ==> !(v@[k] == '/' && #[trigger] removed@.contains(v@.take(k))),
        decreases v.len() - i,
    {
        if v[i] == '/' {
            let part = string_of(slice_subrange(v.as_slice(), 0, i));
            assert(part@ == v@.take(i as int));
            if removed.contains(part.as_str()) {
                return true;
            }
        }
        i = i + 1;
    }
    false
}

/// The position of the last slash of `v`.
fn find_last_slash(v: &Vec<char>) -> (r: Option<usize>)
    ensures
        r matches Some(k) ==> last_slash(v@) == Some(k as int),
        r is None ==> last_slash(v@) is None,
{
    let mut n: usize = v.len();
    assert(v@.take(n as int) =~= v@);
    proof {
        lemma_last_slash(v@);
    }
    while n > 0
        invariant
            n <= v.len(),
            last_slash(v@) == last_slash(v@.take(n as int)),
        decreases n,
    {
        if v[n - 1] == '/' {
            assert(v@.take(n as int).last() == '/');
            return Some(n - 1);
        }
        assert(v@.take(n as int).drop_last() =~= v@.take(n - 1));
        n = n - 1;
    }
    None
}

/// The folder that holds remote path `s`.
fn parent_path(s: &str) -> (r: Option<String>)
    ensures
        match parent_of(s@) {
            Some(p) => r matches Some(q) && q@ == p,
            None => r is None,
        },
{
    let v = chars_of(s);
    proof {
        lemma_last_slash(s@);
    }
    match find_last_slash(&v) {
        Some(k) => {
            if k == 0 {
                let r = "/".to_owned();
                proof {
                    reveal_strlit("/");
                }
                assert(r@ =~= seq!['/']);
                Some(r)
            } else {
                let r = string_of(slice_subrange(v.as_slice(), 0, k));
                assert(r@ =~= s@.take(k as int));
                assert(parent_of(s@) == Some(s@.take(k as int)));
                Some(r)
            }
        },
        None => None,
    }
}

/// The first regular file of `entries` at `path`, copied.
fn find_file(entries: &Vec<Entry>, path: &String) -> (r: Option<Entry>)
    ensures
        match first_file(listing_view(entries@), path@) {
            Some(e) => r matches Some(f) && f@ == e,
            None => r is None,
        },
{
    let mut i: usize = 0;
    assert(listing_view(entries@).subrange(0, entries@.len() as int) =~= listing_view(entries@));
    while i < entries.len()
        invariant
            i <= entries.len(),
            first_file(listing_view(entries@), path@) == first_file(
                listing_view(entries@).subrange(i as int, entries@.len() as int),
                path@,
            ),
        decreases entries.len() - i,
    {
        let ghost rest = listing_view(entries@).subrange(i as int, entries@.len() as int);
        assert(rest[0] == entries@[i as int]@);
        if entries[i].file && same_text(&entries[i].path, path) {
            return Some(entries[i].duplicate());
        }
        assert(rest.subrange(1, rest.len() as int) =~= listing_view(entries@).subrange(
            i + 1,
            entries@.len() as int,
        ));
        i = i + 1;
    }
    None
}

/// The state once the listing of `path` was asked for, unless it already was.
pub open spec fn refreshing(v: BrowserView, path: Seq<char>) -> BrowserView {
    if v.file_list_pending.contains(path) {
        v
    } else {
        BrowserView {
            file_list_pending: v.file_list_pending.insert(path),
            tree: retried(v.tree, path),
            files_busy: true,
            ..v
        }
    }
}

/// `r` asks for the listing of `path` unless it already was asked for.
pub open spec fn list_request(v: BrowserView, path: String, r: Option<Request>) -> bool {
    if v.file_list_pending.contains(path@) {
        r is None
    } else {
        r == Some(Request::List(path))
    }
}

pub open spec fn verify_fingerprint_text() -> Seq<char> {
    "Verify the server fingerprint in Remote files to reconnect."@
}

pub open spec fn refreshed_text() -> Seq<char> {
    "Directory listing refreshed."@
}

pub open spec fn connected_text(label: Seq<char>) -> Seq<char> {
    "SFTP connected: "@ + label
}

pub open spec fn load_failed_text(path: Seq<char>, error: Seq<char>) -> Seq<char> {
    "Could not load "@ + path + ": "@ + error
}

/// The parts of `parts` with `sep` between each two.
pub open spec fn joined_with(parts: Seq<Seq<char>>, sep: Seq<char>) -> Seq<char>
    decreases parts.len(),
{
    if parts.len() == 0 {
        Seq::empty()
    } else if parts.len() == 1 {
        parts[0]
    } else {
        joined_with(parts.drop_last(), sep) + sep + parts.last()
    }
}

/// The failures of a refresh, as `path: error`.
pub open spec fn refresh_errors(listings: Seq<(String, Result<Vec<Entry>, String>)>) -> Seq<Seq<char>>
    decreases listings.len(),
{
    if listings.len() == 0 {
        Seq::empty()
    } else {
        let rest = refresh_errors(listings.drop_last());
        match listings.last().1 {
            Ok(_) => rest,
            Err(e) => rest.push(listings.last().0@ + ": "@ + e@),
        }
    }
}

/// The message after a refresh with these results.
pub open spec fn refresh_text(listings: Seq<(String, Result<Vec<Entry>, String>)>) -> Seq<char> {
    let errors = refresh_errors(listings);
    if errors.len() == 0 {
        refreshed_text()
    } else {
        "Could not refresh "@ + joined_with(errors, "; "@)
    }
}

/// The state once each listing of a refresh was stored, or its failure recorded, in order.
#[verifier::opaque]
pub open spec fn refreshed(v: BrowserView, listings: Seq<(String, Result<Vec<Entry>, String>)>) -> BrowserView
    decreases listings.len(),
{
    if listings.len() == 0 {
        v
    } else {
        let w = refreshed(v, listings.drop_last());
        let (path, result) = listings.last();
        match result {
            Ok(entries) => entries_applied(w, path@, listing_view(entries@)),
            Err(e) => BrowserView { tree: failed(w.tree, path@, e@), ..w },
        }
    }
}

/// The state once a refresh came back with `listings`.
pub open spec fn refresh_done(v: BrowserView, listings: Seq<(String, Result<Vec<Entry>, String>)>) -> BrowserView {
    let w = refreshed(
        BrowserView { files_busy: v.file_list_pending != Set::<Seq<char>>::empty(), ..v },
        listings,
    );
    BrowserView { message: refresh_text(listings), ..w }
}

/// The preview once it took the outcome of its read.
pub open spec fn accepted(p: PreviewView, result: Result<Chunk, String>) -> PreviewView {
    match result {
        Ok(c) => PreviewView {
            chunk: Some(chunk_view(c)),
            binary: chunk_lines(c.offset, c.bytes@).0,
            lines: chunk_lines(c.offset, c.bytes@).1,
            error: None,
            ..p
        },
        Err(e) => PreviewView { error: Some(e@), ..p },
    }
}

/// The preview of `v` with `error` shown, when a preview waits for a reconnection.
pub open spec fn resume_error(v: BrowserView, error: Seq<char>) -> Option<PreviewView> {
    if v.resume_preview_after_connect {
        match v.preview {
            Some(p) => Some(PreviewView { error: Some(error), ..p }),
            None => None,
        }
    } else {
        v.preview
    }
}

/// The state once the connection is up at `home`, before the listing of
/// `home` is asked for.
pub open spec fn connected_at(v: BrowserView, home: Seq<char>) -> BrowserView {
    BrowserView {
        files_connected: true,
        files_busy: false,
        root: home,
        destination: home,
        expanded: v.expanded.insert(home),
        ..v
    }
}

/// The state once the connection is up and the listing of `home` asked for:
/// a preview that waited for the reconnection reads again where it was.
pub open spec fn after_connected(v: BrowserView, home: Seq<char>) -> BrowserView {
    let w = refreshing(connected_at(v, home), home);
    let w = BrowserView { message: connected_text(w.files_label), ..w };
    if w.resume_preview_after_connect {
        match w.preview {
            Some(p) => BrowserView {
                resume_preview_after_connect: false,
                preview: Some(restarted(p, w.next_preview_id, p.offset)),
                next_preview_id: (w.next_preview_id + 1) as u64,
                ..w
            },
            None => BrowserView { resume_preview_after_connect: false, ..w },
        }
    } else {
        w
    }
}

/// What `event` does to the browser; `pending` lists the pending folders
/// in the order they fail when the connection drops.
pub open spec fn after_event(v: BrowserView, pending: Seq<Seq<char>>, event: Event) -> BrowserView {
    match event {
        Event::Disconnected(m) => BrowserView {
            files_connected: false,
            files_busy: false,
            progress: None,
            preview_inflight: None,
            file_list_pending: Set::empty(),
            tree: failed_all(v.tree, pending, m@),
            preview: match v.preview {
                Some(p) => Some(PreviewView { error: Some(m@), ..p }),
                None => None,
            },
            message: m@,
            ..v
        },
        Event::Preview { id, result } => BrowserView {
            preview_inflight: if v.preview_inflight == Some(id) {
                None
            } else {
                v.preview_inflight
            },
            preview: match v.preview {
                Some(p) => if p.id == id {
                    Some(accepted(p, result))
                } else {
                    Some(p)
                },
                None => None,
            },
            ..v
        },
        Event::Connected(home) => after_connected(v, home@),
        Event::Trust(f) => BrowserView {
            files_busy: false,
            fingerprint: Some(f@),
            preview: resume_error(v, verify_fingerprint_text()),
            ..v
        },
        Event::Entries(path, entries) => {
            let pending = v.file_list_pending.remove(path@);
            entries_applied(
                BrowserView {
                    file_list_pending: pending,
                    files_busy: pending != Set::<Seq<char>>::empty(),
                    ..v
                },
                path@,
                listing_view(entries@),
            )
        },
        Event::ListFailed { path, error } => {
            let pending = v.file_list_pending.remove(path@);
            BrowserView {
                file_list_pending: pending,
                files_busy: pending != Set::<Seq<char>>::empty(),
                message: load_failed_text(path@, error@),
                tree: failed(v.tree, path@, error@),
                ..v
            }
        },
        Event::Refreshed(listings) => refresh_done(v, listings@),
        Event::Progress { name, done, total } => BrowserView {
            progress: Some((name@, done, total)),
            ..v
        },
        Event::Done(m) => refreshing(
            BrowserView { files_busy: false, progress: None, message: m@, ..v },
            v.destination,
        ),
        Event::Error(m) => BrowserView {
            files_busy: false,
            progress: None,
            preview: resume_error(v, m@),
            message: m@,
            ..v
        },
    }
}

/// The listing request that `event` makes: of the new home on connection,
/// and of the upload destination after a transfer.
pub open spec fn event_request(v: BrowserView, event: Event, r: Option<Request>) -> bool {
    match event {
        Event::Connected(home) => list_request(connected_at(v, home@), home, r),
        Event::Done(_) => {
            let w = BrowserView { files_busy: false, progress: None, ..v };
            if w.file_list_pending.contains(v.destination) {
                r is None
            } else {
                r matches Some(Request::List(p)) && p@ == v.destination
            }
        },
        _ => r is None,
    }
}

/// What an event needs before it can be taken: a chunk that fits in the
/// file's offsets, and a request number left for a resumed preview.
pub open spec fn event_ok(b: FileBrowser, event: Event) -> bool {
    match event {
        Event::Preview { result: Ok(c), .. } => c.offset + c.bytes.len() <= u64::MAX,
        Event::Connected(_) => b.resume_preview_after_connect && b.preview is Some
            ==> b.next_preview_id < u64::MAX,
        _ => true,
    }
}

/// The state once the worker is gone: pending listings fail, and nothing
/// is connected.
pub open spec fn after_worker_stopped(v: BrowserView, pending: Seq<Seq<char>>) -> BrowserView {
    if v.file_worker_stopped {
        v
    } else {
        BrowserView {
            file_worker_stopped: true,
            file_list_pending: Set::empty(),
            tree: failed_all(v.tree, pending, list_worker_stopped_text()),
            files_busy: false,
            files_connected: false,
            preview_inflight: None,
            message: worker_stopped_text(),
            ..v
        }
    }
}

/// The parts with `sep` between each two.
fn join_lines(parts: &Vec<String>, sep: &str) -> (r: String)
    ensures
        r@ == joined_with(strings_view(parts@), sep@),
{
    let mut r = String::new();
    let mut i: usize = 0;
    while i < parts.len()
        invariant
            i <= parts.len(),
            r@ == joined_with(strings_view(parts@).take(i as int), sep@),
        decreases parts.len() - i,
    {
        let ghost before = strings_view(parts@).take(i as int);
        let ghost after = strings_view(parts@).take(i + 1);
        assert(after.drop_last() =~= before);
        if i > 0 {
            push_chars(&mut r, &chars_of(sep));
        }
        push_chars(&mut r, &chars_of(parts[i].as_str()));
        proof {
            if i == 0 {
                assert(after.len() == 1);
                assert(r@ =~= after[0]);
            }
        }
        i = i + 1;
    }
    assert(strings_view(parts@).take(parts.len() as int) =~= strings_view(parts@));
    r
}

pub open spec fn refreshing_text() -> Seq<char> {
    "Refreshing directory listing\u{2026}"@
}

/// The folder query of a search text: trimmed and lowercased.
pub open spec fn folded_query(search: Seq<char>) -> Seq<char> {
    lowercase(trimmed(search))
}

/// The state once the search text was read: a changed query drops the
/// folders opened or closed by hand during the previous one.
pub open spec fn searched(v: BrowserView) -> BrowserView {
    let q = folded_query(v.file_search);
    if q == v.file_search_query {
        v
    } else {
        BrowserView { file_search_expanded: Map::empty(), file_search_query: q, ..v }
    }
}

/// `c` is `before` with its rows marked stale, or `before` itself when `stale` is false.
pub open spec fn invalidated(before: TreeCache, c: TreeCache, stale: bool) -> bool {
    if stale {
        &&& c.rows_stale()
        &&& c.cached_key() == before.cached_key()
        &&& c.cached_matches() == before.cached_matches()
        &&& c.cached_expanded() == before.cached_expanded()
        &&& c.cached_rows() == before.cached_rows()
        &&& c.scroll_pending() == before.scroll_pending()
        &&& c.searches() == before.searches()
        &&& c.flattenings() == before.flattenings()
    } else {
        c == before
    }
}

/// The open folders of a search: `base` and the `matched` paths, with the
/// choices made by hand in `overrides` on top.
pub open spec fn search_opened(
    base: Set<Seq<char>>,
    matched: Set<Seq<char>>,
    overrides: Map<Seq<char>, bool>,
) -> Set<Seq<char>> {
    Set::new(
        |p: Seq<char>|
            if overrides.contains_key(p) {
                overrides[p]
            } else {
                base.contains(p) || matched.contains(p)
            },
    )
}

/// The state once the user closed the file connection: nothing is loaded,
/// pending or previewed, and the search is cleared.
pub open spec fn disconnected(v: BrowserView) -> BrowserView {
    BrowserView {
        file_list_pending: Set::empty(),
        file_worker_stopped: false,
        files_busy: false,
        preview: None,
        preview_active: false,
        preview_inflight: None,
        files_connected: false,
        resume_preview_after_connect: false,
        tree: TreeState {
            listings: Map::empty(),
            failures: Map::empty(),
            revision: next_revision(v.tree.revision),
        },
        file_search: Seq::empty(),
        file_search_query: Seq::empty(),
        file_search_expanded: Map::empty(),
        selected_file: None,
        ..v
    }
}

/// The folder above the root: the part of `root`, without trailing slashes,
/// before its last slash, or `/` when there is none.
pub open spec fn parent_dir(root: Seq<char>) -> Seq<char> {
    match parent_of(drop_trailing(root, |c: char| c == '/')) {
        Some(p) => p,
        None => seq!['/'],
    }
}

/// The state once the root moved to `p`, before its listing is asked for.
pub open spec fn rooted_at(v: BrowserView, p: Seq<char>) -> BrowserView {
    BrowserView { root: p, destination: p, expanded: v.expanded.insert(p), ..v }
}

/// `r` asks for the listing of `p` unless it already was asked for in `v`.
pub open spec fn list_request_of(v: BrowserView, p: Seq<char>, r: Option<Request>) -> bool {
    if v.file_list_pending.contains(p) {
        r is None
    } else {
        r matches Some(Request::List(q)) && q@ == p
    }
}

/// The state once the folder arrow of `path`, shown open or not, was
/// clicked, before a listing it needs is asked for: during a search the
/// choice is kept apart from the folders opened outside it.
pub open spec fn folder_toggled(v: BrowserView, path: Seq<char>, shown_open: bool) -> BrowserView {
    if v.file_search_query.len() > 0 {
        BrowserView {
            file_search_expanded: v.file_search_expanded.insert(path, !shown_open),
            ..v
        }
    } else if shown_open {
        BrowserView { expanded: v.expanded.remove(path), ..v }
    } else {
        BrowserView { expanded: v.expanded.insert(path), ..v }
    }
}

/// Whether opening the folder `path` needs its listing.
pub open spec fn toggle_loads(v: BrowserView, path: Seq<char>, shown_open: bool) -> bool {
    if v.file_search_query.len() > 0 {
        !shown_open && !v.tree.listings.contains_key(path)
    } else {
        !shown_open
    }
}

pub open spec fn connect_first_text() -> Seq<char> {
    "Connect the file browser before dropping files."@
}

pub open spec fn wait_text() -> Seq<char> {
    "Wait for the current file operation before uploading more files."@
}

pub open spec fn drop_on_panel_text() -> Seq<char> {
    "Drop files onto the Remote files panel to upload them."@
}

/// How an entry's name is shown: line breaks become a return symbol, and an
/// entry that is neither a folder nor a regular file is marked.
pub open spec fn entry_label(e: EntryView) -> Seq<char> {
    let name = e.name.map_values(|c: char| if c == '\n' || c == '\r' { '\u{23ce}' } else { c });
    if e.directory || e.file {
        name
    } else {
        name + " (link / special)"@
    }
}

/// `s` without its trailing slashes.
fn without_trailing_slashes(s: &str) -> (r: String)
    ensures
        r@ == drop_trailing(s@, |c: char| c == '/'),
{
    let p = chars_of(s);
    let mut end = p.len();
    while end > 0 && p[end - 1] == '/'
        invariant
            end <= p.len(),
            forall|k: int| end <= k < p.len() ==> #[trigger] p@[k] == '/',
        decreases end,
    {
        end = end - 1;
    }
    proof {
        let slash = |c: char| c == '/';
        lemma_drop_trailing_skip(p@, slash, end as int);
        let core = p@.subrange(0, end as int);
        if core.len() > 0 {
            assert(core.last() == p@[end - 1]);
        }
        assert(drop_trailing(core, slash) == core);
    }
    string_of(&slice_chars(&p, 0, end))
}

/// How an entry's name is shown in the tree.
pub fn entry_label_of(entry: &Entry) -> (r: String)
    ensures
        r@ == entry_label(entry@),
{
    let name = chars_of(entry.name.as_str());
    let mut shown: Vec<char> = Vec::new();
    let mut i: usize = 0;
    while i < name.len()
        invariant
            i <= name.len(),
            name@ == entry.name@,
            shown@ == name@.take(i as int).map_values(
                |c: char| if c == '\n' || c == '\r' { '\u{23ce}' } else { c },
            ),
        decreases name.len() - i,
    {
        let c = name[i];
        shown.push(if c == '\n' || c == '\r' { '\u{23ce}' } else { c });
        assert(name@.take(i + 1).map_values(
            |c: char| if c == '\n' || c == '\r' { '\u{23ce}' } else { c },
        ) =~= name@.take(i as int).map_values(
            |c: char| if c == '\n' || c == '\r' { '\u{23ce}' } else { c },
        ).push(if c == '\n' || c == '\r' { '\u{23ce}' } else { c }));
        i = i + 1;
    }
    assert(name@.take(name.len() as int) =~= name@);
    let mut r = string_of(&shown);
    if !entry.directory && !entry.file {
        push_chars(&mut r, &chars_of(" (link / special)"));
    }
    r
}

/// Which preview buttons work now, and where each one moves the preview.
pub struct PreviewControls {
    /// Reconnecting the file browser for this preview.
    pub reconnect: bool,
    /// The offset that Previous reads.
    pub previous: Option<u64>,
    /// The offset that Next reads.
    pub next: Option<u64>,
    /// Reload reads the file again from its start.
    pub reload: bool,
}

/// Whether a chunk follows the one at `offset` with `len` bytes, in a file
/// of `size` bytes, as `Chunk::has_next` decides.
pub open spec fn follows(offset: u64, len: nat, size: u64) -> bool {
    crate::preview::min_int(offset + CHUNK_BYTES, u64::MAX as int) < size && len >= CHUNK_BYTES
}

/// The controls of preview `p` in state `v`: a preview that shows a chunk or
/// an error can go back, when not at the start, and reload; it can go on
/// when its chunk says more follows; all of them only while connected and
/// idle. Reconnecting needs an idle browser without a pending fingerprint.
pub open spec fn controls(v: BrowserView, p: PreviewView) -> (bool, Option<u64>, Option<u64>, bool) {
    let ready = p.chunk is Some || p.error is Some;
    let idle = !v.files_busy && v.files_connected;
    (
        !v.files_connected && !v.files_busy && v.fingerprint is None,
        if ready && idle && p.offset > 0 {
            Some(if p.offset >= CHUNK_BYTES { (p.offset - CHUNK_BYTES) as u64 } else { 0 })
        } else {
            None
        },
        match p.chunk {
            Some(c) if idle && follows(c.0, c.2.len(), c.1) => Some(
                if p.offset + CHUNK_BYTES <= u64::MAX { (p.offset + CHUNK_BYTES) as u64 } else { u64::MAX },
            ),
            _ => None,
        },
        ready && idle,
    )
}

pub open spec fn waiting_text() -> Seq<char> {
    "Waiting for the file operation\u{2026}"@
}

pub open spec fn reading_text() -> Seq<char> {
    "Reading from the remote host\u{2026}"@
}

impl FileBrowser {
    /// The browser state when nothing is connected.
    pub fn new() -> (b: FileBrowser)
        ensures
            b.wf(),
            !b@.files_connected,
            !b@.files_busy,
            !b@.file_worker_stopped,
            b@.file_list_pending == Set::<Seq<char>>::empty(),
            b@.tree.listings == Map::<Seq<char>, Seq<EntryView>>::empty(),
            b@.tree.failures == Map::<Seq<char>, Seq<char>>::empty(),
            b@.expanded == Set::<Seq<char>>::empty(),
            b@.file_search_expanded == Map::<Seq<char>, bool>::empty(),
            b@.selected_file is None,
            b@.preview is None,
            b@.preview_inflight is None,
            b@.next_preview_id == 1,
            b@.progress is None,
            b@.message.len() == 0,
            b@.root.len() == 0,
            b@.destination.len() == 0,
            b@.files_label.len() == 0,
            b@.pending_profile is None,
            b@.fingerprint is None,
            b@.file_search.len() == 0,
            b@.file_search_query.len() == 0,
            !b@.preview_active,
            !b@.resume_preview_after_connect,
            b@.tree.revision == 0,
            fresh_cache(b.tree_cache),
    {
        FileBrowser {
            files_connected: false,
            files_busy: false,
            file_worker_stopped: false,
            file_list_pending: PathSet::new(),
            files_label: String::new(),
            pending_profile: None,
            fingerprint: None,
            root: String::new(),
            destination: String::new(),
            tree: DirectoryTree::default(),
            tree_cache: TreeCache::default(),
            file_search: String::new(),
            file_search_query: String::new(),
            file_search_expanded: PathMap::new(),
            expanded: PathSet::new(),
            selected_file: None,
            preview: None,
            preview_active: false,
            preview_inflight: None,
            resume_preview_after_connect: false,
            next_preview_id: 1,
            progress: None,
            message: String::new(),
        }
    }

    /// The tree and the search overrides are well formed.
    pub open spec fn wf(&self) -> bool {
        &&& self.tree.wf()
        &&& self.file_search_expanded.wf()
        &&& search_consistent(self.tree_cache)
    }

    /// A request could not be handed to the worker.
    pub fn send_failed(&mut self)
        ensures
            final(self)@ == (BrowserView {
                files_busy: false,
                message: worker_restart_text(),
                ..old(self)@
            }),
            final(self).tree_cache == old(self).tree_cache,
            final(self).wf() == old(self).wf(),
    {
        self.files_busy = false;
        self.message = "The file worker stopped. Restart the app to reconnect.".to_owned();
    }

    /// A transfer is about to be sent.
    pub fn start_transfer(&mut self)
        ensures
            final(self)@ == (BrowserView { files_busy: true, progress: None, ..old(self)@ }),
            final(self).tree_cache == old(self).tree_cache,
            final(self).wf() == old(self).wf(),
    {
        self.files_busy = true;
        self.progress = None;
    }

    /// Asks for the listing of `path`, unless it was asked for already; a
    /// failure recorded for it is cleared.
    pub fn refresh(&mut self, path: String) -> (r: Option<Request>)
        requires
            old(self).wf(),
        ensures
            final(self).wf(),
            final(self).tree_cache == old(self).tree_cache,
            final(self)@ == refreshing(old(self)@, path@),
            list_request(old(self)@, path, r),
    {
        if self.file_list_pending.contains(path.as_str()) {
            return None;
        }
        self.file_list_pending.insert(path.clone());
        self.tree.retry(path.as_str());
        self.files_busy = true;
        Some(Request::List(path))
    }

    /// The listing request for `path` could not be sent.
    pub fn list_not_sent(&mut self, path: String)
        requires
            old(self).wf(),
        ensures
            final(self).wf(),
            final(self).tree_cache == old(self).tree_cache,
            final(self)@ == (BrowserView {
                file_list_pending: old(self)@.file_list_pending.remove(path@),
                tree: failed(old(self)@.tree, path@, list_worker_stopped_text()),
                files_busy: false,
                ..old(self)@
            }),
    {
        self.file_list_pending.remove(path.as_str());
        self.tree.fail(path, "The file worker stopped. Reconnect to try again.".to_owned());
        self.files_busy = false;
    }

    /// The read the preview waits for, when nothing else is under way; it is
    /// then counted as sent.
    pub fn pump_preview(&mut self) -> (r: Option<Request>)
        ensures
            final(self).tree_cache == old(self).tree_cache,
            final(self).wf() == old(self).wf(),
            final(self)@ == pumped(old(self)@),
            pump_request(old(self)@, r),
    {
        if self.preview_inflight.is_some() || self.files_busy || !self.files_connected {
            return None;
        }
        match &self.preview {
            Some(preview) => {
                if preview.chunk.is_none() && preview.error.is_none() {
                    let id = preview.id;
                    let request = Request::Preview {
                        id,
                        remote: preview.path.clone(),
                        offset: preview.offset,
                    };
                    self.preview_inflight = Some(id);
                    Some(request)
                } else {
                    None
                }
            },
            None => None,
        }
    }

    /// The preview read that `pump_preview` gave could not be sent.
    pub fn preview_not_sent(&mut self)
        ensures
            final(self).tree_cache == old(self).tree_cache,
            final(self).wf() == old(self).wf(),
            final(self)@ == (BrowserView {
                preview_inflight: None,
                preview: match old(self)@.preview {
                    Some(p) => Some(PreviewView { error: Some(preview_worker_stopped_text()), ..p }),
                    None => None,
                },
                ..old(self)@
            }),
    {
        self.preview_inflight = None;
        match &mut self.preview {
            Some(preview) => {
                preview.error = Some("The file worker stopped. Reconnect to read the file.".to_owned());
            },
            None => {},
        }
    }
    /// Previews `entry`; a folder closes the preview instead.
    pub fn open_preview(&mut self, entry: &Entry) -> (r: Option<Request>)
        requires
            entry.file ==> old(self).next_preview_id < u64::MAX,
        ensures
            final(self).tree_cache == old(self).tree_cache,
            final(self).wf() == old(self).wf(),
            final(self)@ == pumped(preview_opened(old(self)@, entry@)),
            entry.file ==> pump_request(preview_opened(old(self)@, entry@), r),
            !entry.file ==> r == Some(Request::ClosePreview),
    {
        if !entry.file {
            let r = self.close_preview();
            self.message = "Select a regular file to preview its contents.".to_owned();
            assert(!preview_due(preview_opened(old(self)@, entry@)));
            return Some(r);
        }
        let lines: Vec<String> = Vec::new();
        proof {
            assert(strings_view(lines@) =~= Seq::<Seq<char>>::empty());
        }
        self.preview = Some(
            FilePreview {
                id: self.next_preview_id,
                path: entry.path.clone(),
                name: entry.name.clone(),
                host: self.files_label.clone(),
                offset: 0,
                chunk: None,
                lines,
                binary: false,
                error: None,
            },
        );
        self.next_preview_id = self.next_preview_id + 1;
        self.preview_active = true;
        assert(self@ == preview_opened(old(self)@, entry@));
        self.pump_preview()
    }

    /// Moves the preview to `offset`, dropping what it shows.
    pub fn preview_page(&mut self, offset: u64) -> (r: Option<Request>)
        requires
            old(self).preview is Some ==> old(self).next_preview_id < u64::MAX,
        ensures
            final(self).tree_cache == old(self).tree_cache,
            final(self).wf() == old(self).wf(),
            final(self)@ == pumped(paged(old(self)@, offset)),
            pump_request(paged(old(self)@, offset), r),
    {
        let next = self.next_preview_id;
        match &mut self.preview {
            Some(preview) => {
                preview.id = next;
                preview.offset = offset;
                preview.chunk = None;
                let lines: Vec<String> = Vec::new();
                proof {
                    assert(strings_view(lines@) =~= Seq::<Seq<char>>::empty());
                }
                preview.lines = lines;
                preview.error = None;
                self.next_preview_id = next + 1;
            },
            None => {},
        }
        assert(self@ == paged(old(self)@, offset));
        self.pump_preview()
    }

    /// Closes the preview; the worker is told to drop its open file.
    pub fn close_preview(&mut self) -> (r: Request)
        ensures
            final(self).tree_cache == old(self).tree_cache,
            final(self).wf() == old(self).wf(),
            final(self)@ == (BrowserView {
                resume_preview_after_connect: false,
                preview: None,
                preview_active: false,
                ..old(self)@
            }),
            r == Request::ClosePreview,
    {
        self.resume_preview_after_connect = false;
        self.preview = None;
        self.preview_active = false;
        Request::ClosePreview
    }

    /// Asks for a connection to `profile`, given what checking its SSH
    /// arguments gave: an error is shown and nothing is sent.
    pub fn open_connection(
        &mut self,
        profile: Profile,
        checked: Result<Vec<String>, String>,
        trusted: Option<String>,
    ) -> (r: Option<Request>)
        requires
            old(self).wf(),
        ensures
            final(self).wf(),
            final(self)@ == opened(old(self)@, profile@, args_view(checked)),
            checked is Err ==> r is None && final(self).tree_cache == old(self).tree_cache,
            checked is Ok ==> r == Some(Request::Connect { profile, trusted }) && fresh_cache(
                final(self).tree_cache,
            ),
    {
        self.file_worker_stopped = false;
        self.file_list_pending.clear();
        match checked {
            Err(e) => {
                self.message = e;
                None
            },
            Ok(_) => {
                self.pending_profile = Some(profile.duplicate());
                if !self.resume_preview_after_connect {
                    self.preview = None;
                    self.preview_active = false;
                }
                self.files_busy = true;
                self.files_connected = false;
                self.tree.clear();
                self.tree_cache = TreeCache::default();
                self.file_search = String::new();
                self.file_search_query = String::new();
                self.file_search_expanded.clear();
                self.expanded.clear();
                self.selected_file = None;
                self.fingerprint = None;
                self.files_label = profile.label().to_owned();
                let mut message = "Opening SFTP connection to ".to_owned();
                push_chars(&mut message, &chars_of(profile.host.as_str()));
                push_chars(&mut message, &chars_of("\u{2026}"));
                self.message = message;
                Some(Request::Connect { profile, trusted })
            },
        }
    }

    /// Connects the file browser: to the host of the last attempt when
    /// `trusted` carries a fingerprint the user accepted or a preview is to be
    /// resumed, else to `draft`. Its SSH arguments are checked first, the
    /// private key on this machine among them.
    pub fn connect(&mut self, draft: &Profile, trusted: Option<String>) -> (r: Option<Request>)
        requires
            old(self).wf(),
        ensures
            final(self).wf(),
            ({
                let chosen = chosen_profile(old(self)@, draft@, trusted is Some);
                exists|key: KeyCheck|
                    {
                        &&& final(self)@ == opened(old(self)@, chosen, #[trigger] ssh_args_spec(chosen, key))
                        &&& (trimmed(chosen.identity).len() == 0 ==> key == KeyCheck::Found)
                        &&& ssh_args_spec(chosen, key) is Err ==> r is None
                        &&& ssh_args_spec(chosen, key) is Ok ==> (r matches Some(
                            Request::Connect { profile, trusted: t },
                        ) && profile@ == chosen && t == trusted)
                    }
            }),
    {
        let profile = if trusted.is_some() || self.resume_preview_after_connect {
            match &self.pending_profile {
                Some(p) => p.duplicate(),
                None => draft.duplicate(),
            }
        } else {
            draft.duplicate()
        };
        let checked = profile.ssh_args();
        let ghost chosen = profile@;
        let r = self.open_connection(profile, checked, trusted);
        proof {
            let key = if args_view(checked) == ssh_args_spec(chosen, KeyCheck::Found) {
                KeyCheck::Found
            } else if args_view(checked) == ssh_args_spec(chosen, KeyCheck::Missing) {
                KeyCheck::Missing
            } else {
                KeyCheck::NotAbsolute
            };
            assert(args_view(checked) == ssh_args_spec(chosen, key));
            assert(chosen == chosen_profile(old(self)@, draft@, trusted is Some));
            assert(self@ == opened(old(self)@, chosen, ssh_args_spec(chosen, key)));
            assert(trimmed(chosen.identity).len() == 0 ==> key == KeyCheck::Found);
            assert(ssh_args_spec(chosen, key) is Err ==> r is None);
        }
        r
    }
    /// Forgets everything that lies in the `removed` folders; an upload
    /// destination among them falls back to `path`.
    fn prune(&mut self, removed: &PathSet, path: &String)
        requires
            old(self).wf(),
        ensures
            final(self).wf(),
            final(self).tree_cache == old(self).tree_cache,
            final(self)@ == pruned(old(self)@, removed@, path@),
    {
        let ghost old_tree = self.tree@;
        let keep_tree = |p: &str, _listing: &Vec<Entry>| -> (b: bool)
            ensures
                b == !under(removed@, p@),
            { !is_under(removed, p) };
        self.tree.retain(keep_tree);
        proof {
            assert forall|p: Seq<char>| #[trigger] self.tree@.listings.contains_key(p) == (
            old_tree.listings.contains_key(p) && !under(removed@, p)) by {
                if old_tree.listings.contains_key(p) {
                    let (s, v) = choose|s: &str, v: &Vec<Entry>|
                        s@ == p && listing_view(v@) == old_tree.listings[p]
                            && #[trigger] keep_tree.ensures(
                            (s, v),
                            self.tree@.listings.contains_key(p),
                        );
                }
            }
            assert forall|p: Seq<char>| #[trigger] self.tree@.failures.contains_key(p) == (
            old_tree.failures.contains_key(p) && !under(removed@, p)) by {
                if old_tree.failures.contains_key(p) {
                    let (s, v) = choose|s: &str, v: &Vec<Entry>|
                        s@ == p && listing_view(v@) == crate::tree::listing_or_empty(
                            old_tree.listings,
                            p,
                        ) && #[trigger] keep_tree.ensures(
                            (s, v),
                            self.tree@.failures.contains_key(p),
                        );
                }
            }
            assert(self.tree@.listings =~= outside(old_tree.listings, removed@));
            assert(self.tree@.failures =~= outside(old_tree.failures, removed@));
        }
        let ghost old_expanded = self.expanded@;
        let keep_path = |p: &str| -> (b: bool)
            ensures
                b == !under(removed@, p@),
            { !is_under(removed, p) };
        self.expanded.retain(keep_path);
        proof {
            assert forall|p: Seq<char>| #[trigger] self.expanded@.contains(p) == (
            old_expanded.contains(p) && !under(removed@, p)) by {
                if old_expanded.contains(p) {
                    let s = choose|s: &str|
                        s@ == p && #[trigger] keep_path.ensures((s,), self.expanded@.contains(p));
                }
            }
            assert(self.expanded@ =~= old_expanded.filter(|p: Seq<char>| !under(removed@, p)));
        }
        let ghost old_search = self.file_search_expanded@;
        self.file_search_expanded.retain(keep_path);
        proof {
            assert forall|p: Seq<char>| #[trigger] self.file_search_expanded@.contains_key(p) == (
            old_search.contains_key(p) && !under(removed@, p)) by {
                if old_search.contains_key(p) {
                    let s = choose|s: &str|
                        s@ == p && #[trigger] keep_path.ensures(
                            (s,),
                            self.file_search_expanded@.contains_key(p),
                        );
                }
            }
            assert(self.file_search_expanded@ =~= outside(old_search, removed@));
        }
        if is_under(removed, self.destination.as_str()) {
            self.destination = path.clone();
            self.selected_file = None;
        }
    }

    /// Stores the listing of `path`: folders it no longer holds are forgotten
    /// with everything under them, and the selection follows the new listing.
    pub fn apply_entries(&mut self, path: String, entries: Vec<Entry>)
        requires
            old(self).wf(),
        ensures
            final(self).wf(),
            final(self).tree_cache == old(self).tree_cache,
            final(self)@ == entries_applied(old(self)@, path@, listing_view(entries@)),
    {
        let removed = match self.tree.get(path.as_str()) {
            Some(previous) => Some(removed_folders_of(previous, &entries)),
            None => None,
        };
        match removed {
            Some(removed) => {
                if !removed.is_empty() {
                    self.prune(&removed, &path);
                }
            },
            None => {},
        }
        let ghost v1 = self@;
        let selected = match &self.selected_file {
            Some(selected) => {
                match parent_path(selected.path.as_str()) {
                    Some(parent) => {
                        if same_text(&parent, &path) {
                            Some(find_file(&entries, &selected.path))
                        } else {
                            None
                        }
                    },
                    None => None,
                }
            },
            None => None,
        };
        match selected {
            Some(found) => {
                self.selected_file = found;
            },
            None => {},
        }
        assert(self@.selected_file == reselected(v1.selected_file, path@, listing_view(entries@)));
        self.tree.insert(path, entries);
        proof {
            reveal(entries_applied);
        }
    }
    /// Records that listing each of `paths` failed with `error`, in order.
    fn fail_all(&mut self, paths: Vec<String>, error: &String)
        requires
            old(self).wf(),
        ensures
            final(self).wf(),
            final(self).tree_cache == old(self).tree_cache,
            final(self)@ == (BrowserView {
                tree: failed_all(old(self)@.tree, paths@.map_values(|s: String| s@), error@),
                ..old(self)@
            }),
    {
        let ghost names = paths@.map_values(|s: String| s@);
        let mut i: usize = 0;
        while i < paths.len()
            invariant
                self.wf(),
                self.tree_cache == old(self).tree_cache,
                i <= paths.len(),
                names == paths@.map_values(|s: String| s@),
                self@ == (BrowserView {
                    tree: failed_all(old(self)@.tree, names.take(i as int), error@),
                    ..old(self)@
                }),
            decreases paths.len() - i,
        {
            self.tree.fail(paths[i].clone(), error.clone());
            assert(names.take(i + 1).drop_last() =~= names.take(i as int));
            i = i + 1;
        }
        assert(names.take(paths.len() as int) =~= names);
    }

    /// The listings of a refresh are stored, or their failures recorded, in order.
    fn apply_refresh(&mut self, listings: Vec<(String, Result<Vec<Entry>, String>)>) -> (r: Vec<String>)
        requires
            old(self).wf(),
        ensures
            final(self).wf(),
            final(self).tree_cache == old(self).tree_cache,
            final(self)@ == refreshed(old(self)@, listings@),
            strings_view(r@) == refresh_errors(listings@),
    {
        let ghost all = listings@;
        assert(all.len() == listings.len());
        proof {
            reveal(refreshed);
        }
        let mut rest = listings;
        let mut errors: Vec<String> = Vec::new();
        let mut i: usize = 0;
        while rest.len() > 0
            invariant
                self.wf(),
                self.tree_cache == old(self).tree_cache,
                i + rest@.len() == all.len(),
                all.len() <= usize::MAX,
                rest@ == all.subrange(i as int, all.len() as int),
                self@ == refreshed(old(self)@, all.take(i as int)),
                strings_view(errors@) == refresh_errors(all.take(i as int)),
            decreases rest.len(),
        {
            let (path, result) = rest.remove(0);
            proof {
                reveal(refreshed);
            }
            assert(all.take(i + 1).drop_last() =~= all.take(i as int));
            assert(all.take(i + 1).last() == all[i as int]);
            match result {
                Ok(entries) => {
                    self.apply_entries(path, entries);
                },
                Err(error) => {
                    let mut line = path.clone();
                    push_chars(&mut line, &chars_of(": "));
                    push_chars(&mut line, &chars_of(error.as_str()));
                    errors.push(line);
                    assert(strings_view(errors@) =~= refresh_errors(all.take(i + 1)));
                    self.tree.fail(path, error);
                },
            }
            assert(rest@ =~= all.subrange(i + 1, all.len() as int));
            i = i + 1;
        }
        assert(all.take(i as int) =~= all);
        errors
    }

    fn on_disconnected(&mut self, message: String)
        requires
            old(self).wf(),
        ensures
            final(self).wf(),
            final(self).tree_cache == old(self).tree_cache,
            final(self)@ == after_event(
                old(self)@,
                old(self).file_list_pending.seq(),
                Event::Disconnected(message),
            ),
    {
        self.files_connected = false;
        self.files_busy = false;
        self.progress = None;
        self.preview_inflight = None;
        let pending = self.file_list_pending.take();
        self.fail_all(pending, &message);
        match &mut self.preview {
            Some(preview) => {
                preview.error = Some(message.clone());
            },
            None => {},
        }
        self.message = message;
    }

    fn on_preview(&mut self, id: u64, result: Result<Chunk, String>)
        requires
            result matches Ok(c) ==> c.offset + c.bytes.len() <= u64::MAX,
        ensures
            final(self).wf() == old(self).wf(),
            final(self).tree_cache == old(self).tree_cache,
            final(self)@ == after_event(
                old(self)@,
                old(self).file_list_pending.seq(),
                Event::Preview { id, result },
            ),
    {
        if self.preview_inflight == Some(id) {
            self.preview_inflight = None;
        }
        match &mut self.preview {
            Some(preview) => {
                if preview.id == id {
                    preview.accept(result);
                }
            },
            None => {},
        }
    }

    fn on_connected(&mut self, home: String) -> (r: Option<Request>)
        requires
            old(self).wf(),
            old(self).resume_preview_after_connect && old(self).preview is Some
                ==> old(self).next_preview_id < u64::MAX,
        ensures
            final(self).wf(),
            final(self).tree_cache == old(self).tree_cache,
            final(self)@ == after_connected(old(self)@, home@),
            list_request(connected_at(old(self)@, home@), home, r),
    {
        self.files_connected = true;
        self.files_busy = false;
        self.root = home.clone();
        self.destination = home.clone();
        self.expanded.insert(home.clone());
        let r = self.refresh(home);
        let mut message = "SFTP connected: ".to_owned();
        push_chars(&mut message, &chars_of(self.files_label.as_str()));
        self.message = message;
        if self.resume_preview_after_connect {
            self.resume_preview_after_connect = false;
            let next = self.next_preview_id;
            match &mut self.preview {
                Some(preview) => {
                    preview.id = next;
                    preview.chunk = None;
                    let lines: Vec<String> = Vec::new();
                    proof {
                        assert(strings_view(lines@) =~= Seq::<Seq<char>>::empty());
                    }
                    preview.lines = lines;
                    preview.error = None;
                    self.next_preview_id = next + 1;
                },
                None => {},
            }
        }
        r
    }

    fn on_trust(&mut self, fingerprint: String)
        ensures
            final(self).wf() == old(self).wf(),
            final(self).tree_cache == old(self).tree_cache,
            final(self)@ == after_event(
                old(self)@,
                old(self).file_list_pending.seq(),
                Event::Trust(fingerprint),
            ),
    {
        self.files_busy = false;
        self.fingerprint = Some(fingerprint);
        if self.resume_preview_after_connect {
            match &mut self.preview {
                Some(preview) => {
                    preview.error = Some(
                        "Verify the server fingerprint in Remote files to reconnect.".to_owned(),
                    );
                },
                None => {},
            }
        }
    }

    fn on_entries(&mut self, path: String, entries: Vec<Entry>)
        requires
            old(self).wf(),
        ensures
            final(self).wf(),
            final(self).tree_cache == old(self).tree_cache,
            final(self)@ == after_event(
                old(self)@,
                old(self).file_list_pending.seq(),
                Event::Entries(path, entries),
            ),
    {
        self.file_list_pending.remove(path.as_str());
        self.files_busy = !self.file_list_pending.is_empty();
        self.apply_entries(path, entries);
    }

    fn on_list_failed(&mut self, path: String, error: String)
        requires
            old(self).wf(),
        ensures
            final(self).wf(),
            final(self).tree_cache == old(self).tree_cache,
            final(self)@ == after_event(
                old(self)@,
                old(self).file_list_pending.seq(),
                Event::ListFailed { path, error },
            ),
    {
        self.file_list_pending.remove(path.as_str());
        self.files_busy = !self.file_list_pending.is_empty();
        let mut message = "Could not load ".to_owned();
        push_chars(&mut message, &chars_of(path.as_str()));
        push_chars(&mut message, &chars_of(": "));
        push_chars(&mut message, &chars_of(error.as_str()));
        self.message = message;
        self.tree.fail(path, error);
    }

    #[verifier::spinoff_prover]
    #[verifier::rlimit(30)]
    fn on_refreshed(&mut self, listings: Vec<(String, Result<Vec<Entry>, String>)>)
        requires
            old(self).wf(),
        ensures
            final(self).wf(),
            final(self).tree_cache == old(self).tree_cache,
            final(self)@ == refresh_done(old(self)@, listings@),
    {
        self.files_busy = !self.file_list_pending.is_empty();
        let errors = self.apply_refresh(listings);
        if errors.len() == 0 {
            self.message = "Directory listing refreshed.".to_owned();
        } else {
            let mut message = "Could not refresh ".to_owned();
            let joined = join_lines(&errors, "; ");
            push_chars(&mut message, &chars_of(joined.as_str()));
            self.message = message;
        }
    }

    fn on_done(&mut self, message: String) -> (r: Option<Request>)
        requires
            old(self).wf(),
        ensures
            final(self).wf(),
            final(self).tree_cache == old(self).tree_cache,
            final(self)@ == after_event(
                old(self)@,
                old(self).file_list_pending.seq(),
                Event::Done(message),
            ),
            event_request(old(self)@, Event::Done(message), r),
    {
        self.files_busy = false;
        self.progress = None;
        self.message = message;
        let destination = self.destination.clone();
        self.refresh(destination)
    }

    fn on_error(&mut self, message: String)
        ensures
            final(self).wf() == old(self).wf(),
            final(self).tree_cache == old(self).tree_cache,
            final(self)@ == after_event(
                old(self)@,
                old(self).file_list_pending.seq(),
                Event::Error(message),
            ),
    {
        self.files_busy = false;
        self.progress = None;
        if self.resume_preview_after_connect {
            match &mut self.preview {
                Some(preview) => {
                    preview.error = Some(message.clone());
                },
                None => {},
            }
        }
        self.message = message;
    }

    /// What the worker reported: the state moves as `after_event` says, and
    /// the listing it asks for, if any, is returned for sending.
    pub fn handle_event(&mut self, event: Event) -> (r: Option<Request>)
        requires
            old(self).wf(),
            event_ok(*old(self), event),
        ensures
            final(self).wf(),
            final(self).tree_cache == old(self).tree_cache,
            final(self)@ == after_event(old(self)@, old(self).file_list_pending.seq(), event),
            event_request(old(self)@, event, r),
            event matches Event::Disconnected(m) ==> forall|p: Seq<char>|
                #[trigger] old(self)@.file_list_pending.contains(p)
                    ==> final(self)@.tree.failures.contains_key(p)
                    && final(self)@.tree.failures[p] == m@,
    {
        proof {
            self.file_list_pending.lemma_seq();
            if event is Disconnected {
                disconnection_fails_pending_listings(self@, self.file_list_pending.seq(), event->Disconnected_0);
            }
        }
        match event {
            Event::Disconnected(message) => {
                self.on_disconnected(message);
                None
            },
            Event::Preview { id, result } => {
                self.on_preview(id, result);
                None
            },
            Event::Connected(home) => self.on_connected(home),
            Event::Trust(fingerprint) => {
                self.on_trust(fingerprint);
                None
            },
            Event::Entries(path, entries) => {
                self.on_entries(path, entries);
                None
            },
            Event::ListFailed { path, error } => {
                self.on_list_failed(path, error);
                None
            },
            Event::Refreshed(listings) => {
                self.on_refreshed(listings);
                None
            },
            Event::Progress { name, done, total } => {
                self.progress = Some((name, done, total));
                None
            },
            Event::Done(message) => self.on_done(message),
            Event::Error(message) => {
                self.on_error(message);
                None
            },
        }
    }

    /// The worker's channel closed: pending listings fail, and the browser
    /// must be reconnected. Nothing happens the second time.
    pub fn worker_stopped(&mut self)
        requires
            old(self).wf(),
        ensures
            final(self).wf(),
            final(self).tree_cache == old(self).tree_cache,
            final(self)@ == after_worker_stopped(old(self)@, old(self).file_list_pending.seq()),
            !old(self)@.file_worker_stopped ==> forall|p: Seq<char>|
                #[trigger] old(self)@.file_list_pending.contains(p)
                    ==> final(self)@.tree.failures.contains_key(p)
                    && final(self)@.tree.failures[p] == list_worker_stopped_text(),
    {
        let ghost before = self@;
        let ghost old_pending = self.file_list_pending;
        let ghost pending_seq = self.file_list_pending.seq();
        if !self.file_worker_stopped {
            self.file_worker_stopped = true;
            let pending = self.file_list_pending.take();
            let error = "The file worker stopped. Reconnect to try again.".to_owned();
            self.fail_all(pending, &error);
            self.files_busy = false;
            self.files_connected = false;
            self.preview_inflight = None;
            self.message = "The file worker stopped. Reconnect the file browser to continue.".to_owned();
        }
        proof {
            assert(self@ == after_worker_stopped(before, pending_seq));
            if !before.file_worker_stopped {
                assert forall|p: Seq<char>| #[trigger] before.file_list_pending.contains(p)
                    implies self@.tree.failures.contains_key(p)
                    && self@.tree.failures[p] == list_worker_stopped_text() by {
                    old_pending.lemma_seq();
                    assert(old_pending@.contains(p));
                    assert(pending_seq.contains(p));
                    stopped_worker_fails_pending_listings(before, pending_seq);
                    let w = after_worker_stopped(before, pending_seq);
                    assert(w.tree.failures.contains_key(p));
                    assert(w.tree.failures[p] == list_worker_stopped_text());
                    assert(self@ == w);
                }
            }
        }
    }
    /// The paths that match the search text under the root, with the folders
    /// on the way to them; none when the search is empty. A changed query
    /// drops the folders opened or closed by hand during the previous one.
    pub fn filtered_tree_paths(&mut self) -> (r: Option<Arc<PathSet>>)
        requires
            old(self).wf(),
        ensures
            final(self).wf(),
            final(self)@ == searched(old(self)@),
            exists|mid: TreeCache|
                invalidated(
                    old(self).tree_cache,
                    mid,
                    folded_query(old(self)@.file_search) != old(self)@.file_search_query,
                ) && matches_step(
                    mid,
                    final(self).tree_cache,
                    old(self)@.tree,
                    old(self)@.root,
                    folded_query(old(self)@.file_search),
                ),
            set_view(r) == final(self).tree_cache.cached_matches(),
            trimmed(old(self)@.file_search).len() == 0 ==> r is None
                && final(self)@.file_search_query.len() == 0,
    {
        let trimmed_search = string_of(&trim(self.file_search.as_str()));
        let query = lowercased(trimmed_search.as_str());
        let ghost mid = self.tree_cache;
        if !same_text(&query, &self.file_search_query) {
            self.file_search_expanded.clear();
            self.file_search_query = query.clone();
            self.tree_cache.invalidate_rows();
        }
        let ghost mid = self.tree_cache;
        let r = self.tree_cache.matches(&self.tree, self.root.as_str(), query.as_str());
        assert(invalidated(
            old(self).tree_cache,
            mid,
            folded_query(old(self)@.file_search) != old(self)@.file_search_query,
        ));
        r
    }

    /// Asks the worker to list the root and every open folder again; during a
    /// search the matched folders count as open, as the choices made by hand say.
    pub fn refresh_directory_listing(&mut self) -> (r: Request)
        requires
            old(self).wf(),
        ensures
            final(self).wf(),
            exists|mid: TreeCache|
                invalidated(
                    old(self).tree_cache,
                    mid,
                    folded_query(old(self)@.file_search) != old(self)@.file_search_query,
                ) && matches_step(
                    mid,
                    final(self).tree_cache,
                    old(self)@.tree,
                    old(self)@.root,
                    folded_query(old(self)@.file_search),
                ),
            final(self)@ == (BrowserView {
                files_busy: true,
                message: refreshing_text(),
                ..searched(old(self)@)
            }),
            r matches Request::Refresh { root, expanded } && root@ == old(self)@.root
                && expanded@ == match final(self).tree_cache.cached_matches() {
                Some(m) => search_opened(old(self)@.expanded, m, final(self)@.file_search_expanded),
                None => old(self)@.expanded,
            },
    {
        let mut expanded = self.expanded.duplicate();
        let matches = self.filtered_tree_paths();
        match &matches {
            Some(m) => {
                let paths = m.paths();
                let mut i: usize = 0;
                while i < paths.len()
                    invariant
                        i <= paths.len(),
                        forall|p: Seq<char>| m@.contains(p) <==> exists|k: int| 0 <= k < paths.len() && #[trigger] paths@[k]@ == p,
                        forall|p: Seq<char>| #[trigger] expanded@.contains(p) <==> (old(self)@.expanded.contains(p) || exists|k: int| 0 <= k < i && #[trigger] paths@[k]@ == p),
                    decreases paths.len() - i,
                {
                    expanded.insert(paths[i].clone());
                    assert forall|p: Seq<char>| #[trigger] expanded@.contains(p) <==> (old(self)@.expanded.contains(p) || exists|k: int| 0 <= k < i + 1 && #[trigger] paths@[k]@ == p) by {
                        if p == paths@[i as int]@ {
                            assert(paths@[i as int]@ == p);
                        }
                        if exists|k: int| 0 <= k < i + 1 && #[trigger] paths@[k]@ == p {
                            let k = choose|k: int| 0 <= k < i + 1 && #[trigger] paths@[k]@ == p;
                            if k < i {
                                assert(exists|j: int| 0 <= j < i && #[trigger] paths@[j]@ == p);
                            }
                        }
                    }
                    i = i + 1;
                }
                let ghost base = expanded@;
                assert(base =~= old(self)@.expanded.union(m@));
                let overrides = &self.file_search_expanded;
                proof {
                    overrides.lemma_keys();
                }
                let n = overrides.len();
                let mut j: usize = 0;
                while j < n
                    invariant
                        overrides.wf(),
                        n == overrides.key_seq().len(),
                        n == overrides.len_spec(),
                        overrides.key_seq().no_duplicates(),
                        forall|k: Seq<char>| overrides@.contains_key(k) <==> overrides.key_seq().contains(k),
                        j <= n,
                        forall|p: Seq<char>| #[trigger] expanded@.contains(p) == if overrides.key_seq().take(j as int).contains(p) {
                            overrides@[p]
                        } else {
                            base.contains(p)
                        },
                    decreases n - j,
                {
                    let key = overrides.key_at(j);
                    let open = *overrides.value_at(j);
                    if open {
                        expanded.insert(key.clone());
                    } else {
                        expanded.remove(key.as_str());
                    }
                    assert forall|p: Seq<char>| #[trigger] expanded@.contains(p) == if overrides.key_seq().take(j + 1).contains(p) {
                        overrides@[p]
                    } else {
                        base.contains(p)
                    } by {
                        let before = overrides.key_seq().take(j as int);
                        let after = overrides.key_seq().take(j + 1);
                        assert(after =~= before.push(key@));
                        if after.contains(p) && p != key@ {
                            let i = choose|i: int| 0 <= i < after.len() && after[i] == p;
                            assert(before[i] == p);
                        }
                        if before.contains(p) {
                            let i = choose|i: int| 0 <= i < before.len() && before[i] == p;
                            assert(after[i] == p);
                        }
                        assert(after[j as int] == key@);
                    }
                    j = j + 1;
                }
                proof {
                    assert(overrides.key_seq().take(n as int) =~= overrides.key_seq());
                    assert(expanded@ =~= search_opened(old(self)@.expanded, m@, overrides@));
                }
            },
            None => {},
        }
        self.files_busy = true;
        self.message = "Refreshing directory listing\u{2026}".to_owned();
        Request::Refresh { root: self.root.clone(), expanded }
    }

    /// Reconnects the host whose file is previewed, even when another host is
    /// selected, and resumes the preview where it was.
    pub fn reconnect_preview(&mut self, draft: &Profile) -> (r: Option<Request>)
        requires
            old(self).wf(),
        ensures
            final(self).wf(),
            ({
                let v = BrowserView {
                    resume_preview_after_connect: old(self)@.preview is Some,
                    ..old(self)@
                };
                let chosen = chosen_profile(v, draft@, false);
                exists|key: KeyCheck|
                    {
                        &&& final(self)@ == opened(v, chosen, #[trigger] ssh_args_spec(chosen, key))
                        &&& (trimmed(chosen.identity).len() == 0 ==> key == KeyCheck::Found)
                        &&& ssh_args_spec(chosen, key) is Err ==> r is None
                        &&& ssh_args_spec(chosen, key) is Ok ==> (r matches Some(
                            Request::Connect { profile, trusted: None },
                        ) && profile@ == chosen)
                    }
            }),
    {
        self.resume_preview_after_connect = self.preview.is_some();
        self.connect(draft, None)
    }

    /// Closes the file connection: nothing stays loaded, pending or previewed,
    /// and the search is cleared. The caller starts a fresh worker.
    pub fn disconnect(&mut self)
        requires
            old(self).wf(),
        ensures
            final(self).wf(),
            final(self)@ == disconnected(old(self)@),
            fresh_cache(final(self).tree_cache),
    {
        self.file_list_pending.clear();
        self.file_worker_stopped = false;
        self.files_busy = false;
        self.preview = None;
        self.preview_active = false;
        self.preview_inflight = None;
        self.files_connected = false;
        self.resume_preview_after_connect = false;
        self.tree.clear();
        self.tree_cache = TreeCache::default();
        self.file_search = String::new();
        self.file_search_query = String::new();
        self.file_search_expanded.clear();
        self.selected_file = None;
    }

    /// Moves the root one folder up, opens it and asks for its listing.
    pub fn go_to_parent(&mut self) -> (r: Option<Request>)
        requires
            old(self).wf(),
        ensures
            final(self).wf(),
            final(self).tree_cache == old(self).tree_cache,
            final(self)@ == refreshing(
                rooted_at(old(self)@, parent_dir(old(self)@.root)),
                parent_dir(old(self)@.root),
            ),
            list_request_of(
                rooted_at(old(self)@, parent_dir(old(self)@.root)),
                parent_dir(old(self)@.root),
                r,
            ),
    {
        let trimmed_root = without_trailing_slashes(self.root.as_str());
        let parent = match parent_path(trimmed_root.as_str()) {
            Some(p) => p,
            None => {
                let p = "/".to_owned();
                proof {
                    reveal_strlit("/");
                }
                assert(p@ =~= seq!['/']);
                p
            },
        };
        self.root = parent.clone();
        self.destination = parent.clone();
        self.expanded.insert(parent.clone());
        self.refresh(parent)
    }

    /// Makes the root the upload destination.
    pub fn select_root(&mut self)
        ensures
            final(self).wf() == old(self).wf(),
            final(self).tree_cache == old(self).tree_cache,
            final(self)@ == (BrowserView {
                destination: old(self)@.root,
                selected_file: None,
                ..old(self)@
            }),
    {
        self.destination = self.root.clone();
        self.selected_file = None;
    }

    /// Makes the folder `path` the upload destination.
    pub fn choose_folder(&mut self, path: &str)
        ensures
            final(self).wf() == old(self).wf(),
            final(self).tree_cache == old(self).tree_cache,
            final(self)@ == (BrowserView { destination: path@, selected_file: None, ..old(self)@ }),
    {
        self.destination = path.to_owned();
        self.selected_file = None;
    }

    /// Selects `entry`, makes its folder the upload destination and previews it.
    pub fn choose_file(&mut self, entry: &Entry) -> (r: Option<Request>)
        requires
            entry.file ==> old(self).next_preview_id < u64::MAX,
        ensures
            final(self).tree_cache == old(self).tree_cache,
            final(self).wf() == old(self).wf(),
            ({
                let v = BrowserView {
                    selected_file: Some(entry@),
                    destination: match parent_of(entry@.path) {
                        Some(p) => p,
                        None => seq!['/'],
                    },
                    ..old(self)@
                };
                &&& final(self)@ == pumped(preview_opened(v, entry@))
                &&& entry.file ==> pump_request(preview_opened(v, entry@), r)
                &&& !entry.file ==> r == Some(Request::ClosePreview)
            }),
    {
        self.selected_file = Some(entry.duplicate());
        self.destination = match parent_path(entry.path.as_str()) {
            Some(p) => p,
            None => {
                let p = "/".to_owned();
                proof {
                    reveal_strlit("/");
                }
                assert(p@ =~= seq!['/']);
                p
            },
        };
        self.open_preview(entry)
    }

    /// The folder arrow of `path`, shown open or not, was clicked: the folder
    /// closes or opens, and a listing it needs is asked for. The rows are
    /// flattened again.
    pub fn toggle_folder(&mut self, path: String, shown_open: bool) -> (r: Option<Request>)
        requires
            old(self).wf(),
        ensures
            final(self).wf(),
            invalidated(old(self).tree_cache, final(self).tree_cache, true),
            ({
                let w = folder_toggled(old(self)@, path@, shown_open);
                &&& final(self)@ == if toggle_loads(old(self)@, path@, shown_open) {
                    refreshing(w, path@)
                } else {
                    w
                }
                &&& toggle_loads(old(self)@, path@, shown_open) ==> list_request(w, path, r)
                &&& !toggle_loads(old(self)@, path@, shown_open) ==> r is None
            }),
    {
        let r = if !self.file_search_query.as_str().is_empty() {
            self.file_search_expanded.insert(path.clone(), !shown_open);
            if !shown_open && !self.tree.contains_key(path.as_str()) {
                self.refresh(path)
            } else {
                None
            }
        } else if shown_open {
            self.expanded.remove(path.as_str());
            None
        } else {
            self.expanded.insert(path.clone());
            self.refresh(path)
        };
        self.tree_cache.invalidate_rows();
        r
    }

    /// The user declined to trust the server's fingerprint.
    pub fn cancel_trust(&mut self)
        ensures
            final(self).wf() == old(self).wf(),
            final(self).tree_cache == old(self).tree_cache,
            final(self)@ == (BrowserView { fingerprint: None, ..old(self)@ }),
    {
        self.fingerprint = None;
    }

    /// A file dialog for a transfer opens; nothing else may start meanwhile.
    pub fn begin_dialog(&mut self)
        ensures
            final(self).wf() == old(self).wf(),
            final(self).tree_cache == old(self).tree_cache,
            final(self)@ == (BrowserView { files_busy: true, ..old(self)@ }),
    {
        self.files_busy = true;
    }

    /// The file dialog was closed without choosing anything.
    pub fn dialog_cancelled(&mut self)
        ensures
            final(self).wf() == old(self).wf(),
            final(self).tree_cache == old(self).tree_cache,
            final(self)@ == (BrowserView { files_busy: false, ..old(self)@ }),
    {
        self.files_busy = false;
    }

    /// `dropped` files were dropped on the window, with the files panel
    /// `panel_open` or not and a dialog `modal_open` or not: the remote
    /// folder they are uploaded to (the destination), or `None` with the
    /// reason shown. A drop of no files, or one while a dialog is open, is
    /// ignored.
    pub fn accept_drop(&mut self, dropped: usize, panel_open: bool, modal_open: bool) -> (r:
        Option<String>)
        ensures
            final(self).wf() == old(self).wf(),
            final(self).tree_cache == old(self).tree_cache,
            r is Some == (dropped > 0 && !modal_open && old(self)@.files_connected
                && !old(self)@.files_busy && panel_open),
            r matches Some(d) ==> d@ == old(self)@.destination,
            r is Some || dropped == 0 || modal_open ==> final(self)@ == old(self)@,
            r is None && dropped > 0 && !modal_open ==> final(self)@ == (BrowserView {
                message: if !old(self)@.files_connected {
                    connect_first_text()
                } else if old(self)@.files_busy {
                    wait_text()
                } else {
                    drop_on_panel_text()
                },
                ..old(self)@
            }),
    {
        if dropped == 0 || modal_open {
            None
        } else if !self.files_connected {
            self.message = "Connect the file browser before dropping files.".to_owned();
            None
        } else if self.files_busy {
            self.message = "Wait for the current file operation before uploading more files.".to_owned();
            None
        } else if panel_open {
            Some(self.destination.clone())
        } else {
            self.message = "Drop files onto the Remote files panel to upload them.".to_owned();
            None
        }
    }

    /// Whether the selected entry can be downloaded now.
    pub fn can_download(&self) -> (r: bool)
        ensures
            r == (!self.files_busy && (self.selected_file matches Some(e) && e.file)),
    {
        !self.files_busy && match &self.selected_file {
            Some(e) => e.file,
            None => false,
        }
    }

    /// Whether a connection can be asked for now, with a host selected or not.
    pub fn can_connect(&self, host_selected: bool) -> (r: bool)
        ensures
            r == (host_selected && !self.files_busy && self.fingerprint is None),
    {
        host_selected && !self.files_busy && self.fingerprint.is_none()
    }

    /// Which preview buttons work now, and where they move the preview.
    pub fn preview_controls(&self) -> (r: PreviewControls)
        requires
            self.preview is Some,
        ensures
            (r.reconnect, r.previous, r.next, r.reload) == controls(
                self@,
                preview_view(self.preview->Some_0),
            ),
    {
        let p = match &self.preview {
            Some(p) => p,
            None => {
                return PreviewControls { reconnect: false, previous: None, next: None, reload: false };
            },
        };
        let ready = p.chunk.is_some() || p.error.is_some();
        let idle = !self.files_busy && self.files_connected;
        let next = match &p.chunk {
            Some(c) => {
                if idle && c.has_next() {
                    Some(p.offset.saturating_add(CHUNK_BYTES as u64))
                } else {
                    None
                }
            },
            None => None,
        };
        PreviewControls {
            reconnect: !self.files_connected && !self.files_busy && self.fingerprint.is_none(),
            previous: if ready && idle && p.offset > 0 {
                Some(p.offset.saturating_sub(CHUNK_BYTES as u64))
            } else {
                None
            },
            next,
            reload: ready && idle,
        }
    }

    /// What the preview says while it has no chunk or error to show.
    pub fn waiting_message(&self) -> (r: &'static str)
        ensures
            r@ == if self.files_busy {
                waiting_text()
            } else {
                reading_text()
            },
    {
        if self.files_busy {
            "Waiting for the file operation\u{2026}"
        } else {
            "Reading from the remote host\u{2026}"
        }
    }
}


proof fn lemma_failed_all(t: TreeState, paths: Seq<Seq<char>>, error: Seq<char>)
    ensures
        failed_all(t, paths, error).listings == t.listings,
        forall|p: Seq<char>|
            #[trigger] failed_all(t, paths, error).failures.contains_key(p) <==> (
            t.failures.contains_key(p) || paths.contains(p)),
        forall|p: Seq<char>|
            paths.contains(p) ==> #[trigger] failed_all(t, paths, error).failures[p] == error,
        forall|p: Seq<char>|
            !paths.contains(p) && t.failures.contains_key(p) ==> #[trigger] failed_all(
                t,
                paths,
                error,
            ).failures[p] == t.failures[p],
    decreases paths.len(),
{
    if paths.len() > 0 {
        let rest = paths.drop_last();
        lemma_failed_all(t, rest, error);
        assert forall|p: Seq<char>| paths.contains(p) <==> (rest.contains(p) || p == paths.last()) by {
            if paths.contains(p) && p != paths.last() {
                let i = choose|i: int| 0 <= i < paths.len() && paths[i] == p;
                assert(rest[i] == p);
            }
            if rest.contains(p) {
                let i = choose|i: int| 0 <= i < rest.len() && rest[i] == p;
                assert(paths[i] == p);
            }
            if p == paths.last() {
                assert(paths[paths.len() - 1] == p);
            }
        }
    }
}

/// Asking twice for the listing of a folder sends one request: while the
/// first is pending, the second changes nothing and sends nothing.
pub proof fn repeated_refresh_sends_once(v: BrowserView, path: String)
    ensures
        refreshing(v, path@).file_list_pending.contains(path@),
        refreshing(refreshing(v, path@), path@) == refreshing(v, path@),
        forall|r: Option<Request>| #[trigger] list_request(refreshing(v, path@), path, r) ==> r is None,
{
}

/// At most one preview read is in flight: while one is, nothing more is
/// sent, and a read just counted as sent is not sent again.
pub proof fn one_preview_read_in_flight(v: BrowserView)
    ensures
        v.preview_inflight is Some ==> pumped(v) == v,
        v.preview_inflight is Some ==> forall|r: Option<Request>| #[trigger] pump_request(v, r) ==> r is None,
        forall|r: Option<Request>| #[trigger] pump_request(pumped(v), r) ==> r is None,
        pumped(pumped(v)) == pumped(v),
{
}

/// The outcome of a read that is no longer the one the preview waits for
/// leaves the preview as it is; where it is not the read in flight either,
/// nothing changes at all, and the read in flight is still awaited.
pub proof fn stale_preview_results_are_ignored(
    v: BrowserView,
    pending: Seq<Seq<char>>,
    id: u64,
    result: Result<Chunk, String>,
)
    requires
        v.preview matches Some(p) && p.id != id,
    ensures
        after_event(v, pending, Event::Preview { id, result }).preview == v.preview,
        v.preview_inflight != Some(id) ==> after_event(
            v,
            pending,
            Event::Preview { id, result },
        ) == v,
{
}

/// When the worker stops, every pending listing is recorded as failed and
/// none stays pending; loaded listings stay, and the browser has to be
/// connected again.
pub proof fn stopped_worker_fails_pending_listings(v: BrowserView, pending: Seq<Seq<char>>)
    requires
        !v.file_worker_stopped,
    ensures
        ({
            let w = after_worker_stopped(v, pending);
            &&& w.file_worker_stopped
            &&& w.file_list_pending == Set::<Seq<char>>::empty()
            &&& !w.files_busy
            &&& !w.files_connected
            &&& w.preview_inflight is None
            &&& w.tree.listings == v.tree.listings
            &&& forall|p: Seq<char>|
                pending.contains(p) ==> #[trigger] w.tree.failures.contains_key(p)
                    && w.tree.failures[p] == list_worker_stopped_text()
        }),
{
    lemma_failed_all(v.tree, pending, list_worker_stopped_text());
}

/// A dropped connection fails every pending listing with its message, keeps
/// the loaded listings, stops waiting for a preview read and shows the
/// message on the preview.
pub proof fn disconnection_fails_pending_listings(
    v: BrowserView,
    pending: Seq<Seq<char>>,
    message: String,
)
    ensures
        ({
            let w = after_event(v, pending, Event::Disconnected(message));
            &&& !w.files_connected
            &&& !w.files_busy
            &&& w.preview_inflight is None
            &&& w.file_list_pending == Set::<Seq<char>>::empty()
            &&& w.tree.listings == v.tree.listings
            &&& forall|p: Seq<char>|
                pending.contains(p) ==> #[trigger] w.tree.failures.contains_key(p)
                    && w.tree.failures[p] == message@
            &&& v.preview is Some ==> (w.preview matches Some(p) && p.error == Some(message@)
                && p.offset == v.preview->Some_0.offset)
        }),
{
    lemma_failed_all(v.tree, pending, message@);
}

/// A new listing of a folder forgets each sub-folder that it no longer holds
/// as a folder, with everything under it: its listing and failure, whether
/// it is open, and the choice made for it during a search. The folder then
/// holds the new listing.
pub proof fn vanished_folders_are_forgotten(
    v: BrowserView,
    path: Seq<char>,
    entries: Seq<EntryView>,
    q: Seq<char>,
)
    requires
        v.tree.listings.contains_key(path),
        under(removed_folders(v.tree.listings[path], entries), q),
        q != path,
    ensures
        ({
            let w = entries_applied(v, path, entries);
            &&& !w.tree.listings.contains_key(q)
            &&& !w.tree.failures.contains_key(q)
            &&& !w.expanded.contains(q)
            &&& !w.file_search_expanded.contains_key(q)
            &&& w.tree.listings[path] == entries
            &&& !w.tree.failures.contains_key(path)
        }),
{
    reveal(entries_applied);
    let removed = removed_folders(v.tree.listings[path], entries);
    assert(removed != Set::<Seq<char>>::empty()) by {
        if !removed.contains(q) {
            let i = choose|i: int| 0 <= i < q.len() && q[i] == '/' && #[trigger] removed.contains(q.take(i));
            assert(removed.contains(q.take(i)));
        }
    }
}

/// What a new listing keeps: the listings of folders outside the ones it no
/// longer holds, and an upload destination outside them.
pub proof fn listings_outside_vanished_folders_stay(
    v: BrowserView,
    path: Seq<char>,
    entries: Seq<EntryView>,
    q: Seq<char>,
)
    requires
        q != path,
        !(v.tree.listings.contains_key(path) && under(removed_folders(v.tree.listings[path], entries), q)),
    ensures
        ({
            let w = entries_applied(v, path, entries);
            &&& w.tree.listings.contains_key(q) == v.tree.listings.contains_key(q)
            &&& v.tree.listings.contains_key(q) ==> w.tree.listings[q] == v.tree.listings[q]
            &&& w.expanded.contains(q) == v.expanded.contains(q)
        }),
{
    reveal(entries_applied);
}

/// An upload destination inside a folder that a new listing no longer holds
/// falls back to the listed folder, and the selection is cleared.
pub proof fn destination_leaves_vanished_folders(v: BrowserView, path: Seq<char>, entries: Seq<EntryView>)
    requires
        v.tree.listings.contains_key(path),
        under(removed_folders(v.tree.listings[path], entries), v.destination),
    ensures
        entries_applied(v, path, entries).destination == path,
        entries_applied(v, path, entries).selected_file is None,
{
    reveal(entries_applied);
    let removed = removed_folders(v.tree.listings[path], entries);
    assert(removed != Set::<Seq<char>>::empty()) by {
        if !removed.contains(v.destination) {
            let i = choose|i: int|
                0 <= i < v.destination.len() && v.destination[i] == '/' && #[trigger] removed.contains(
                    v.destination.take(i),
                );
            assert(removed.contains(v.destination.take(i)));
        }
    }
}

/// A preview that waited for a reconnection reads again from the same place
/// of the same file once the connection is up, under a new request number.
pub proof fn reconnection_resumes_the_preview(v: BrowserView, home: Seq<char>)
    requires
        v.resume_preview_after_connect,
        v.preview is Some,
    ensures
        ({
            let w = after_connected(v, home);
            let p = v.preview->Some_0;
            &&& !w.resume_preview_after_connect
            &&& w.preview matches Some(q) && q.path == p.path && q.offset == p.offset
                && q.id == v.next_preview_id && q.chunk is None && q.error is None
            &&& w.files_connected
            &&& w.root == home
        }),
{
}


/// Searching never changes which folders are open outside the search: a new
/// search text, and folder arrows clicked during a search, leave them as
/// they were, so clearing the search restores them.
pub proof fn search_leaves_open_folders_alone(v: BrowserView, path: Seq<char>, shown_open: bool)
    ensures
        searched(v).expanded == v.expanded,
        v.file_search_query.len() > 0 ==> folder_toggled(v, path, shown_open).expanded
            == v.expanded,
        v.file_search_query.len() > 0 ==> refreshing(folder_toggled(v, path, shown_open), path).expanded
            == v.expanded,
{
}

} // verus!
