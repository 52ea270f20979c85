//! Cached search and flattened rows for the remote tree. This module performs no I/O.
use crate::files::{listing_view, Entry, EntryView};
use crate::paths::{same_text, PathMap, PathSet};
use crate::text::{chars_of, contains_chars, contains_seq, lowercased, lowercase};
use std::sync::Arc;
use vstd::prelude::*;

verus! {

/// Nothing below this many levels under the root is searched or shown.
pub const MAX_DEPTH: usize = 64;

/// One loaded directory listing, with its names folded for search.
#[derive(Debug)]
pub struct Directory {
    pub entries: Vec<Entry>,
    folded_names: Vec<String>,
}

impl Directory {
    pub closed spec fn listing(&self) -> Seq<EntryView> {
        listing_view(self.entries@)
    }

    /// Each folded name is the lowercase form of the entry's name.
    pub closed spec fn wf(&self) -> bool {
        &&& self.folded_names.len() == self.entries.len()
        &&& forall|i: int|
            0 <= i < self.entries.len() ==> #[trigger] self.folded_names@[i]@ == lowercase(
                self.entries@[i].name@,
            )
    }

    fn new(entries: Vec<Entry>) -> (d: Directory)
        ensures
            d.wf(),
            d.entries@ == entries@,
    {
        let mut folded_names: Vec<String> = Vec::new();
        let mut i: usize = 0;
        while i < entries.len()
            invariant
                i <= entries.len(),
                folded_names.len() == i,
                forall|j: int|
                    0 <= j < i ==> #[trigger] folded_names@[j]@ == lowercase(
                        entries@[j].name@,
                    ),
            decreases entries.len() - i,
        {
            folded_names.push(lowercased(entries[i].name.as_str()));
            i = i + 1;
        }
        Directory { entries, folded_names }
    }
}

/// The listings and failures of a tree, and its revision.
pub struct TreeState {
    pub listings: Map<Seq<char>, Seq<EntryView>>,
    pub failures: Map<Seq<char>, Seq<char>>,
    pub revision: u64,
}

/// The revision after `r`, wrapping at the end of `u64`.
pub open spec fn next_revision(r: u64) -> u64 {
    if r == u64::MAX {
        0
    } else {
        (r + 1) as u64
    }
}

/// The loaded directory listings of the remote tree, and the paths whose
/// last listing failed.
pub struct DirectoryTree {
    directories: PathMap<Arc<Directory>>,
    errors: PathMap<Arc<String>>,
    revision: u64,
}

impl View for DirectoryTree {
    type V = TreeState;

    closed spec fn view(&self) -> TreeState {
        TreeState {
            listings: self.directories@.map_values(|d: Arc<Directory>| d.listing()),
            failures: self.errors@.map_values(|e: Arc<String>| e@),
            revision: self.revision,
        }
    }
}

impl Default for DirectoryTree {
    fn default() -> (t: DirectoryTree)
        ensures
            t.wf(),
            t@.listings == Map::<Seq<char>, Seq<EntryView>>::empty(),
            t@.failures == Map::<Seq<char>, Seq<char>>::empty(),
            t@.revision == 0,
    {
        let t = DirectoryTree { directories: PathMap::new(), errors: PathMap::new(), revision: 0 };
        assert(t@.listings =~= Map::<Seq<char>, Seq<EntryView>>::empty());
        assert(t@.failures =~= Map::<Seq<char>, Seq<char>>::empty());
        t
    }
}

impl DirectoryTree {
    /// Both maps are well formed and every stored directory keeps its folded names.
    pub closed spec fn wf(&self) -> bool {
        &&& self.directories.wf()
        &&& self.errors.wf()
        &&& forall|p: Seq<char>| #[trigger]
            self.directories@.contains_key(p) ==> self.directories@[p].wf()
    }

    fn bump(&mut self)
        ensures
            final(self).revision == next_revision(old(self).revision),
            final(self).directories == old(self).directories,
            final(self).errors == old(self).errors,
    {
        self.revision = if self.revision == u64::MAX {
            0
        } else {
            self.revision + 1
        };
    }

    /// Stores the listing of `path`, replacing an earlier one, and clears its failure.
    pub fn insert(&mut self, path: String, entries: Vec<Entry>)
        requires
            old(self).wf(),
        ensures
            final(self).wf(),
            final(self)@.listings == old(self)@.listings.insert(path@, listing_view(entries@)),
            final(self)@.failures == old(self)@.failures.remove(path@),
            final(self)@.revision == next_revision(old(self)@.revision),
    {
        self.errors.remove(path.as_str());
        let ghost p = path@;
        let directory = Directory::new(entries);
        self.directories.insert(path, Arc::new(directory));
        self.bump();
        assert(self@.listings =~= old(self)@.listings.insert(p, listing_view(entries@)));
        assert(self@.failures =~= old(self)@.failures.remove(p));
    }

    /// The listing of `path`, if it is loaded.
    pub fn get(&self, path: &str) -> (r: Option<&Vec<Entry>>)
        requires
            self.wf(),
        ensures
            r matches Some(v) ==> self@.listings.contains_key(path@) && self@.listings[path@]
                == listing_view(v@),
            r is None ==> !self@.listings.contains_key(path@),
    {
        match self.directories.get(path) {
            Some(d) => Some(&d.entries),
            None => None,
        }
    }

    pub fn contains_key(&self, path: &str) -> (r: bool)
        requires
            self.wf(),
        ensures
            r == self@.listings.contains_key(path@),
    {
        self.directories.contains_key(path)
    }

    /// Forgets every listing and failure.
    pub fn clear(&mut self)
        requires
            old(self).wf(),
        ensures
            final(self).wf(),
            final(self)@.listings == Map::<Seq<char>, Seq<EntryView>>::empty(),
            final(self)@.failures == Map::<Seq<char>, Seq<char>>::empty(),
            final(self)@.revision == next_revision(old(self)@.revision),
    {
        self.directories.clear();
        self.errors.clear();
        self.bump();
        assert(self@.listings =~= Map::<Seq<char>, Seq<EntryView>>::empty());
        assert(self@.failures =~= Map::<Seq<char>, Seq<char>>::empty());
    }

    /// Records that listing `path` failed with `error`; a loaded listing stays.
    pub fn fail(&mut self, path: String, error: String)
        requires
            old(self).wf(),
        ensures
            final(self).wf(),
            final(self)@.listings == old(self)@.listings,
            final(self)@.failures == old(self)@.failures.insert(path@, error@),
            final(self)@.revision == next_revision(old(self)@.revision),
    {
        let ghost p = path@;
        let ghost e = error@;
        self.errors.insert(path, Arc::new(error));
        self.bump();
        assert(self@.failures =~= old(self)@.failures.insert(p, e));
        assert(self@.listings =~= old(self)@.listings);
    }

    /// Clears the failure of `path`; the revision moves only if there was one.
    pub fn retry(&mut self, path: &str)
        requires
            old(self).wf(),
        ensures
            final(self).wf(),
            final(self)@.listings == old(self)@.listings,
            final(self)@.failures == old(self)@.failures.remove(path@),
            final(self)@.revision == if old(self)@.failures.contains_key(path@) {
                next_revision(old(self)@.revision)
            } else {
                old(self)@.revision
            },
    {
        if self.errors.remove(path).is_some() {
            self.bump();
        }
        assert(self@.failures =~= old(self)@.failures.remove(path@));
        assert(self@.listings =~= old(self)@.listings);
    }

    /// Forgets the listing of `path`; the revision moves only if there was one.
    pub fn remove(&mut self, path: &str)
        requires
            old(self).wf(),
        ensures
            final(self).wf(),
            final(self)@.listings == old(self)@.listings.remove(path@),
            final(self)@.failures == old(self)@.failures,
            final(self)@.revision == if old(self)@.listings.contains_key(path@) {
                next_revision(old(self)@.revision)
            } else {
                old(self)@.revision
            },
    {
        if self.directories.remove(path).is_some() {
            self.bump();
        }
        assert(self@.listings =~= old(self)@.listings.remove(path@));
        assert(self@.failures =~= old(self)@.failures);
    }

    /// Keeps the listings and failures of the paths that `keep` accepts, given
    /// the path and its loaded listing (empty if none is loaded); the revision
    /// moves only if something was dropped.
    pub fn retain<F: Fn(&str, &Vec<Entry>) -> bool>(&mut self, keep: F)
        requires
            old(self).wf(),
            forall|p: &str, v: &Vec<Entry>| #[trigger] keep.requires((p, v)),
        ensures
            final(self).wf(),
            final(self)@.listings.dom().subset_of(old(self)@.listings.dom()),
            final(self)@.failures.dom().subset_of(old(self)@.failures.dom()),
            forall|p: Seq<char>| #[trigger]
                final(self)@.listings.contains_key(p) ==> final(self)@.listings[p]
                    == old(self)@.listings[p],
            forall|p: Seq<char>| #[trigger]
                final(self)@.failures.contains_key(p) ==> final(self)@.failures[p]
                    == old(self)@.failures[p],
            forall|p: Seq<char>| #[trigger]
                old(self)@.listings.contains_key(p) ==> keeps(
                    keep,
                    p,
                    old(self)@.listings[p],
                    final(self)@.listings.contains_key(p),
                ),
            forall|p: Seq<char>| #[trigger]
                old(self)@.failures.contains_key(p) ==> keeps(
                    keep,
                    p,
                    listing_or_empty(old(self)@.listings, p),
                    final(self)@.failures.contains_key(p),
                ),
            final(self)@.revision == if final(self)@.listings == old(self)@.listings
                && final(self)@.failures == old(self)@.failures {
                old(self)@.revision
            } else {
                next_revision(old(self)@.revision)
            },
    {
        let ghost old_view = self@;
        let empty: Vec<Entry> = Vec::new();
        proof {
            self.errors.lemma_keys();
            self.directories.lemma_keys();
            assert(listing_view(empty@) =~= Seq::<EntryView>::empty());
        }
        let mut errors: PathMap<Arc<String>> = PathMap::new();
        let mut errors_dropped = false;
        let n = self.errors.len();
        let mut i: usize = 0;
        while i < n
            invariant
                self.wf(),
                self@ == old_view,
                n == self.errors.len_spec(),
                errors.wf(),
                listing_view(empty@) == Seq::<EntryView>::empty(),
                forall|p: &str, v: &Vec<Entry>| #[trigger] keep.requires((p, v)),
                i <= n,
                self.errors.key_seq().no_duplicates(),
                self.errors.key_seq().len() == n,
                forall|p: Seq<char>|
                    self.errors@.contains_key(p) <==> self.errors.key_seq().contains(p),
                forall|p: Seq<char>| #[trigger]
                    errors@.contains_key(p) ==> self.errors.key_seq().take(i as int).contains(p)
                        && errors@[p] == self.errors@[p],
                forall|k: int|
                    0 <= k < i ==> keeps(
                        keep,
                        #[trigger] self.errors.key_seq()[k],
                        listing_or_empty(old_view.listings, self.errors.key_seq()[k]),
                        errors@.contains_key(self.errors.key_seq()[k]),
                    ),
                errors_dropped <==> exists|k: int|
                    0 <= k < i && !errors@.contains_key(#[trigger] self.errors.key_seq()[k]),
            decreases n - i,
        {
            let path = self.errors.key_at(i);
            let listing = match self.directories.get(path.as_str()) {
                Some(d) => &d.entries,
                None => &empty,
            };
            let kept = keep(path.as_str(), listing);
            let ghost key = path@;
            let ghost before = errors@;
            proof {
                assert(!self.errors.key_seq().take(i as int).contains(key)) by {
                    if self.errors.key_seq().take(i as int).contains(key) {
                        let j = choose|j: int|
                            0 <= j < i && self.errors.key_seq().take(i as int)[j] == key;
                        assert(self.errors.key_seq()[j] == self.errors.key_seq()[i as int]);
                    }
                }
                assert(listing_view(listing@) == listing_or_empty(old_view.listings, key));
                assert(keeps(keep, key, listing_or_empty(old_view.listings, key), kept));
            }
            if kept {
                errors.push_new(path.clone(), self.errors.value_at(i).clone());
            } else {
                errors_dropped = true;
            }
            proof {
                assert(self.errors.key_seq().take(i + 1) == self.errors.key_seq().take(
                    i as int,
                ).push(key));
                assert forall|k: int| 0 <= k < i implies #[trigger] self.errors.key_seq()[k] != key by {
                    assert(self.errors.key_seq().take(i as int)[k] == self.errors.key_seq()[k]);
                }
                assert(errors@.contains_key(key) == kept);
                assert(self.errors.key_seq().take(i + 1).contains(key)) by {
                    assert(self.errors.key_seq().take(i + 1)[i as int] == key);
                }
                assert forall|p: Seq<char>| self.errors.key_seq().take(i as int).contains(p) implies #[trigger] self.errors.key_seq().take(i + 1).contains(p) by {
                    let q = choose|q: int| 0 <= q < i && self.errors.key_seq().take(i as int)[q] == p;
                    assert(self.errors.key_seq().take(i + 1)[q] == p);
                }
                if kept {
                    assert(errors@[key] == self.errors@[key]);
                    assert(errors@ == before.insert(key, self.errors@[key]));
                } else {
                    assert(errors@ == before);
                    assert(!errors@.contains_key(self.errors.key_seq()[i as int]));
                }
            }
            i = i + 1;
        }
        proof {
            assert(self.errors.key_seq().take(i as int) == self.errors.key_seq());
            assert forall|p: Seq<char>| #[trigger]
                old_view.failures.contains_key(p) implies keeps(
                keep,
                p,
                listing_or_empty(old_view.listings, p),
                errors@.contains_key(p),
            ) by {
                assert(self.errors.key_seq().contains(p));
                let k = choose|k: int| 0 <= k < n && self.errors.key_seq()[k] == p;
                assert(keeps(
                    keep,
                    self.errors.key_seq()[k],
                    listing_or_empty(old_view.listings, self.errors.key_seq()[k]),
                    errors@.contains_key(self.errors.key_seq()[k]),
                ));
            }
            if errors_dropped {
                let k = choose|k: int|
                    0 <= k < n && !errors@.contains_key(#[trigger] self.errors.key_seq()[k]);
                assert(self.errors.key_seq().contains(self.errors.key_seq()[k]));
                assert(self.errors@.contains_key(self.errors.key_seq()[k]));
            } else {
                assert forall|p: Seq<char>| self.errors@.contains_key(p) implies #[trigger] errors@.contains_key(p) by {
                    assert(self.errors.key_seq().contains(p));
                    let k = choose|k: int| 0 <= k < n && self.errors.key_seq()[k] == p;
                    assert(errors@.contains_key(self.errors.key_seq()[k]));
                }
                assert(errors@ =~= self.errors@);
            }
        }
        let mut directories: PathMap<Arc<Directory>> = PathMap::new();
        let mut dirs_dropped = false;
        let m = self.directories.len();
        let mut j: usize = 0;
        while j < m
            invariant
                self.wf(),
                self@ == old_view,
                m == self.directories.len_spec(),
                directories.wf(),
                forall|p: &str, v: &Vec<Entry>| #[trigger] keep.requires((p, v)),
                j <= m,
                self.directories.key_seq().no_duplicates(),
                self.directories.key_seq().len() == m,
                forall|p: Seq<char>|
                    self.directories@.contains_key(p) <==> self.directories.key_seq().contains(p),
                forall|p: Seq<char>| #[trigger]
                    directories@.contains_key(p) ==> self.directories.key_seq().take(
                        j as int,
                    ).contains(p) && directories@[p] == self.directories@[p],
                forall|k: int|
                    0 <= k < j ==> keeps(
                        keep,
                        #[trigger] self.directories.key_seq()[k],
                        old_view.listings[self.directories.key_seq()[k]],
                        directories@.contains_key(self.directories.key_seq()[k]),
                    ),
                dirs_dropped <==> exists|k: int|
                    0 <= k < j && !directories@.contains_key(
                        #[trigger] self.directories.key_seq()[k],
                    ),
            decreases m - j,
        {
            let path = self.directories.key_at(j);
            let directory = self.directories.value_at(j);
            let kept = keep(path.as_str(), &directory.entries);
            let ghost key = path@;
            let ghost before = directories@;
            proof {
                assert(!self.directories.key_seq().take(j as int).contains(key)) by {
                    if self.directories.key_seq().take(j as int).contains(key) {
                        let q = choose|q: int|
                            0 <= q < j && self.directories.key_seq().take(j as int)[q] == key;
                        assert(self.directories.key_seq()[q] == self.directories.key_seq()[j as int]);
                    }
                }
                assert(keeps(keep, key, old_view.listings[key], kept));
            }
            if kept {
                directories.push_new(path.clone(), directory.clone());
            } else {
                dirs_dropped = true;
            }
            proof {
                assert(self.directories.key_seq().take(j + 1) == self.directories.key_seq().take(
                    j as int,
                ).push(key));
                assert forall|k: int| 0 <= k < j implies #[trigger] self.directories.key_seq()[k] != key by {
                    assert(self.directories.key_seq().take(j as int)[k] == self.directories.key_seq()[k]);
                }
                assert(directories@.contains_key(key) == kept);
                assert(self.directories.key_seq().take(j + 1).contains(key)) by {
                    assert(self.directories.key_seq().take(j + 1)[j as int] == key);
                }
                assert forall|p: Seq<char>| self.directories.key_seq().take(j as int).contains(p) implies #[trigger] self.directories.key_seq().take(j + 1).contains(p) by {
                    let q = choose|q: int| 0 <= q < j && self.directories.key_seq().take(j as int)[q] == p;
                    assert(self.directories.key_seq().take(j + 1)[q] == p);
                }
                if kept {
                    assert(directories@[key] == self.directories@[key]);
                    assert(directories@ == before.insert(key, self.directories@[key]));
                } else {
                    assert(directories@ == before);
                    assert(!directories@.contains_key(self.directories.key_seq()[j as int]));
                }
            }
            j = j + 1;
        }
        proof {
            assert(self.directories.key_seq().take(j as int) == self.directories.key_seq());
            assert forall|p: Seq<char>| #[trigger]
                old_view.listings.contains_key(p) implies keeps(
                keep,
                p,
                old_view.listings[p],
                directories@.contains_key(p),
            ) by {
                assert(self.directories.key_seq().contains(p));
                let k = choose|k: int| 0 <= k < m && self.directories.key_seq()[k] == p;
                assert(keeps(
                    keep,
                    self.directories.key_seq()[k],
                    old_view.listings[self.directories.key_seq()[k]],
                    directories@.contains_key(self.directories.key_seq()[k]),
                ));
            }
            if dirs_dropped {
                let k = choose|k: int|
                    0 <= k < m && !directories@.contains_key(
                        #[trigger] self.directories.key_seq()[k],
                    );
                assert(self.directories.key_seq().contains(self.directories.key_seq()[k]));
                assert(self.directories@.contains_key(self.directories.key_seq()[k]));
            } else {
                assert forall|p: Seq<char>| self.directories@.contains_key(p) implies #[trigger] directories@.contains_key(p) by {
                    assert(self.directories.key_seq().contains(p));
                    let k = choose|k: int| 0 <= k < m && self.directories.key_seq()[k] == p;
                    assert(directories@.contains_key(self.directories.key_seq()[k]));
                }
                assert(directories@ =~= self.directories@);
            }
        }
        let ghost old_dirs = self.directories@;
        let ghost old_errors = self.errors@;
        self.errors = errors;
        self.directories = directories;
        if errors_dropped || dirs_dropped {
            self.bump();
        }
        proof {
            if dirs_dropped {
                let k = choose|k: int|
                    0 <= k < m && !directories@.contains_key(
                        #[trigger] old(self).directories.key_seq()[k],
                    );
                let p = old(self).directories.key_seq()[k];
                assert(old_view.listings.contains_key(p));
                assert(!self@.listings.contains_key(p));
            } else {
                assert(self@.listings =~= old_view.listings);
            }
            if errors_dropped {
                let k = choose|k: int|
                    0 <= k < n && !errors@.contains_key(#[trigger] old(self).errors.key_seq()[k]);
                let p = old(self).errors.key_seq()[k];
                assert(old_view.failures.contains_key(p));
                assert(!self@.failures.contains_key(p));
            } else {
                assert(self@.failures =~= old_view.failures);
            }
        }
    }
}

/// What a search under one directory finds: whether anything matched, the
/// paths shown as matches, and the folders opened to reveal them.
pub struct SearchResult {
    pub found: bool,
    pub matches: Set<Seq<char>>,
    pub expanded: Set<Seq<char>>,
}

pub open spec fn nothing_found() -> SearchResult {
    SearchResult { found: false, matches: Set::empty(), expanded: Set::empty() }
}

/// Whether the folded name of `e` holds `query`.
pub open spec fn name_matches(e: EntryView, query: Seq<char>) -> bool {
    contains_seq(lowercase(e.name), query)
}

/// The search of the loaded listing of `path`, `depth` levels below the root.
pub open spec fn search_dir(
    listings: Map<Seq<char>, Seq<EntryView>>,
    path: Seq<char>,
    query: Seq<char>,
    depth: int,
) -> SearchResult
    decreases 65 - depth, 1int, 0int,
{
    if depth > MAX_DEPTH || !listings.contains_key(path) {
        nothing_found()
    } else {
        search_entries(listings, listings[path], query, depth, listings[path].len() as int)
    }
}

/// The search of the first `n` entries of `entries`, a listing `depth` levels below the root.
pub open spec fn search_entries(
    listings: Map<Seq<char>, Seq<EntryView>>,
    entries: Seq<EntryView>,
    query: Seq<char>,
    depth: int,
    n: int,
) -> SearchResult
    decreases 65 - depth, 0int, n,
{
    if n <= 0 {
        nothing_found()
    } else {
        let before = search_entries(listings, entries, query, depth, n - 1);
        let e = entries[n - 1];
        let below = if e.directory && depth < MAX_DEPTH {
            search_dir(listings, e.path, query, depth + 1)
        } else {
            nothing_found()
        };
        let hit = below.found || name_matches(e, query);
        SearchResult {
            found: before.found || hit,
            matches: (before.matches + below.matches).union(
                if hit { set![e.path] } else { Set::empty() },
            ),
            expanded: (before.expanded + below.expanded).union(
                if below.found { set![e.path] } else { Set::empty() },
            ),
        }
    }
}

/// Searches the loaded listing of `path`, adding what it finds to `matches`
/// and `expanded`; gives whether anything matched.
fn collect_matches(
    tree: &DirectoryTree,
    path: &str,
    query: &Vec<char>,
    depth: usize,
    matches: &mut PathSet,
    expanded: &mut PathSet,
) -> (found: bool)
    requires
        tree.wf(),
    ensures
        found == search_dir(tree@.listings, path@, query@, depth as int).found,
        final(matches)@ == old(matches)@ + search_dir(tree@.listings, path@, query@, depth as int).matches,
        final(expanded)@ == old(expanded)@ + search_dir(
            tree@.listings,
            path@,
            query@,
            depth as int,
        ).expanded,
    decreases 65 - depth,
{
    if depth > MAX_DEPTH {
        assert(old(matches)@ + Set::empty() =~= old(matches)@);
        assert(old(expanded)@ + Set::empty() =~= old(expanded)@);
        return false;
    }
    let directory = match tree.directories.get(path) {
        Some(d) => d,
        None => {
            assert(old(matches)@ + Set::empty() =~= old(matches)@);
            assert(old(expanded)@ + Set::empty() =~= old(expanded)@);
            return false;
        },
    };
    let ghost listings = tree@.listings;
    let ghost entries = listings[path@];
    assert(entries == listing_view(directory.entries@));
    let mut found = false;
    let mut i: usize = 0;
    proof {
        assert(old(matches)@ + Set::empty() =~= old(matches)@);
        assert(old(expanded)@ + Set::empty() =~= old(expanded)@);
    }
    while i < directory.entries.len()
        invariant
            tree.wf(),
            depth <= MAX_DEPTH,
            listings == tree@.listings,
            directory.wf(),
            entries == listing_view(directory.entries@),
            i <= directory.entries.len(),
            found == search_entries(listings, entries, query@, depth as int, i as int).found,
            matches@ == old(matches)@ + search_entries(
                listings,
                entries,
                query@,
                depth as int,
                i as int,
            ).matches,
            expanded@ == old(expanded)@ + search_entries(
                listings,
                entries,
                query@,
                depth as int,
                i as int,
            ).expanded,
        decreases directory.entries.len() - i,
    {
        let entry = &directory.entries[i];
        let ghost e = entries[i as int];
        assert(e == entry@);
        let child_matches = entry.directory && collect_matches(
            tree,
            entry.path.as_str(),
            query,
            depth + 1,
            matches,
            expanded,
        );
        proof {
            if !entry.directory || depth == MAX_DEPTH {
                assert(matches@ + Set::empty() =~= matches@);
                assert(expanded@ + Set::empty() =~= expanded@);
            }
        }
        if child_matches {
            expanded.insert(entry.path.clone());
        }
        let folded = chars_of(directory.folded_names[i].as_str());
        assert(folded@ == lowercase(e.name));
        if child_matches || contains_chars(&folded, query) {
            matches.insert(entry.path.clone());
            found = true;
        }
        proof {
            let before = search_entries(listings, entries, query@, depth as int, i as int);
            let after = search_entries(listings, entries, query@, depth as int, i + 1);
            let below = if e.directory && depth < MAX_DEPTH {
                search_dir(listings, e.path, query@, depth + 1)
            } else {
                nothing_found()
            };
            assert(matches@ =~= old(matches)@ + after.matches);
            assert(expanded@ =~= old(expanded)@ + after.expanded);
        }
        i = i + 1;
    }
    found
}

/// One line of the flattened tree.
pub enum TreeRow {
    /// Listing `path` failed with `error`.
    Error { depth: usize, path: String, error: Arc<String> },
    /// The entry at `index` of `directory`.
    Entry { directory: Arc<Directory>, index: usize, depth: usize, expanded: bool },
    /// A notice in place of entries.
    Message { depth: usize, text: &'static str },
}

/// What a `TreeRow` holds, as plain values.
pub enum RowView {
    Error { depth: nat, path: Seq<char>, error: Seq<char> },
    Entry { listing: Seq<EntryView>, index: nat, depth: nat, expanded: bool },
    Message { depth: nat, text: Seq<char> },
}

impl View for TreeRow {
    type V = RowView;

    closed spec fn view(&self) -> RowView {
        match self {
            TreeRow::Error { depth, path, error } => RowView::Error {
                depth: *depth as nat,
                path: path@,
                error: error@,
            },
            TreeRow::Entry { directory, index, depth, expanded } => RowView::Entry {
                listing: directory.listing(),
                index: *index as nat,
                depth: *depth as nat,
                expanded: *expanded,
            },
            TreeRow::Message { depth, text } => RowView::Message {
                depth: *depth as nat,
                text: text@,
            },
        }
    }
}

pub open spec fn rows_view(rows: Seq<TreeRow>) -> Seq<RowView> {
    rows.map_values(|r: TreeRow| r@)
}

/// Shown where a search matched nothing.
pub open spec fn no_match_text() -> Seq<char> {
    "No matching files or folders."@
}

/// Shown under a folder whose listing has not arrived.
pub open spec fn loading_text() -> Seq<char> {
    "Loading…"@
}

/// Shown under a folder with no entries.
pub open spec fn empty_folder_text() -> Seq<char> {
    "Empty folder"@
}

/// Everything the flattened rows depend on.
pub struct RowInputs {
    pub listings: Map<Seq<char>, Seq<EntryView>>,
    pub failures: Map<Seq<char>, Seq<char>>,
    pub matches: Option<Set<Seq<char>>>,
    pub auto_expanded: Set<Seq<char>>,
    pub expanded: Set<Seq<char>>,
    pub overrides: Map<Seq<char>, bool>,
}

/// Whether entry `e` is listed: always when `show_all`, and otherwise
/// unless a search is active and `e` is not among its matches.
pub open spec fn is_shown(ctx: RowInputs, e: EntryView, show_all: bool) -> bool {
    show_all || match ctx.matches {
        Some(m) => m.contains(e.path),
        None => true,
    }
}

/// Whether folder entry `e` is open. During a search a user's choice for the
/// folder wins; without one, folders opened by the search are open, and so
/// are the user's open folders inside a fully revealed folder.
pub open spec fn is_open(ctx: RowInputs, e: EntryView, show_all: bool) -> bool {
    e.directory && match ctx.matches {
        Some(_) => if ctx.overrides.contains_key(e.path) {
            ctx.overrides[e.path]
        } else {
            (show_all && ctx.expanded.contains(e.path)) || ctx.auto_expanded.contains(e.path)
        },
        None => ctx.expanded.contains(e.path),
    }
}

/// Whether the contents of open folder `e` are all shown, not only matches.
pub open spec fn reveals_all(ctx: RowInputs, e: EntryView, show_all: bool) -> bool {
    ctx.matches is Some && (show_all || (ctx.overrides.contains_key(e.path)
        && ctx.overrides[e.path]))
}

/// The rows of directory `path`, `depth` levels below the root.
pub open spec fn rows_dir(ctx: RowInputs, path: Seq<char>, depth: int, show_all: bool) -> Seq<
    RowView,
>
    decreases 65 - depth, 1int, 0int,
{
    if depth > MAX_DEPTH {
        Seq::empty()
    } else {
        let failed = ctx.failures.contains_key(path);
        let head = if failed {
            seq![RowView::Error { depth: depth as nat, path, error: ctx.failures[path] }]
        } else {
            Seq::empty()
        };
        if !ctx.listings.contains_key(path) {
            if failed {
                head
            } else {
                seq![RowView::Message { depth: depth as nat, text: loading_text() }]
            }
        } else {
            let listing = ctx.listings[path];
            let note = if listing.len() == 0 {
                seq![RowView::Message { depth: depth as nat, text: empty_folder_text() }]
            } else {
                Seq::empty()
            };
            head + note + rows_entries(ctx, listing, depth, show_all, listing.len() as int)
        }
    }
}

/// The rows of the first `n` entries of `listing`, `depth` levels below the root.
pub open spec fn rows_entries(
    ctx: RowInputs,
    listing: Seq<EntryView>,
    depth: int,
    show_all: bool,
    n: int,
) -> Seq<RowView>
    decreases 65 - depth, 0int, n,
{
    if n <= 0 {
        Seq::empty()
    } else {
        let before = rows_entries(ctx, listing, depth, show_all, n - 1);
        let e = listing[n - 1];
        if !is_shown(ctx, e, show_all) {
            before
        } else {
            let open = is_open(ctx, e, show_all);
            let row = RowView::Entry {
                listing,
                index: (n - 1) as nat,
                depth: depth as nat,
                expanded: open,
            };
            let below = if open && depth < MAX_DEPTH {
                rows_dir(ctx, e.path, depth + 1, reveals_all(ctx, e, show_all))
            } else {
                Seq::empty()
            };
            before.push(row) + below
        }
    }
}

struct RowBuilder<'a> {
    tree: &'a DirectoryTree,
    matches: Option<&'a PathSet>,
    auto_expanded: &'a PathSet,
    expanded: &'a PathSet,
    overrides: &'a PathMap<bool>,
}

impl<'a> RowBuilder<'a> {
    spec fn inputs(&self) -> RowInputs {
        RowInputs {
            listings: self.tree@.listings,
            failures: self.tree@.failures,
            matches: match self.matches {
                Some(m) => Some(m@),
                None => None,
            },
            auto_expanded: self.auto_expanded@,
            expanded: self.expanded@,
            overrides: self.overrides@,
        }
    }

    /// Appends the rows of directory `path` to `rows`.
    fn collect(&self, path: &str, depth: usize, show_all: bool, rows: &mut Vec<TreeRow>)
        requires
            self.tree.wf(),
            self.overrides.wf(),
        ensures
            rows_view(final(rows)@) == rows_view(old(rows)@) + rows_dir(
                self.inputs(),
                path@,
                depth as int,
                show_all,
            ),
        decreases 65 - depth,
    {
        let ghost ctx = self.inputs();
        if depth > MAX_DEPTH {
            assert(rows_view(rows@) =~= rows_view(old(rows)@) + Seq::<RowView>::empty());
            return;
        }
        let failed = match self.tree.errors.get(path) {
            Some(error) => {
                rows.push(TreeRow::Error { depth, path: path.to_owned(), error: error.clone() });
                true
            },
            None => false,
        };
        let ghost head = if failed {
            seq![RowView::Error { depth: depth as nat, path: path@, error: ctx.failures[path@] }]
        } else {
            Seq::<RowView>::empty()
        };
        assert(rows_view(rows@) =~= rows_view(old(rows)@) + head);
        let directory = match self.tree.directories.get(path) {
            Some(d) => d,
            None => {
                if !failed {
                    rows.push(TreeRow::Message { depth, text: "Loading…" });
                }
                assert(rows_view(rows@) =~= rows_view(old(rows)@) + rows_dir(
                    ctx,
                    path@,
                    depth as int,
                    show_all,
                ));
                return;
            },
        };
        let ghost listing = ctx.listings[path@];
        assert(listing == listing_view(directory.entries@));
        if directory.entries.len() == 0 {
            rows.push(TreeRow::Message { depth, text: "Empty folder" });
        }
        let ghost note = if listing.len() == 0 {
            seq![RowView::Message { depth: depth as nat, text: empty_folder_text() }]
        } else {
            Seq::<RowView>::empty()
        };
        assert(rows_view(rows@) =~= rows_view(old(rows)@) + head + note);
        let mut i: usize = 0;
        while i < directory.entries.len()
            invariant
                self.tree.wf(),
                self.overrides.wf(),
                ctx == self.inputs(),
                depth <= MAX_DEPTH,
                listing == listing_view(directory.entries@),
                listing == ctx.listings[path@],
                i <= directory.entries.len(),
                rows_view(rows@) == rows_view(old(rows)@) + head + note + rows_entries(
                    ctx,
                    listing,
                    depth as int,
                    show_all,
                    i as int,
                ),
            decreases directory.entries.len() - i,
        {
            let entry = &directory.entries[i];
            let ghost e = listing[i as int];
            assert(e == entry@);
            let ghost before = rows_view(rows@);
            let shown = show_all || match self.matches {
                Some(m) => m.contains(entry.path.as_str()),
                None => true,
            };
            if shown {
                let open = entry.directory && match self.matches {
                    Some(_) => match self.overrides.get(entry.path.as_str()) {
                        Some(choice) => *choice,
                        None => (show_all && self.expanded.contains(entry.path.as_str()))
                            || self.auto_expanded.contains(entry.path.as_str()),
                    },
                    None => self.expanded.contains(entry.path.as_str()),
                };
                assert(open == is_open(ctx, e, show_all));
                rows.push(TreeRow::Entry { directory: directory.clone(), index: i, depth, expanded: open });
                assert(rows_view(rows@) =~= before.push(
                    RowView::Entry { listing, index: i as nat, depth: depth as nat, expanded: open },
                ));
                if open {
                    let reveal = match self.matches {
                        Some(_) => show_all || match self.overrides.get(entry.path.as_str()) {
                            Some(choice) => *choice,
                            None => false,
                        },
                        None => false,
                    };
                    assert(reveal == reveals_all(ctx, e, show_all));
                    let ghost mid = rows_view(rows@);
                    self.collect(entry.path.as_str(), depth + 1, reveal, rows);
                    proof {
                        if depth == MAX_DEPTH {
                            assert(rows_dir(ctx, e.path, depth + 1, reveal) =~= Seq::<RowView>::empty());
                        }
                    }
                }
            }
            assert(rows_view(rows@) =~= rows_view(old(rows)@) + head + note + rows_entries(
                ctx,
                listing,
                depth as int,
                show_all,
                i + 1,
            ));
            i = i + 1;
        }
    }
}

/// The counter after `n`, wrapping at the end of `usize`.
pub open spec fn next_count(n: usize) -> usize {
    if n == usize::MAX {
        0
    } else {
        (n + 1) as usize
    }
}

fn count_up(n: usize) -> (r: usize)
    ensures
        r == next_count(n),
{
    if n == usize::MAX {
        0
    } else {
        n + 1
    }
}

/// Whether `a` and `b` hold the same characters.
fn text_eq(a: &String, b: &str) -> (r: bool)
    ensures
        r == (a@ == b@),
{
    same_text(a, &b.to_owned())
}

/// The search result for `query` under `root`: none for an empty query.
pub open spec fn search_for(t: TreeState, root: Seq<char>, query: Seq<char>) -> Option<Set<Seq<char>>> {
    if query.len() == 0 {
        None
    } else {
        Some(search_dir(t.listings, root, query, 0).matches)
    }
}

/// The folders that a search for `query` under `root` opens.
pub open spec fn opened_for(t: TreeState, root: Seq<char>, query: Seq<char>) -> Set<Seq<char>> {
    if query.len() == 0 {
        Set::empty()
    } else {
        search_dir(t.listings, root, query, 0).expanded
    }
}

/// The rows of the whole tree under `root`: one notice when a search found nothing.
pub open spec fn flattened(ctx: RowInputs, root: Seq<char>) -> Seq<RowView> {
    if ctx.matches == Some(Set::<Seq<char>>::empty()) {
        seq![RowView::Message { depth: 0, text: no_match_text() }]
    } else {
        rows_dir(ctx, root, 0, false)
    }
}

pub open spec fn set_view(o: Option<Arc<PathSet>>) -> Option<Set<Seq<char>>> {
    match o {
        Some(s) => Some(s@),
        None => None,
    }
}

/// The search and the flattened rows of the tree, kept until the tree's
/// revision, the root or the query changes.
pub struct TreeCache {
    key: Option<(u64, String, String)>,
    matches: Option<Arc<PathSet>>,
    auto_expanded: PathSet,
    rows: Arc<Vec<TreeRow>>,
    rows_dirty: bool,
    reset_scroll: bool,
    /// How many searches were run.
    pub search_builds: usize,
    /// How many times the rows were flattened.
    pub row_builds: usize,
}

impl Default for TreeCache {
    fn default() -> (c: TreeCache)
        ensures
            c.cached_key() is None,
            c.cached_matches() is None,
            c.cached_expanded() == Set::<Seq<char>>::empty(),
            c.cached_rows() == Seq::<RowView>::empty(),
            !c.rows_stale(),
            !c.scroll_pending(),
            c.searches() == 0,
            c.flattenings() == 0,
    {
        let c = TreeCache {
            key: None,
            matches: None,
            auto_expanded: PathSet::new(),
            rows: Arc::new(Vec::new()),
            rows_dirty: false,
            reset_scroll: false,
            search_builds: 0,
            row_builds: 0,
        };
        assert(c.cached_rows() =~= Seq::<RowView>::empty());
        c
    }
}

/// Whether `c` holds the search for this revision, root and query.
pub open spec fn cache_hit(c: TreeCache, t: TreeState, root: Seq<char>, query: Seq<char>) -> bool {
    c.cached_key() == Some((t.revision, root, query))
}

/// A stored search for the empty query holds no matches.
pub open spec fn search_consistent(c: TreeCache) -> bool {
    c.cached_key() matches Some(k) && k.2.len() == 0 ==> c.cached_matches() is None
}

/// Whether `c` was last searched for this root and query, at any revision.
pub open spec fn same_search(c: TreeCache, root: Seq<char>, query: Seq<char>) -> bool {
    c.cached_key() matches Some(k) && k.1 == root && k.2 == query
}

/// How the search part of the cache goes from `before` to `after` when
/// asked for `query` under `root` in tree `t`.
pub open spec fn search_step(
    before: TreeCache,
    after: TreeCache,
    t: TreeState,
    root: Seq<char>,
    query: Seq<char>,
) -> bool {
    if cache_hit(before, t, root, query) {
        &&& after.cached_key() == before.cached_key()
        &&& after.cached_matches() == before.cached_matches()
        &&& after.cached_expanded() == before.cached_expanded()
        &&& after.scroll_pending() == before.scroll_pending()
        &&& after.searches() == before.searches()
    } else {
        &&& after.cached_key() == Some((t.revision, root, query))
        &&& after.cached_matches() == search_for(t, root, query)
        &&& after.cached_expanded() == opened_for(t, root, query)
        &&& after.scroll_pending() == (before.scroll_pending() || !same_search(before, root, query))
        &&& after.searches() == if query.len() == 0 {
            before.searches()
        } else {
            next_count(before.searches())
        }
    }
}

/// What `TreeCache::matches` does.
pub open spec fn matches_step(
    before: TreeCache,
    after: TreeCache,
    t: TreeState,
    root: Seq<char>,
    query: Seq<char>,
) -> bool {
    &&& search_step(before, after, t, root, query)
    &&& after.cached_rows() == before.cached_rows()
    &&& after.flattenings() == before.flattenings()
    &&& after.rows_stale() == (before.rows_stale() || !cache_hit(before, t, root, query))
}

/// What `TreeCache::rows` does.
pub open spec fn rows_step(
    before: TreeCache,
    after: TreeCache,
    t: TreeState,
    root: Seq<char>,
    query: Seq<char>,
    expanded: Set<Seq<char>>,
    overrides: Map<Seq<char>, bool>,
) -> bool {
    &&& search_step(before, after, t, root, query)
    &&& !after.rows_stale()
    &&& if before.rows_stale() || !cache_hit(before, t, root, query) {
        &&& after.cached_rows() == flattened(
            RowInputs {
                listings: t.listings,
                failures: t.failures,
                matches: after.cached_matches(),
                auto_expanded: after.cached_expanded(),
                expanded,
                overrides,
            },
            root,
        )
        &&& after.flattenings() == next_count(before.flattenings())
    } else {
        &&& after.cached_rows() == before.cached_rows()
        &&& after.flattenings() == before.flattenings()
    }
}

impl TreeCache {
    pub closed spec fn cached_key(&self) -> Option<(u64, Seq<char>, Seq<char>)> {
        match self.key {
            Some(k) => Some((k.0, k.1@, k.2@)),
            None => None,
        }
    }

    pub closed spec fn cached_matches(&self) -> Option<Set<Seq<char>>> {
        set_view(self.matches)
    }

    pub closed spec fn cached_expanded(&self) -> Set<Seq<char>> {
        self.auto_expanded@
    }

    pub closed spec fn cached_rows(&self) -> Seq<RowView> {
        rows_view(self.rows@)
    }

    pub closed spec fn searches(&self) -> usize {
        self.search_builds
    }

    pub closed spec fn flattenings(&self) -> usize {
        self.row_builds
    }

    pub closed spec fn rows_stale(&self) -> bool {
        self.rows_dirty
    }

    pub closed spec fn scroll_pending(&self) -> bool {
        self.reset_scroll
    }

    /// Makes the next call of `rows` flatten the tree again.
    pub fn invalidate_rows(&mut self)
        ensures
            final(self).rows_stale(),
            final(self).cached_key() == old(self).cached_key(),
            final(self).cached_matches() == old(self).cached_matches(),
            final(self).cached_expanded() == old(self).cached_expanded(),
            final(self).cached_rows() == old(self).cached_rows(),
            final(self).scroll_pending() == old(self).scroll_pending(),
            final(self).searches() == old(self).searches(),
            final(self).flattenings() == old(self).flattenings(),
    {
        self.rows_dirty = true;
    }

    /// Whether the view should scroll back to the top, which it asks only once.
    pub fn take_scroll_reset(&mut self) -> (r: bool)
        ensures
            r == old(self).scroll_pending(),
            !final(self).scroll_pending(),
            final(self).rows_stale() == old(self).rows_stale(),
            final(self).cached_key() == old(self).cached_key(),
            final(self).cached_matches() == old(self).cached_matches(),
            final(self).cached_expanded() == old(self).cached_expanded(),
            final(self).cached_rows() == old(self).cached_rows(),
            final(self).searches() == old(self).searches(),
            final(self).flattenings() == old(self).flattenings(),
    {
        let r = self.reset_scroll;
        self.reset_scroll = false;
        r
    }

    fn current_matches(&self) -> (r: Option<Arc<PathSet>>)
        ensures
            set_view(r) == self.cached_matches(),
    {
        match &self.matches {
            Some(m) => Some(m.clone()),
            None => None,
        }
    }

    /// The paths that match `query` under `root`, with the folders on the way
    /// to them; none for an empty query. A repeated call for the same
    /// revision, root and query gives the stored answer.
    pub fn matches(&mut self, tree: &DirectoryTree, root: &str, query: &str) -> (r: Option<
        Arc<PathSet>,
    >)
        requires
            tree.wf(),
        ensures
            matches_step(*old(self), *final(self), tree@, root@, query@),
            set_view(r) == final(self).cached_matches(),
    {
        let hit = match &self.key {
            Some(k) => k.0 == tree.revision && text_eq(&k.1, root) && text_eq(&k.2, query),
            None => false,
        };
        if hit {
            return self.current_matches();
        }
        let same = match &self.key {
            Some(k) => text_eq(&k.1, root) && text_eq(&k.2, query),
            None => false,
        };
        self.reset_scroll = self.reset_scroll || !same;
        self.key = Some((tree.revision, root.to_owned(), query.to_owned()));
        self.rows_dirty = true;
        self.auto_expanded.clear();
        if query.is_empty() {
            self.matches = None;
        } else {
            self.search_builds = count_up(self.search_builds);
            let mut found = PathSet::new();
            let q = chars_of(query);
            collect_matches(tree, root, &q, 0, &mut found, &mut self.auto_expanded);
            assert(found@ =~= search_dir(tree@.listings, root@, query@, 0).matches);
            assert(self.auto_expanded@ =~= search_dir(tree@.listings, root@, query@, 0).expanded);
            self.matches = Some(Arc::new(found));
        }
        proof {
            if query@.len() == 0 {
                assert(self.auto_expanded@ =~= Set::<Seq<char>>::empty());
            }
        }
        self.current_matches()
    }

    /// The flattened rows of the tree under `root` for `query`, with the
    /// user's open folders and their choices during a search. Rows are
    /// flattened again only when the search changed or they were invalidated.
    pub fn rows(
        &mut self,
        tree: &DirectoryTree,
        root: &str,
        query: &str,
        expanded: &PathSet,
        overrides: &PathMap<bool>,
    ) -> (r: Arc<Vec<TreeRow>>)
        requires
            tree.wf(),
            overrides.wf(),
        ensures
            rows_step(*old(self), *final(self), tree@, root@, query@, expanded@, overrides@),
            rows_view(r@) == final(self).cached_rows(),
    {
        let _ = self.matches(tree, root, query);
        if self.rows_dirty {
            let mut rows: Vec<TreeRow> = Vec::new();
            let none_found = match &self.matches {
                Some(m) => m.is_empty(),
                None => false,
            };
            if none_found {
                rows.push(TreeRow::Message { depth: 0, text: "No matching files or folders." });
                assert(rows_view(rows@) =~= seq![RowView::Message { depth: 0, text: no_match_text() }]);
            } else {
                let builder = RowBuilder {
                    tree,
                    matches: match &self.matches {
                        Some(m) => Some(&**m),
                        None => None,
                    },
                    auto_expanded: &self.auto_expanded,
                    expanded,
                    overrides,
                };
                builder.collect(root, 0, false, &mut rows);
                assert(rows_view(rows@) =~= rows_dir(builder.inputs(), root@, 0, false));
            }
            self.rows = Arc::new(rows);
            self.rows_dirty = false;
            self.row_builds = count_up(self.row_builds);
        }
        self.rows.clone()
    }
}

/// The listing of `p` in `listings`, or an empty one.
pub open spec fn listing_or_empty(listings: Map<Seq<char>, Seq<EntryView>>, p: Seq<char>) -> Seq<
    EntryView,
> {
    if listings.contains_key(p) {
        listings[p]
    } else {
        Seq::empty()
    }
}

/// `keep` may answer `answer` when given path `p` and a listing viewed as `listing`.
pub open spec fn keeps<F: Fn(&str, &Vec<Entry>) -> bool>(
    keep: F,
    p: Seq<char>,
    listing: Seq<EntryView>,
    answer: bool,
) -> bool {
    exists|s: &str, v: &Vec<Entry>|
        s@ == p && listing_view(v@) == listing && #[trigger] keep.ensures((s, v), answer)
}

/// A repeated request for the rows of an unchanged tree, with the same root
/// and query, is served from the cache: nothing is searched or flattened again.
pub proof fn repeated_rows_are_reused(
    c0: TreeCache,
    c1: TreeCache,
    c2: TreeCache,
    t: TreeState,
    root: Seq<char>,
    query: Seq<char>,
    expanded: Set<Seq<char>>,
    overrides: Map<Seq<char>, bool>,
    later_expanded: Set<Seq<char>>,
    later_overrides: Map<Seq<char>, bool>,
)
    requires
        rows_step(c0, c1, t, root, query, expanded, overrides),
        rows_step(c1, c2, t, root, query, later_expanded, later_overrides),
    ensures
        c2.cached_rows() == c1.cached_rows(),
        c2.cached_matches() == c1.cached_matches(),
        c2.flattenings() == c1.flattenings(),
        c2.searches() == c1.searches(),
{
}

/// A repeated search of an unchanged tree, with the same root and query,
/// gives the stored answer without searching again.
pub proof fn repeated_searches_are_reused(
    c0: TreeCache,
    c1: TreeCache,
    c2: TreeCache,
    t: TreeState,
    root: Seq<char>,
    query: Seq<char>,
)
    requires
        matches_step(c0, c1, t, root, query),
        matches_step(c1, c2, t, root, query),
    ensures
        c2.cached_matches() == c1.cached_matches(),
        c2.searches() == c1.searches(),
        c2.cached_matches() == search_for(t, root, query) || cache_hit(c0, t, root, query),
{
}

/// Once the tree has a new revision, the next request searches again (for
/// a non-empty query) and flattens the changed tree anew.
pub proof fn changed_trees_are_flattened_again(
    c0: TreeCache,
    c1: TreeCache,
    c2: TreeCache,
    before: TreeState,
    after: TreeState,
    root: Seq<char>,
    query: Seq<char>,
    expanded: Set<Seq<char>>,
    overrides: Map<Seq<char>, bool>,
)
    requires
        rows_step(c0, c1, before, root, query, expanded, overrides),
        rows_step(c1, c2, after, root, query, expanded, overrides),
        before.revision != after.revision,
    ensures
        c2.cached_matches() == search_for(after, root, query),
        query.len() > 0 ==> c2.searches() == next_count(c1.searches()),
        c2.flattenings() == next_count(c1.flattenings()),
        c2.cached_rows() == flattened(
            RowInputs {
                listings: after.listings,
                failures: after.failures,
                matches: search_for(after, root, query),
                auto_expanded: opened_for(after, root, query),
                expanded,
                overrides,
            },
            root,
        ),
{
}

proof fn lemma_search_entries_grow(
    listings: Map<Seq<char>, Seq<EntryView>>,
    entries: Seq<EntryView>,
    query: Seq<char>,
    depth: int,
    i: int,
    n: int,
)
    requires
        0 <= i <= n,
    ensures
        search_entries(listings, entries, query, depth, i).matches.subset_of(
            search_entries(listings, entries, query, depth, n).matches,
        ),
        search_entries(listings, entries, query, depth, i).expanded.subset_of(
            search_entries(listings, entries, query, depth, n).expanded,
        ),
        search_entries(listings, entries, query, depth, i).found ==> search_entries(
            listings,
            entries,
            query,
            depth,
            n,
        ).found,
    decreases n - i,
{
    if i < n {
        lemma_search_entries_grow(listings, entries, query, depth, i, n - 1);
    }
}

/// Every entry of a searched listing whose folded name holds the query is
/// among the matches.
pub proof fn search_finds_matching_names(
    listings: Map<Seq<char>, Seq<EntryView>>,
    path: Seq<char>,
    query: Seq<char>,
    depth: int,
    i: int,
)
    requires
        listings.contains_key(path),
        0 <= depth <= MAX_DEPTH,
        0 <= i < listings[path].len(),
        name_matches(listings[path][i], query),
    ensures
        search_dir(listings, path, query, depth).found,
        search_dir(listings, path, query, depth).matches.contains(listings[path][i].path),
{
    let entries = listings[path];
    lemma_search_entries_grow(listings, entries, query, depth, i + 1, entries.len() as int);
}

/// `chain` is a path of entries down from the listing of `path`: its first
/// entry is listed there, and each later one is listed in the loaded
/// listing of the folder before it.
pub open spec fn entry_chain(
    listings: Map<Seq<char>, Seq<EntryView>>,
    path: Seq<char>,
    chain: Seq<EntryView>,
) -> bool {
    &&& chain.len() >= 1
    &&& listings.contains_key(path)
    &&& listings[path].contains(chain[0])
    &&& forall|j: int|
        0 <= j < chain.len() - 1 ==> (#[trigger] chain[j]).directory && listings.contains_key(
            chain[j].path,
        ) && listings[chain[j].path].contains(chain[j + 1])
}

proof fn lemma_search_follows_chain(
    listings: Map<Seq<char>, Seq<EntryView>>,
    path: Seq<char>,
    query: Seq<char>,
    depth: int,
    chain: Seq<EntryView>,
)
    requires
        entry_chain(listings, path, chain),
        0 <= depth,
        depth + chain.len() <= MAX_DEPTH + 1,
        name_matches(chain.last(), query),
    ensures
        search_dir(listings, path, query, depth).found,
        forall|j: int|
            0 <= j < chain.len() ==> search_dir(listings, path, query, depth).matches.contains(
                (#[trigger] chain[j]).path,
            ),
        forall|j: int|
            0 <= j < chain.len() - 1 ==> search_dir(
                listings,
                path,
                query,
                depth,
            ).expanded.contains((#[trigger] chain[j]).path),
    decreases chain.len(),
{
    let entries = listings[path];
    let n = entries.len() as int;
    let i = choose|i: int| 0 <= i < entries.len() && entries[i] == chain[0];
    let e = entries[i];
    let step = search_entries(listings, entries, query, depth, i + 1);
    let below = if e.directory && depth < MAX_DEPTH {
        search_dir(listings, e.path, query, depth + 1)
    } else {
        nothing_found()
    };
    if chain.len() > 1 {
        let rest = chain.drop_first();
        assert(chain[0].directory && listings.contains_key(chain[0].path)
            && listings[chain[0].path].contains(chain[1]));
        assert forall|j: int| 0 <= j < rest.len() - 1 implies (#[trigger] rest[j]).directory
            && listings.contains_key(rest[j].path) && listings[rest[j].path].contains(
            rest[j + 1],
        ) by {
            assert(rest[j] == chain[j + 1]);
            assert(rest[j + 1] == chain[j + 2]);
        }
        assert(rest.last() == chain.last());
        lemma_search_follows_chain(listings, e.path, query, depth + 1, rest);
        assert forall|j: int| 1 <= j < chain.len() implies step.matches.contains(
            (#[trigger] chain[j]).path,
        ) by {
            assert(chain[j] == rest[j - 1]);
        }
        assert forall|j: int| 1 <= j < chain.len() - 1 implies step.expanded.contains(
            (#[trigger] chain[j]).path,
        ) by {
            assert(chain[j] == rest[j - 1]);
        }
    }
    assert(step.found);
    assert(step.matches.contains(e.path));
    lemma_search_entries_grow(listings, entries, query, depth, i + 1, n);
}

/// A search finds a matching entry however deep it lies, down to the depth
/// limit: for every chain of loaded folders from the root to an entry whose
/// lowercased name holds the query, the entry is a match, every folder on
/// the way to it is a match too, and the search opens those folders.
pub proof fn search_finds_matches_at_every_depth(
    t: TreeState,
    root: Seq<char>,
    query: Seq<char>,
    chain: Seq<EntryView>,
)
    requires
        entry_chain(t.listings, root, chain),
        chain.len() <= MAX_DEPTH + 1,
        name_matches(chain.last(), query),
    ensures
        search_dir(t.listings, root, query, 0).found,
        forall|j: int|
            0 <= j < chain.len() ==> search_dir(t.listings, root, query, 0).matches.contains(
                (#[trigger] chain[j]).path,
            ),
        forall|j: int|
            0 <= j < chain.len() - 1 ==> search_dir(t.listings, root, query, 0).expanded.contains(
                (#[trigger] chain[j]).path,
            ),
        query.len() > 0 ==> (search_for(t, root, query) matches Some(m) && forall|j: int|
            0 <= j < chain.len() ==> m.contains((#[trigger] chain[j]).path)),
{
    lemma_search_follows_chain(t.listings, root, query, 0, chain);
}

/// `chain` leads from the listing of `path`, `depth` levels below the root,
/// down to an entry whose lowercased name holds `query`, within the depth limit.
pub open spec fn leads_to_match(
    listings: Map<Seq<char>, Seq<EntryView>>,
    path: Seq<char>,
    depth: int,
    query: Seq<char>,
    chain: Seq<EntryView>,
) -> bool {
    &&& entry_chain(listings, path, chain)
    &&& depth + chain.len() <= MAX_DEPTH + 1
    &&& name_matches(chain.last(), query)
}

proof fn lemma_chain_extend(
    listings: Map<Seq<char>, Seq<EntryView>>,
    path: Seq<char>,
    depth: int,
    query: Seq<char>,
    e: EntryView,
    chain: Seq<EntryView>,
)
    requires
        listings.contains_key(path),
        listings[path].contains(e),
        e.directory,
        leads_to_match(listings, e.path, depth + 1, query, chain),
    ensures
        leads_to_match(listings, path, depth, query, seq![e] + chain),
{
    let c = seq![e] + chain;
    assert(c[0] == e);
    assert(c.last() == chain.last());
    assert forall|j: int| 0 <= j < c.len() - 1 implies (#[trigger] c[j]).directory
        && listings.contains_key(c[j].path) && listings[c[j].path].contains(c[j + 1]) by {
        if j > 0 {
            assert(c[j] == chain[j - 1]);
            assert(c[j + 1] == chain[j]);
        } else {
            assert(c[1] == chain[0]);
        }
    }
}

proof fn lemma_search_sound_dir(
    listings: Map<Seq<char>, Seq<EntryView>>,
    path: Seq<char>,
    query: Seq<char>,
    depth: int,
)
    requires
        0 <= depth,
    ensures
        search_dir(listings, path, query, depth).found ==> exists|chain: Seq<EntryView>|
            leads_to_match(listings, path, depth, query, chain),
        forall|p: Seq<char>|
            #[trigger] search_dir(listings, path, query, depth).matches.contains(p) ==> exists|
                chain: Seq<EntryView>,
                j: int,
            |
                leads_to_match(listings, path, depth, query, chain) && 0 <= j < chain.len()
                    && (#[trigger] chain[j]).path == p,
    decreases 65 - depth, 1int, 0int,
{
    if depth <= MAX_DEPTH && listings.contains_key(path) {
        lemma_search_sound_entries(listings, path, query, depth, listings[path].len() as int);
    }
}

proof fn lemma_search_sound_entries(
    listings: Map<Seq<char>, Seq<EntryView>>,
    path: Seq<char>,
    query: Seq<char>,
    depth: int,
    n: int,
)
    requires
        0 <= depth <= MAX_DEPTH,
        listings.contains_key(path),
        n <= listings[path].len(),
    ensures
        search_entries(listings, listings[path], query, depth, n).found ==> exists|
            chain: Seq<EntryView>,
        | leads_to_match(listings, path, depth, query, chain),
        forall|p: Seq<char>|
            #[trigger] search_entries(listings, listings[path], query, depth, n).matches.contains(
                p,
            ) ==> exists|chain: Seq<EntryView>, j: int|
                leads_to_match(listings, path, depth, query, chain) && 0 <= j < chain.len()
                    && (#[trigger] chain[j]).path == p,
    decreases 65 - depth, 0int, n,
{
    if n > 0 {
        let entries = listings[path];
        lemma_search_sound_entries(listings, path, query, depth, n - 1);
        let before = search_entries(listings, entries, query, depth, n - 1);
        let e = entries[n - 1];
        assert(entries.contains(e));
        let deeper = e.directory && depth < MAX_DEPTH;
        let below = if deeper {
            search_dir(listings, e.path, query, depth + 1)
        } else {
            nothing_found()
        };
        if deeper {
            lemma_search_sound_dir(listings, e.path, query, depth + 1);
        }
        let r = search_entries(listings, entries, query, depth, n);
        let hit = below.found || name_matches(e, query);
        if hit {
            if name_matches(e, query) {
                let c = seq![e];
                assert(c.last() == e);
                assert(leads_to_match(listings, path, depth, query, c));
                assert(c[0].path == e.path);
            } else {
                let c = choose|c: Seq<EntryView>| #[trigger] leads_to_match(listings, e.path, depth + 1, query, c);
                lemma_chain_extend(listings, path, depth, query, e, c);
                assert((seq![e] + c)[0].path == e.path);
            }
        }
        assert forall|p: Seq<char>| #[trigger] r.matches.contains(p) implies exists|
            chain: Seq<EntryView>,
            j: int,
        |
            leads_to_match(listings, path, depth, query, chain) && 0 <= j < chain.len()
                && (#[trigger] chain[j]).path == p by {
            if before.matches.contains(p) {
            } else if below.matches.contains(p) {
                let (c, j) = choose|c: Seq<EntryView>, j: int|
                    leads_to_match(listings, e.path, depth + 1, query, c) && 0 <= j < c.len()
                        && (#[trigger] c[j]).path == p;
                lemma_chain_extend(listings, path, depth, query, e, c);
                assert((seq![e] + c)[j + 1] == c[j]);
            } else {
                assert(hit && p == e.path);
                if name_matches(e, query) {
                    let c = seq![e];
                    assert(c.last() == e);
                    assert(leads_to_match(listings, path, depth, query, c));
                    assert(c[0].path == p);
                } else {
                    let c = choose|c: Seq<EntryView>|
                        #[trigger] leads_to_match(listings, e.path, depth + 1, query, c);
                    lemma_chain_extend(listings, path, depth, query, e, c);
                    assert((seq![e] + c)[0].path == p);
                }
            }
        }
    }
}

/// A search shows nothing it did not find: every match is an entry whose
/// lowercased name holds the query, or a folder on the way from the root
/// to such an entry, within the depth limit.
pub proof fn search_matches_only_what_it_finds(
    t: TreeState,
    root: Seq<char>,
    query: Seq<char>,
    p: Seq<char>,
)
    requires
        search_dir(t.listings, root, query, 0).matches.contains(p),
    ensures
        exists|chain: Seq<EntryView>, j: int|
            entry_chain(t.listings, root, chain) && chain.len() <= MAX_DEPTH + 1 && name_matches(
                chain.last(),
                query,
            ) && 0 <= j < chain.len() && (#[trigger] chain[j]).path == p,
{
    lemma_search_sound_dir(t.listings, root, query, 0);
}

proof fn lemma_opened_are_matched_dir(
    listings: Map<Seq<char>, Seq<EntryView>>,
    path: Seq<char>,
    query: Seq<char>,
    depth: int,
)
    ensures
        search_dir(listings, path, query, depth).expanded.subset_of(
            search_dir(listings, path, query, depth).matches,
        ),
        !search_dir(listings, path, query, depth).found ==> search_dir(
            listings,
            path,
            query,
            depth,
        ).matches.is_empty(),
    decreases 65 - depth, 1int, 0int,
{
    if depth <= MAX_DEPTH && listings.contains_key(path) {
        lemma_opened_are_matched_entries(
            listings,
            listings[path],
            query,
            depth,
            listings[path].len() as int,
        );
    }
}

proof fn lemma_opened_are_matched_entries(
    listings: Map<Seq<char>, Seq<EntryView>>,
    entries: Seq<EntryView>,
    query: Seq<char>,
    depth: int,
    n: int,
)
    ensures
        search_entries(listings, entries, query, depth, n).expanded.subset_of(
            search_entries(listings, entries, query, depth, n).matches,
        ),
        !search_entries(listings, entries, query, depth, n).found ==> search_entries(
            listings,
            entries,
            query,
            depth,
            n,
        ).matches.is_empty(),
    decreases 65 - depth, 0int, n,
{
    if n > 0 {
        lemma_opened_are_matched_entries(listings, entries, query, depth, n - 1);
        let e = entries[n - 1];
        if e.directory && depth < MAX_DEPTH {
            lemma_opened_are_matched_dir(listings, e.path, query, depth + 1);
        }
        let r = search_entries(listings, entries, query, depth, n);
        if !r.found {
            assert(r.matches =~= Set::<Seq<char>>::empty());
        }
    }
}

/// A search opens only folders that it also shows as matches, and a search
/// that finds nothing shows no matches.
pub proof fn search_opens_only_matched_folders(
    listings: Map<Seq<char>, Seq<EntryView>>,
    root: Seq<char>,
    query: Seq<char>,
)
    ensures
        search_dir(listings, root, query, 0).expanded.subset_of(
            search_dir(listings, root, query, 0).matches,
        ),
        !search_dir(listings, root, query, 0).found ==> search_dir(
            listings,
            root,
            query,
            0,
        ).matches.is_empty(),
{
    lemma_opened_are_matched_dir(listings, root, query, 0);
}

/// How deep a row stands.
pub open spec fn row_depth(r: RowView) -> nat {
    match r {
        RowView::Error { depth, .. } => depth,
        RowView::Entry { depth, .. } => depth,
        RowView::Message { depth, .. } => depth,
    }
}

proof fn lemma_rows_prefix(
    ctx: RowInputs,
    listing: Seq<EntryView>,
    depth: int,
    show_all: bool,
    i: int,
    n: int,
)
    requires
        0 <= i <= n,
    ensures
        rows_entries(ctx, listing, depth, show_all, i).len() <= rows_entries(
            ctx,
            listing,
            depth,
            show_all,
            n,
        ).len(),
        rows_entries(ctx, listing, depth, show_all, n).subrange(
            0,
            rows_entries(ctx, listing, depth, show_all, i).len() as int,
        ) == rows_entries(ctx, listing, depth, show_all, i),
    decreases n - i,
{
    if i < n {
        lemma_rows_prefix(ctx, listing, depth, show_all, i, n - 1);
        let a = rows_entries(ctx, listing, depth, show_all, i);
        let b = rows_entries(ctx, listing, depth, show_all, n - 1);
        let c = rows_entries(ctx, listing, depth, show_all, n);
        assert(c.subrange(0, b.len() as int) == b);
        assert(c.subrange(0, a.len() as int) == b.subrange(0, a.len() as int));
    } else {
        let a = rows_entries(ctx, listing, depth, show_all, i);
        assert(a.subrange(0, a.len() as int) == a);
    }
}

/// The position of the row of entry `i` of `listing` among the rows of its
/// listing, and what follows it.
proof fn lemma_entry_row(
    ctx: RowInputs,
    listing: Seq<EntryView>,
    depth: int,
    show_all: bool,
    i: int,
) -> (k: int)
    requires
        0 <= i < listing.len(),
        is_shown(ctx, listing[i], show_all),
    ensures
        ({
            let rows = rows_entries(ctx, listing, depth, show_all, listing.len() as int);
            let e = listing[i];
            let open = is_open(ctx, e, show_all);
            let below = if open && depth + 1 <= MAX_DEPTH {
                rows_dir(ctx, e.path, depth + 1, reveals_all(ctx, e, show_all))
            } else {
                Seq::empty()
            };
            &&& k == rows_entries(ctx, listing, depth, show_all, i).len()
            &&& k < rows_entries(ctx, listing, depth, show_all, i + 1).len()
            &&& k + 1 + below.len() <= rows.len()
            &&& rows[k] == (RowView::Entry {
                listing,
                index: i as nat,
                depth: depth as nat,
                expanded: open,
            })
            &&& rows.subrange(k + 1, k + 1 + below.len()) == below
        }),
{
    lemma_rows_prefix(ctx, listing, depth, show_all, i + 1, listing.len() as int);
    let before = rows_entries(ctx, listing, depth, show_all, i);
    let upto = rows_entries(ctx, listing, depth, show_all, i + 1);
    let rows = rows_entries(ctx, listing, depth, show_all, listing.len() as int);
    let k = before.len() as int;
    assert(rows[k] == upto[k]);
    let e = listing[i];
    let open = is_open(ctx, e, show_all);
    let below = if open && depth + 1 <= MAX_DEPTH {
        rows_dir(ctx, e.path, depth + 1, reveals_all(ctx, e, show_all))
    } else {
        Seq::empty()
    };
    assert(rows.subrange(k + 1, k + 1 + below.len()) == upto.subrange(k + 1, k + 1 + below.len()));
    assert(upto.subrange(k + 1, k + 1 + below.len()) == below);
    k
}

/// Without a search, the rows of a folder start with a row at its own depth:
/// its error, the notice that it is loading or empty, or its first entry.
proof fn lemma_rows_start_at_depth(ctx: RowInputs, path: Seq<char>, depth: int, show_all: bool)
    requires
        ctx.matches is None,
        0 <= depth <= MAX_DEPTH,
    ensures
        rows_dir(ctx, path, depth, show_all).len() > 0,
        row_depth(rows_dir(ctx, path, depth, show_all)[0]) == depth,
{
    if ctx.listings.contains_key(path) && !ctx.failures.contains_key(path) && ctx.listings[
        path
    ].len() > 0 {
        let listing = ctx.listings[path];
        lemma_rows_prefix(ctx, listing, depth, show_all, 1, listing.len() as int);
        let first = rows_entries(ctx, listing, depth, show_all, 1);
        let rows = rows_entries(ctx, listing, depth, show_all, listing.len() as int);
        assert(is_shown(ctx, listing[0], show_all));
        assert(rows_entries(ctx, listing, depth, show_all, 0).len() == 0);
        assert(row_depth(first[0]) == depth);
        assert(first[0] == rows[0]);
        let e: Seq<RowView> = Seq::empty();
        assert(rows_dir(ctx, path, depth, show_all) == e + e + rows);
    }
}

/// An open folder that is shown, above the depth limit, is followed right
/// after its own row by all the rows of its contents, one level deeper:
/// its entries (and, for open folders among them, theirs), or the notice
/// that it is loading, empty or failed. Without a search, the row after
/// the folder's row is therefore always one level deeper.
pub proof fn open_folders_show_their_contents(
    ctx: RowInputs,
    path: Seq<char>,
    depth: int,
    show_all: bool,
    i: int,
)
    requires
        0 <= depth < MAX_DEPTH,
        ctx.listings.contains_key(path),
        0 <= i < ctx.listings[path].len(),
        is_shown(ctx, ctx.listings[path][i], show_all),
        is_open(ctx, ctx.listings[path][i], show_all),
    ensures
        ({
            let listing = ctx.listings[path];
            let e = listing[i];
            let rows = rows_dir(ctx, path, depth, show_all);
            let inner = rows_dir(ctx, e.path, depth + 1, reveals_all(ctx, e, show_all));
            exists|k: int|
                0 <= k && k + 1 + inner.len() <= rows.len() && #[trigger] rows[k] == (RowView::Entry {
                    listing,
                    index: i as nat,
                    depth: depth as nat,
                    expanded: true,
                }) && rows.subrange(k + 1, k + 1 + inner.len()) == inner && (ctx.matches is None
                    ==> k + 1 < rows.len() && row_depth(rows[k + 1]) == depth + 1)
        }),
{
    let listing = ctx.listings[path];
    let e = listing[i];
    let head = if ctx.failures.contains_key(path) {
        seq![RowView::Error { depth: depth as nat, path, error: ctx.failures[path] }]
    } else {
        Seq::empty()
    };
    let note = if listing.len() == 0 {
        seq![RowView::Message { depth: depth as nat, text: empty_folder_text() }]
    } else {
        Seq::empty()
    };
    let entries = rows_entries(ctx, listing, depth, show_all, listing.len() as int);
    let rows = rows_dir(ctx, path, depth, show_all);
    assert(rows == head + note + entries);
    let inner = rows_dir(ctx, e.path, depth + 1, reveals_all(ctx, e, show_all));
    let j = lemma_entry_row(ctx, listing, depth, show_all, i);
    let k = head.len() + note.len() + j;
    assert(rows[k] == entries[j]);
    assert(rows.subrange(k + 1, k + 1 + inner.len()) == entries.subrange(
        j + 1,
        j + 1 + inner.len(),
    ));
    if ctx.matches is None {
        lemma_rows_start_at_depth(ctx, e.path, depth + 1, reveals_all(ctx, e, show_all));
        assert(rows[k + 1] == inner[0]);
    }
}

/// Without a search, every entry of a loaded folder has a row at the
/// folder's depth, shown open exactly when it is a folder the user opened,
/// and the rows of the entries come in the listing's order.
pub proof fn every_entry_is_listed_in_order(
    ctx: RowInputs,
    path: Seq<char>,
    depth: int,
    show_all: bool,
    i: int,
    i2: int,
)
    requires
        ctx.matches is None,
        0 <= depth <= MAX_DEPTH,
        ctx.listings.contains_key(path),
        0 <= i < i2 < ctx.listings[path].len(),
    ensures
        ({
            let listing = ctx.listings[path];
            let rows = rows_dir(ctx, path, depth, show_all);
            exists|k: int, k2: int|
                0 <= k < k2 < rows.len() && #[trigger] rows[k] == (RowView::Entry {
                    listing,
                    index: i as nat,
                    depth: depth as nat,
                    expanded: listing[i].directory && ctx.expanded.contains(listing[i].path),
                }) && #[trigger] rows[k2] == (RowView::Entry {
                    listing,
                    index: i2 as nat,
                    depth: depth as nat,
                    expanded: listing[i2].directory && ctx.expanded.contains(listing[i2].path),
                })
        }),
{
    let listing = ctx.listings[path];
    let head = if ctx.failures.contains_key(path) {
        seq![RowView::Error { depth: depth as nat, path, error: ctx.failures[path] }]
    } else {
        Seq::empty()
    };
    let note = if listing.len() == 0 {
        seq![RowView::Message { depth: depth as nat, text: empty_folder_text() }]
    } else {
        Seq::empty()
    };
    let entries = rows_entries(ctx, listing, depth, show_all, listing.len() as int);
    let rows = rows_dir(ctx, path, depth, show_all);
    assert(rows == head + note + entries);
    let j = lemma_entry_row(ctx, listing, depth, show_all, i);
    let j2 = lemma_entry_row(ctx, listing, depth, show_all, i2);
    lemma_rows_prefix(ctx, listing, depth, show_all, i + 1, i2);
    assert(j < j2);
    let off = head.len() + note.len();
    assert(rows[off + j] == entries[j]);
    assert(rows[off + j2] == entries[j2]);
}

/// A loaded listing whose refresh failed stays visible under its error.
pub proof fn failed_refresh_keeps_entries(
    ctx: RowInputs,
    path: Seq<char>,
    depth: int,
    show_all: bool,
)
    requires
        0 <= depth <= MAX_DEPTH,
        ctx.failures.contains_key(path),
        ctx.listings.contains_key(path),
        ctx.listings[path].len() > 0,
    ensures
        rows_dir(ctx, path, depth, show_all) == seq![
            RowView::Error { depth: depth as nat, path, error: ctx.failures[path] },
        ] + rows_entries(ctx, ctx.listings[path], depth, show_all, ctx.listings[path].len() as int),
{
    assert(seq![RowView::Error { depth: depth as nat, path, error: ctx.failures[path] }] + Seq::<
        RowView,
    >::empty() == seq![RowView::Error { depth: depth as nat, path, error: ctx.failures[path] }]);
}

/// Retrying a failed folder clears its failure and keeps its listing: after
/// `fail` and `retry` of one path, the tree holds what it held before without
/// that path's failure, two revisions later.
pub proof fn retry_clears_a_failure(
    t0: TreeState,
    t1: TreeState,
    t2: TreeState,
    path: Seq<char>,
    error: Seq<char>,
)
    requires
        t1.listings == t0.listings,
        t1.failures == t0.failures.insert(path, error),
        t1.revision == next_revision(t0.revision),
        t2.listings == t1.listings,
        t2.failures == t1.failures.remove(path),
        t2.revision == if t1.failures.contains_key(path) {
            next_revision(t1.revision)
        } else {
            t1.revision
        },
    ensures
        t2.listings == t0.listings,
        t2.failures == t0.failures.remove(path),
        !t2.failures.contains_key(path),
        t2.revision == next_revision(next_revision(t0.revision)),
{
    assert(t2.failures =~= t0.failures.remove(path));
}

/// A stored listing is what a later lookup of its path gives, and storing it
/// clears that path's failure.
pub proof fn stored_listing_is_read_back(
    t0: TreeState,
    t1: TreeState,
    path: Seq<char>,
    listing: Seq<EntryView>,
)
    requires
        t1.listings == t0.listings.insert(path, listing),
        t1.failures == t0.failures.remove(path),
    ensures
        t1.listings.contains_key(path),
        t1.listings[path] == listing,
        !t1.failures.contains_key(path),
        forall|p: Seq<char>| p != path ==> #[trigger] t1.listings.contains_key(p) == t0.listings.contains_key(p),
{
}

} // verus!
