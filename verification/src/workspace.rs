//! The saved connections list and the terminal tabs of the window: which
//! hosts a search shows, how a saved or removed connection changes the list,
//! and how tabs open, end and close. Running the terminals is left to the caller.
use crate::profiles::{args_view, ssh_args_spec, KeyCheck, Profile, ProfileView};
use crate::text::{
    ascii_lowercase, chars_of, contains_seq, is_ascii_text, lowercase, lowercased, push_chars,
    str_contains, trimmed,
};
use vstd::prelude::*;

verus! {

/// The label a profile is listed under: its name, or its host when the name is blank.
pub open spec fn label_of(p: ProfileView) -> Seq<char> {
    if trimmed(p.name).len() == 0 {
        p.host
    } else {
        p.name
    }
}

/// Whether a search for `search` shows the host `p`: its label and host,
/// lowercased, hold the lowercased search.
pub open spec fn host_matches(p: ProfileView, search: Seq<char>) -> bool {
    contains_seq(
        lowercase(label_of(p) + " "@ + p.host),
        lowercase(search),
    )
}

pub open spec fn profiles_view(v: Seq<Profile>) -> Seq<ProfileView> {
    v.map_values(|p: Profile| p@)
}

pub open spec fn config_error_text() -> Seq<char> {
    "Resolve the configuration read error and restart before saving connections."@
}

pub open spec fn no_hosts_text() -> Seq<char> {
    "Your saved hosts will appear here."@
}

pub open spec fn no_matches_text() -> Seq<char> {
    "No matching connections."@
}

/// The list after saving `profile` at `index`, or as a new one at the end.
pub open spec fn with_saved(
    list: Seq<ProfileView>,
    profile: ProfileView,
    index: Option<usize>,
) -> Seq<ProfileView> {
    match index {
        Some(i) => list.update(i as int, profile),
        None => list.push(profile),
    }
}

/// What saving `profile` at `index` gives, knowing what checking its SSH
/// arguments gave: the new list, or why nothing is saved.
pub open spec fn save_plan(
    list: Seq<ProfileView>,
    config_error: bool,
    profile: ProfileView,
    index: Option<usize>,
    checked: Result<Seq<Seq<char>>, Seq<char>>,
) -> Result<Seq<ProfileView>, Seq<char>> {
    if config_error {
        Err(config_error_text())
    } else {
        match checked {
            Err(e) => Err(e),
            Ok(_) => Ok(with_saved(list, profile, index)),
        }
    }
}

pub open spec fn plan_view(r: Result<Vec<Profile>, String>) -> Result<Seq<ProfileView>, Seq<char>> {
    match r {
        Ok(v) => Ok(profiles_view(v@)),
        Err(e) => Err(e@),
    }
}

fn empty_profile() -> (p: Profile)
    ensures
        p@.name.len() == 0,
        p@.host.len() == 0,
        p@.user.len() == 0,
        p@.port.len() == 0,
        p@.identity.len() == 0,
{
    Profile {
        name: String::new(),
        host: String::new(),
        user: String::new(),
        port: String::new(),
        identity: String::new(),
    }
}

/// The saved connections, the selected one and the profile shown for it.
pub struct HostList {
    pub profiles: Vec<Profile>,
    pub selected: Option<usize>,
    pub draft: Profile,
    /// The saved connections could not be read; saving is refused.
    pub config_error: bool,
}

impl HostList {
    pub fn new(profiles: Vec<Profile>, config_error: bool) -> (h: HostList)
        ensures
            h.profiles == profiles,
            h.selected is None,
            h.config_error == config_error,
            h.draft@.host.len() == 0,
    {
        HostList { profiles, selected: None, draft: empty_profile(), config_error }
    }

    /// The positions of the hosts that a search for `search` shows, in order.
    pub fn visible(&self, search: &str) -> (r: Vec<usize>)
        ensures
            forall|k: int| 0 <= k < r.len() ==> #[trigger] r@[k] < self.profiles.len(),
            forall|k: int, j: int| 0 <= k < j < r.len() ==> #[trigger] r@[k] < #[trigger] r@[j],
            forall|i: int|
                0 <= i < self.profiles.len() ==> (r@.contains(i as usize) <==> host_matches(
                    #[trigger] self.profiles@[i]@,
                    search@,
                )),
            search@.len() == 0 ==> forall|i: int|
                0 <= i < self.profiles.len() ==> #[trigger] r@.contains(i as usize),
    {
        let filter = lowercased(search);
        proof {
            if search@.len() == 0 {
                assert(lowercase(search@) =~= Seq::<char>::empty());
                assert forall|p: ProfileView| #[trigger] host_matches(p, search@) by {
                    let hay = lowercase(label_of(p) + " "@ + p.host);
                    let needle = lowercase(search@);
                    assert(hay.subrange(0, 0 + needle.len() as int) =~= needle);
                }
            }
        }
        let mut r: Vec<usize> = Vec::new();
        let mut i: usize = 0;
        while i < self.profiles.len()
            invariant
                i <= self.profiles.len(),
                filter@ == lowercase(search@),
                forall|k: int| 0 <= k < r.len() ==> #[trigger] r@[k] < i,
                forall|k: int, j: int| 0 <= k < j < r.len() ==> #[trigger] r@[k] < #[trigger] r@[j],
                forall|m: int|
                    0 <= m < i ==> (r@.contains(m as usize) <==> host_matches(
                        #[trigger] self.profiles@[m]@,
                        search@,
                    )),
            decreases self.profiles.len() - i,
        {
            let profile = &self.profiles[i];
            let mut text = profile.label().to_owned();
            push_chars(&mut text, &chars_of(" "));
            push_chars(&mut text, &chars_of(profile.host.as_str()));
            let folded = lowercased(text.as_str());
            let shown = str_contains(folded.as_str(), filter.as_str());
            let ghost before = r@;
            if shown {
                r.push(i);
            }
            assert forall|m: int|
                0 <= m < i + 1 implies (r@.contains(m as usize) <==> host_matches(
                #[trigger] self.profiles@[m]@,
                search@,
            )) by {
                if m < i {
                    if r@.contains(m as usize) && !before.contains(m as usize) {
                        let k = choose|k: int| 0 <= k < r@.len() && r@[k] == m as usize;
                        assert(k == before.len());
                    }
                    if before.contains(m as usize) {
                        let k = choose|k: int| 0 <= k < before.len() && before[k] == m as usize;
                        assert(r@[k] == m as usize);
                    }
                } else {
                    if shown {
                        assert(r@[r@.len() - 1] == i);
                    } else {
                        assert(r@ == before);
                    }
                }
            }
            i = i + 1;
        }
        proof {
            if search@.len() == 0 {
                assert forall|m: int| 0 <= m < self.profiles.len() implies #[trigger] r@.contains(
                    m as usize,
                ) by {
                    assert(host_matches(self.profiles@[m]@, search@));
                }
            }
        }
        r
    }

    /// What the list says when a search shows no host.
    pub fn empty_text(&self) -> (r: &'static str)
        ensures
            r@ == if self.profiles.len() == 0 {
                no_hosts_text()
            } else {
                no_matches_text()
            },
    {
        if self.profiles.len() == 0 {
            "Your saved hosts will appear here."
        } else {
            "No matching connections."
        }
    }

    /// Selects the host at `index` and shows its profile.
    pub fn select(&mut self, index: usize)
        requires
            index < old(self).profiles.len(),
        ensures
            final(self).selected == Some(index),
            final(self).draft@ == old(self).profiles@[index as int]@,
            final(self).profiles == old(self).profiles,
            final(self).config_error == old(self).config_error,
    {
        self.selected = Some(index);
        self.draft = self.profiles[index].duplicate();
    }

    /// The profile the connection editor starts from: the saved one at
    /// `index`, or an empty one for a new connection.
    pub fn editor_profile(&self, index: Option<usize>) -> (p: Profile)
        requires
            index matches Some(i) ==> i < self.profiles.len(),
        ensures
            index matches Some(i) ==> p@ == self.profiles@[i as int]@,
            index is None ==> p@.host.len() == 0 && p@.name.len() == 0,
    {
        match index {
            Some(i) => self.profiles[i].duplicate(),
            None => empty_profile(),
        }
    }

    /// The list that saving `profile` at `index` (or as a new connection)
    /// gives, knowing what checking its SSH arguments gave; or why nothing
    /// is saved.
    pub fn save_plan_checked(
        &self,
        profile: &Profile,
        index: Option<usize>,
        checked: Result<Vec<String>, String>,
    ) -> (r: Result<Vec<Profile>, String>)
        requires
            index matches Some(i) ==> i < self.profiles.len(),
        ensures
            plan_view(r) == save_plan(
                profiles_view(self.profiles@),
                self.config_error,
                profile@,
                index,
                args_view(checked),
            ),
    {
        if self.config_error {
            return Err(
                "Resolve the configuration read error and restart before saving connections.".to_owned(),
            );
        }
        match checked {
            Err(e) => Err(e),
            Ok(_) => {
                let mut updated: Vec<Profile> = Vec::new();
                let mut i: usize = 0;
                while i < self.profiles.len()
                    invariant
                        i <= self.profiles.len(),
                        updated.len() == i,
                        forall|k: int| 0 <= k < i ==> #[trigger] updated@[k]@ == self.profiles@[k]@,
                    decreases self.profiles.len() - i,
                {
                    updated.push(self.profiles[i].duplicate());
                    i = i + 1;
                }
                match index {
                    Some(i) => {
                        updated.set(i, profile.duplicate());
                    },
                    None => {
                        updated.push(profile.duplicate());
                    },
                }
                assert(profiles_view(updated@) =~= with_saved(
                    profiles_view(self.profiles@),
                    profile@,
                    index,
                ));
                Ok(updated)
            },
        }
    }

    /// The list that saving `profile` gives, its SSH arguments checked first
    /// (the private key on this machine among them); or why nothing is saved.
    pub fn save_plan(&self, profile: &Profile, index: Option<usize>) -> (r: Result<Vec<Profile>, String>)
        requires
            index matches Some(i) ==> i < self.profiles.len(),
        ensures
            exists|key: KeyCheck|
                plan_view(r) == save_plan(
                    profiles_view(self.profiles@),
                    self.config_error,
                    profile@,
                    index,
                    #[trigger] ssh_args_spec(profile@, key),
                ) && (trimmed(profile@.identity).len() == 0 ==> key == KeyCheck::Found),
    {
        let checked = profile.ssh_args();
        proof {
            let key = if args_view(checked) == ssh_args_spec(profile@, KeyCheck::Found) {
                KeyCheck::Found
            } else if args_view(checked) == ssh_args_spec(profile@, KeyCheck::Missing) {
                KeyCheck::Missing
            } else {
                KeyCheck::NotAbsolute
            };
            assert(args_view(checked) == ssh_args_spec(profile@, key));
        }
        self.save_plan_checked(profile, index, checked)
    }

    /// The saved list was written: it becomes the list, the saved connection
    /// is selected and shown.
    pub fn commit_save(&mut self, updated: Vec<Profile>, profile: &Profile, index: Option<usize>)
        requires
            updated.len() > 0,
            index matches Some(i) ==> i < updated.len(),
        ensures
            final(self).profiles == updated,
            final(self).selected == Some(
                match index {
                    Some(i) => i,
                    None => (updated.len() - 1) as usize,
                },
            ),
            final(self).draft@ == profile@,
            final(self).config_error == old(self).config_error,
    {
        let last = updated.len() - 1;
        self.selected = Some(
            match index {
                Some(i) => i,
                None => last,
            },
        );
        self.profiles = updated;
        self.draft = profile.duplicate();
    }

    /// The list without the connection at `index`.
    pub fn removal_plan(&self, index: usize) -> (r: Vec<Profile>)
        requires
            index < self.profiles.len(),
        ensures
            profiles_view(r@) == profiles_view(self.profiles@).remove(index as int),
    {
        let mut updated: Vec<Profile> = Vec::new();
        let mut i: usize = 0;
        while i < self.profiles.len()
            invariant
                i <= self.profiles.len(),
                index < self.profiles.len(),
                updated.len() == if i <= index { i as int } else { i - 1 },
                forall|k: int|
                    0 <= k < updated.len() ==> #[trigger] updated@[k]@ == profiles_view(
                        self.profiles@,
                    ).remove(index as int)[k],
            decreases self.profiles.len() - i,
        {
            if i != index {
                updated.push(self.profiles[i].duplicate());
            }
            i = i + 1;
        }
        assert(profiles_view(updated@) =~= profiles_view(self.profiles@).remove(index as int));
        updated
    }

    /// The shortened list was written: nothing is selected any more.
    pub fn commit_remove(&mut self, updated: Vec<Profile>)
        ensures
            final(self).profiles == updated,
            final(self).selected is None,
            final(self).draft@.host.len() == 0,
            final(self).draft@.name.len() == 0,
            final(self).config_error == old(self).config_error,
    {
        self.profiles = updated;
        self.selected = None;
        self.draft = empty_profile();
    }
}

/// One terminal tab.
pub struct TabInfo {
    pub id: u64,
    pub label: String,
    /// The SSH session ended; its output stays readable.
    pub ended: bool,
}

pub open spec fn tab_view(t: TabInfo) -> (u64, Seq<char>, bool) {
    (t.id, t.label@, t.ended)
}

pub open spec fn tabs_view(v: Seq<TabInfo>) -> Seq<(u64, Seq<char>, bool)> {
    v.map_values(|t: TabInfo| tab_view(t))
}

/// The tab that shows last after closing tab `id`: the active one stays, a
/// closed active tab gives way to the last tab left.
pub open spec fn active_after_close(
    left: Seq<(u64, Seq<char>, bool)>,
    active: Option<u64>,
    id: u64,
) -> Option<u64> {
    if active == Some(id) {
        if left.len() == 0 {
            None
        } else {
            Some(left.last().0)
        }
    } else {
        active
    }
}

pub open spec fn session_ended_text(status: Seq<char>) -> Seq<char> {
    "SSH session ended ("@ + status + "). Its terminal output is kept in the tab."@
}

pub open spec fn pty_closed_text() -> Seq<char> {
    "SSH session ended. Its terminal output is kept in the tab."@
}

/// The position of the tab `id` in `tabs`.
pub open spec fn tab_index(tabs: Seq<(u64, Seq<char>, bool)>, id: u64) -> Option<int> {
    if exists|i: int| 0 <= i < tabs.len() && #[trigger] tabs[i].0 == id {
        Some(choose|i: int| 0 <= i < tabs.len() && #[trigger] tabs[i].0 == id)
    } else {
        None
    }
}

/// The terminal tabs, the one shown, and the number the next tab gets.
pub struct Tabs {
    pub tabs: Vec<TabInfo>,
    pub active: Option<u64>,
    pub next_id: u64,
}

impl Tabs {
    /// No two tabs share a number, and every number is below the next one.
    pub open spec fn wf(&self) -> bool {
        &&& forall|i: int| 0 <= i < self.tabs.len() ==> #[trigger] self.tabs@[i].id < self.next_id
        &&& forall|i: int, j: int|
            0 <= i < j < self.tabs.len() ==> #[trigger] self.tabs@[i].id != #[trigger] self.tabs@[j].id
    }

    pub fn new() -> (t: Tabs)
        ensures
            t.wf(),
            t.tabs@.len() == 0,
            t.active is None,
            t.next_id == 1,
    {
        Tabs { tabs: Vec::new(), active: None, next_id: 1 }
    }

    /// Adds a tab labelled `label` for a session that started, and shows it.
    pub fn open(&mut self, label: String) -> (id: u64)
        requires
            old(self).wf(),
            old(self).next_id < u64::MAX,
        ensures
            final(self).wf(),
            id == old(self).next_id,
            final(self).next_id == old(self).next_id + 1,
            tabs_view(final(self).tabs@) == tabs_view(old(self).tabs@).push((id, label@, false)),
            final(self).active == Some(id),
    {
        let id = self.next_id;
        self.tabs.push(TabInfo { id, label, ended: false });
        self.next_id = id + 1;
        self.active = Some(id);
        assert(tabs_view(self.tabs@) =~= tabs_view(old(self).tabs@).push((id, self.tabs@[self.tabs@.len() - 1].label@, false)));
        id
    }

    /// Shows the tab `id`.
    pub fn select(&mut self, id: u64)
        ensures
            final(self).tabs == old(self).tabs,
            final(self).next_id == old(self).next_id,
            final(self).active == Some(id),
    {
        self.active = Some(id);
    }

    /// Closes the tab `id`; when it was shown, the last tab left is shown.
    pub fn close(&mut self, id: u64)
        requires
            old(self).wf(),
        ensures
            final(self).wf(),
            final(self).next_id == old(self).next_id,
            tabs_view(final(self).tabs@) == tabs_view(old(self).tabs@).filter(
                |t: (u64, Seq<char>, bool)| t.0 != id,
            ),
            final(self).active == active_after_close(
                tabs_view(final(self).tabs@),
                old(self).active,
                id,
            ),
    {
        let mut rest: Vec<TabInfo> = Vec::new();
        std::mem::swap(&mut rest, &mut self.tabs);
        let ghost all_tabs = rest@;
        let ghost all = tabs_view(all_tabs);
        let mut left: Vec<TabInfo> = Vec::new();
        let mut i: usize = 0;
        assert(rest@.len() == rest.len());
        while rest.len() > 0
            invariant
                i + rest@.len() == all_tabs.len(),
                all_tabs.len() <= usize::MAX,
                rest@ == all_tabs.subrange(i as int, all_tabs.len() as int),
                all == tabs_view(all_tabs),
                forall|a: int| 0 <= a < all_tabs.len() ==> #[trigger] all_tabs[a].id < old(self).next_id,
                forall|a: int, b: int|
                    0 <= a < b < all_tabs.len() ==> #[trigger] all_tabs[a].id != #[trigger] all_tabs[b].id,
                tabs_view(left@) == all.take(i as int).filter(|t: (u64, Seq<char>, bool)| t.0 != id),
                forall|k: int|
                    0 <= k < left.len() ==> exists|m: int|
                        0 <= m < i && #[trigger] left@[k].id == #[trigger] all_tabs[m].id,
                forall|k: int| 0 <= k < left.len() ==> #[trigger] left@[k].id < old(self).next_id,
                forall|a: int, b: int|
                    0 <= a < b < left.len() ==> #[trigger] left@[a].id != #[trigger] left@[b].id,
            decreases rest.len(),
        {
            let tab = rest.remove(0);
            let ghost tv = tab_view(tab);
            let ghost before = left@;
            proof {
                assert(tab == all_tabs[i as int]);
                assert(all.take(i + 1) =~= all.take(i as int).push(tv));
                all.take(i as int).lemma_filter_push(tv, |t: (u64, Seq<char>, bool)| t.0 != id);
            }
            if tab.id != id {
                left.push(tab);
                proof {
                    assert forall|a: int, b: int|
                        0 <= a < b < left.len() implies #[trigger] left@[a].id != #[trigger] left@[b].id by {
                        if b == left.len() - 1 {
                            let m = choose|m: int| 0 <= m < i && #[trigger] before[a].id == #[trigger] all_tabs[m].id;
                            assert(all_tabs[m].id != all_tabs[i as int].id);
                        }
                    }
                    assert forall|k: int|
                        0 <= k < left.len() implies exists|m: int|
                            0 <= m < i + 1 && #[trigger] left@[k].id == #[trigger] all_tabs[m].id by {
                        if k < before.len() {
                            let m = choose|m: int| 0 <= m < i && #[trigger] before[k].id == #[trigger] all_tabs[m].id;
                            assert(left@[k].id == all_tabs[m].id);
                        } else {
                            assert(left@[k].id == all_tabs[i as int].id);
                        }
                    }
                }
            }
            assert(tabs_view(left@) =~= all.take(i + 1).filter(|t: (u64, Seq<char>, bool)| t.0 != id));
            assert(rest@ =~= all_tabs.subrange(i + 1, all_tabs.len() as int));
            i = i + 1;
        }
        assert(all.take(i as int) =~= all);
        self.tabs = left;
        if self.active == Some(id) {
            let n = self.tabs.len();
            self.active = if n > 0 {
                Some(self.tabs[n - 1].id)
            } else {
                None
            };
        }
    }

    /// The session of tab `id` exited with `status`: the tab is marked
    /// ended, and the message to show is given back.
    pub fn child_exited(&mut self, id: u64, status: &str) -> (r: Option<String>)
        requires
            old(self).wf(),
        ensures
            final(self).wf(),
            final(self).active == old(self).active,
            final(self).next_id == old(self).next_id,
            match tab_index(tabs_view(old(self).tabs@), id) {
                Some(i) => tabs_view(final(self).tabs@) == tabs_view(old(self).tabs@).update(
                    i,
                    (id, old(self).tabs@[i].label@, true),
                ) && (r matches Some(m) && m@ == session_ended_text(status@)),
                None => tabs_view(final(self).tabs@) == tabs_view(old(self).tabs@) && r is None,
            },
    {
        match self.find(id) {
            Some(i) => {
                self.mark_ended(i);
                let mut message = "SSH session ended (".to_owned();
                push_chars(&mut message, &chars_of(status));
                push_chars(&mut message, &chars_of("). Its terminal output is kept in the tab."));
                Some(message)
            },
            None => None,
        }
    }

    /// The terminal of tab `id` closed: the tab is marked ended; a message
    /// is given back unless its session already reported how it ended.
    pub fn pty_exited(&mut self, id: u64) -> (r: Option<String>)
        requires
            old(self).wf(),
        ensures
            final(self).wf(),
            final(self).active == old(self).active,
            final(self).next_id == old(self).next_id,
            match tab_index(tabs_view(old(self).tabs@), id) {
                Some(i) => tabs_view(final(self).tabs@) == tabs_view(old(self).tabs@).update(
                    i,
                    (id, old(self).tabs@[i].label@, true),
                ) && (if old(self).tabs@[i].ended {
                    r is None
                } else {
                    r matches Some(m) && m@ == pty_closed_text()
                }),
                None => tabs_view(final(self).tabs@) == tabs_view(old(self).tabs@) && r is None,
            },
    {
        match self.find(id) {
            Some(i) => {
                let was_ended = self.tabs[i].ended;
                self.mark_ended(i);
                if was_ended {
                    None
                } else {
                    Some("SSH session ended. Its terminal output is kept in the tab.".to_owned())
                }
            },
            None => None,
        }
    }

    /// The title of a tab: its label, marked when its session ended.
    pub fn title(tab: &TabInfo) -> (r: String)
        ensures
            r@ == if tab.ended {
                tab.label@ + " \u{b7} ended"@
            } else {
                tab.label@
            },
    {
        let mut r = tab.label.clone();
        if tab.ended {
            push_chars(&mut r, &chars_of(" \u{b7} ended"));
        }
        r
    }

    fn find(&self, id: u64) -> (r: Option<usize>)
        requires
            self.wf(),
        ensures
            match tab_index(tabs_view(self.tabs@), id) {
                Some(i) => r == Some(i as usize) && i < self.tabs.len(),
                None => r is None,
            },
    {
        let mut i: usize = 0;
        while i < self.tabs.len()
            invariant
                self.wf(),
                i <= self.tabs.len(),
                forall|k: int| 0 <= k < i ==> #[trigger] self.tabs@[k].id != id,
            decreases self.tabs.len() - i,
        {
            if self.tabs[i].id == id {
                proof {
                    let tv = tabs_view(self.tabs@);
                    assert(tv[i as int].0 == id);
                    let j = choose|j: int| 0 <= j < tv.len() && #[trigger] tv[j].0 == id;
                    if j != i {
                        if j < i {
                            assert(self.tabs@[j].id != self.tabs@[i as int].id);
                        } else {
                            assert(self.tabs@[i as int].id != self.tabs@[j].id);
                        }
                    }
                }
                return Some(i);
            }
            i = i + 1;
        }
        proof {
            let tv = tabs_view(self.tabs@);
            if exists|j: int| 0 <= j < tv.len() && #[trigger] tv[j].0 == id {
                let j = choose|j: int| 0 <= j < tv.len() && #[trigger] tv[j].0 == id;
                assert(self.tabs@[j].id == id);
            }
        }
        None
    }

    fn mark_ended(&mut self, i: usize)
        requires
            old(self).wf(),
            i < old(self).tabs.len(),
        ensures
            final(self).wf(),
            final(self).active == old(self).active,
            final(self).next_id == old(self).next_id,
            tabs_view(final(self).tabs@) == tabs_view(old(self).tabs@).update(
                i as int,
                (old(self).tabs@[i as int].id, old(self).tabs@[i as int].label@, true),
            ),
    {
        let mut tabs: Vec<TabInfo> = Vec::new();
        std::mem::swap(&mut tabs, &mut self.tabs);
        let old_tab = tabs.remove(i);
        tabs.insert(i, TabInfo { id: old_tab.id, label: old_tab.label, ended: true });
        self.tabs = tabs;
        assert(tabs_view(self.tabs@) =~= tabs_view(old(self).tabs@).update(
            i as int,
            (old(self).tabs@[i as int].id, old(self).tabs@[i as int].label@, true),
        ));
    }
}

/// A search shows a host exactly when the lowercased search occurs, at any
/// position, in the lowercased label, a space and the host.
pub proof fn hosts_match_anywhere_in_label_and_host(p: ProfileView, search: Seq<char>)
    ensures
        ({
            let text = lowercase(label_of(p) + " "@ + p.host);
            let s = lowercase(search);
            host_matches(p, search) <==> exists|i: int|
                0 <= i && i + s.len() <= text.len() && #[trigger] text.subrange(i, i + s.len())
                    == s
        }),
{
}

/// For ASCII text, a search that occurs anywhere in a host, ignoring case,
/// shows that host.
pub proof fn hosts_whose_host_holds_the_search_are_shown(
    p: ProfileView,
    search: Seq<char>,
    i: int,
)
    requires
        is_ascii_text(p.name),
        is_ascii_text(p.host),
        is_ascii_text(search),
        0 <= i,
        i + search.len() <= p.host.len(),
        ascii_lowercase(p.host).subrange(i, i + search.len()) == ascii_lowercase(search),
    ensures
        host_matches(p, search),
{
    reveal_strlit(" ");
    let label = label_of(p);
    let whole = label + " "@ + p.host;
    assert(is_ascii_text(whole)) by {
        assert forall|k: int| 0 <= k < whole.len() implies (#[trigger] whole[k] as u32) < 128 by {
            if k < label.len() {
                assert(whole[k] == label[k]);
            } else if k > label.len() {
                assert(whole[k] == p.host[k - label.len() - 1]);
            }
        }
    }
    let text = lowercase(whole);
    let s = lowercase(search);
    assert(text == ascii_lowercase(whole));
    assert(s == ascii_lowercase(search));
    let at = label.len() + 1 + i;
    assert(text.subrange(at, at + s.len()) =~= ascii_lowercase(p.host).subrange(
        i,
        i + search.len(),
    ));
    assert(text.subrange(at, at + s.len()) == s);
}

} // verus!
