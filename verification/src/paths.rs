//! Sets and maps keyed by remote path strings, viewed as `Set<Seq<char>>`
//! and `Map<Seq<char>, V>`.
use vstd::prelude::*;

verus! {

/// Whether two strings hold the same characters.
pub fn same_text(a: &String, b: &String) -> (r: bool)
    ensures
        r == (a@ == b@),
{
    a.eq(b)
}

/// A set of paths.
pub struct PathSet {
    items: Vec<String>,
}

impl View for PathSet {
    type V = Set<Seq<char>>;

    closed spec fn view(&self) -> Set<Seq<char>> {
        Set::new(|p: Seq<char>| occurs(self.items@, self.items@.len() as int, p))
    }
}

impl PathSet {
    pub fn new() -> (s: PathSet)
        ensures
            s@ == Set::<Seq<char>>::empty(),
    {
        let s = PathSet { items: Vec::new() };
        assert(s@ =~= Set::<Seq<char>>::empty());
        s
    }

    /// The index of `path` among the stored items, if it is there.
    fn position(&self, path: &String) -> (r: Option<usize>)
        ensures
            r matches Some(i) ==> i < self.items.len() && self.items@[i as int]@ == path@,
            r is None ==> !self@.contains(path@),
    {
        let mut i: usize = 0;
        while i < self.items.len()
            invariant
                i <= self.items.len(),
                forall|j: int| 0 <= j < i ==> #[trigger] self.items@[j]@ != path@,
            decreases self.items.len() - i,
        {
            if same_text(&self.items[i], path) {
                return Some(i);
            }
            i = i + 1;
        }
        None
    }

    pub fn contains(&self, path: &str) -> (r: bool)
        ensures
            r == self@.contains(path@),
    {
        let key = path.to_owned();
        match self.position(&key) {
            Some(i) => {
                assert(self@.contains(self.items@[i as int]@));
                true
            },
            None => false,
        }
    }

    pub fn insert(&mut self, path: String)
        ensures
            final(self)@ == old(self)@.insert(path@),
    {
        if self.position(&path).is_none() {
            self.items.push(path);
        }
        assert forall|p: Seq<char>| #[trigger] self@.contains(p) == old(self)@.insert(path@).contains(p) by {
            if old(self)@.contains(p) {
                let i = choose|i: int| 0 <= i < old(self).items.len() && #[trigger] old(self).items@[i]@ == p;
                assert(self.items@[i]@ == p);
            }
            if p == path@ && !old(self)@.contains(p) {
                assert(self.items@[self.items.len() - 1]@ == p);
            }
        }
        assert(final(self)@ =~= old(self)@.insert(path@));
    }

    pub fn clear(&mut self)
        ensures
            final(self)@ == Set::<Seq<char>>::empty(),
    {
        self.items.clear();
        assert(final(self)@ =~= Set::<Seq<char>>::empty());
    }

    pub fn is_empty(&self) -> (r: bool)
        ensures
            r == (self@ == Set::<Seq<char>>::empty()),
    {
        if self.items.len() == 0 {
            assert(self@ =~= Set::<Seq<char>>::empty());
            true
        } else {
            assert(self@.contains(self.items@[0]@));
            false
        }
    }

    pub fn remove(&mut self, path: &str)
        ensures
            final(self)@ == old(self)@.remove(path@),
    {
        let key = path.to_owned();
        let mut kept: Vec<String> = Vec::new();
        let mut i: usize = 0;
        while i < self.items.len()
            invariant
                i <= self.items.len(),
                forall|q: Seq<char>|
                    #[trigger] occurs(kept@, kept@.len() as int, q) <==> (q != key@ && occurs(
                        self.items@,
                        i as int,
                        q,
                    )),
            decreases self.items.len() - i,
        {
            let ghost before = kept@;
            assert(forall|q: Seq<char>|
                #[trigger] occurs(before, before.len() as int, q) <==> (q != key@ && occurs(
                    self.items@,
                    i as int,
                    q,
                )));
            let keep = !same_text(&self.items[i], &key);
            if keep {
                kept.push(self.items[i].clone());
            }
            assert forall|q: Seq<char>|
                #[trigger] occurs(kept@, kept@.len() as int, q) <==> (q != key@ && occurs(
                    self.items@,
                    i + 1,
                    q,
                )) by {
                lemma_occurs_step(self.items@, i as int, q);
                if keep {
                    assert(before == kept@.take(before.len() as int));
                    lemma_occurs_step(kept@, before.len() as int, q);
                    lemma_occurs_prefix(before, kept@, before.len() as int, q);
                }
            }
            i = i + 1;
        }
        self.items = kept;
        assert forall|q: Seq<char>| #[trigger] final(self)@.contains(q) == old(self)@.remove(path@).contains(q) by {
            assert(final(self)@.contains(q) == occurs(final(self).items@, final(self).items@.len() as int, q));
            assert(old(self)@.contains(q) == occurs(old(self).items@, old(self).items@.len() as int, q));
        }
        assert(final(self)@ =~= old(self)@.remove(path@));
    }

    /// Keeps the paths that `keep` accepts.
    pub fn retain<F: Fn(&str) -> bool>(&mut self, keep: F)
        requires
            forall|p: &str| #[trigger] keep.requires((p,)),
        ensures
            final(self)@.subset_of(old(self)@),
            forall|p: Seq<char>| #[trigger]
                old(self)@.contains(p) ==> path_kept(keep, p, final(self)@.contains(p)),
    {
        let mut kept: Vec<String> = Vec::new();
        let mut i: usize = 0;
        while i < self.items.len()
            invariant
                forall|p: &str| #[trigger] keep.requires((p,)),
                i <= self.items.len(),
                forall|q: Seq<char>|
                    #[trigger] occurs(kept@, kept@.len() as int, q) ==> occurs(
                        self.items@,
                        i as int,
                        q,
                    ),
                forall|q: Seq<char>|
                    #[trigger] occurs(self.items@, i as int, q) ==> path_kept(
                        keep,
                        q,
                        occurs(kept@, kept@.len() as int, q),
                    ),
            decreases self.items.len() - i,
        {
            let ghost before = kept@;
            assert(forall|q: Seq<char>|
                #[trigger] occurs(before, before.len() as int, q) ==> occurs(
                    self.items@,
                    i as int,
                    q,
                ));
            assert(forall|q: Seq<char>|
                #[trigger] occurs(self.items@, i as int, q) ==> path_kept(
                    keep,
                    q,
                    occurs(before, before.len() as int, q),
                ));
            let answer = keep(self.items[i].as_str());
            if answer {
                kept.push(self.items[i].clone());
            }
            assert forall|q: Seq<char>| #[trigger] occurs(self.items@, i + 1, q) implies path_kept(
                keep,
                q,
                occurs(kept@, kept@.len() as int, q),
            ) by {
                lemma_occurs_step(self.items@, i as int, q);
                if answer {
                    assert(before == kept@.take(before.len() as int));
                    lemma_occurs_step(kept@, before.len() as int, q);
                    lemma_occurs_prefix(before, kept@, before.len() as int, q);
                }
                if !occurs(self.items@, i as int, q) {
                    assert(q == self.items@[i as int]@);
                    assert(path_kept(keep, q, answer));
                    if !answer {
                        assert(!occurs(before, before.len() as int, q));
                    }
                }
            }
            assert forall|q: Seq<char>| #[trigger] occurs(kept@, kept@.len() as int, q) implies occurs(
                self.items@,
                i + 1,
                q,
            ) by {
                lemma_occurs_step(self.items@, i as int, q);
                if answer {
                    assert(before == kept@.take(before.len() as int));
                    lemma_occurs_step(kept@, before.len() as int, q);
                    lemma_occurs_prefix(before, kept@, before.len() as int, q);
                }
            }
            i = i + 1;
        }
        let ghost items = self.items@;
        self.items = kept;
        assert forall|p: Seq<char>| #[trigger] final(self)@.contains(p) implies old(self)@.contains(p) by {
            assert(occurs(kept@, kept@.len() as int, p));
        }
        assert forall|p: Seq<char>| #[trigger] old(self)@.contains(p) implies path_kept(
            keep,
            p,
            final(self)@.contains(p),
        ) by {
            assert(occurs(items, items.len() as int, p));
        }
    }

    /// The stored paths in storage order.
    pub closed spec fn seq(&self) -> Seq<Seq<char>> {
        self.items@.map_values(|s: String| s@)
    }

    /// The stored paths are the paths of the set.
    pub proof fn lemma_seq(&self)
        ensures
            forall|p: Seq<char>| #[trigger] self@.contains(p) <==> self.seq().contains(p),
    {
        assert forall|p: Seq<char>| #[trigger] self@.contains(p) <==> self.seq().contains(p) by {
            if self@.contains(p) {
                let i = choose|i: int| 0 <= i < self.items.len() && #[trigger] self.items@[i]@ == p;
                assert(self.seq()[i] == p);
            }
            if self.seq().contains(p) {
                let i = choose|i: int| 0 <= i < self.seq().len() && self.seq()[i] == p;
                assert(self.items@[i]@ == p);
                assert(occurs(self.items@, self.items@.len() as int, p));
            }
        }
    }

    /// A set with the same paths.
    pub fn duplicate(&self) -> (r: PathSet)
        ensures
            r@ == self@,
            r.seq() == self.seq(),
    {
        let mut items: Vec<String> = Vec::new();
        let mut i: usize = 0;
        while i < self.items.len()
            invariant
                i <= self.items.len(),
                items@.len() == i,
                forall|k: int| 0 <= k < i ==> #[trigger] items@[k] == self.items@[k],
            decreases self.items.len() - i,
        {
            items.push(self.items[i].clone());
            i = i + 1;
        }
        let r = PathSet { items };
        assert(r.items@ =~= self.items@);
        r
    }

    /// Empties the set and hands out its paths in storage order.
    pub fn take(&mut self) -> (r: Vec<String>)
        ensures
            r@.map_values(|s: String| s@) == old(self).seq(),
            final(self)@ == Set::<Seq<char>>::empty(),
            final(self).seq() == Seq::<Seq<char>>::empty(),
    {
        let mut r: Vec<String> = Vec::new();
        std::mem::swap(&mut r, &mut self.items);
        assert(final(self)@ =~= Set::<Seq<char>>::empty());
        assert(final(self).seq() =~= Seq::<Seq<char>>::empty());
        r
    }

    /// The stored paths, in storage order.
    pub fn paths(&self) -> (r: &Vec<String>)
        ensures
            forall|p: Seq<char>| self@.contains(p) <==> exists|i: int| 0 <= i < r.len() && #[trigger] r@[i]@ == p,
    {
        &self.items
    }
}

/// Some item among the first `n` of `items` holds the characters `p`.
pub open spec fn occurs(items: Seq<String>, n: int, p: Seq<char>) -> bool {
    exists|k: int| 0 <= k < n && #[trigger] items[k]@ == p
}

proof fn lemma_occurs_step(items: Seq<String>, n: int, p: Seq<char>)
    requires
        0 <= n < items.len(),
    ensures
        occurs(items, n + 1, p) == (occurs(items, n, p) || items[n]@ == p),
{
    if occurs(items, n + 1, p) && !occurs(items, n, p) {
        let k = choose|k: int| 0 <= k < n + 1 && #[trigger] items[k]@ == p;
        assert(k == n);
    }
    if items[n]@ == p {
        assert(items[n]@ == p);
    }
}

proof fn lemma_occurs_prefix(a: Seq<String>, b: Seq<String>, n: int, p: Seq<char>)
    requires
        0 <= n <= a.len(),
        n <= b.len(),
        forall|k: int| 0 <= k < n ==> a[k] == b[k],
    ensures
        occurs(a, n, p) == occurs(b, n, p),
{
    if occurs(a, n, p) {
        let k = choose|k: int| 0 <= k < n && #[trigger] a[k]@ == p;
        assert(b[k]@ == p);
    }
    if occurs(b, n, p) {
        let k = choose|k: int| 0 <= k < n && #[trigger] b[k]@ == p;
        assert(a[k]@ == p);
    }
}

/// `keep` may answer `answer` for path `p`.
pub open spec fn path_kept<F: Fn(&str) -> bool>(keep: F, p: Seq<char>, answer: bool) -> bool {
    exists|s: &str| s@ == p && #[trigger] keep.ensures((s,), answer)
}

/// A map from paths to values.
pub struct PathMap<V> {
    keys: Vec<String>,
    values: Vec<V>,
    contents: Ghost<Map<Seq<char>, V>>,
}

impl<V> View for PathMap<V> {
    type V = Map<Seq<char>, V>;

    closed spec fn view(&self) -> Map<Seq<char>, V> {
        self.contents@
    }
}

impl<V> PathMap<V> {
    /// The stored keys are distinct, and the entries at equal indices of the
    /// two vectors are exactly the map's entries.
    pub closed spec fn wf(&self) -> bool {
        &&& self.keys.len() == self.values.len()
        &&& forall|i: int, j: int|
            0 <= i < j < self.keys.len() ==> #[trigger] self.keys@[i]@ != #[trigger] self.keys@[j]@
        &&& forall|i: int|
            0 <= i < self.keys.len() ==> self.contents@.contains_key(#[trigger] self.keys@[i]@)
                && self.contents@[self.keys@[i]@] == self.values@[i]
        &&& forall|k: Seq<char>|
            #[trigger] self.contents@.contains_key(k) ==> exists|i: int|
                0 <= i < self.keys.len() && #[trigger] self.keys@[i]@ == k
    }

    /// The keys in storage order.
    pub closed spec fn key_seq(&self) -> Seq<Seq<char>> {
        self.keys@.map_values(|k: String| k@)
    }

    pub proof fn lemma_keys(&self)
        requires
            self.wf(),
        ensures
            self.key_seq().len() == self.len_spec(),
            self.key_seq().no_duplicates(),
            forall|k: Seq<char>| self@.contains_key(k) <==> self.key_seq().contains(k),
    {
        assert forall|k: Seq<char>| self@.contains_key(k) <==> self.key_seq().contains(k) by {
            if self@.contains_key(k) {
                let i = choose|i: int| 0 <= i < self.keys.len() && #[trigger] self.keys@[i]@ == k;
                assert(self.key_seq()[i] == k);
            }
            if self.key_seq().contains(k) {
                let i = choose|i: int| 0 <= i < self.key_seq().len() && self.key_seq()[i] == k;
                assert(self.keys@[i]@ == k);
            }
        }
        assert forall|i: int, j: int|
            0 <= i < self.key_seq().len() && 0 <= j < self.key_seq().len() && i != j
        implies self.key_seq()[i] != self.key_seq()[j] by {
            if i < j {
                assert(self.keys@[i]@ != self.keys@[j]@);
            } else {
                assert(self.keys@[j]@ != self.keys@[i]@);
            }
        }
    }

    pub closed spec fn len_spec(&self) -> nat {
        self.keys@.len()
    }

    pub fn new() -> (m: PathMap<V>)
        ensures
            m.wf(),
            m@ == Map::<Seq<char>, V>::empty(),
    {
        PathMap { keys: Vec::new(), values: Vec::new(), contents: Ghost(Map::empty()) }
    }

    pub fn len(&self) -> (n: usize)
        requires
            self.wf(),
        ensures
            n == self.len_spec(),
            n == self@.dom().len(),
    {
        proof {
            self.lemma_keys();
            self.key_seq().unique_seq_to_set();
            assert(self.key_seq().to_set() =~= self@.dom());
        }
        self.keys.len()
    }

    /// The key stored at index `i`.
    pub fn key_at(&self, i: usize) -> (k: &String)
        requires
            self.wf(),
            i < self.len_spec(),
        ensures
            k@ == self.key_seq()[i as int],
            self@.contains_key(k@),
    {
        &self.keys[i]
    }

    /// The value stored at index `i`.
    pub fn value_at(&self, i: usize) -> (v: &V)
        requires
            self.wf(),
            i < self.len_spec(),
        ensures
            *v == self@[self.key_seq()[i as int]],
    {
        &self.values[i]
    }

    fn position(&self, key: &String) -> (r: Option<usize>)
        requires
            self.wf(),
        ensures
            r matches Some(i) ==> i < self.keys.len() && self.keys@[i as int]@ == key@,
            r is None ==> !self@.contains_key(key@),
    {
        let mut i: usize = 0;
        while i < self.keys.len()
            invariant
                self.wf(),
                i <= self.keys.len(),
                forall|j: int| 0 <= j < i ==> #[trigger] self.keys@[j]@ != key@,
            decreases self.keys.len() - i,
        {
            if same_text(&self.keys[i], key) {
                return Some(i);
            }
            i = i + 1;
        }
        None
    }

    pub fn get(&self, key: &str) -> (r: Option<&V>)
        requires
            self.wf(),
        ensures
            r matches Some(v) ==> self@.contains_key(key@) && *v == self@[key@],
            r is None ==> !self@.contains_key(key@),
    {
        let k = key.to_owned();
        match self.position(&k) {
            Some(i) => Some(&self.values[i]),
            None => None,
        }
    }

    pub fn contains_key(&self, key: &str) -> (r: bool)
        requires
            self.wf(),
        ensures
            r == self@.contains_key(key@),
    {
        let k = key.to_owned();
        self.position(&k).is_some()
    }

    pub fn insert(&mut self, key: String, value: V)
        requires
            old(self).wf(),
        ensures
            final(self).wf(),
            final(self)@ == old(self)@.insert(key@, value),
    {
        let ghost k = key@;
        let ghost v = value;
        match self.position(&key) {
            Some(i) => {
                self.values.set(i, value);
                self.contents = Ghost(self.contents@.insert(k, v));
                assert forall|j: int| 0 <= j < self.keys.len() implies self.contents@.contains_key(
                    #[trigger] self.keys@[j]@,
                ) && self.contents@[self.keys@[j]@] == self.values@[j] by {
                    if j < i {
                        assert(self.keys@[j]@ != self.keys@[i as int]@);
                    } else if j > i {
                        assert(self.keys@[i as int]@ != self.keys@[j]@);
                    }
                }
                assert forall|q: Seq<char>| #[trigger] self.contents@.contains_key(q) implies exists|j: int|
                    0 <= j < self.keys.len() && #[trigger] self.keys@[j]@ == q by {
                    if q == k {
                        assert(self.keys@[i as int]@ == q);
                    } else {
                        let j = choose|j: int| 0 <= j < old(self).keys.len() && #[trigger] old(self).keys@[j]@ == q;
                        assert(self.keys@[j]@ == q);
                    }
                }
            },
            None => {
                self.push_new(key, value);
            },
        }
    }

    /// Removes `key`, and gives back its value if it was present.
    pub fn remove(&mut self, key: &str) -> (r: Option<V>)
        requires
            old(self).wf(),
        ensures
            final(self).wf(),
            final(self)@ == old(self)@.remove(key@),
            r matches Some(v) ==> old(self)@.contains_key(key@) && v == old(self)@[key@],
            r is None ==> !old(self)@.contains_key(key@),
    {
        let k = key.to_owned();
        match self.position(&k) {
            Some(i) => {
                let ghost old_keys = self.keys@;
                let ghost old_values = self.values@;
                self.keys.remove(i);
                let v = self.values.remove(i);
                self.contents = Ghost(self.contents@.remove(k@));
                assert forall|a: int, b: int|
                    0 <= a < b < self.keys.len() implies #[trigger] self.keys@[a]@ != #[trigger] self.keys@[b]@ by {
                    let oa = if a < i { a } else { a + 1 };
                    let ob = if b < i { b } else { b + 1 };
                    assert(self.keys@[a] == old_keys[oa]);
                    assert(self.keys@[b] == old_keys[ob]);
                }
                assert forall|j: int| 0 <= j < self.keys.len() implies self.contents@.contains_key(
                    #[trigger] self.keys@[j]@,
                ) && self.contents@[self.keys@[j]@] == self.values@[j] by {
                    let oj = if j < i { j } else { j + 1 };
                    assert(self.keys@[j] == old_keys[oj]);
                    assert(self.values@[j] == old_values[oj]);
                    assert(old_keys[oj]@ != old_keys[i as int]@);
                }
                assert forall|q: Seq<char>| #[trigger] self.contents@.contains_key(q) implies exists|j: int|
                    0 <= j < self.keys.len() && #[trigger] self.keys@[j]@ == q by {
                    let oj = choose|oj: int| 0 <= oj < old_keys.len() && #[trigger] old_keys[oj]@ == q;
                    assert(oj != i);
                    let j = if oj < i { oj } else { oj - 1 };
                    assert(self.keys@[j] == old_keys[oj]);
                }
                Some(v)
            },
            None => {
                assert(self.contents@.remove(k@) =~= self.contents@);
                None
            },
        }
    }

    pub fn clear(&mut self)
        requires
            old(self).wf(),
        ensures
            final(self).wf(),
            final(self)@ == Map::<Seq<char>, V>::empty(),
    {
        self.keys.clear();
        self.values.clear();
        self.contents = Ghost(Map::empty());
    }

    /// Keeps the entries whose key `keep` accepts, with their values.
    pub fn retain<F: Fn(&str) -> bool>(&mut self, keep: F) where V: Copy
        requires
            old(self).wf(),
            forall|p: &str| #[trigger] keep.requires((p,)),
        ensures
            final(self).wf(),
            forall|p: Seq<char>| #[trigger]
                final(self)@.contains_key(p) ==> old(self)@.contains_key(p) && final(self)@[p]
                    == old(self)@[p],
            forall|p: Seq<char>| #[trigger]
                old(self)@.contains_key(p) ==> path_kept(keep, p, final(self)@.contains_key(p)),
    {
        proof {
            self.lemma_keys();
        }
        let ghost keys = self.key_seq();
        let mut kept: PathMap<V> = PathMap::new();
        let n = self.len();
        let mut i: usize = 0;
        while i < n
            invariant
                self.wf(),
                keys == self.key_seq(),
                keys.no_duplicates(),
                n == keys.len(),
                forall|k: Seq<char>| self@.contains_key(k) <==> keys.contains(k),
                forall|p: &str| #[trigger] keep.requires((p,)),
                i <= n,
                kept.wf(),
                forall|p: Seq<char>| #[trigger]
                    kept@.contains_key(p) ==> self@.contains_key(p) && kept@[p] == self@[p]
                        && exists|k: int| 0 <= k < i && keys[k] == p,
                forall|k: int|
                    0 <= k < i ==> path_kept(keep, #[trigger] keys[k], kept@.contains_key(keys[k])),
            decreases n - i,
        {
            let key = self.key_at(i);
            let value = *self.value_at(i);
            let name = key.as_str();
            let answer = keep(name);
            let ghost before = kept@;
            proof {
                if kept@.contains_key(key@) {
                    let k = choose|k: int| 0 <= k < i && keys[k] == key@;
                    assert(keys[k] == keys[i as int]);
                }
            }
            if answer {
                kept.push_new(key.clone(), value);
            }
            assert forall|k: int| 0 <= k < i + 1 implies path_kept(
                keep,
                #[trigger] keys[k],
                kept@.contains_key(keys[k]),
            ) by {
                if k < i {
                    assert(keys[k] != keys[i as int]);
                    assert(kept@.contains_key(keys[k]) == before.contains_key(keys[k]));
                } else {
                    assert(keep.ensures((name,), answer));
                    if !answer {
                        assert(kept@ == before);
                        if before.contains_key(keys[k]) {
                            let j = choose|j: int| 0 <= j < i && keys[j] == keys[k];
                            assert(keys[j] == keys[i as int]);
                        }
                    }
                }
            }
            i = i + 1;
        }
        let ghost old_map = self@;
        assert forall|p: Seq<char>| #[trigger] old_map.contains_key(p) implies path_kept(
            keep,
            p,
            kept@.contains_key(p),
        ) by {
            assert(keys.contains(p));
            let k = choose|k: int| 0 <= k < keys.len() && keys[k] == p;
            assert(path_kept(keep, keys[k], kept@.contains_key(keys[k])));
        }
        *self = kept;
    }

    /// Adds `key`, which must not be present yet, at the end of the storage order.
    pub fn push_new(&mut self, key: String, value: V)
        requires
            old(self).wf(),
            !old(self)@.contains_key(key@),
        ensures
            final(self).wf(),
            final(self)@ == old(self)@.insert(key@, value),
            final(self).key_seq() == old(self).key_seq().push(key@),
    {
        let ghost k = key@;
        let ghost v = value;
        self.keys.push(key);
        self.values.push(value);
        self.contents = Ghost(self.contents@.insert(k, v));
        assert forall|a: int, b: int|
            0 <= a < b < self.keys.len() implies #[trigger] self.keys@[a]@ != #[trigger] self.keys@[b]@ by {
            if b == self.keys.len() - 1 {
                assert(old(self).contents@.contains_key(old(self).keys@[a]@));
            }
        }
        assert forall|q: Seq<char>| #[trigger] self.contents@.contains_key(q) implies exists|i: int|
            0 <= i < self.keys.len() && #[trigger] self.keys@[i]@ == q by {
            if q != k {
                let i = choose|i: int| 0 <= i < old(self).keys.len() && #[trigger] old(self).keys@[i]@ == q;
                assert(self.keys@[i]@ == q);
            } else {
                assert(self.keys@[self.keys.len() - 1]@ == q);
            }
        }
        assert(self.key_seq() =~= old(self).key_seq().push(k));
    }
}

} // verus!
