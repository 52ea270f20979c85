//! The order in which a directory listing is shown: folders first, then by
//! lowercase name, equal names keeping the order the server gave.
use crate::files::{listing_view, Entry, EntryView};
use crate::text::{chars_of, lowercased, lowercase};
use vstd::prelude::*;

verus! {

/// `a` comes no later than `b` when strings are ordered by their characters'
/// code points, as `String` orders them.
pub open spec fn chars_le(a: Seq<char>, b: Seq<char>) -> bool
    decreases a.len(),
{
    if a.len() == 0 {
        true
    } else if b.len() == 0 {
        false
    } else if a[0] != b[0] {
        (a[0] as u32) < (b[0] as u32)
    } else {
        chars_le(a.drop_first(), b.drop_first())
    }
}

/// The key a listing is sorted by: whether the entry is not a folder, and its lowercase name.
pub open spec fn listing_key(e: EntryView) -> (bool, Seq<char>) {
    (!e.directory, lowercase(e.name))
}

/// `a` comes no later than `b` when keys are ordered by their first part,
/// `false` first, then by the second.
pub open spec fn key_le(a: (bool, Seq<char>), b: (bool, Seq<char>)) -> bool {
    (!a.0 && b.0) || (a.0 == b.0 && chars_le(a.1, b.1))
}

/// `out` is `input` sorted by `listing_key`, and entries with equal keys
/// keep their relative order: `p` says where each entry came from.
pub open spec fn stably_sorted_by(input: Seq<EntryView>, out: Seq<EntryView>, p: Seq<int>) -> bool {
    &&& p.len() == input.len()
    &&& out.len() == input.len()
    &&& forall|i: int| 0 <= i < p.len() ==> 0 <= #[trigger] p[i] < input.len()
    &&& forall|i: int, j: int| 0 <= i < j < p.len() ==> #[trigger] p[i] != #[trigger] p[j]
    &&& forall|i: int| 0 <= i < out.len() ==> #[trigger] out[i] == input[p[i]]
    &&& forall|i: int, j: int|
        0 <= i < j < out.len() ==> key_le(listing_key(#[trigger] out[i]), listing_key(#[trigger] out[j]))
    &&& forall|i: int, j: int|
        0 <= i < j < out.len() && key_le(listing_key(out[j]), listing_key(out[i])) ==> #[trigger] p[i]
            < #[trigger] p[j]
}

proof fn lemma_chars_total(a: Seq<char>, b: Seq<char>)
    ensures
        chars_le(a, b) || chars_le(b, a),
        chars_le(a, b) && chars_le(b, a) ==> a == b,
    decreases a.len(),
{
    if a.len() > 0 && b.len() > 0 && a[0] != b[0] {
        vstd::utf8::char_u32_cast(a[0], a[0] as u32);
        vstd::utf8::char_u32_cast(b[0], b[0] as u32);
        assert((a[0] as u32) != (b[0] as u32));
    }
    if a.len() > 0 && b.len() > 0 && a[0] == b[0] {
        lemma_chars_total(a.drop_first(), b.drop_first());
        if chars_le(a, b) && chars_le(b, a) {
            assert(a =~= seq![a[0]] + a.drop_first());
            assert(b =~= seq![b[0]] + b.drop_first());
        }
    }
    if a.len() == 0 && b.len() == 0 {
        assert(a =~= b);
    }
}

proof fn lemma_chars_trans(a: Seq<char>, b: Seq<char>, c: Seq<char>)
    requires
        chars_le(a, b),
        chars_le(b, c),
    ensures
        chars_le(a, c),
    decreases a.len(),
{
    if a.len() > 0 && b.len() > 0 && c.len() > 0 && a[0] == b[0] && b[0] == c[0] {
        lemma_chars_trans(a.drop_first(), b.drop_first(), c.drop_first());
    }
}

proof fn lemma_chars_refl(a: Seq<char>)
    ensures
        chars_le(a, a),
    decreases a.len(),
{
    if a.len() > 0 {
        lemma_chars_refl(a.drop_first());
    }
}

proof fn lemma_key_refl(a: (bool, Seq<char>))
    ensures
        key_le(a, a),
{
    lemma_chars_refl(a.1);
}

proof fn lemma_key_total(a: (bool, Seq<char>), b: (bool, Seq<char>))
    ensures
        key_le(a, b) || key_le(b, a),
{
    lemma_chars_total(a.1, b.1);
}

proof fn lemma_key_trans(a: (bool, Seq<char>), b: (bool, Seq<char>), c: (bool, Seq<char>))
    requires
        key_le(a, b),
        key_le(b, c),
    ensures
        key_le(a, c),
{
    if a.0 == b.0 && b.0 == c.0 {
        lemma_chars_trans(a.1, b.1, c.1);
    }
}

/// Whether `a` comes no later than `b` by code points.
fn chars_le_exec(a: &Vec<char>, b: &Vec<char>) -> (r: bool)
    ensures
        r == chars_le(a@, b@),
{
    let mut i: usize = 0;
    proof {
        assert(a@.skip(0) =~= a@);
        assert(b@.skip(0) =~= b@);
    }
    while i < a.len() && i < b.len() && a[i] == b[i]
        invariant
            i <= a.len(),
            i <= b.len(),
            chars_le(a@, b@) == chars_le(a@.skip(i as int), b@.skip(i as int)),
        decreases a.len() - i,
    {
        assert(a@.skip(i as int).drop_first() =~= a@.skip(i + 1));
        assert(b@.skip(i as int).drop_first() =~= b@.skip(i + 1));
        i = i + 1;
    }
    if i == a.len() {
        true
    } else if i == b.len() {
        false
    } else {
        (a[i] as u32) < (b[i] as u32)
    }
}

/// Whether the entry at `x` comes no later than the one at `y`, by their keys.
fn key_le_at(dirs: &Vec<bool>, names: &Vec<Vec<char>>, x: usize, y: usize) -> (r: bool)
    requires
        x < dirs.len(),
        y < dirs.len(),
        dirs.len() == names.len(),
    ensures
        r == key_le((dirs@[x as int], names@[x as int]@), (dirs@[y as int], names@[y as int]@)),
{
    (!dirs[x] && dirs[y]) || (dirs[x] == dirs[y] && chars_le_exec(&names[x], &names[y]))
}

/// The entries of a listing in the order it is shown: folders first, then by
/// lowercase name; entries with equal keys keep the server's order.
pub fn sort_listing(entries: Vec<Entry>) -> (r: Vec<Entry>)
    ensures
        exists|p: Seq<int>| stably_sorted_by(listing_view(entries@), listing_view(r@), p),
{
    let ghost input = listing_view(entries@);
    let n = entries.len();
    let mut dirs: Vec<bool> = Vec::new();
    let mut names: Vec<Vec<char>> = Vec::new();
    let mut i: usize = 0;
    while i < n
        invariant
            n == entries.len(),
            input == listing_view(entries@),
            i <= n,
            dirs.len() == i,
            names.len() == i,
            forall|j: int| 0 <= j < i ==> (#[trigger] dirs@[j], names@[j]@) == listing_key(input[j]),
        decreases n - i,
    {
        dirs.push(!entries[i].directory);
        let folded = lowercased(entries[i].name.as_str());
        names.push(chars_of(folded.as_str()));
        i = i + 1;
    }
    let mut order: Vec<usize> = Vec::new();
    let mut i: usize = 0;
    while i < n
        invariant
            n == entries.len(),
            input == listing_view(entries@),
            dirs.len() == n,
            names.len() == n,
            forall|j: int| 0 <= j < n ==> (#[trigger] dirs@[j], names@[j]@) == listing_key(input[j]),
            i <= n,
            order.len() == i,
            forall|a: int| 0 <= a < i ==> #[trigger] order@[a] < i,
            forall|a: int, b: int| 0 <= a < b < i ==> #[trigger] order@[a] != #[trigger] order@[b],
            forall|a: int, b: int|
                0 <= a < b < i ==> key_le(
                    listing_key(input[#[trigger] order@[a] as int]),
                    listing_key(input[#[trigger] order@[b] as int]),
                ),
            forall|a: int, b: int|
                0 <= a < b < i && key_le(
                    listing_key(input[order@[b] as int]),
                    listing_key(input[order@[a] as int]),
                ) ==> #[trigger] order@[a] < #[trigger] order@[b],
        decreases n - i,
    {
        let mut pos: usize = 0;
        while pos < order.len() && key_le_at(&dirs, &names, order[pos], i)
            invariant
                dirs.len() == n,
                names.len() == n,
                i < n,
                order.len() == i,
                forall|a: int| 0 <= a < i ==> #[trigger] order@[a] < i,
                pos <= order.len(),
                forall|a: int|
                    0 <= a < pos ==> key_le(
                        (dirs@[#[trigger] order@[a] as int], names@[order@[a] as int]@),
                        (dirs@[i as int], names@[i as int]@),
                    ),
            decreases order.len() - pos,
        {
            pos = pos + 1;
        }
        let ghost before = order@;
        let ghost ki = listing_key(input[i as int]);
        assert(ki == (dirs@[i as int], names@[i as int]@));
        proof {
            assert forall|a: int| 0 <= a < pos implies key_le(
                listing_key(input[#[trigger] before[a] as int]),
                ki,
            ) by {
                assert((dirs@[before[a] as int], names@[before[a] as int]@) == listing_key(input[before[a] as int]));
            }
            if pos < before.len() {
                assert((dirs@[before[pos as int] as int], names@[before[pos as int] as int]@) == listing_key(input[before[pos as int] as int]));
                assert(!key_le(listing_key(input[before[pos as int] as int]), ki));
                lemma_key_total(listing_key(input[before[pos as int] as int]), ki);
            }
        }
        order.insert(pos, i);
        proof {
            before.insert_ensures(pos as int, i);
            let after = order@;
            assert forall|a: int| 0 <= a < i + 1 implies #[trigger] after[a] < i + 1 by {
                if a > pos {
                    assert(after[a] == before[a - 1]);
                }
            }
            assert forall|a: int, b: int| 0 <= a < b < i + 1 implies #[trigger] after[a] != #[trigger] after[b] by {
                if b > pos {
                    assert(after[b] == before[b - 1]);
                }
                if a > pos {
                    assert(after[a] == before[a - 1]);
                }
            }
            assert forall|a: int, b: int| 0 <= a < b < i + 1 implies key_le(
                listing_key(input[#[trigger] after[a] as int]),
                listing_key(input[#[trigger] after[b] as int]),
            ) by {
                if a < pos && b < pos {
                } else if a < pos && b == pos {
                } else if a < pos && b > pos {
                    assert(after[b] == before[b - 1]);
                    if b - 1 > a {
                    }
                } else if a == pos {
                    assert(after[b] == before[b - 1]);
                    if b - 1 > pos {
                        assert(key_le(
                            listing_key(input[before[pos as int] as int]),
                            listing_key(input[before[b - 1] as int]),
                        ));
                    } else {
                        lemma_key_refl(listing_key(input[before[pos as int] as int]));
                    }
                    lemma_key_trans(
                        ki,
                        listing_key(input[before[pos as int] as int]),
                        listing_key(input[before[b - 1] as int]),
                    );
                } else {
                    assert(after[a] == before[a - 1]);
                    assert(after[b] == before[b - 1]);
                }
            }
            assert forall|a: int, b: int|
                0 <= a < b < i + 1 && key_le(
                    listing_key(input[after[b] as int]),
                    listing_key(input[after[a] as int]),
                ) implies #[trigger] after[a] < #[trigger] after[b] by {
                if a == pos {
                    assert(after[b] == before[b - 1]);
                    if b - 1 > pos {
                        assert(key_le(
                            listing_key(input[before[pos as int] as int]),
                            listing_key(input[before[b - 1] as int]),
                        ));
                        lemma_key_trans(
                            listing_key(input[before[pos as int] as int]),
                            listing_key(input[before[b - 1] as int]),
                            ki,
                        );
                    }
                } else if b == pos {
                } else if a > pos {
                    assert(after[a] == before[a - 1]);
                    assert(after[b] == before[b - 1]);
                } else if b > pos {
                    assert(after[b] == before[b - 1]);
                }
            }
        }
        i = i + 1;
    }
    let mut out: Vec<Entry> = Vec::new();
    let mut k: usize = 0;
    while k < n
        invariant
            n == entries.len(),
            input == listing_view(entries@),
            order.len() == n,
            forall|a: int| 0 <= a < n ==> #[trigger] order@[a] < n,
            k <= n,
            out.len() == k,
            forall|a: int| 0 <= a < k ==> #[trigger] out@[a]@ == input[order@[a] as int],
        decreases n - k,
    {
        out.push(entries[order[k]].duplicate());
        k = k + 1;
    }
    let ghost p = order@.map_values(|x: usize| x as int);
    assert(stably_sorted_by(input, listing_view(out@), p));
    out
}

} // verus!
