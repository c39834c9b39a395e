//! The search ladder that the files of the system are found on.
//!
//! A kind of file is looked for in a list of prefixes, from the lowest
//! priority to the highest.  Every prefix can hold one main file and a
//! directory of drop-ins.  The main file of the highest prefix that has one
//! replaces the others; a drop-in replaces the drop-in with the same relative
//! path in the prefixes below; and an empty file masks what it replaces, so
//! that nothing is left in its place.
//!
//! What is in the directories is read elsewhere and handed over as a
//! [`Shelf`] for each prefix; deciding what the system sees is done here.

use vstd::prelude::*;

use crate::path;
use crate::text;

verus! {

/// How deep a directory of drop-ins is read in recursive mode.
pub const MAX_DEPTH: usize = 64;

/// The default search prefixes, from the lowest to the highest priority.
pub open spec fn search_ladder() -> Seq<Seq<char>> {
    seq!["usr/share"@, "run"@, "etc"@]
}

/// The default search prefixes, from the lowest to the highest priority.
pub fn default_prefixes() -> (r: Vec<String>)
    ensures
        text::texts(r@) == search_ladder(),
{
    let mut r: Vec<String> = Vec::new();
    r.push("usr/share".to_owned());
    r.push("run".to_owned());
    r.push("etc".to_owned());
    assert(text::texts(r@) =~= search_ladder());
    r
}

/// Whether the prefix at `index` holds the path.
pub open spec fn on_rung(relative: Seq<char>, prefixes: Seq<&str>, index: int) -> bool {
    path::below(relative, prefixes[index]@) is Some
}

/// The rung of a search ladder that a file sits on, and the rest of its path.
///
/// `path` is under `root`, and `prefixes` goes from the lowest priority to the
/// highest.  What comes back is the index of the highest prefix that holds the
/// path, and everything of the path below it.  Nothing is read, so this
/// answers for a file that is not there.
pub fn rung(root: &str, path: &str, prefixes: &[&str]) -> (r: Option<(usize, String)>)
    ensures
        match path::below(path@, root@) {
            None => r is None,
            Some(relative) => match r {
                Some((index, remainder)) => {
                    &&& index < prefixes@.len()
                    &&& path::below(relative, prefixes@[index as int]@) == Some(remainder@)
                    &&& forall|j: int|
                        index < j < prefixes@.len() ==> !on_rung(relative, prefixes@, j)
                },
                None => forall|j: int|
                    0 <= j < prefixes@.len() ==> !on_rung(relative, prefixes@, j),
            },
        },
{
    match path::strip(path, root) {
        None => None,
        Some(relative) => {
            let mut i: usize = prefixes.len();
            while i > 0
                invariant
                    i <= prefixes@.len(),
                    path::below(path@, root@) == Some(relative@),
                    forall|j: int|
                        i <= j < prefixes@.len() ==> !on_rung(relative@, prefixes@, j),
                decreases i,
            {
                i -= 1;
                match path::strip(relative.as_str(), prefixes[i]) {
                    Some(remainder) => {
                        return Some((i, remainder));
                    },
                    None => {},
                }
            }
            None
        },
    }
}

/// One file that was found in a directory of drop-ins: its path relative to
/// the directory, where it is, and whether there is nothing in it.
pub struct Found {
    pub key: String,
    pub path: String,
    pub empty: bool,
}

/// What one prefix holds: the main file, when there is one, and the drop-ins.
pub struct Shelf {
    pub main: Option<Found>,
    pub dropins: Vec<Found>,
}

/// What a search ladder is made of.
pub struct Ladder {
    pub name: Seq<char>,
    pub root: Seq<char>,
    pub prefixes: Seq<Seq<char>>,
    pub recursive: bool,
}

/// A kind of file, and the prefixes that it is looked for in.
pub struct UAPICFS {
    name: String,
    root: String,
    prefixes: Vec<String>,
    recursive: bool,
}

impl View for UAPICFS {
    type V = Ladder;

    closed spec fn view(&self) -> Ladder {
        Ladder {
            name: self.name@,
            root: self.root@,
            prefixes: text::texts(self.prefixes@),
            recursive: self.recursive,
        }
    }
}

/// A prefix as it is kept: below the root, whether or not it was written with
/// a leading separator.
pub open spec fn below_root(prefix: Seq<char>) -> Seq<char> {
    match path::below(prefix, "/"@) {
        Some(rest) => rest,
        None => prefix,
    }
}

/// Where the main file is looked for under one prefix.
pub open spec fn main_at(ladder: Ladder, prefix: Seq<char>) -> Seq<char> {
    path::joined(path::joined(ladder.root, prefix), ladder.name)
}

/// What the files say of the main file: the last prefix that has one decides,
/// and an empty one says that there is none.
pub open spec fn main_of(shelves: Seq<Shelf>) -> Option<Seq<char>>
    decreases shelves.len(),
{
    if shelves.len() == 0 {
        None
    } else {
        match shelves.last().main {
            Some(found) => if found.empty {
                None
            } else {
                Some(found.path@)
            },
            None => main_of(shelves.drop_last()),
        }
    }
}

/// A file that was found, as plain text.
pub struct Sighting {
    pub key: Seq<char>,
    pub path: Seq<char>,
    pub empty: bool,
}

impl View for Found {
    type V = Sighting;

    open spec fn view(&self) -> Sighting {
        Sighting { key: self.key@, path: self.path@, empty: self.empty }
    }
}

/// What the drop-ins say of the one that `key` identifies, if they say
/// anything.  The last of them decides.
pub open spec fn latest(found: Seq<Found>, key: Seq<Seq<char>>) -> Option<Sighting>
    decreases found.len(),
{
    if found.len() == 0 {
        None
    } else if path::names(found.last().key@) == key {
        Some(found.last()@)
    } else {
        latest(found.drop_last(), key)
    }
}

/// Whether the drop-in that `key` identifies is there to be seen.
pub open spec fn visible(found: Seq<Found>, key: Seq<Seq<char>>) -> bool {
    latest(found, key) matches Some(sighting) && !sighting.empty
}

/// Every drop-in, from the lowest prefix to the highest.
pub open spec fn all_found(shelves: Seq<Shelf>) -> Seq<Found>
    decreases shelves.len(),
{
    if shelves.len() == 0 {
        Seq::empty()
    } else {
        all_found(shelves.drop_last()) + shelves.last().dropins@
    }
}

/// How deep the directories of drop-ins are read.
pub open spec fn reach(ladder: Ladder) -> nat {
    if ladder.recursive {
        MAX_DEPTH as nat
    } else {
        1
    }
}

/// The drop-ins that are within reach.
pub open spec fn reached(found: Seq<Found>, depth: nat) -> Seq<Found>
    decreases found.len(),
{
    if found.len() == 0 {
        Seq::empty()
    } else {
        let before = reached(found.drop_last(), depth);
        if path::names(found.last().key@).len() <= depth {
            before.push(found.last())
        } else {
            before
        }
    }
}

/// The drop-ins that the system sees: in the order of their relative paths,
/// each of them once, and all that no higher prefix masks.
pub open spec fn resolves(found: Seq<Found>, r: Seq<(String, String)>) -> bool {
    &&& forall|i: int, j: int|
        0 <= i < j < r.len() ==> path::route_before(
            path::names(#[trigger] r[i].0@),
            path::names(#[trigger] r[j].0@),
        )
    &&& forall|i: int|
        0 <= i < r.len() ==> latest(found, path::names(#[trigger] r[i].0@)) == Some(
            Sighting { key: r[i].0@, path: r[i].1@, empty: false },
        )
    &&& forall|key: Seq<Seq<char>>| #[trigger]
        visible(found, key) ==> exists|i: int|
            0 <= i < r.len() && path::names(#[trigger] r[i].0@) == key
}

/// The files that the system sees: the main file first, under an empty key,
/// and then the drop-ins that are within reach.
pub open spec fn seen(ladder: Ladder, shelves: Seq<Shelf>, r: Seq<(String, String)>) -> bool {
    match main_of(shelves) {
        Some(main) => {
            &&& r.len() > 0
            &&& r[0].0@ == Seq::<char>::empty()
            &&& r[0].1@ == main
            &&& resolves(reached(all_found(shelves), reach(ladder)), r.drop_first())
        },
        None => resolves(reached(all_found(shelves), reach(ladder)), r),
    }
}

/// Where the files are.
pub open spec fn paths_of(entries: Seq<(String, String)>) -> Seq<Seq<char>> {
    Seq::new(entries.len(), |i: int| entries[i].1@)
}

spec fn slots_sorted(slots: Seq<Found>) -> bool {
    forall|i: int, j: int|
        0 <= i < j < slots.len() ==> path::route_before(
            path::names(#[trigger] slots[i].key@),
            path::names(#[trigger] slots[j].key@),
        )
}

spec fn slot_of(slots: Seq<Found>, key: Seq<Seq<char>>) -> Option<Sighting> {
    if exists|i: int| 0 <= i < slots.len() && path::names(#[trigger] slots[i].key@) == key {
        let i = choose|i: int| 0 <= i < slots.len() && path::names(#[trigger] slots[i].key@) == key;
        Some(slots[i]@)
    } else {
        None
    }
}

proof fn lemma_slot_at(slots: Seq<Found>, i: int)
    requires
        slots_sorted(slots),
        0 <= i < slots.len(),
    ensures
        slot_of(slots, path::names(slots[i].key@)) == Some(slots[i]@),
{
    let key = path::names(slots[i].key@);
    let j = choose|j: int| 0 <= j < slots.len() && path::names(#[trigger] slots[j].key@) == key;
    path::lemma_route_before_irreflexive(key);
    assert(i == j);
}

/// Put one file among the slots, in the place of the one with its key.
fn place_slot(slots: &mut Vec<Found>, found: &Found)
    requires
        slots_sorted(old(slots)@),
    ensures
        slots_sorted(final(slots)@),
        forall|key: Seq<Seq<char>>| #[trigger]
            slot_of(final(slots)@, key) == (if key == path::names(found.key@) {
                Some(found@)
            } else {
                slot_of(old(slots)@, key)
            }),
{
    let ghost was = slots@;
    let ghost k = path::names(found.key@);
    let names = path::parts(found.key.as_str());
    let slot = Found { key: found.key.clone(), path: found.path.clone(), empty: found.empty };
    let mut i: usize = 0;
    while i < slots.len()
        invariant
            i <= slots@.len(),
            slots@ == was,
            slots_sorted(was),
            k == path::names(found.key@),
            text::texts(names@) == k,
            forall|j: int| 0 <= j < i ==> path::route_before(path::names(#[trigger] was[j].key@), k),
        ensures
            i <= was.len(),
            forall|j: int| 0 <= j < i ==> path::route_before(path::names(#[trigger] was[j].key@), k),
            i < was.len() ==> !path::route_before(path::names(was[i as int].key@), k),
        decreases slots@.len() - i,
    {
        let other = path::parts(slots[i].key.as_str());
        if !path::names_before(&other, &names) {
            break ;
        }
        i += 1;
    }
    let mut replace: bool = false;
    if i < slots.len() {
        replace = path::same_names(&path::parts(slots[i].key.as_str()), &names);
    }
    if replace {
        slots.set(i, slot);
        proof {
            let now = slots@;
            assert(slots_sorted(now));
            assert forall|key: Seq<Seq<char>>| #[trigger]
                slot_of(now, key) == (if key == k {
                    Some(found@)
                } else {
                    slot_of(was, key)
                }) by {
                if key == k {
                    lemma_slot_at(now, i as int);
                } else if exists|j: int| 0 <= j < was.len() && path::names(#[trigger] was[j].key@) == key {
                    let j = choose|j: int|
                        0 <= j < was.len() && path::names(#[trigger] was[j].key@) == key;
                    lemma_slot_at(was, j);
                    assert(now[j] == was[j]);
                    lemma_slot_at(now, j);
                } else {
                    assert forall|j: int| 0 <= j < now.len() implies path::names(
                        #[trigger] now[j].key@,
                    ) != key by {
                        if j != i {
                            assert(now[j] == was[j]);
                        }
                    }
                }
            }
        }
    } else {
        slots.insert(i, slot);
        proof {
            let now = slots@;
            if i < was.len() {
                path::lemma_route_before_total(path::names(was[i as int].key@), k);
            }
            assert forall|a: int, b: int| 0 <= a < b < now.len() implies path::route_before(
                path::names(#[trigger] now[a].key@),
                path::names(#[trigger] now[b].key@),
            ) by {
                let x = if a < i { a } else { a - 1 };
                let y = if b < i { b } else { b - 1 };
                if a == i {
                    assert(now[b] == was[y]);
                    if y > i {
                        path::lemma_route_before_transitive(
                            k,
                            path::names(was[i as int].key@),
                            path::names(was[y].key@),
                        );
                    }
                } else if b == i {
                    assert(now[a] == was[x]);
                } else {
                    assert(now[a] == was[x]);
                    assert(now[b] == was[y]);
                }
            }
            assert forall|key: Seq<Seq<char>>| #[trigger]
                slot_of(now, key) == (if key == k {
                    Some(found@)
                } else {
                    slot_of(was, key)
                }) by {
                if key == k {
                    lemma_slot_at(now, i as int);
                } else if exists|j: int| 0 <= j < was.len() && path::names(#[trigger] was[j].key@) == key {
                    let j = choose|j: int|
                        0 <= j < was.len() && path::names(#[trigger] was[j].key@) == key;
                    lemma_slot_at(was, j);
                    let m = if j < i { j } else { j + 1 };
                    assert(now[m] == was[j]);
                    lemma_slot_at(now, m);
                } else {
                    assert forall|m: int| 0 <= m < now.len() implies path::names(
                        #[trigger] now[m].key@,
                    ) != key by {
                        if m < i {
                            assert(now[m] == was[m]);
                        } else if m > i {
                            assert(now[m] == was[m - 1]);
                        }
                    }
                }
            }
        }
    }
}

/// The slots that hold something, in their order.
spec fn kept(slots: Seq<Found>) -> Seq<Sighting>
    decreases slots.len(),
{
    if slots.len() == 0 {
        Seq::empty()
    } else if slots.last().empty {
        kept(slots.drop_last())
    } else {
        kept(slots.drop_last()).push(slots.last()@)
    }
}

spec fn sightings(r: Seq<(String, String)>) -> Seq<Sighting> {
    Seq::new(r.len(), |i: int| Sighting { key: r[i].0@, path: r[i].1@, empty: false })
}

/// Where in the slots an entry comes from.
spec fn comes_from(slots: Seq<Found>, sighting: Sighting, q: int) -> bool {
    0 <= q < slots.len() && slots[q]@ == sighting
}

proof fn lemma_kept(slots: Seq<Found>)
    requires
        slots_sorted(slots),
    ensures
        forall|i: int|
            0 <= i < kept(slots).len() ==> !(#[trigger] kept(slots)[i]).empty && exists|q: int|
                comes_from(slots, kept(slots)[i], q),
        forall|i: int, j: int|
            0 <= i < j < kept(slots).len() ==> path::route_before(
                path::names((#[trigger] kept(slots)[i]).key),
                path::names((#[trigger] kept(slots)[j]).key),
            ),
        forall|q: int|
            0 <= q < slots.len() && !(#[trigger] slots[q]).empty ==> kept(slots).contains(slots[q]@),
    decreases slots.len(),
{
    if slots.len() > 0 {
        let less = slots.drop_last();
        let last = slots.last();
        assert forall|i: int, j: int| 0 <= i < j < less.len() implies path::route_before(
            path::names(#[trigger] less[i].key@),
            path::names(#[trigger] less[j].key@),
        ) by {
            assert(less[i] == slots[i] && less[j] == slots[j]);
        }
        lemma_kept(less);
        let all = kept(slots);
        let some = kept(less);
        assert forall|i: int| 0 <= i < all.len() implies !(#[trigger] all[i]).empty && exists|q: int|
            comes_from(slots, all[i], q) by {
            if i < some.len() {
                assert(all[i] == some[i]);
                let q = choose|q: int| comes_from(less, some[i], q);
                assert(comes_from(slots, all[i], q));
            } else {
                assert(comes_from(slots, all[i], slots.len() - 1));
            }
        }
        assert forall|i: int, j: int| 0 <= i < j < all.len() implies path::route_before(
            path::names((#[trigger] all[i]).key),
            path::names((#[trigger] all[j]).key),
        ) by {
            assert(all[i] == some[i]);
            if j < some.len() {
                assert(all[j] == some[j]);
            } else {
                let q = choose|q: int| comes_from(less, some[i], q);
                assert(slots[q].key@ == all[i].key);
                assert(path::route_before(path::names(slots[q].key@), path::names(last.key@)));
            }
        }
        assert forall|q: int| 0 <= q < slots.len() && !(#[trigger] slots[q]).empty implies all.contains(
            slots[q]@,
        ) by {
            if q < less.len() {
                assert(less[q] == slots[q]);
                let i = choose|i: int| 0 <= i < some.len() && some[i] == slots[q]@;
                assert(all[i] == slots[q]@);
            } else {
                assert(all[all.len() - 1] == slots[q]@);
            }
        }
    }
}

proof fn lemma_unmasked_resolves(slots: Seq<Found>, found: Seq<Found>, r: Seq<(String, String)>)
    requires
        slots_sorted(slots),
        forall|key: Seq<Seq<char>>| #[trigger] slot_of(slots, key) == latest(found, key),
        sightings(r) == kept(slots),
    ensures
        resolves(found, r),
{
    lemma_kept(slots);
    let all = kept(slots);
    assert forall|i: int, j: int| 0 <= i < j < r.len() implies path::route_before(
        path::names(#[trigger] r[i].0@),
        path::names(#[trigger] r[j].0@),
    ) by {
        assert(all[i] == sightings(r)[i]);
        assert(all[j] == sightings(r)[j]);
    }
    assert forall|i: int| 0 <= i < r.len() implies latest(found, path::names(#[trigger] r[i].0@))
        == Some(Sighting { key: r[i].0@, path: r[i].1@, empty: false }) by {
        assert(all[i] == sightings(r)[i]);
        let q = choose|q: int| comes_from(slots, all[i], q);
        lemma_slot_at(slots, q);
        assert(slot_of(slots, path::names(slots[q].key@)) == Some(slots[q]@));
    }
    assert forall|key: Seq<Seq<char>>| #[trigger] visible(found, key) implies exists|i: int|
        0 <= i < r.len() && path::names(#[trigger] r[i].0@) == key by {
        assert(slot_of(slots, key) == latest(found, key));
        let q = choose|q: int| 0 <= q < slots.len() && path::names(#[trigger] slots[q].key@) == key;
        assert(!slots[q].empty) by {
            lemma_slot_at(slots, q);
        }
        let i = choose|i: int| 0 <= i < all.len() && all[i] == slots[q]@;
        assert(all[i] == sightings(r)[i]);
        assert(path::names(r[i].0@) == key);
    }
}

/// The slots that hold something, as a key and a path.
fn unmasked(slots: &Vec<Found>) -> (r: Vec<(String, String)>)
    ensures
        sightings(r@) == kept(slots@),
{
    let mut r: Vec<(String, String)> = Vec::new();
    let mut n: usize = 0;
    assert(sightings(r@) =~= kept(slots@.take(0)));
    while n < slots.len()
        invariant
            n <= slots@.len(),
            sightings(r@) == kept(slots@.take(n as int)),
        decreases slots@.len() - n,
    {
        assert(slots@.take(n + 1).drop_last() =~= slots@.take(n as int));
        if !slots[n].empty {
            let ghost was = r@;
            r.push((slots[n].key.clone(), slots[n].path.clone()));
            assert(sightings(r@) =~= sightings(was).push(slots@[n as int]@));
        }
        n += 1;
    }
    assert(slots@.take(n as int) =~= slots@);
    r
}

/// What a higher prefix says of a drop-in replaces what the lower ones say,
/// and where it says nothing they still stand.
pub proof fn law_higher_prefix_decides(lower: Seq<Found>, higher: Seq<Found>, key: Seq<Seq<char>>)
    ensures
        latest(lower + higher, key) == (if latest(higher, key) is Some {
            latest(higher, key)
        } else {
            latest(lower, key)
        }),
    decreases higher.len(),
{
    if higher.len() == 0 {
        assert(lower + higher =~= lower);
    } else {
        assert((lower + higher).last() == higher.last());
        assert((lower + higher).drop_last() =~= lower + higher.drop_last());
        law_higher_prefix_decides(lower, higher.drop_last(), key);
    }
}

/// The answer for a set of files is one only: nothing about the drop-ins that
/// the system sees is left open.
pub proof fn law_resolution_is_unique(
    found: Seq<Found>,
    a: Seq<(String, String)>,
    b: Seq<(String, String)>,
    i: int,
)
    requires
        resolves(found, a),
        resolves(found, b),
        0 <= i < a.len(),
    ensures
        i < b.len(),
        a[i].0@ == b[i].0@,
        a[i].1@ == b[i].1@,
    decreases i,
{
    let x = path::names(a[i].0@);
    assert(visible(found, x));
    let j = choose|j: int| 0 <= j < b.len() && path::names(#[trigger] b[j].0@) == x;
    assert(path::names(b[j].0@) == x);
    if j > i {
        let y = path::names(b[i].0@);
        assert(visible(found, y));
        let m = choose|m: int| 0 <= m < a.len() && path::names(#[trigger] a[m].0@) == y;
        assert(path::names(a[m].0@) == y);
        assert(path::route_before(y, x));
        if m >= i {
            if m > i {
                assert(path::route_before(x, y));
                path::lemma_route_before_transitive(x, y, x);
            }
            path::lemma_route_before_irreflexive(x);
        } else {
            law_resolution_is_unique(found, a, b, m);
            assert(path::names(b[m].0@) == y);
            assert(path::route_before(y, y));
            path::lemma_route_before_irreflexive(y);
        }
    } else if j < i {
        law_resolution_is_unique(found, a, b, j);
        assert(path::names(a[j].0@) == x);
        assert(path::route_before(x, x));
        path::lemma_route_before_irreflexive(x);
    }
}

/// The entries whose key has at most one name.
pub open spec fn shallow(r: Seq<(String, String)>) -> Seq<(String, String)>
    decreases r.len(),
{
    if r.len() == 0 {
        Seq::empty()
    } else {
        let before = shallow(r.drop_last());
        if path::names(r.last().0@).len() <= 1 {
            before.push(r.last())
        } else {
            before
        }
    }
}

/// Where an entry of a list stood in a longer one.
spec fn stood(r: Seq<(String, String)>, x: (String, String), q: int) -> bool {
    0 <= q < r.len() && r[q] == x
}

proof fn lemma_shallow(r: Seq<(String, String)>)
    requires
        forall|i: int, j: int|
            0 <= i < j < r.len() ==> path::route_before(
                path::names(#[trigger] r[i].0@),
                path::names(#[trigger] r[j].0@),
            ),
    ensures
        forall|i: int|
            0 <= i < shallow(r).len() ==> path::names((#[trigger] shallow(r)[i]).0@).len() <= 1
                && exists|q: int| stood(r, shallow(r)[i], q),
        forall|i: int, j: int|
            0 <= i < j < shallow(r).len() ==> path::route_before(
                path::names(#[trigger] shallow(r)[i].0@),
                path::names(#[trigger] shallow(r)[j].0@),
            ),
        forall|q: int|
            0 <= q < r.len() && path::names((#[trigger] r[q]).0@).len() <= 1 ==> shallow(r).contains(
                r[q],
            ),
    decreases r.len(),
{
    if r.len() > 0 {
        let less = r.drop_last();
        let all = shallow(r);
        let some = shallow(less);
        assert forall|i: int, j: int| 0 <= i < j < less.len() implies path::route_before(
            path::names(#[trigger] less[i].0@),
            path::names(#[trigger] less[j].0@),
        ) by {
            assert(less[i] == r[i] && less[j] == r[j]);
        }
        lemma_shallow(less);
        assert forall|i: int| 0 <= i < all.len() implies path::names((#[trigger] all[i]).0@).len() <= 1
            && exists|q: int| stood(r, all[i], q) by {
            if i < some.len() {
                assert(all[i] == some[i]);
                let q = choose|q: int| stood(less, some[i], q);
                assert(stood(r, all[i], q));
            } else {
                assert(stood(r, all[i], r.len() - 1));
            }
        }
        assert forall|i: int, j: int| 0 <= i < j < all.len() implies path::route_before(
            path::names(#[trigger] all[i].0@),
            path::names(#[trigger] all[j].0@),
        ) by {
            assert(all[i] == some[i]);
            if j < some.len() {
                assert(all[j] == some[j]);
            } else {
                let q = choose|q: int| stood(less, some[i], q);
                assert(r[q] == all[i]);
                assert(path::route_before(path::names(r[q].0@), path::names(r[r.len() - 1].0@)));
            }
        }
        assert forall|q: int|
            0 <= q < r.len() && path::names((#[trigger] r[q]).0@).len() <= 1 implies all.contains(
            r[q],
        ) by {
            if q < less.len() {
                assert(less[q] == r[q]);
                let i = choose|i: int| 0 <= i < some.len() && some[i] == r[q];
                assert(all[i] == r[q]);
            } else {
                assert(all[all.len() - 1] == r[q]);
            }
        }
    }
}

proof fn lemma_reached(found: Seq<Found>, depth: nat, key: Seq<Seq<char>>)
    ensures
        key.len() <= depth ==> latest(reached(found, depth), key) == latest(found, key),
        key.len() > depth ==> latest(reached(found, depth), key) is None,
    decreases found.len(),
{
    if found.len() > 0 {
        lemma_reached(found.drop_last(), depth, key);
        if path::names(found.last().key@).len() <= depth {
            assert(reached(found, depth).drop_last() =~= reached(found.drop_last(), depth));
        }
    }
}

proof fn lemma_shallow_resolves(found: Seq<Found>, depth: nat, r: Seq<(String, String)>)
    requires
        depth >= 1,
        resolves(reached(found, depth), r),
    ensures
        resolves(reached(found, 1), shallow(r)),
{
    let top = shallow(r);
    lemma_shallow(r);
    assert forall|i: int| 0 <= i < top.len() implies latest(
        reached(found, 1),
        path::names(#[trigger] top[i].0@),
    ) == Some(Sighting { key: top[i].0@, path: top[i].1@, empty: false }) by {
        let key = path::names(top[i].0@);
        lemma_reached(found, 1, key);
        lemma_reached(found, depth, key);
        let q = choose|q: int| stood(r, top[i], q);
        assert(r[q].0@ == top[i].0@);
    }
    assert forall|key: Seq<Seq<char>>| #[trigger] visible(reached(found, 1), key) implies exists|
        i: int,
    |
        0 <= i < top.len() && path::names(#[trigger] top[i].0@) == key by {
        lemma_reached(found, 1, key);
        lemma_reached(found, depth, key);
        assert(visible(reached(found, depth), key));
        let q = choose|q: int| 0 <= q < r.len() && path::names(#[trigger] r[q].0@) == key;
        assert(path::names(r[q].0@).len() <= 1);
        assert(top.contains(r[q]));
        let i = choose|i: int| 0 <= i < top.len() && top[i] == r[q];
        assert(path::names(top[i].0@) == key);
    }
}

proof fn lemma_same_resolution(
    found: Seq<Found>,
    a: Seq<(String, String)>,
    b: Seq<(String, String)>,
)
    requires
        resolves(found, a),
        resolves(found, b),
    ensures
        a.len() == b.len(),
        forall|i: int|
            0 <= i < a.len() ==> (#[trigger] a[i]).0@ == b[i].0@ && a[i].1@ == b[i].1@,
{
    assert forall|i: int| 0 <= i < a.len() implies i < b.len() && (#[trigger] a[i]).0@ == b[i].0@
        && a[i].1@ == b[i].1@ by {
        law_resolution_is_unique(found, a, b, i);
    }
    if a.len() > 0 {
        assert(a[a.len() - 1].0@ == b[a.len() - 1].0@);
    }
    if b.len() > a.len() {
        law_resolution_is_unique(found, b, a, b.len() - 1);
    }
}

proof fn lemma_shallow_front(x: (String, String), r: Seq<(String, String)>)
    requires
        path::names(x.0@).len() <= 1,
    ensures
        shallow(seq![x] + r) == seq![x] + shallow(r),
    decreases r.len(),
{
    let all = seq![x] + r;
    if r.len() == 0 {
        assert(all.drop_last() =~= Seq::empty());
        assert(all.last() == x);
        reveal_with_fuel(shallow, 2);
        assert(shallow(all) =~= seq![x] + shallow(r));
    } else {
        assert(all.drop_last() =~= seq![x] + r.drop_last());
        assert(all.last() == r.last());
        lemma_shallow_front(x, r.drop_last());
        assert(shallow(all) =~= seq![x] + shallow(r));
    }
}

/// Without descending, the system sees of the same files those whose key has at most
/// one name, in the same order.
pub proof fn law_one_level_is_the_top_of_all(
    ladder: Ladder,
    shelves: Seq<Shelf>,
    deep: Seq<(String, String)>,
    flat: Seq<(String, String)>,
)
    requires
        seen(Ladder { recursive: true, ..ladder }, shelves, deep),
        seen(Ladder { recursive: false, ..ladder }, shelves, flat),
    ensures
        flat.len() == shallow(deep).len(),
        forall|i: int|
            0 <= i < flat.len() ==> (#[trigger] flat[i]).0@ == shallow(deep)[i].0@ && flat[i].1@
                == shallow(deep)[i].1@,
{
    let found = all_found(shelves);
    if main_of(shelves) is Some {
        lemma_shallow_resolves(found, MAX_DEPTH as nat, deep.drop_first());
        lemma_same_resolution(reached(found, 1), flat.drop_first(), shallow(deep.drop_first()));
        assert(path::names(deep[0].0@) =~= Seq::empty()) by {
            assert(text::split(Seq::empty(), '/') =~= seq![Seq::<char>::empty()]);
            reveal_with_fuel(path::names_of, 2);
        }
        lemma_shallow_front(deep[0], deep.drop_first());
        assert(seq![deep[0]] + deep.drop_first() =~= deep);
        let top = shallow(deep);
        assert(top =~= seq![deep[0]] + shallow(deep.drop_first()));
        assert forall|i: int| 0 <= i < flat.len() implies (#[trigger] flat[i]).0@ == top[i].0@
            && flat[i].1@ == top[i].1@ by {
            if i > 0 {
                assert(flat.drop_first()[i - 1] == flat[i]);
                assert(shallow(deep.drop_first())[i - 1] == top[i]);
            }
        }
    } else {
        lemma_shallow_resolves(found, MAX_DEPTH as nat, deep);
        lemma_same_resolution(reached(found, 1), flat, shallow(deep));
    }
}

/// The directory of drop-ins under one prefix.
pub open spec fn dropins_at(ladder: Ladder, prefix: Seq<char>) -> Seq<char> {
    main_at(ladder, prefix) + ".d"@
}

/// Whether what stands on a shelf is where the prefix has it: the main file under its
/// name, and each drop-in under its key below the directory of drop-ins.
pub open spec fn in_place(ladder: Ladder, prefix: Seq<char>, shelf: Shelf) -> bool {
    &&& shelf.main matches Some(main) ==> main.path@ == main_at(ladder, prefix)
    &&& forall|i: int|
        0 <= i < shelf.dropins@.len() ==> path::names((#[trigger] shelf.dropins@[i]).path@)
            == path::names(dropins_at(ladder, prefix)) + path::names(shelf.dropins@[i].key@)
}

/// Whether the places under one prefix are none of those under another: neither a main
/// file nor a directory of drop-ins lies below another directory of drop-ins.
pub open spec fn set_apart(ladder: Ladder) -> bool {
    forall|i: int, j: int|
        0 <= i < ladder.prefixes.len() && 0 <= j < ladder.prefixes.len() ==> {
            let dir = path::names(dropins_at(ladder, #[trigger] ladder.prefixes[i]));
            let other = path::names(dropins_at(ladder, #[trigger] ladder.prefixes[j]));
            let main = path::names(main_at(ladder, ladder.prefixes[j]));
            &&& dir.len() <= main.len() ==> main.take(dir.len() as int) != dir
            &&& dir.len() < other.len() ==> other.take(dir.len() as int) != dir
        }
}

/// Where a drop-in comes from: a shelf, and a place on it.
spec fn shelved(shelves: Seq<Shelf>, sighting: Sighting, i: int, j: int) -> bool {
    0 <= i < shelves.len() && 0 <= j < shelves[i].dropins@.len() && shelves[i].dropins@[j]@ == sighting
}

proof fn lemma_latest_stood(found: Seq<Found>, key: Seq<Seq<char>>)
    requires
        latest(found, key) is Some,
    ensures
        exists|q: int| comes_from(found, latest(found, key)->Some_0, q),
    decreases found.len(),
{
    if path::names(found.last().key@) == key {
        assert(comes_from(found, latest(found, key)->Some_0, found.len() - 1));
    } else {
        lemma_latest_stood(found.drop_last(), key);
        let q = choose|q: int| comes_from(found.drop_last(), latest(found, key)->Some_0, q);
        assert(comes_from(found, latest(found, key)->Some_0, q));
    }
}

proof fn lemma_shelved(shelves: Seq<Shelf>, q: int)
    requires
        0 <= q < all_found(shelves).len(),
    ensures
        exists|i: int, j: int| shelved(shelves, all_found(shelves)[q]@, i, j),
    decreases shelves.len(),
{
    let before = all_found(shelves.drop_last());
    let x = all_found(shelves)[q]@;
    if q < before.len() {
        lemma_shelved(shelves.drop_last(), q);
        let (i, j) = choose|i: int, j: int| shelved(shelves.drop_last(), x, i, j);
        assert(shelved(shelves, x, i, j));
    } else {
        assert(shelved(shelves, x, shelves.len() - 1, q - before.len()));
    }
}

proof fn lemma_main_stood(shelves: Seq<Shelf>)
    requires
        main_of(shelves) is Some,
    ensures
        exists|i: int|
            0 <= i < shelves.len() && ((#[trigger] shelves[i]).main matches Some(main)
                && !main.empty && Some(main.path@) == main_of(shelves)),
    decreases shelves.len(),
{
    if shelves.last().main is Some {
        assert(shelves[shelves.len() - 1].main is Some);
    } else {
        lemma_main_stood(shelves.drop_last());
        let less = shelves.drop_last();
        let i = choose|i: int|
            0 <= i < less.len() && ((#[trigger] less[i]).main matches Some(main) && !main.empty
                && Some(main.path@) == main_of(less));
        assert(shelves[i] == less[i]);
    }
}

/// Whether a path is the one of a file under one of the prefixes that holds something.
pub open spec fn holds_something(shelves: Seq<Shelf>, path: Seq<char>) -> bool {
    ||| exists|i: int|
        0 <= i < shelves.len() && ((#[trigger] shelves[i]).main matches Some(main) && !main.empty
            && main.path@ == path)
    ||| exists|i: int, j: int|
        0 <= i < shelves.len() && 0 <= j < shelves[i].dropins@.len() && !(
        #[trigger] shelves[i].dropins@[j]).empty && shelves[i].dropins@[j].path@ == path
}

/// Where one entry is, among what stands on the shelves.
proof fn lemma_entry_place(
    ladder: Ladder,
    shelves: Seq<Shelf>,
    tail: Seq<(String, String)>,
    a: int,
)
    requires
        shelves.len() == ladder.prefixes.len(),
        forall|i: int|
            0 <= i < shelves.len() ==> in_place(ladder, ladder.prefixes[i], #[trigger] shelves[i]),
        resolves(reached(all_found(shelves), reach(ladder)), tail),
        0 <= a < tail.len(),
    ensures
        holds_something(shelves, tail[a].1@),
        exists|i: int|
            0 <= i < shelves.len() && path::names(tail[a].1@) == path::names(
                dropins_at(ladder, #[trigger] ladder.prefixes[i]),
            ) + path::names(tail[a].0@),
{
    let found = all_found(shelves);
    let key = path::names(tail[a].0@);
    let x = Sighting { key: tail[a].0@, path: tail[a].1@, empty: false };
    assert(latest(reached(found, reach(ladder)), key) == Some(x));
    lemma_reached(found, reach(ladder), key);
    lemma_latest_stood(found, key);
    let q = choose|q: int| comes_from(found, x, q);
    lemma_shelved(shelves, q);
    let (i, j) = choose|i: int, j: int| shelved(shelves, found[q]@, i, j);
    assert(in_place(ladder, ladder.prefixes[i], shelves[i]));
    assert(shelves[i].dropins@[j].path@ == tail[a].1@);
    assert(shelves[i].dropins@[j].key@ == tail[a].0@);
    assert(!shelves[i].dropins@[j].empty);
}

/// The files that the system sees are each there once, and each holds something; the
/// main file, where one is in effect, is the first of them.
///
/// A directory of drop-ins that is itself below another one gives a file two keys.
pub proof fn law_no_file_is_seen_twice(
    ladder: Ladder,
    shelves: Seq<Shelf>,
    entries: Seq<(String, String)>,
)
    requires
        shelves.len() == ladder.prefixes.len(),
        forall|i: int|
            0 <= i < shelves.len() ==> in_place(ladder, ladder.prefixes[i], #[trigger] shelves[i]),
        set_apart(ladder),
        seen(ladder, shelves, entries),
    ensures
        forall|a: int, b: int|
            0 <= a < b < entries.len() ==> path::names(#[trigger] paths_of(entries)[a])
                != path::names(#[trigger] paths_of(entries)[b]),
        forall|a: int|
            0 <= a < entries.len() ==> holds_something(shelves, #[trigger] paths_of(entries)[a]),
        main_of(shelves) matches Some(main) ==> entries.len() > 0 && paths_of(entries)[0] == main,
{
    let first: int = if main_of(shelves) is Some {
        1
    } else {
        0
    };
    let tail = if main_of(shelves) is Some {
        entries.drop_first()
    } else {
        entries
    };
    if main_of(shelves) is Some {
        lemma_main_stood(shelves);
    }
    assert forall|a: int| 0 <= a < entries.len() implies holds_something(
        shelves,
        #[trigger] paths_of(entries)[a],
    ) by {
        if a >= first {
            assert(tail[a - first] == entries[a]);
            lemma_entry_place(ladder, shelves, tail, a - first);
        }
    }
    assert forall|a: int, b: int| 0 <= a < b < entries.len() implies path::names(
        #[trigger] paths_of(entries)[a],
    ) != path::names(#[trigger] paths_of(entries)[b]) by {
        assert(tail[b - first] == entries[b]);
        lemma_entry_place(ladder, shelves, tail, b - first);
        let kb = path::names(entries[b].0@);
        let j = choose|j: int|
            0 <= j < shelves.len() && path::names(entries[b].1@) == path::names(
                dropins_at(ladder, #[trigger] ladder.prefixes[j]),
            ) + kb;
        let db = path::names(dropins_at(ladder, ladder.prefixes[j]));
        assert((db + kb).take(db.len() as int) =~= db);
        if a < first {
            let i = choose|i: int|
                0 <= i < shelves.len() && ((#[trigger] shelves[i]).main matches Some(main)
                    && !main.empty && Some(main.path@) == main_of(shelves));
            assert(in_place(ladder, ladder.prefixes[i], shelves[i]));
            let main = path::names(main_at(ladder, ladder.prefixes[i]));
            assert(paths_of(entries)[a] == main_at(ladder, ladder.prefixes[i]));
            if main == db + kb {
                assert(main.take(db.len() as int) == db);
                assert(ladder.prefixes[i] == ladder.prefixes[i]);
                assert(ladder.prefixes[j] == ladder.prefixes[j]);
            }
        } else {
            assert(tail[a - first] == entries[a]);
            lemma_entry_place(ladder, shelves, tail, a - first);
            let ka = path::names(entries[a].0@);
            let i = choose|i: int|
                0 <= i < shelves.len() && path::names(entries[a].1@) == path::names(
                    dropins_at(ladder, #[trigger] ladder.prefixes[i]),
                ) + ka;
            let da = path::names(dropins_at(ladder, ladder.prefixes[i]));
            assert((da + ka).take(da.len() as int) =~= da);
            assert(path::route_before(ka, kb));
            path::lemma_route_before_irreflexive(ka);
            if da + ka == db + kb {
                if da.len() < db.len() {
                    assert(db.take(da.len() as int) =~= da);
                } else if db.len() < da.len() {
                    assert(da.take(db.len() as int) =~= db);
                } else {
                    assert(ka =~= (da + ka).skip(da.len() as int));
                    assert(kb =~= (db + kb).skip(db.len() as int));
                }
            }
        }
    }
}

impl UAPICFS {
    /// A kind of file looked for under the root `/`.
    pub fn new(name: &str) -> (r: Self)
        ensures
            r@ == (Ladder {
                name: name@,
                root: "/"@,
                prefixes: search_ladder(),
                recursive: false,
            }),
    {
        Self::with_root(name, "/")
    }

    /// A kind of file looked for under another root.
    pub fn with_root(name: &str, root: &str) -> (r: Self)
        ensures
            r@ == (Ladder { name: name@, root: root@, prefixes: search_ladder(), recursive: false }),
    {
        UAPICFS {
            name: name.to_owned(),
            root: root.to_owned(),
            prefixes: default_prefixes(),
            recursive: false,
        }
    }

    /// Replace the search prefixes.  They are relative to the root, listed
    /// from the lowest to the highest priority, and a leading `/` is ignored.
    pub fn prefixes(self, prefixes: &[&str]) -> (r: Self)
        ensures
            r@ == (Ladder {
                prefixes: Seq::new(prefixes@.len(), |i: int| below_root(prefixes@[i]@)),
                ..self@
            }),
    {
        let mut kept: Vec<String> = Vec::new();
        let mut i: usize = 0;
        while i < prefixes.len()
            invariant
                i <= prefixes@.len(),
                kept@.len() == i,
                forall|j: int| 0 <= j < i ==> (#[trigger] kept@[j])@ == below_root(prefixes@[j]@),
            decreases prefixes@.len() - i,
        {
            match path::strip(prefixes[i], "/") {
                Some(rest) => kept.push(rest),
                None => kept.push(prefixes[i].to_owned()),
            }
            i += 1;
        }
        assert(text::texts(kept@) =~= Seq::new(
            prefixes@.len(),
            |i: int| below_root(prefixes@[i]@),
        ));
        UAPICFS { name: self.name, root: self.root, prefixes: kept, recursive: self.recursive }
    }

    /// Descend into the directories of drop-ins, or stay at their first level.
    pub fn recursive(self, recursive: bool) -> (r: Self)
        ensures
            r@ == (Ladder { recursive: recursive, ..self@ }),
    {
        UAPICFS { name: self.name, root: self.root, prefixes: self.prefixes, recursive }
    }

    /// The root that the prefixes are under.
    pub fn root(&self) -> (r: &str)
        ensures
            r@ == self@.root,
    {
        self.root.as_str()
    }

    /// The name of the kind of file.
    pub fn name(&self) -> (r: &str)
        ensures
            r@ == self@.name,
    {
        self.name.as_str()
    }

    /// The search prefixes, from the lowest to the highest priority.
    pub fn search_prefixes(&self) -> (r: &Vec<String>)
        ensures
            text::texts(r@) == self@.prefixes,
    {
        &self.prefixes
    }

    /// Whether the directories of drop-ins are descended into.
    pub fn is_recursive(&self) -> (r: bool)
        ensures
            r == self@.recursive,
    {
        self.recursive
    }

    /// Where the main file is looked for under each prefix; the drop-ins are
    /// in the directory beside it with `.d` added to its name.
    pub fn main_paths(&self) -> (r: Vec<String>)
        ensures
            text::texts(r@) == Seq::new(
                self@.prefixes.len(),
                |i: int| main_at(self@, self@.prefixes[i]),
            ),
    {
        let mut r: Vec<String> = Vec::new();
        let mut i: usize = 0;
        while i < self.prefixes.len()
            invariant
                i <= self.prefixes@.len(),
                r@.len() == i,
                forall|j: int|
                    0 <= j < i ==> (#[trigger] r@[j])@ == main_at(self@, self@.prefixes[j]),
            decreases self.prefixes@.len() - i,
        {
            assert(self@.prefixes[i as int] == self.prefixes@[i as int]@);
            let base = path::join(self.root.as_str(), self.prefixes[i].as_str());
            r.push(path::join(base.as_str(), self.name.as_str()));
            i += 1;
        }
        assert(text::texts(r@) =~= Seq::new(
            self@.prefixes.len(),
            |i: int| main_at(self@, self@.prefixes[i]),
        ));
        r
    }

    /// How deep the directories of drop-ins are read.
    pub fn depth(&self) -> (r: usize)
        ensures
            r == reach(self@),
    {
        if self.recursive {
            MAX_DEPTH
        } else {
            1
        }
    }

    /// The files that the system sees, given what every prefix holds: the main
    /// file first, under an empty key, and then the drop-ins in the order of
    /// the relative paths that identify them.  A drop-in that is deeper than the
    /// directories are read is left alone.
    pub fn entries(&self, shelves: &Vec<Shelf>) -> (r: Vec<(String, String)>)
        ensures
            seen(self@, shelves@, r@),
    {
        let ghost depth = reach(self@);
        let level: usize = self.depth();
        let mut main: Option<String> = None;
        let mut slots: Vec<Found> = Vec::new();
        let mut i: usize = 0;
        while i < shelves.len()
            invariant
                i <= shelves@.len(),
                level == depth,
                text::text_of(main) == main_of(shelves@.take(i as int)),
                slots_sorted(slots@),
                forall|key: Seq<Seq<char>>| #[trigger]
                    slot_of(slots@, key) == latest(
                        reached(all_found(shelves@.take(i as int)), depth),
                        key,
                    ),
            decreases shelves@.len() - i,
        {
            let ghost done = shelves@.take(i + 1);
            assert(done.drop_last() =~= shelves@.take(i as int));
            assert(done.last() == shelves@[i as int]);
            let ghost ahead = all_found(shelves@.take(i as int));
            match &shelves[i].main {
                Some(found) => {
                    if found.empty {
                        main = None;
                    } else {
                        main = Some(found.path.clone());
                    }
                },
                None => {},
            }
            let dropins = &shelves[i].dropins;
            let mut j: usize = 0;
            assert(ahead + dropins@.take(0) =~= ahead);
            while j < dropins.len()
                invariant
                    j <= dropins@.len(),
                    level == depth,
                    slots_sorted(slots@),
                    forall|key: Seq<Seq<char>>| #[trigger]
                        slot_of(slots@, key) == latest(
                            reached(ahead + dropins@.take(j as int), depth),
                            key,
                        ),
                decreases dropins@.len() - j,
            {
                let ghost more = ahead + dropins@.take(j + 1);
                assert(more.drop_last() =~= ahead + dropins@.take(j as int));
                assert(more.last() == dropins@[j as int]);
                let names = path::parts(dropins[j].key.as_str());
                assert(path::names(dropins@[j as int].key@).len() == names@.len());
                if names.len() <= level {
                    let ghost within = reached(ahead + dropins@.take(j as int), depth);
                    assert(reached(more, depth).drop_last() =~= within);
                    place_slot(&mut slots, &dropins[j]);
                }
                j += 1;
            }
            assert(dropins@.take(j as int) =~= dropins@);
            i += 1;
        }
        assert(shelves@.take(i as int) =~= shelves@);
        let mut r: Vec<(String, String)> = Vec::new();
        match main {
            Some(main) => r.push((String::new(), main)),
            None => {},
        }
        let ghost first = r@;
        let mut rest = unmasked(&slots);
        let ghost tail = rest@;
        proof {
            lemma_unmasked_resolves(slots@, reached(all_found(shelves@), depth), tail);
        }
        r.append(&mut rest);
        proof {
            assert(r@ =~= first + tail);
            if first.len() == 0 {
                assert(r@ =~= tail);
            } else {
                assert(r@[0] == first[0]);
                assert(r@.drop_first() =~= tail);
            }
        }
        r
    }

    /// The files that the system sees, without the keys that identify them.
    pub fn files(&self, shelves: &Vec<Shelf>) -> (r: Vec<String>)
        ensures
            exists|entries: Seq<(String, String)>| #[trigger]
                seen(self@, shelves@, entries) && text::texts(r@) == paths_of(entries),
    {
        let entries = self.entries(shelves);
        let mut r: Vec<String> = Vec::new();
        let mut i: usize = 0;
        while i < entries.len()
            invariant
                i <= entries@.len(),
                r@.len() == i,
                forall|j: int| 0 <= j < i ==> (#[trigger] r@[j])@ == entries@[j].1@,
            decreases entries@.len() - i,
        {
            r.push(entries[i].1.clone());
            i += 1;
        }
        assert(text::texts(r@) =~= paths_of(entries@));
        r
    }
}

/// Files are looked for in the distribution, then in what lasts until the next
/// boot, and then with the administrator, who has the last word.
pub proof fn law_the_administrator_has_the_last_word()
    ensures
        search_ladder().len() == 3,
        search_ladder()[0] == "usr/share"@,
        search_ladder()[1] == "run"@,
        search_ladder()[2] == "etc"@,
{
}

/// The main file is the one of the highest prefix that has one, and none where
/// that one is empty.
pub proof fn law_the_highest_main_file_counts(shelves: Seq<Shelf>, shelf: Shelf)
    ensures
        main_of(Seq::empty()) is None,
        shelf.main is None ==> main_of(shelves.push(shelf)) == main_of(shelves),
        shelf.main matches Some(found) ==> main_of(shelves.push(shelf)) == (if found.empty {
            None
        } else {
            Some(found.path@)
        }),
{
    assert(shelves.push(shelf).drop_last() =~= shelves);
}

/// A file that is found later takes the place of one of the same name, and
/// hides it where it is empty.
pub proof fn law_an_empty_file_hides_those_below(found: Seq<Found>, one: Found, key: Seq<Seq<char>>)
    ensures
        path::names(one.key@) == key && one.empty ==> !visible(found.push(one), key),
        path::names(one.key@) == key && !one.empty ==> visible(found.push(one), key) && latest(
            found.push(one),
            key,
        ) == Some(Sighting { key: one.key@, path: one.path@, empty: false }),
        path::names(one.key@) != key ==> latest(found.push(one), key) == latest(found, key) && (
        visible(found.push(one), key) <==> visible(found, key)),
        !visible(Seq::empty(), key),
{
    assert(found.push(one).drop_last() =~= found);
}

/// What is resolved is every file that is not hidden, once, in the order of
/// the keys.
pub proof fn law_what_is_resolved_is_what_is_visible(
    found: Seq<Found>,
    r: Seq<(String, String)>,
    key: Seq<Seq<char>>,
)
    requires
        resolves(found, r),
    ensures
        visible(found, key) <==> exists|i: int| 0 <= i < r.len() && path::names(#[trigger] r[i].0@) == key,
        forall|i: int|
            0 <= i < r.len() && path::names(#[trigger] r[i].0@) == key ==> (latest(found, key) matches Some(
                sighting,
            ) && sighting.path == r[i].1@),
        forall|i: int, j: int|
            0 <= i < j < r.len() ==> path::route_before(
                path::names(#[trigger] r[i].0@),
                path::names(#[trigger] r[j].0@),
            ),
{
}

/// Every drop-in of every prefix is found, those of a higher prefix later.
pub proof fn law_drop_ins_are_found_prefix_by_prefix(shelves: Seq<Shelf>, shelf: Shelf)
    ensures
        all_found(Seq::empty()).len() == 0,
        all_found(shelves.push(shelf)) == all_found(shelves) + shelf.dropins@,
{
    assert(shelves.push(shelf).drop_last() =~= shelves);
}

/// A tree is searched to a depth of 64 names where it is searched below its
/// directories, and to the first where it is not; deeper files are left out.
pub proof fn law_a_search_has_its_depth(ladder: Ladder, found: Seq<Found>, one: Found)
    ensures
        ladder.recursive ==> reach(ladder) == 64,
        !ladder.recursive ==> reach(ladder) == 1,
        path::names(one.key@).len() <= reach(ladder) ==> reached(found.push(one), reach(ladder))
            == reached(found, reach(ladder)).push(one),
        path::names(one.key@).len() > reach(ladder) ==> reached(found.push(one), reach(ladder))
            == reached(found, reach(ladder)),
        reached(Seq::empty(), reach(ladder)).len() == 0,
{
    assert(found.push(one).drop_last() =~= found);
}

/// The main file is below the prefix below the root, and its drop-ins are in
/// the directory of the same name with `.d` behind it.
pub proof fn law_files_lie_below_their_prefix(ladder: Ladder, prefix: Seq<char>)
    requires
        ladder.root.len() > 0,
        path::is_plain(prefix),
        path::is_plain(ladder.name),
    ensures
        path::names(main_at(ladder, prefix)) == path::names(ladder.root) + path::names(prefix)
            + path::names(ladder.name),
        dropins_at(ladder, prefix) == main_at(ladder, prefix) + ".d"@,
        path::below(main_at(ladder, prefix), path::joined(ladder.root, prefix)) == Some(ladder.name),
{
    path::law_what_is_joined_is_found_below(ladder.root, prefix);
    let base = path::joined(ladder.root, prefix);
    path::law_what_is_joined_is_found_below(base, ladder.name);
}

/// The main file comes first, under no key.
pub proof fn law_the_main_file_comes_first(
    ladder: Ladder,
    shelves: Seq<Shelf>,
    r: Seq<(String, String)>,
)
    requires
        seen(ladder, shelves, r),
        main_of(shelves) is Some,
    ensures
        r.len() > 0,
        r[0].0@.len() == 0,
        Some(r[0].1@) == main_of(shelves),
{
}

/// A prefix that is written from the root is the same prefix below a root.
pub proof fn law_a_prefix_is_below_the_root(rest: Seq<char>)
    requires
        path::is_plain(rest),
    ensures
        below_root(seq!['/'] + rest) == rest,
{
    reveal_strlit("/");
    assert("/"@ =~= seq!['/']);
    let slash = seq!['/'];
    path::law_what_is_joined_is_found_below(slash, rest);
}

} // verus!
