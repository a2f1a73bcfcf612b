//! Following a typed path below an anchor, one directory listing a level.
use vstd::prelude::*;

use super::fuzzy::{outcome, pick, LevelPick, Pick, LEVEL_FANOUT_MAX};
use super::path::{append_range, component_texts, parts, texts_from, Component, Part};
use super::sandbox::{allowed, allowed_downwards, AllowedRoot};
use crate::error::{Error, Payload};
use crate::text::{same_text, texts};

verus! {

/// An entry of a directory.
#[derive(Debug)]
pub struct DirEntry {
    pub name: String,
    pub is_file: bool,
    pub is_dir: bool,
}

/// Whether the entry can be meant: a file at the last level, a directory at
/// those before.
pub open spec fn eligible(entry: DirEntry, is_final: bool) -> bool {
    if is_final {
        entry.is_file
    } else {
        entry.is_dir
    }
}

/// The names of those of the first `n` entries that can be meant.
pub open spec fn eligible_names(entries: Seq<DirEntry>, is_final: bool, n: int) -> Seq<Seq<char>>
    decreases n,
{
    if n <= 0 {
        Seq::empty()
    } else if eligible(entries[n - 1], is_final) {
        eligible_names(entries, is_final, n - 1).push(entries[n - 1].name@)
    } else {
        eligible_names(entries, is_final, n - 1)
    }
}

/// The name of the entry that a segment stands for in a directory: what it is
/// picked for among the entries that can be meant, unless there are too many.
pub open spec fn entry_for(seg: Seq<char>, entries: Seq<DirEntry>, is_final: bool) -> Option<
    Seq<char>,
> {
    let names = eligible_names(entries, is_final, entries.len() as int);
    if names.len() > LEVEL_FANOUT_MAX {
        None
    } else {
        match outcome(seg, names) {
            Pick::Exact(name) => Some(name),
            Pick::Corrected(name) => Some(name),
            Pick::Abort => None,
        }
    }
}

proof fn eligible_name_entry(entries: Seq<DirEntry>, is_final: bool, n: int, j: int) -> (i: int)
    requires
        0 <= n <= entries.len(),
        0 <= j < eligible_names(entries, is_final, n).len(),
    ensures
        0 <= i < n,
        eligible(entries[i], is_final),
        entries[i].name@ == eligible_names(entries, is_final, n)[j],
    decreases n,
{
    if j < eligible_names(entries, is_final, n - 1).len() {
        eligible_name_entry(entries, is_final, n - 1, j)
    } else {
        n - 1
    }
}

/// Whether the entry can be meant.
fn is_eligible(entry: &DirEntry, is_final: bool) -> (r: bool)
    ensures
        r == eligible(*entry, is_final),
{
    if is_final {
        entry.is_file
    } else {
        entry.is_dir
    }
}

/// The names of the entries that can be meant.
pub fn names_in(entries: &[DirEntry], is_final: bool) -> (r: Vec<String>)
    ensures
        texts(r@) == eligible_names(entries@, is_final, entries@.len() as int),
{
    let mut names: Vec<String> = Vec::new();
    let mut i: usize = 0;
    assert(texts(names@) =~= Seq::empty());
    while i < entries.len()
        invariant
            i <= entries@.len(),
            texts(names@) == eligible_names(entries@, is_final, i as int),
        decreases entries@.len() - i,
    {
        if is_eligible(&entries[i], is_final) {
            let ghost before = names@;
            names.push(entries[i].name.clone());
            assert(texts(names@) =~= texts(before).push(entries@[i as int].name@));
        }
        i += 1;
    }
    names
}

/// The position of the entry that a segment stands for in a directory.
pub fn pick_entry(seg: &str, entries: &[DirEntry], is_final: bool) -> (r: Option<usize>)
    ensures
        r is Some <==> entry_for(seg@, entries@, is_final) is Some,
        r matches Some(i) ==> {
            &&& i < entries@.len()
            &&& eligible(entries@[i as int], is_final)
            &&& entries@[i as int].name@ == entry_for(seg@, entries@, is_final)->0
            &&& forall|j: int|
                0 <= j < i && eligible(#[trigger] entries@[j], is_final) ==> entries@[j].name@
                    != entries@[i as int].name@
        },
{
    let names = names_in(entries, is_final);
    let ghost all = texts(names@);
    assert(all.len() == names@.len());
    if names.len() > LEVEL_FANOUT_MAX {
        return None;
    }
    let name: String = match pick(seg, &names) {
        LevelPick::Exact(name) => name,
        LevelPick::Corrected(name) => name,
        LevelPick::Abort => {
            return None;
        },
    };
    assert(all.contains(name@)) by {
        super::fuzzy::pick_is_a_candidate(seg@, all);
    }
    let mut k: usize = 0;
    while k < entries.len()
        invariant
            k <= entries@.len(),
            all == eligible_names(entries@, is_final, entries@.len() as int),
            all.contains(name@),
            entry_for(seg@, entries@, is_final) == Some(name@),
            forall|j: int|
                0 <= j < k && eligible(#[trigger] entries@[j], is_final) ==> entries@[j].name@
                    != name@,
        decreases entries@.len() - k,
    {
        if is_eligible(&entries[k], is_final) && same_text(entries[k].name.as_str(), name.as_str()) {
            return Some(k);
        }
        k += 1;
    }
    proof {
        let j = choose|j: int| 0 <= j < all.len() && all[j] == name@;
        let e = eligible_name_entry(entries@, is_final, entries@.len() as int, j);
        assert(eligible(entries@[e], is_final));
    }
    None
}

/// A walk below an anchor: the place it has come to, and the typed segments.
pub struct TailWalk {
    at: Vec<Component>,
    tail: Vec<String>,
    next: usize,
}

/// The outcome of one level of a walk.
#[derive(Debug, Clone, Copy, PartialEq, Eq, Structural)]
pub enum TailStep {
    /// The level was found; the walk goes on.
    Descended,
    /// Nothing at this level is beyond doubt.
    NotFound,
}

impl TailWalk {
    /// The place that the walk has come to.
    pub closed spec fn place(self) -> Seq<Part> {
        parts(self.at@)
    }

    /// The segments that are still to be found.
    pub closed spec fn rest(self) -> Seq<Seq<char>> {
        texts(self.tail@).skip(self.next as int)
    }

    /// Whether the walk holds together.
    pub closed spec fn well_formed(self) -> bool {
        self.next <= self.tail@.len()
    }

    /// Starts at the anchor.
    pub fn new(anchor: Vec<Component>, tail: Vec<String>) -> (r: TailWalk)
        ensures
            r.well_formed(),
            r.place() == parts(anchor@),
            r.rest() == texts(tail@),
    {
        assert(texts(tail@).skip(0) =~= texts(tail@));
        TailWalk { at: anchor, tail, next: 0 }
    }

    /// Whether every segment was found.
    pub fn is_done(&self) -> (r: bool)
        requires
            self.well_formed(),
        ensures
            r == (self.rest().len() == 0),
    {
        self.next == self.tail.len()
    }

    /// The place that the walk has come to.
    pub fn current(&self) -> (r: &Vec<Component>)
        ensures
            parts(r@) == self.place(),
    {
        &self.at
    }

    /// Looks for the next segment among the entries of the directory that the
    /// walk has come to. `listed` is where they were read, which may be another
    /// place than the walk's own: a link leads there. The walk goes on at the
    /// entry itself, below `listed`.
    pub fn step(&mut self, listed: Vec<Component>, entries: &[DirEntry]) -> (r: TailStep)
        requires
            old(self).well_formed(),
            old(self).rest().len() > 0,
        ensures
            final(self).well_formed(),
            level_taken(*old(self), parts(listed@), entries@, *final(self), r),
    {
        let ghost before = *self;
        let is_final: bool = self.next == self.tail.len() - 1;
        match pick_entry(self.tail[self.next].as_str(), entries, is_final) {
            Some(i) => {
                let name = entries[i].name.clone();
                let ghost dir = listed@;
                let mut at = listed;
                at.push(Component::Normal(name));
                self.at = at;
                self.next = self.next + 1;
                proof {
                    assert(parts(self.at@) =~= parts(dir).push(Part::Normal(name@)));
                    assert(self.rest() =~= before.rest().drop_first());
                }
                TailStep::Descended
            },
            None => TailStep::NotFound,
        }
    }
}

/// Whether one level was taken rightly, in a directory with these entries that
/// was read at `listed`.
pub open spec fn level_taken(
    before: TailWalk,
    listed: Seq<Part>,
    entries: Seq<DirEntry>,
    after: TailWalk,
    r: TailStep,
) -> bool {
    match entry_for(before.rest()[0], entries, before.rest().len() == 1) {
        Some(name) => {
            &&& r == TailStep::Descended
            &&& after.place() == listed.push(Part::Normal(name))
            &&& after.rest() == before.rest().drop_first()
        },
        None => {
            &&& r == TailStep::NotFound
            &&& after.place() == before.place()
            &&& after.rest() == before.rest()
        },
    }
}

/// The place that the typed segments stand for from a place on, in a file
/// system with these listings: where a directory is read, and its entries; none
/// where it cannot be read.
pub open spec fn resolved(
    listing: spec_fn(Seq<Part>) -> Option<(Seq<Part>, Seq<DirEntry>)>,
    at: Seq<Part>,
    tail: Seq<Seq<char>>,
) -> Option<Seq<Part>>
    decreases tail.len(),
{
    if tail.len() == 0 {
        Some(at)
    } else {
        match listing(at) {
            Some((listed, entries)) => match entry_for(tail[0], entries, tail.len() == 1) {
                Some(name) => resolved(
                    listing,
                    listed.push(Part::Normal(name)),
                    tail.drop_first(),
                ),
                None => None,
            },
            None => None,
        }
    }
}

/// A walk goes along to what its segments stand for: each level taken in the
/// directory that the walk has come to leads on to the same place, a level that
/// is not found shows that there is no such place, and a walk that is done has
/// come to it.
pub proof fn walk_goes_along(
    listing: spec_fn(Seq<Part>) -> Option<(Seq<Part>, Seq<DirEntry>)>,
    before: TailWalk,
    listed: Seq<Part>,
    entries: Seq<DirEntry>,
    after: TailWalk,
    r: TailStep,
)
    ensures
        before.rest().len() == 0 ==> resolved(listing, before.place(), before.rest()) == Some(
            before.place(),
        ),
        before.rest().len() > 0 && listing(before.place()) == Some((listed, entries))
            && level_taken(before, listed, entries, after, r) ==> {
            &&& r == TailStep::Descended ==> resolved(listing, after.place(), after.rest())
                == resolved(listing, before.place(), before.rest())
            &&& r == TailStep::NotFound ==> resolved(listing, before.place(), before.rest())
                is None
        },
{
}

/// Whether the path is that of the file which the segment stands for in the
/// directory at `dir`: where the directory is read, and the entry's name.
pub open spec fn is_file_in(
    listing: spec_fn(Seq<Part>) -> Option<(Seq<Part>, Seq<DirEntry>)>,
    dir: Seq<Part>,
    seg: Seq<char>,
    path: Seq<Part>,
) -> bool {
    match listing(dir) {
        Some((listed, entries)) => match entry_for(seg, entries, true) {
            Some(name) => path == listed.push(Part::Normal(name)),
            None => false,
        },
        None => false,
    }
}

/// What is resolved is an entry as it was listed: a file in the last directory
/// read, under its own name there, which the last segment stands for.
pub proof fn resolved_is_listed(
    listing: spec_fn(Seq<Part>) -> Option<(Seq<Part>, Seq<DirEntry>)>,
    at: Seq<Part>,
    tail: Seq<Seq<char>>,
)
    requires
        tail.len() > 0,
    ensures
        resolved(listing, at, tail) matches Some(path) ==> exists|dir: Seq<Part>|
            is_file_in(listing, dir, tail.last(), path),
    decreases tail.len(),
{
    if resolved(listing, at, tail) is Some {
        let path = resolved(listing, at, tail)->0;
        let (listed, entries) = listing(at)->0;
        let name = entry_for(tail[0], entries, tail.len() == 1)->0;
        let next = listed.push(Part::Normal(name));
        assert(resolved(listing, next, tail.drop_first()) == Some(path));
        if tail.len() == 1 {
            assert(path == next);
            assert(is_file_in(listing, at, tail.last(), path));
        } else {
            resolved_is_listed(listing, next, tail.drop_first());
            assert(tail.drop_first().last() == tail.last());
        }
    }
}

/// No correction leads out of the allowed roots: where only allowed directories
/// are read, what is resolved is allowed, whatever links were followed.
pub proof fn resolved_is_allowed(
    listing: spec_fn(Seq<Part>) -> Option<(Seq<Part>, Seq<DirEntry>)>,
    at: Seq<Part>,
    tail: Seq<Seq<char>>,
    roots: Option<Seq<AllowedRoot>>,
)
    requires
        tail.len() > 0,
        forall|dir: Seq<Part>|
            (#[trigger] listing(dir)) matches Some((listed, _)) ==> allowed(listed, roots),
    ensures
        resolved(listing, at, tail) matches Some(path) ==> allowed(path, roots),
{
    if resolved(listing, at, tail) is Some {
        let path = resolved(listing, at, tail)->0;
        resolved_is_listed(listing, at, tail);
        let dir = choose|dir: Seq<Part>| is_file_in(listing, dir, tail.last(), path);
        let listed = (listing(dir)->0).0;
        assert(path.take(listed.len() as int) =~= listed);
        allowed_downwards(listed, path, roots);
    }
}

/// Where every directory is read at its own place, what is resolved lies below
/// the anchor, as many levels as were typed.
pub proof fn resolved_stays_below(
    listing: spec_fn(Seq<Part>) -> Option<(Seq<Part>, Seq<DirEntry>)>,
    at: Seq<Part>,
    tail: Seq<Seq<char>>,
)
    requires
        forall|dir: Seq<Part>|
            (#[trigger] listing(dir)) matches Some((listed, _)) ==> listed == dir,
    ensures
        resolved(listing, at, tail) matches Some(path) ==> {
            &&& path.len() == at.len() + tail.len()
            &&& path.take(at.len() as int) == at
            &&& forall|i: int| at.len() <= i < path.len() ==> (#[trigger] path[i]) is Normal
        },
    decreases tail.len(),
{
    if tail.len() == 0 {
        assert(at.take(at.len() as int) =~= at);
    } else if resolved(listing, at, tail) is Some {
        let path = resolved(listing, at, tail)->0;
        let name = entry_for(tail[0], (listing(at)->0).1, tail.len() == 1)->0;
        let next = at.push(Part::Normal(name));
        resolved_stays_below(listing, next, tail.drop_first());
        assert(path.take(at.len() as int) =~= at) by {
            assert forall|i: int| 0 <= i < at.len() implies path[i] == at[i] by {
                assert(path.take(next.len() as int)[i] == next[i]);
            }
        }
        assert(path[at.len() as int] == next[at.len() as int]) by {
            assert(path.take(next.len() as int)[at.len() as int] == path[at.len() as int]);
        }
    }
}

/// The error for a path that could not be found.
pub fn readable_not_found(file_path: &str) -> (r: Error)
    ensures
        r matches Error::Wrapped(Payload::Other(message)) && message@ == "找不到目标文件: "@ + file_path@,
{
    let mut message: String = "找不到目标文件: ".to_owned();
    message.append(file_path);
    Error::Wrapped(Payload::Other(message))
}

/// The largest number up to `n` of first components that name a directory;
/// `is_dir[k - 1]` says whether the first `k` do. Zero where none do.
pub open spec fn deepest_dir(is_dir: Seq<bool>, n: int) -> int
    decreases n,
{
    if n <= 0 || is_dir[n - 1] {
        n
    } else {
        deepest_dir(is_dir, n - 1)
    }
}

/// The deepest ancestor of a path that is an existing directory, with the
/// texts of the components below it. `is_dir[i]` says whether the first
/// `i + 1` components name one. There is nothing to return where the whole
/// path names one, or no part of it does.
pub fn deepest_existing_ancestor(path: &[Component], is_dir: &[bool]) -> (r: Option<
    (Vec<Component>, Vec<String>),
>)
    requires
        is_dir@.len() == path@.len(),
    ensures
        ({
            let n = deepest_dir(is_dir@, path@.len() as int);
            if 0 < n < path@.len() {
                r matches Some((ancestor, tail)) && parts(ancestor@) == parts(path@).take(n)
                    && texts(tail@) == texts_from(parts(path@), n)
            } else {
                r is None
            }
        }),
        r matches Some((ancestor, tail)) ==> {
            &&& 0 < ancestor@.len() < path@.len()
            &&& is_dir@[ancestor@.len() - 1]
            &&& forall|i: int| ancestor@.len() <= i < is_dir@.len() ==> !is_dir@[i]
            &&& texts_from(parts(ancestor@), 0) + texts(tail@) == texts_from(parts(path@), 0)
        },
        r is None ==> path@.len() == 0 || is_dir@[path@.len() - 1] || forall|i: int|
            0 <= i < is_dir@.len() ==> !is_dir@[i],
{
    let mut n: usize = path.len();
    while n > 0 && !is_dir[n - 1]
        invariant
            n <= path@.len(),
            is_dir@.len() == path@.len(),
            deepest_dir(is_dir@, path@.len() as int) == deepest_dir(is_dir@, n as int),
            forall|i: int| n <= i < is_dir@.len() ==> !is_dir@[i],
        decreases n,
    {
        n -= 1;
    }
    if n == 0 || n == path.len() {
        return None;
    }
    let mut ancestor: Vec<Component> = Vec::new();
    append_range(&mut ancestor, path, 0, n);
    assert(parts(ancestor@) =~= parts(path@).take(n as int));
    assert(parts(ancestor@).len() == n);
    assert(texts_from(parts(ancestor@), 0) + texts_from(parts(path@), n as int) =~= texts_from(
        parts(path@),
        0,
    ));
    Some((ancestor, component_texts(path, n)))
}

proof fn names_of_first(entries: Seq<DirEntry>, more: Seq<DirEntry>, is_final: bool, n: int)
    requires
        n <= entries.len(),
    ensures
        eligible_names(entries + more, is_final, n) == eligible_names(entries, is_final, n),
    decreases n,
{
    if n > 0 {
        names_of_first(entries, more, is_final, n - 1);
        assert((entries + more)[n - 1] == entries[n - 1]);
    }
}

/// The names that can be meant are taken entry by entry, in the order of the
/// directory: at the last level a file's, before it a directory's.
pub proof fn names_are_taken_by_entry(
    entries: Seq<DirEntry>,
    entry: DirEntry,
    is_final: bool,
)
    ensures
        eligible_names(Seq::empty(), is_final, 0) =~= Seq::empty(),
        ({
            let before = eligible_names(entries, is_final, entries.len() as int);
            let after = eligible_names(entries.push(entry), is_final, entries.len() as int + 1);
            &&& is_final && entry.is_file || !is_final && entry.is_dir ==> after == before.push(
                entry.name@,
            )
            &&& is_final && !entry.is_file || !is_final && !entry.is_dir ==> after == before
        }),
{
    names_of_first(entries, seq![entry], is_final, entries.len() as int);
    assert(entries + seq![entry] =~= entries.push(entry));
}

proof fn eligible_names_hold(entries: Seq<DirEntry>, is_final: bool, n: int, i: int)
    requires
        0 <= i < n <= entries.len(),
        eligible(entries[i], is_final),
    ensures
        eligible_names(entries, is_final, n).contains(entries[i].name@),
    decreases n,
{
    let all = eligible_names(entries, is_final, n);
    if i == n - 1 {
        assert(all[all.len() - 1] == entries[i].name@);
    } else {
        eligible_names_hold(entries, is_final, n - 1, i);
        let before = eligible_names(entries, is_final, n - 1);
        let k = choose|k: int| 0 <= k < before.len() && before[k] == entries[i].name@;
        assert(all[k] == entries[i].name@);
    }
}

proof fn eligible_names_are_few(entries: Seq<DirEntry>, is_final: bool, n: int)
    requires
        0 <= n <= entries.len(),
    ensures
        eligible_names(entries, is_final, n).len() <= n,
    decreases n,
{
    if n > 0 {
        eligible_names_are_few(entries, is_final, n - 1);
    }
}

/// An entry that is typed right and can be meant is the one, in a directory of
/// up to ten thousand entries.
pub proof fn entry_typed_right_is_meant(entries: Seq<DirEntry>, is_final: bool, i: int)
    requires
        0 <= i < entries.len() <= 10000,
        if is_final {
            entries[i].is_file
        } else {
            entries[i].is_dir
        },
    ensures
        entry_for(entries[i].name@, entries, is_final) == Some(entries[i].name@),
{
    eligible_names_hold(entries, is_final, entries.len() as int, i);
    eligible_names_are_few(entries, is_final, entries.len() as int);
}

/// What an entry is picked for is what its segment is picked for among the
/// names that can be meant; among more than ten thousand of them nothing is.
pub proof fn entry_is_picked_by_name(seg: Seq<char>, entries: Seq<DirEntry>, is_final: bool)
    ensures
        ({
            let names = eligible_names(entries, is_final, entries.len() as int);
            &&& names.len() > 10000 ==> entry_for(seg, entries, is_final) is None
            &&& names.len() <= 10000 ==> match outcome(seg, names) {
                Pick::Exact(name) => entry_for(seg, entries, is_final) == Some(name),
                Pick::Corrected(name) => entry_for(seg, entries, is_final) == Some(name),
                Pick::Abort => entry_for(seg, entries, is_final) is None,
            }
        }),
{
}

/// What an entry is picked for is the name of an entry that can be meant.
pub proof fn entry_picked_is_there(seg: Seq<char>, entries: Seq<DirEntry>, is_final: bool)
    ensures
        entry_for(seg, entries, is_final) matches Some(name) ==> exists|i: int|
            0 <= i < entries.len() && (#[trigger] entries[i]).name@ == name && if is_final {
                entries[i].is_file
            } else {
                entries[i].is_dir
            },
{
    if entry_for(seg, entries, is_final) is Some {
        let name = entry_for(seg, entries, is_final)->0;
        let names = eligible_names(entries, is_final, entries.len() as int);
        super::fuzzy::pick_is_a_candidate(seg, names);
        let j = choose|j: int| 0 <= j < names.len() && names[j] == name;
        let i = eligible_name_entry(entries, is_final, entries.len() as int, j);
        assert(entries[i].name@ == name);
    }
}

/// Whether the directory is read where it is, holds no more than ten thousand
/// entries, and holds a file, or before the last level a directory, under the
/// segment itself.
pub open spec fn holds_entry(
    listing: spec_fn(Seq<Part>) -> Option<(Seq<Part>, Seq<DirEntry>)>,
    dir: Seq<Part>,
    seg: Seq<char>,
    is_final: bool,
) -> bool {
    match listing(dir) {
        Some((listed, entries)) => {
            &&& listed == dir
            &&& entries.len() <= 10000
            &&& exists|i: int|
                0 <= i < entries.len() && (#[trigger] entries[i]).name@ == seg && if is_final {
                    entries[i].is_file
                } else {
                    entries[i].is_dir
                }
        },
        None => false,
    }
}

/// The place that the first `k` segments lead to, as they were typed.
pub open spec fn place_typed(at: Seq<Part>, tail: Seq<Seq<char>>, k: int) -> Seq<Part> {
    at + Seq::new(k as nat, |j: int| Part::Normal(tail[j]))
}

/// Whether every segment is typed right: each directory on the way holds the
/// next one, and the last one the file.
pub open spec fn typed_right(
    listing: spec_fn(Seq<Part>) -> Option<(Seq<Part>, Seq<DirEntry>)>,
    at: Seq<Part>,
    tail: Seq<Seq<char>>,
) -> bool {
    forall|k: int|
        0 <= k < tail.len() ==> holds_entry(
            listing,
            #[trigger] place_typed(at, tail, k),
            tail[k],
            k == tail.len() - 1,
        )
}

/// A path that is typed right is found as it was typed.
pub proof fn path_typed_right_is_found(
    listing: spec_fn(Seq<Part>) -> Option<(Seq<Part>, Seq<DirEntry>)>,
    at: Seq<Part>,
    tail: Seq<Seq<char>>,
)
    requires
        typed_right(listing, at, tail),
    ensures
        resolved(listing, at, tail) == Some(place_typed(at, tail, tail.len() as int)),
    decreases tail.len(),
{
    if tail.len() == 0 {
        assert(place_typed(at, tail, 0) =~= at);
    } else {
        let is_final = tail.len() == 1;
        assert(place_typed(at, tail, 0) =~= at);
        assert(holds_entry(listing, place_typed(at, tail, 0), tail[0], is_final));
        let (listed, entries) = listing(at)->0;
        let i = choose|i: int|
            0 <= i < entries.len() && (#[trigger] entries[i]).name@ == tail[0] && if is_final {
                entries[i].is_file
            } else {
                entries[i].is_dir
            };
        entry_typed_right_is_meant(entries, is_final, i);
        let next = at.push(Part::Normal(tail[0]));
        let rest = tail.drop_first();
        assert forall|k: int| 0 <= k < rest.len() implies holds_entry(
            listing,
            #[trigger] place_typed(next, rest, k),
            rest[k],
            k == rest.len() - 1,
        ) by {
            assert(place_typed(next, rest, k) =~= place_typed(at, tail, k + 1));
        }
        path_typed_right_is_found(listing, next, rest);
        assert(place_typed(next, rest, rest.len() as int) =~= place_typed(
            at,
            tail,
            tail.len() as int,
        ));
    }
}

/// The deepest directory on a path is the longest part of it that is one.
pub proof fn deepest_dir_is_the_longest(is_dir: Seq<bool>, i: int)
    ensures
        ({
            let n = deepest_dir(is_dir, is_dir.len() as int);
            &&& 0 <= n <= is_dir.len()
            &&& n > 0 ==> is_dir[n - 1]
            &&& n < i <= is_dir.len() ==> !is_dir[i - 1]
        }),
{
    deepest_dir_up_to(is_dir, is_dir.len() as int, i);
}

proof fn deepest_dir_up_to(is_dir: Seq<bool>, top: int, i: int)
    requires
        0 <= top <= is_dir.len(),
    ensures
        ({
            let n = deepest_dir(is_dir, top);
            &&& 0 <= n <= top
            &&& n > 0 ==> is_dir[n - 1]
            &&& n < i <= top ==> !is_dir[i - 1]
        }),
    decreases top,
{
    if !(top <= 0 || is_dir[top - 1]) {
        deepest_dir_up_to(is_dir, top - 1, i);
    }
}

} // verus!
