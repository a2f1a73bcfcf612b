//! Keeping paths inside the allowed roots.
use vstd::prelude::*;

use super::path::{
    append_range, is_under, optional_parts, parts, under, under_is_going_on, Component, Part,
};
use crate::error::{Error, Payload};
use crate::text::starts_with;

verus! {

/// A path without `.` and `..`: `.` is left out, and `..` takes away the name
/// before it, if there is one.
pub open spec fn normalized(path: Seq<Part>) -> Seq<Part>
    decreases path.len(),
{
    if path.len() == 0 {
        Seq::empty()
    } else {
        let before = normalized(path.drop_last());
        match path.last() {
            Part::CurDir => before,
            Part::ParentDir => if before.len() > 0 && before.last() is Normal {
                before.drop_last()
            } else {
                before
            },
            part => before.push(part),
        }
    }
}

/// Resolves `.` and `..` in a path, by the path alone.
pub fn normalize_path(path: &[Component]) -> (r: Vec<Component>)
    ensures
        parts(r@) == normalized(parts(path@)),
{
    let ghost all = parts(path@);
    let mut out: Vec<Component> = Vec::new();
    let mut i: usize = 0;
    assert(all.take(0) =~= Seq::empty());
    assert(parts(out@) =~= Seq::empty());
    while i < path.len()
        invariant
            i <= path@.len(),
            all == parts(path@),
            parts(out@) == normalized(all.take(i as int)),
        decreases path@.len() - i,
    {
        let ghost before = out@;
        proof {
            assert(all.take(i + 1).drop_last() =~= all.take(i as int));
            assert(all.take(i + 1).last() == path@[i as int]@);
        }
        match &path[i] {
            Component::CurDir => {},
            Component::ParentDir => {
                let n: usize = out.len();
                if n > 0 && out[n - 1].is_normal() {
                    assert(parts(before).last() == before[n - 1]@);
                    let _ = out.pop();
                    assert(parts(out@) =~= parts(before).drop_last());
                } else {
                    assert(n > 0 ==> parts(before).last() == before[n - 1]@);
                }
            },
            _ => {
                out.push(path[i].duplicate());
                assert(parts(out@) =~= parts(before).push(path@[i as int]@));
            },
        }
        i += 1;
    }
    assert(all.take(all.len() as int) =~= all);
    out
}

/// Whether no component is `.` or `..`.
pub open spec fn plain(path: Seq<Part>) -> bool {
    forall|i: int| 0 <= i < path.len() ==> (#[trigger] path[i]) !is CurDir && path[i] !is ParentDir
}

/// What is normalised holds no `.` and no `..`.
pub proof fn normalized_is_plain(path: Seq<Part>)
    ensures
        plain(normalized(path)),
    decreases path.len(),
{
    if path.len() > 0 {
        normalized_is_plain(path.drop_last());
    }
}

/// A path without `.` and `..` is normalised already.
pub proof fn plain_is_normalized(path: Seq<Part>)
    requires
        plain(path),
    ensures
        normalized(path) == path,
    decreases path.len(),
{
    if path.len() > 0 {
        assert forall|i: int| 0 <= i < path.drop_last().len() implies (
        #[trigger] path.drop_last()[i]) !is CurDir && path.drop_last()[i] !is ParentDir by {
            assert(path.drop_last()[i] == path[i]);
        }
        plain_is_normalized(path.drop_last());
        assert(path[path.len() - 1] !is CurDir && path[path.len() - 1] !is ParentDir);
        assert(path.drop_last().push(path.last()) =~= path);
    } else {
        assert(normalized(path) =~= path);
    }
}

/// Normalising a second time changes nothing.
pub proof fn normalized_twice(path: Seq<Part>)
    ensures
        normalized(normalized(path)) == normalized(path),
{
    normalized_is_plain(path);
    plain_is_normalized(normalized(path));
}

/// No number of `..` leads out above the root: what starts at the root still
/// does when it is normalised.
pub proof fn normalized_keeps_root(path: Seq<Part>)
    requires
        path.len() > 0,
        path[0] is RootDir,
    ensures
        normalized(path).len() > 0,
        normalized(path)[0] is RootDir,
    decreases path.len(),
{
    if path.len() > 1 {
        normalized_keeps_root(path.drop_last());
    } else {
        assert(path.drop_last() =~= Seq::empty());
        assert(normalized(path.drop_last()) =~= Seq::empty());
    }
}

/// How many of the first `n` components of a path are looked up as they
/// stand: a name that does not exist is set aside, from the end on, until
/// something exists or no name is left.
pub open spec fn existing_len(path: Seq<Part>, exists_at: Seq<bool>, n: int) -> int
    decreases n,
{
    if n <= 0 || exists_at[n] || path[n - 1] !is Normal {
        n
    } else {
        existing_len(path, exists_at, n - 1)
    }
}

/// The number of components of the deepest part of a path that exists.
/// `exists_at[i]` says whether the first `i` components name something.
pub fn existing_prefix(path: &[Component], exists_at: &[bool]) -> (r: usize)
    requires
        exists_at@.len() == path@.len() + 1,
    ensures
        r == existing_len(parts(path@), exists_at@, path@.len() as int),
        r <= path@.len(),
{
    let mut n: usize = path.len();
    while n > 0 && !exists_at[n] && path[n - 1].is_normal()
        invariant
            n <= path@.len(),
            exists_at@.len() == path@.len() + 1,
            existing_len(parts(path@), exists_at@, path@.len() as int) == existing_len(
                parts(path@),
                exists_at@,
                n as int,
            ),
        decreases n,
    {
        n -= 1;
    }
    n
}

/// The real place of a path: what the system makes of the whole of it, if it
/// exists; else what the system makes of the part that exists, and the rest
/// of the normalised path as it stands.
pub open spec fn real_place(
    canonical: Option<Seq<Part>>,
    normal: Seq<Part>,
    existing: int,
    canonical_prefix: Option<Seq<Part>>,
) -> Seq<Part> {
    match canonical {
        Some(path) => path,
        None => (match canonical_prefix {
            Some(prefix) => prefix,
            None => normal.take(existing),
        }) + normal.skip(existing),
    }
}

/// The real place of a path, from what the system makes of the whole of it and
/// of its first `existing` components. A path that does not exist is given in
/// its normalised form.
pub fn resolve_real_path(
    canonical: Option<Vec<Component>>,
    normal: &[Component],
    existing: usize,
    canonical_prefix: Option<Vec<Component>>,
) -> (r: Vec<Component>)
    requires
        existing <= normal@.len(),
    ensures
        parts(r@) == real_place(
            optional_parts(canonical),
            parts(normal@),
            existing as int,
            optional_parts(canonical_prefix),
        ),
{
    match canonical {
        Some(path) => path,
        None => {
            let mut out: Vec<Component> = match canonical_prefix {
                Some(prefix) => prefix,
                None => {
                    let mut own: Vec<Component> = Vec::new();
                    append_range(&mut own, normal, 0, existing);
                    assert(parts(own@) =~= parts(normal@).take(existing as int));
                    own
                },
            };
            append_range(&mut out, normal, existing, normal.len());
            assert(parts(normal@).subrange(existing as int, normal@.len() as int) =~= parts(
                normal@,
            ).skip(existing as int));
            out
        },
    }
}

/// Whether the first components of a path, however many, name something.
pub open spec fn existing_at(exists_on_disk: spec_fn(Seq<Part>) -> bool, path: Seq<Part>) -> Seq<
    bool,
> {
    Seq::new(path.len() + 1, |i: int| exists_on_disk(path.take(i)))
}

/// The real place of a path in a file system: `canonical` is what the system
/// makes of a path that it can resolve.
pub open spec fn place_on_disk(
    canonical: spec_fn(Seq<Part>) -> Option<Seq<Part>>,
    exists_on_disk: spec_fn(Seq<Part>) -> bool,
    path: Seq<Part>,
) -> Seq<Part> {
    let normal = normalized(path);
    let existing = existing_len(normal, existing_at(exists_on_disk, normal), normal.len() as int);
    real_place(canonical(path), normal, existing, canonical(normal.take(existing)))
}

/// Whether a file system resolves paths as one does that stands still: what it
/// can resolve exists, and so does the outcome, which is plain and resolved
/// already; and names below a path lead where they lead below the outcome.
pub open spec fn steady(
    canonical: spec_fn(Seq<Part>) -> Option<Seq<Part>>,
    exists_on_disk: spec_fn(Seq<Part>) -> bool,
) -> bool {
    &&& forall|path: Seq<Part>|
        (#[trigger] canonical(path)) matches Some(place) ==> {
            &&& exists_on_disk(path)
            &&& exists_on_disk(place)
            &&& plain(place)
            &&& canonical(place) == Some(place)
        }
    &&& forall|path: Seq<Part>, below: Seq<Part>|
        canonical(path) is Some && names_only(below) ==> {
            &&& #[trigger] canonical(path + below) == canonical(canonical(path)->0 + below)
            &&& exists_on_disk(path + below) == exists_on_disk(canonical(path)->0 + below)
        }
}

/// Whether every component is a name.
pub open spec fn names_only(path: Seq<Part>) -> bool {
    forall|i: int| 0 <= i < path.len() ==> (#[trigger] path[i]) is Normal
}

/// Whether the first `i` components end in a name and name nothing.
spec fn missing(path: Seq<Part>, exists_at: Seq<bool>, i: int) -> bool {
    !exists_at[i] && path[i - 1] is Normal
}

proof fn existing_len_bounds(path: Seq<Part>, exists_at: Seq<bool>, n: int)
    requires
        0 <= n <= path.len(),
    ensures
        0 <= existing_len(path, exists_at, n) <= n,
        forall|i: int|
            existing_len(path, exists_at, n) < i <= n ==> #[trigger] missing(path, exists_at, i),
    decreases n,
{
    if !(n <= 0 || exists_at[n] || path[n - 1] !is Normal) {
        existing_len_bounds(path, exists_at, n - 1);
    }
}

proof fn existing_len_is(path: Seq<Part>, exists_at: Seq<bool>, n: int, k: int)
    requires
        0 <= k <= n <= path.len(),
        k == 0 || exists_at[k] || path[k - 1] !is Normal,
        forall|i: int| k < i <= n ==> #[trigger] missing(path, exists_at, i),
    ensures
        existing_len(path, exists_at, n) == k,
    decreases n,
{
    if n > k {
        assert(missing(path, exists_at, n));
        existing_len_is(path, exists_at, n - 1, k);
    }
}

/// Resolving a place that exists in part gives it back: `top` is the part that
/// the system resolved, `below` the names that do not exist there.
proof fn resolved_part_stays(
    canonical: spec_fn(Seq<Part>) -> Option<Seq<Part>>,
    exists_on_disk: spec_fn(Seq<Part>) -> bool,
    top: Seq<Part>,
    below: Seq<Part>,
)
    requires
        plain(top),
        names_only(below),
        exists_on_disk(top),
        canonical(top) == Some(top),
        canonical(top + below) is None,
        forall|i: int|
            0 < i <= below.len() ==> !exists_on_disk(top + #[trigger] below.take(i)),
    ensures
        place_on_disk(canonical, exists_on_disk, top + below) == top + below,
{
    let r = top + below;
    let at = existing_at(exists_on_disk, r);
    assert(plain(r));
    plain_is_normalized(r);
    let k = top.len() as int;
    assert(r.take(k) =~= top);
    assert(r.skip(k) =~= below);
    assert forall|i: int| k < i <= r.len() implies #[trigger] missing(r, at, i) by {
        assert(r.take(i) =~= top + below.take(i - k));
        assert(r[i - 1] == below[i - 1 - k]);
    }
    existing_len_is(r, at, r.len() as int, k);
}

/// Resolving the real place of a path gives it back: in a file system that
/// stands still, resolving twice is resolving once.
pub proof fn resolved_twice(
    canonical: spec_fn(Seq<Part>) -> Option<Seq<Part>>,
    exists_on_disk: spec_fn(Seq<Part>) -> bool,
    path: Seq<Part>,
)
    requires
        steady(canonical, exists_on_disk),
    ensures
        ({
            let place = place_on_disk(canonical, exists_on_disk, path);
            place_on_disk(canonical, exists_on_disk, place) == place
        }),
{
    if canonical(path) is None {
        let n = normalized(path);
        let at = existing_at(exists_on_disk, n);
        let e = existing_len(n, at, n.len() as int);
        existing_len_bounds(n, at, n.len() as int);
        normalized_is_plain(path);
        plain_is_normalized(n);
        let top = n.take(e);
        let below = n.skip(e);
        assert(top + below =~= n);
        assert(names_only(below)) by {
            assert forall|i: int| 0 <= i < below.len() implies (#[trigger] below[i]) is Normal by {
                assert(missing(n, at, e + i + 1));
            }
        }
        if canonical(top) is Some {
            let place = canonical(top)->0;
            assert(canonical(top + below) == canonical(place + below));
            if below.len() == 0 {
                assert(place + below =~= place);
            } else {
                assert(missing(n, at, n.len() as int));
                assert(n.take(n.len() as int) =~= n);
                assert(canonical(n) is None);
                assert forall|i: int| 0 < i <= below.len() implies !exists_on_disk(
                    place + #[trigger] below.take(i),
                ) by {
                    assert(names_only(below.take(i)));
                    assert(missing(n, at, e + i));
                    assert(n.take(e + i) =~= top + below.take(i));
                    assert(canonical(top + below.take(i)) == canonical(place + below.take(i)));
                }
                resolved_part_stays(canonical, exists_on_disk, place, below);
            }
        } else {
            if canonical(n) is Some {
                assert(n.take(n.len() as int) =~= n);
                if e < n.len() {
                    assert(missing(n, at, n.len() as int));
                }
                assert(top =~= n);
            }
        }
    }
}

/// An allowed root: its real place and its name in messages.
#[derive(Debug)]
pub struct AllowedRoot {
    pub place: Vec<Component>,
    pub display: String,
}

/// Whether the place lies within one of the roots. Without roots every place
/// is allowed.
pub open spec fn allowed(place: Seq<Part>, roots: Option<Seq<AllowedRoot>>) -> bool {
    match roots {
        Some(list) => exists|i: int|
            0 <= i < list.len() && under(place, parts((#[trigger] list[i]).place@)),
        None => true,
    }
}

proof fn allowed_by(place: Seq<Part>, roots: Seq<AllowedRoot>, i: int)
    requires
        0 <= i < roots.len(),
        under(place, parts(roots[i].place@)),
    ensures
        allowed(place, Some(roots)),
{
    let all = Some(roots);
    assert(under(place, parts(all->0[i].place@)));
}

/// The names of the first `n` roots, with a comma between them.
pub open spec fn root_names(roots: Seq<AllowedRoot>, n: int) -> Seq<char>
    decreases n,
{
    if n <= 0 {
        Seq::empty()
    } else if n == 1 {
        roots[0].display@
    } else {
        root_names(roots, n - 1) + ", "@ + roots[n - 1].display@
    }
}

/// The message for a place that is out of bounds.
pub open spec fn out_of_bounds(shown: Seq<char>, roots: Seq<AllowedRoot>) -> Seq<char> {
    "目标路径超出可访问范围: "@ + shown + " (允许范围: "@ + root_names(roots, roots.len() as int)
        + ")"@
}

/// What a slice of roots holds, where there is one.
pub open spec fn optional_roots(roots: Option<&[AllowedRoot]>) -> Option<Seq<AllowedRoot>> {
    match roots {
        Some(list) => Some(list@),
        None => None,
    }
}

/// Checks that the place lies within one of the roots; `shown` is what the
/// message calls it.
pub fn check_path_in_roots(
    place: &[Component],
    shown: &str,
    roots: Option<&[AllowedRoot]>,
) -> (r: Result<(), Error>)
    ensures
        r is Ok <==> allowed(parts(place@), optional_roots(roots)),
        r matches Err(e) ==> e matches Error::Wrapped(Payload::Permission(message)) && message@
            == out_of_bounds(shown@, optional_roots(roots)->0),
{
    let list: &[AllowedRoot] = match roots {
        Some(list) => list,
        None => {
            return Ok(());
        },
    };
    let mut i: usize = 0;
    while i < list.len()
        invariant
            i <= list@.len(),
            optional_roots(roots) == Some(list@),
            forall|j: int|
                0 <= j < i ==> !under(parts(place@), parts((#[trigger] list@[j]).place@)),
        decreases list@.len() - i,
    {
        if is_under(place, &list[i].place) {
            proof {
                allowed_by(parts(place@), list@, i as int);
            }
            return Ok(());
        }
        i += 1;
    }
    let mut message: String = "目标路径超出可访问范围: ".to_owned();
    message.append(shown);
    message.append(" (允许范围: ");
    let ghost start = message@;
    let mut k: usize = 0;
    assert(start + root_names(list@, 0) =~= start);
    while k < list.len()
        invariant
            k <= list@.len(),
            message@ == start + root_names(list@, k as int),
        decreases list@.len() - k,
    {
        if k > 0 {
            message.append(", ");
        }
        message.append(list[k].display.as_str());
        assert(message@ =~= start + root_names(list@, k + 1));
        k += 1;
    }
    message.append(")");
    assert(message@ =~= out_of_bounds(shown@, list@));
    Err(Error::Wrapped(Payload::Permission(message)))
}

/// Checks where an opened file is after all, once more within the roots: a
/// directory may have been swapped for a link since its path was checked.
/// Where the system does not say where the file is, nothing is held against it.
pub fn verify_fd_path(
    place: Option<&[Component]>,
    shown: &str,
    roots: Option<&[AllowedRoot]>,
) -> (r: Result<(), Error>)
    ensures
        r is Ok <==> (place matches Some(p) ==> allowed(parts(p@), optional_roots(roots))),
        r matches Err(e) ==> e matches Error::Wrapped(Payload::Permission(message)) && message@
            == out_of_bounds(shown@, optional_roots(roots)->0),
{
    match place {
        Some(p) => check_path_in_roots(p, shown, roots),
        None => Ok(()),
    }
}

/// Checks a resolved path and hands it back.
pub fn resolve_and_check_path(
    place: Vec<Component>,
    shown: &str,
    roots: Option<&[AllowedRoot]>,
) -> (r: Result<Vec<Component>, Error>)
    ensures
        r is Ok <==> allowed(parts(place@), optional_roots(roots)),
        r matches Ok(path) ==> parts(path@) == parts(place@),
        r matches Err(e) ==> e matches Error::Wrapped(Payload::Permission(message)) && message@
            == out_of_bounds(shown@, optional_roots(roots)->0),
{
    match check_path_in_roots(&place, shown, roots) {
        Ok(()) => Ok(place),
        Err(e) => Err(e),
    }
}

/// A path that is out of the roots when it is normalised is refused, however
/// many `..` it was written with: where nothing of it exists on disk, the
/// normalised path itself is checked.
pub proof fn escaping_path_is_refused(path: Seq<Part>, roots: Seq<AllowedRoot>, existing: int)
    requires
        0 <= existing <= normalized(path).len(),
        forall|i: int|
            0 <= i < roots.len() ==> !under(normalized(path), parts((#[trigger] roots[i]).place@)),
    ensures
        !allowed(real_place(None, normalized(path), existing, None), Some(roots)),
{
    let n = normalized(path);
    assert(n.take(existing) + n.skip(existing) =~= n);
}

/// What is below an allowed place is allowed.
pub proof fn allowed_downwards(
    place: Seq<Part>,
    below: Seq<Part>,
    roots: Option<Seq<AllowedRoot>>,
)
    requires
        allowed(place, roots),
        under(below, place),
    ensures
        allowed(below, roots),
{
    match roots {
        Some(list) => {
            let i = choose|i: int|
                0 <= i < list.len() && under(place, parts((#[trigger] list[i]).place@));
            let root = parts(list[i].place@);
            assert(below.take(root.len() as int) =~= root) by {
                assert forall|j: int| 0 <= j < root.len() implies below[j] == root[j] by {
                    assert(below.take(place.len() as int)[j] == place[j]);
                    assert(place.take(root.len() as int)[j] == root[j]);
                }
            }
        },
        None => {},
    }
}

proof fn normalized_goes_on(a: Seq<Part>, b: Seq<Part>, rest: Seq<Part>)
    requires
        normalized(a) == normalized(b),
    ensures
        normalized(a + rest) == normalized(b + rest),
    decreases rest.len(),
{
    if rest.len() == 0 {
        assert(a + rest =~= a);
        assert(b + rest =~= b);
    } else {
        normalized_goes_on(a, b, rest.drop_last());
        assert((a + rest).drop_last() =~= a + rest.drop_last());
        assert((b + rest).drop_last() =~= b + rest.drop_last());
        assert((a + rest).last() == rest.last());
        assert((b + rest).last() == rest.last());
    }
}

/// A `.` is left out wherever it stands.
pub proof fn current_dir_is_left_out(before: Seq<Part>, rest: Seq<Part>)
    ensures
        normalized(before + seq![Part::CurDir] + rest) == normalized(before + rest),
{
    let with = before + seq![Part::CurDir];
    assert(with.drop_last() =~= before);
    assert(with.last() == Part::CurDir);
    normalized_goes_on(with, before, rest);
}

/// A `..` takes away the name before it, wherever they stand.
pub proof fn parent_dir_takes_a_name(before: Seq<Part>, name: Seq<char>, rest: Seq<Part>)
    ensures
        normalized(before + seq![Part::Normal(name), Part::ParentDir] + rest) == normalized(
            before + rest,
        ),
{
    let with = before + seq![Part::Normal(name), Part::ParentDir];
    let named = before.push(Part::Normal(name));
    assert(with.drop_last() =~= named);
    assert(with.last() == Part::ParentDir);
    assert(named.drop_last() =~= before);
    assert(normalized(named) == normalized(before).push(Part::Normal(name)));
    assert(normalized(named).drop_last() =~= normalized(before));
    normalized_goes_on(with, before, rest);
}

/// A `..` at the start, and one right after a root or a prefix, leads nowhere
/// else.
pub proof fn parent_dir_stays_at_the_top(before: Seq<Part>, top: Part, rest: Seq<Part>)
    requires
        top is RootDir || top is Prefix,
    ensures
        normalized(seq![Part::ParentDir] + rest) == normalized(rest),
        normalized(before + seq![top, Part::ParentDir] + rest) == normalized(
            before + seq![top] + rest,
        ),
{
    let none = Seq::<Part>::empty();
    let up = seq![Part::ParentDir];
    assert(up.drop_last() =~= none);
    assert(up.last() == Part::ParentDir);
    assert(normalized(none) =~= none);
    normalized_goes_on(up, none, rest);
    assert(none + rest =~= rest);
    let with = before + seq![top, Part::ParentDir];
    let topped = before + seq![top];
    assert(with.drop_last() =~= topped);
    assert(with.last() == Part::ParentDir);
    assert(topped.drop_last() =~= before);
    assert(topped.last() == top);
    assert(normalized(topped) == normalized(before).push(top));
    normalized_goes_on(with, topped, rest);
}

/// What is looked up of a path is its longest part that exists: nothing longer
/// exists, all that is set aside are names, and it is shorter than it need be
/// only where no name is left to set aside.
pub proof fn existing_part_is_the_longest(path: Seq<Part>, exists_at: Seq<bool>, i: int)
    requires
        exists_at.len() == path.len() + 1,
    ensures
        ({
            let e = existing_len(path, exists_at, path.len() as int);
            &&& 0 <= e <= path.len()
            &&& e == 0 || exists_at[e] || path[e - 1] !is Normal
            &&& e < i <= path.len() ==> !exists_at[i] && path[i - 1] is Normal
        }),
{
    let n = path.len() as int;
    existing_len_bounds(path, exists_at, n);
    existing_len_stops(path, exists_at, n);
    let e = existing_len(path, exists_at, n);
    if e < i <= n {
        assert(missing(path, exists_at, i));
    }
}

proof fn existing_len_stops(path: Seq<Part>, exists_at: Seq<bool>, n: int)
    requires
        0 <= n <= path.len(),
    ensures
        ({
            let e = existing_len(path, exists_at, n);
            e == 0 || exists_at[e] || path[e - 1] !is Normal
        }),
    decreases n,
{
    if !(n <= 0 || exists_at[n] || path[n - 1] !is Normal) {
        existing_len_stops(path, exists_at, n - 1);
    }
}

/// A path that the system resolves lies where the system says. Of one that it
/// does not, the part that exists lies where the system says, or where it
/// stands if the system does not say, and the rest goes on from there, name by
/// name.
pub proof fn real_place_goes_on(
    place: Seq<Part>,
    top: Seq<Part>,
    below: Seq<Part>,
    canonical_prefix: Option<Seq<Part>>,
    resolved: Seq<Part>,
)
    ensures
        real_place(Some(place), top + below, top.len() as int, canonical_prefix) == place,
        real_place(None, top + below, top.len() as int, Some(resolved)) == resolved + below,
        real_place(None, top + below, top.len() as int, None) == top + below,
{
    assert((top + below).skip(top.len() as int) =~= below);
    assert((top + below).take(top.len() as int) =~= top);
}

/// A place is allowed that goes on from one of the roots, and no other.
pub proof fn allowed_goes_on_from_a_root(
    place: Seq<Part>,
    roots: Seq<AllowedRoot>,
    i: int,
    rest: Seq<Part>,
)
    ensures
        0 <= i < roots.len() ==> allowed(parts(roots[i].place@) + rest, Some(roots)),
        allowed(place, Some(roots)) ==> exists|k: int|
            0 <= k < roots.len() && place == parts((#[trigger] roots[k]).place@) + place.skip(
                roots[k].place@.len() as int,
            ),
        allowed(place, None),
        roots.len() == 0 ==> !allowed(place, Some(roots)),
{
    if 0 <= i < roots.len() {
        let root = parts(roots[i].place@);
        under_is_going_on(root + rest, root, rest);
        allowed_by(root + rest, roots, i);
    }
    if allowed(place, Some(roots)) {
        let k = choose|k: int|
            0 <= k < roots.len() && under(place, parts((#[trigger] roots[k]).place@));
        under_is_going_on(place, parts(roots[k].place@), rest);
        assert(place == parts(roots[k].place@) + place.skip(roots[k].place@.len() as int));
    }
}

/// The names of the roots stand in their order, with a comma and a space
/// between each two.
pub proof fn root_names_join(a: Seq<AllowedRoot>, b: Seq<AllowedRoot>)
    requires
        a.len() > 0,
        b.len() > 0,
    ensures
        root_names(a + b, (a + b).len() as int) == root_names(a, a.len() as int) + seq![',', ' ']
            + root_names(b, b.len() as int),
        a.len() == 1 ==> root_names(a, 1) == a[0].display@,
    decreases b.len(),
{
    reveal_strlit(", ");
    assert(", "@ =~= seq![',', ' ']);
    let all = a + b;
    let n = all.len() as int;
    let front = b.drop_last();
    assert(all[n - 1] == b[b.len() - 1]);
    names_of_first(all, a + front, n - 1);
    if front.len() > 0 {
        root_names_join(a, front);
        names_of_first(b, front, front.len() as int);
        assert(root_names(all, n) =~= root_names(a, a.len() as int) + seq![',', ' '] + root_names(
            b,
            b.len() as int,
        ));
    } else {
        assert(a + front =~= a);
        names_of_first(all, a, n - 1);
        assert(root_names(b, 1) == b[0].display@);
    }
}

proof fn names_of_first(all: Seq<AllowedRoot>, first: Seq<AllowedRoot>, n: int)
    requires
        n <= first.len() <= all.len(),
        forall|i: int| 0 <= i < first.len() ==> all[i] == #[trigger] first[i],
    ensures
        root_names(all, n) == root_names(first, n),
    decreases n,
{
    if n > 0 {
        assert(all[n - 1] == first[n - 1]);
        assert(all[0] == first[0]);
        names_of_first(all, first, n - 1);
    }
}

/// The message for a place that is out of bounds names the place as it is
/// shown, and after it the roots.
pub proof fn out_of_bounds_names_both(shown: Seq<char>, roots: Seq<AllowedRoot>)
    ensures
        starts_with(
            out_of_bounds(shown, roots),
            "目标路径超出可访问范围: "@ + shown + " (允许范围: "@,
        ),
        out_of_bounds(shown, roots).skip(
            ("目标路径超出可访问范围: "@ + shown + " (允许范围: "@).len() as int,
        ) =~= root_names(roots, roots.len() as int).push(')'),
{
    reveal_strlit(")");
    let head = "目标路径超出可访问范围: "@ + shown + " (允许范围: "@;
    assert(out_of_bounds(shown, roots).take(head.len() as int) =~= head);
}

} // verus!
