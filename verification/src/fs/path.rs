//! Paths as sequences of components.
use vstd::prelude::*;

use crate::text::same_text;

verus! {

/// One component of a path, as `std::path::Path::components` gives them. A
/// path is a sequence of components; a `Prefix` comes on Windows only.
#[derive(Debug, PartialEq, Eq)]
pub enum Component {
    Prefix(String),
    RootDir,
    CurDir,
    ParentDir,
    Normal(String),
}

/// What a component stands for.
#[verifier::ext_equal]
pub enum Part {
    Prefix(Seq<char>),
    RootDir,
    CurDir,
    ParentDir,
    Normal(Seq<char>),
}

impl View for Component {
    type V = Part;

    open spec fn view(&self) -> Part {
        match *self {
            Component::Prefix(name) => Part::Prefix(name@),
            Component::RootDir => Part::RootDir,
            Component::CurDir => Part::CurDir,
            Component::ParentDir => Part::ParentDir,
            Component::Normal(name) => Part::Normal(name@),
        }
    }
}

/// What a path stands for, component by component.
pub open spec fn parts(path: Seq<Component>) -> Seq<Part> {
    Seq::new(path.len(), |i: int| path[i]@)
}

/// What an optional path stands for.
pub open spec fn optional_parts(path: Option<Vec<Component>>) -> Option<Seq<Part>> {
    match path {
        Some(p) => Some(parts(p@)),
        None => None,
    }
}

/// What a list of paths stands for.
pub open spec fn parts_of_all(paths: Seq<Vec<Component>>) -> Seq<Seq<Part>> {
    Seq::new(paths.len(), |i: int| parts(paths[i]@))
}

/// The text of a component.
pub open spec fn part_text(part: Part) -> Seq<char> {
    match part {
        Part::Prefix(name) => name,
        Part::RootDir => "/"@,
        Part::CurDir => "."@,
        Part::ParentDir => ".."@,
        Part::Normal(name) => name,
    }
}

/// The texts of the components from `from` on.
pub open spec fn texts_from(path: Seq<Part>, from: int) -> Seq<Seq<char>> {
    path.skip(from).map_values(|part: Part| part_text(part))
}

impl Component {
    /// A component equal to this one.
    pub fn duplicate(&self) -> (r: Component)
        ensures
            r@ == self@,
    {
        match self {
            Component::Prefix(name) => Component::Prefix(name.clone()),
            Component::RootDir => Component::RootDir,
            Component::CurDir => Component::CurDir,
            Component::ParentDir => Component::ParentDir,
            Component::Normal(name) => Component::Normal(name.clone()),
        }
    }

    /// Whether the two are the same component.
    pub fn same(&self, other: &Component) -> (r: bool)
        ensures
            r == (self@ == other@),
    {
        match (self, other) {
            (Component::Prefix(a), Component::Prefix(b)) => same_text(a.as_str(), b.as_str()),
            (Component::RootDir, Component::RootDir) => true,
            (Component::CurDir, Component::CurDir) => true,
            (Component::ParentDir, Component::ParentDir) => true,
            (Component::Normal(a), Component::Normal(b)) => same_text(a.as_str(), b.as_str()),
            _ => false,
        }
    }

    /// The text of the component.
    pub fn text(&self) -> (r: String)
        ensures
            r@ == part_text(self@),
    {
        match self {
            Component::Prefix(name) => name.clone(),
            Component::RootDir => "/".to_owned(),
            Component::CurDir => ".".to_owned(),
            Component::ParentDir => "..".to_owned(),
            Component::Normal(name) => name.clone(),
        }
    }

    /// Whether the component is a name, and no piece of path structure.
    pub fn is_normal(&self) -> (r: bool)
        ensures
            r == self@ is Normal,
    {
        match self {
            Component::Normal(_) => true,
            _ => false,
        }
    }
}

/// Appends the components `path[from..to]`.
pub fn append_range(out: &mut Vec<Component>, path: &[Component], from: usize, to: usize)
    requires
        from <= to <= path@.len(),
    ensures
        parts(final(out)@) == parts(old(out)@) + parts(path@).subrange(from as int, to as int),
{
    let ghost start = parts(out@);
    let mut i: usize = from;
    assert(parts(out@) =~= start + parts(path@).subrange(from as int, from as int));
    while i < to
        invariant
            from <= i <= to <= path@.len(),
            parts(out@) == start + parts(path@).subrange(from as int, i as int),
        decreases to - i,
    {
        let ghost before = out@;
        out.push(path[i].duplicate());
        proof {
            assert(parts(out@) =~= parts(before).push(path@[i as int]@));
            assert(parts(path@).subrange(from as int, i + 1) =~= parts(path@).subrange(
                from as int,
                i as int,
            ).push(path@[i as int]@));
            assert(parts(out@) =~= start + parts(path@).subrange(from as int, i + 1));
        }
        i += 1;
    }
}

/// A path equal to `path`.
pub fn duplicate_components(path: &[Component]) -> (r: Vec<Component>)
    ensures
        parts(r@) == parts(path@),
{
    let mut out: Vec<Component> = Vec::new();
    append_range(&mut out, path, 0, path.len());
    assert(parts(out@) =~= parts(path@));
    out
}

/// The texts of the components from `from` on.
pub fn component_texts(path: &[Component], from: usize) -> (r: Vec<String>)
    requires
        from <= path@.len(),
    ensures
        crate::text::texts(r@) == texts_from(parts(path@), from as int),
{
    let mut out: Vec<String> = Vec::new();
    let mut i: usize = from;
    while i < path.len()
        invariant
            from <= i <= path@.len(),
            out@.len() == i - from,
            forall|j: int|
                0 <= j < out@.len() ==> (#[trigger] out@[j])@ == part_text(path@[from + j]@),
        decreases path@.len() - i,
    {
        out.push(path[i].text());
        i += 1;
    }
    assert(crate::text::texts(out@) =~= texts_from(parts(path@), from as int));
    out
}

/// Whether `root` is `path` or an ancestor of it.
pub open spec fn under(path: Seq<Part>, root: Seq<Part>) -> bool {
    root.len() <= path.len() && path.take(root.len() as int) == root
}

/// Whether `root` is `path` or an ancestor of it, component by component.
pub fn is_under(path: &[Component], root: &[Component]) -> (r: bool)
    ensures
        r == under(parts(path@), parts(root@)),
{
    if path.len() < root.len() {
        return false;
    }
    let ghost p = parts(path@);
    let ghost q = parts(root@);
    let mut i: usize = 0;
    while i < root.len()
        invariant
            p == parts(path@),
            q == parts(root@),
            i <= q.len() <= p.len(),
            root@.len() == q.len(),
            path@.len() == p.len(),
            forall|j: int| 0 <= j < i ==> p[j] == q[j],
        decreases root@.len() - i,
    {
        if !path[i].same(&root[i]) {
            assert(p.take(q.len() as int)[i as int] == p[i as int]);
            assert(p[i as int] != q[i as int]);
            return false;
        }
        assert(p[i as int] == q[i as int]);
        i += 1;
    }
    assert(p.take(q.len() as int) =~= q);
    true
}

/// Whether a path leads to the same place from everywhere.
pub open spec fn absolute(path: Seq<Part>) -> bool {
    ||| path.len() > 0 && path[0] is RootDir
    ||| path.len() > 1 && path[0] is Prefix && path[1] is RootDir
}

/// Whether a path leads to the same place from everywhere.
pub fn is_absolute(path: &[Component]) -> (r: bool)
    ensures
        r == absolute(parts(path@)),
{
    if path.len() == 0 {
        return false;
    }
    match &path[0] {
        Component::RootDir => true,
        Component::Prefix(_) => {
            if path.len() < 2 {
                return false;
            }
            match &path[1] {
                Component::RootDir => true,
                _ => false,
            }
        },
        _ => false,
    }
}

/// Where a path leads from a directory: a path with a root or a prefix leads
/// to the same place from everywhere (on Windows a root alone keeps the
/// directory's prefix); any other goes on from the directory.
pub open spec fn joined(dir: Seq<Part>, path: Seq<Part>) -> Seq<Part> {
    if path.len() > 0 && path[0] is Prefix {
        path
    } else if path.len() > 0 && path[0] is RootDir {
        if dir.len() > 0 && dir[0] is Prefix {
            seq![dir[0]] + path
        } else {
            path
        }
    } else if dir.len() > 0 && path.len() > 0 && path[0] is CurDir {
        dir + path.skip(1)
    } else {
        dir + path
    }
}

/// Joins a path onto a directory.
pub fn join(dir: &[Component], path: &[Component]) -> (r: Vec<Component>)
    ensures
        parts(r@) == joined(parts(dir@), parts(path@)),
{
    let ghost d = parts(dir@);
    let ghost p = parts(path@);
    let mut out: Vec<Component> = Vec::new();
    let mut skip: usize = 0;
    if path.len() > 0 {
        match &path[0] {
            Component::Prefix(_) => {
                return duplicate_components(path);
            },
            Component::RootDir => {
                if dir.len() > 0 {
                    if let Component::Prefix(_) = &dir[0] {
                        append_range(&mut out, dir, 0, 1);
                    }
                }
                append_range(&mut out, path, 0, path.len());
                assert(parts(out@) =~= joined(d, p));
                return out;
            },
            Component::CurDir => {
                if dir.len() > 0 {
                    skip = 1;
                }
            },
            _ => {},
        }
    }
    append_range(&mut out, dir, 0, dir.len());
    append_range(&mut out, path, skip, path.len());
    assert(parts(out@) =~= joined(d, p));
    out
}

/// A path lies under a root where it goes on from it.
pub proof fn under_is_going_on(path: Seq<Part>, root: Seq<Part>, rest: Seq<Part>)
    ensures
        under(root + rest, root),
        under(path, root) ==> path == root + path.skip(root.len() as int),
{
    assert((root + rest).take(root.len() as int) =~= root);
    if under(path, root) {
        assert(path =~= path.take(root.len() as int) + path.skip(root.len() as int));
    }
}

/// A path with neither root nor prefix goes on from the directory, with all of
/// its components but a `.` at its start; so it leads elsewhere from elsewhere.
pub proof fn relative_path_goes_on(dir: Seq<Part>, path: Seq<Part>)
    requires
        path.len() == 0 || (path[0] !is RootDir && path[0] !is Prefix),
    ensures
        !absolute(path),
        path.len() == 0 ==> joined(dir, path) == dir,
        path.len() > 0 && path[0] !is CurDir ==> joined(dir, path) == dir + path,
        path.len() > 0 && path[0] is CurDir && dir.len() > 0 ==> joined(dir, path) == dir
            + path.drop_first(),
        path.len() > 0 && path[0] is CurDir && dir.len() == 0 ==> joined(dir, path) == path,
{
    if path.len() == 0 {
        assert(dir + path =~= dir);
    } else if path[0] is CurDir {
        assert(path.skip(1) =~= path.drop_first());
        if dir.len() == 0 {
            assert(dir + path =~= path);
        }
    }
}

/// A path is absolute where it starts at a root, with a prefix before it or
/// without. One with a prefix takes the place of the directory; a root without
/// one stays on the directory's prefix.
pub proof fn rooted_path_is_absolute(dir: Seq<Part>, prefix: Part, path: Seq<Part>)
    requires
        path.len() > 0,
        path[0] is RootDir,
        prefix is Prefix,
    ensures
        absolute(path),
        absolute(seq![prefix] + path),
        !absolute(seq![prefix]),
        !absolute(seq![prefix] + path.drop_first()) || (path.len() > 1 && path[1] is RootDir),
        joined(dir, seq![prefix] + path) == seq![prefix] + path,
        joined(seq![prefix] + dir, path) == seq![prefix] + path,
        dir.len() == 0 || dir[0] !is Prefix ==> joined(dir, path) == path,
{
    assert((seq![prefix] + path)[0] == prefix);
    assert((seq![prefix] + path)[1] == path[0]);
    assert((seq![prefix] + dir)[0] == prefix);
    let rest = seq![prefix] + path.drop_first();
    assert(rest[0] == prefix);
    if path.len() > 1 {
        assert(rest[1] == path[1]);
    }
}

/// The texts from a component on are those of the components, one by one: a
/// name's is the name.
pub proof fn texts_are_by_component(path: Seq<Part>, from: int, i: int)
    requires
        0 <= from <= path.len(),
        0 <= i < path.len() - from,
    ensures
        texts_from(path, from).len() == path.len() - from,
        path[from + i] matches Part::Normal(name) ==> texts_from(path, from)[i] == name,
        path[from + i] matches Part::Prefix(name) ==> texts_from(path, from)[i] == name,
        path[from + i] is RootDir ==> texts_from(path, from)[i] =~= seq!['/'],
        path[from + i] is CurDir ==> texts_from(path, from)[i] =~= seq!['.'],
        path[from + i] is ParentDir ==> texts_from(path, from)[i] =~= seq!['.', '.'],
{
    reveal_strlit("/");
    reveal_strlit(".");
    reveal_strlit("..");
}

} // verus!
