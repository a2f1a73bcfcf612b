//! Anchoring a typed path at one of the readable roots, in memory alone.
use vstd::prelude::*;

use super::fuzzy::{
    close_name_is_corrected, doubtful_name_is_refused, edit_distance, noise_alone_is_corrected,
    noise_free, only_noise_apart_in, outcome_by_set, outcome_in, pick, pick_is_a_candidate,
    stands_out_in, what_is_there_is_exact, LevelPick, Pick,
};
use super::path::{
    absolute, component_texts, duplicate_components, is_absolute, parts, parts_of_all, texts_from,
    under, Component, Part,
};
use crate::text::texts;

verus! {

/// A trie of the readable roots, one component a level.
pub struct RootTrie {
    root: TrieNode,
}

/// A node of the trie: the nodes below it, and the root that ends here.
struct TrieNode {
    children: Vec<(Component, TrieNode)>,
    is_complete_root: bool,
    real_path: Option<Vec<Component>>,
}

/// Whether a root ends at `path` below the node.
spec fn ends_at(node: TrieNode, path: Seq<Part>) -> bool
    decreases path.len(),
{
    if path.len() == 0 {
        node.is_complete_root
    } else {
        exists|k: int|
            0 <= k < node.children@.len() && (#[trigger] node.children@[k]).0@ == path[0] && ends_at(
                node.children@[k].1,
                path.drop_first(),
            )
    }
}

/// Whether a root ends at the node or below it.
spec fn live(node: TrieNode) -> bool {
    exists|path: Seq<Part>| ends_at(node, path)
}

/// Whether the node, at the place `at`, is as the trie has it: the components
/// below it are distinct, each leads to a root, and a root that ends at the
/// node is kept with its path.
spec fn wf(node: TrieNode, at: Seq<Part>) -> bool
    decreases node,
{
    &&& forall|i: int, j: int|
        0 <= i < j < node.children@.len() ==> (#[trigger] node.children@[i]).0@ != (
        #[trigger] node.children@[j]).0@
    &&& node.is_complete_root ==> node.real_path is Some && parts(node.real_path->0@) == at
    &&& forall|k: int|
        0 <= k < node.children@.len() ==> {
            &&& wf((#[trigger] node.children@[k]).1, at.push(node.children@[k].0@))
            &&& live(node.children@[k].1)
        }
}

/// The roots that a trie is made of: the absolute ones of the given paths.
pub open spec fn root_set(roots: Seq<Seq<Part>>) -> Set<Seq<Part>> {
    Set::new(|path: Seq<Part>| absolute(path) && roots.contains(path))
}

/// Whether some root goes on from `at` with the component.
pub open spec fn branches(roots: Set<Seq<Part>>, at: Seq<Part>, part: Part) -> bool {
    exists|root: Seq<Part>| #[trigger] roots.contains(root) && under(root, at.push(part))
}

/// The names with which roots go on from `at`.
pub open spec fn branch_names(roots: Set<Seq<Part>>, at: Seq<Part>) -> Set<Seq<char>> {
    Set::new(|name: Seq<char>| branches(roots, at, Part::Normal(name)))
}

/// One step from a place in the trie.
#[verifier::ext_equal]
pub enum Step {
    /// On to the component.
    Go(Part),
    /// No further; what was anchored holds.
    Stop,
    /// No further; nothing is anchored.
    Fail,
}

/// The step for a typed component: a name goes to what it is picked for among
/// the names there; path structure goes to itself alone, and fails where other
/// path structure stands.
pub open spec fn step(roots: Set<Seq<Part>>, at: Seq<Part>, typed: Part) -> Step {
    match typed {
        Part::Normal(seg) => match outcome_in(seg, branch_names(roots, at)) {
            Pick::Exact(name) => Step::Go(Part::Normal(name)),
            Pick::Corrected(name) => Step::Go(Part::Normal(name)),
            Pick::Abort => Step::Stop,
        },
        _ => if branches(roots, at, typed) {
            Step::Go(typed)
        } else if exists|part: Part| part !is Normal && #[trigger] branches(roots, at, part) {
            Step::Fail
        } else {
            Step::Stop
        },
    }
}

/// The deepest root on the way from `at` along the typed components from `i`
/// on, with the number of components that lead to it; `best` is the deepest
/// on the way to `at`.
pub open spec fn anchored(
    roots: Set<Seq<Part>>,
    at: Seq<Part>,
    typed: Seq<Part>,
    i: int,
    best: Option<(Seq<Part>, int)>,
) -> Option<(Seq<Part>, int)>
    decreases typed.len() - i,
{
    let here = if roots.contains(at) {
        Some((at, i))
    } else {
        best
    };
    if i >= typed.len() {
        here
    } else {
        match step(roots, at, typed[i]) {
            Step::Go(part) => anchored(roots, at.push(part), typed, i + 1, here),
            Step::Stop => here,
            Step::Fail => None,
        }
    }
}

/// Where a typed path is anchored: the root, and how many of the typed
/// components lead to it.
pub open spec fn anchor_of(roots: Set<Seq<Part>>, typed: Seq<Part>) -> Option<(Seq<Part>, int)> {
    if typed.len() == 0 {
        None
    } else {
        anchored(roots, Seq::empty(), typed, 0, None)
    }
}

proof fn ends_below(node: TrieNode, at: Seq<Part>, k: int, rest: Seq<Part>)
    requires
        wf(node, at),
        0 <= k < node.children@.len(),
    ensures
        ends_at(node, seq![node.children@[k].0@] + rest) <==> ends_at(node.children@[k].1, rest),
{
    let path = seq![node.children@[k].0@] + rest;
    assert(path.drop_first() =~= rest);
    if ends_at(node, path) {
        let j = choose|j: int|
            0 <= j < node.children@.len() && (#[trigger] node.children@[j]).0@ == path[0] && ends_at(
                node.children@[j].1,
                path.drop_first(),
            );
        if j < k {
            assert(node.children@[j].0@ != node.children@[k].0@);
        } else if k < j {
            assert(node.children@[k].0@ != node.children@[j].0@);
        }
    }
}

/// The position of the component among those below the node.
fn find_child(children: &Vec<(Component, TrieNode)>, key: &Component) -> (r: Option<usize>)
    ensures
        r matches Some(k) ==> k < children@.len() && children@[k as int].0@ == key@,
        r is None ==> forall|j: int| 0 <= j < children@.len() ==> (#[trigger] children@[j]).0@
            != key@,
{
    let mut i: usize = 0;
    while i < children.len()
        invariant
            i <= children@.len(),
            forall|j: int| 0 <= j < i ==> (#[trigger] children@[j]).0@ != key@,
        decreases children@.len() - i,
    {
        if children[i].0.same(key) {
            return Some(i);
        }
        i += 1;
    }
    None
}

/// Enters the components of `path` from `from` on below the node.
fn insert(node: TrieNode, path: &Vec<Component>, from: usize) -> (r: TrieNode)
    requires
        from <= path@.len(),
        wf(node, parts(path@).take(from as int)),
    ensures
        wf(r, parts(path@).take(from as int)),
        forall|p: Seq<Part>|
            #![trigger ends_at(r, p)]
            ends_at(r, p) <==> ends_at(node, p) || p == parts(path@).skip(from as int),
    decreases path@.len() - from,
{
    let ghost at = parts(path@).take(from as int);
    let ghost goal = parts(path@).skip(from as int);
    if from == path.len() {
        let r = TrieNode {
            children: node.children,
            is_complete_root: true,
            real_path: Some(duplicate_components(path)),
        };
        proof {
            assert(at =~= parts(path@));
            assert(goal =~= Seq::empty());
            assert forall|p: Seq<Part>| #![trigger ends_at(r, p)] ends_at(r, p) <==> ends_at(node, p) || p
                == goal by {
                if p.len() == 0 {
                    assert(p =~= Seq::empty());
                } else if ends_at(r, p) {
                    let k = choose|k: int|
                        0 <= k < r.children@.len() && (#[trigger] r.children@[k]).0@ == p[0]
                            && ends_at(r.children@[k].1, p.drop_first());
                    assert(node.children@[k].0@ == p[0]);
                } else if ends_at(node, p) {
                    let k = choose|k: int|
                        0 <= k < node.children@.len() && (#[trigger] node.children@[k]).0@ == p[0]
                            && ends_at(node.children@[k].1, p.drop_first());
                    assert(r.children@[k].0@ == p[0]);
                }
            }
        }
        return r;
    }
    let key = &path[from];
    let ghost next = at.push(key@);
    proof {
        assert(parts(path@).take(from + 1) =~= next);
        assert(parts(path@).skip(from + 1) =~= goal.drop_first());
        assert(goal =~= seq![key@] + goal.drop_first());
    }
    let mut children = node.children;
    let ghost old_children = children@;
    let position = find_child(&children, key);
    let (k, child): (usize, TrieNode) = match position {
        Some(k) => {
            let (_, child) = children.remove(k);
            (k, child)
        },
        None => {
            (
                children.len(),
                TrieNode { children: Vec::new(), is_complete_root: false, real_path: None },
            )
        },
    };
    let ghost old_child = child;
    proof {
        assert(wf(child, next));
        if position is None {
            assert forall|p: Seq<Part>| !ends_at(child, p) by {}
        }
    }
    let grown = insert(child, path, from + 1);
    children.insert(k, (key.duplicate(), grown));
    let r = TrieNode {
        children,
        is_complete_root: node.is_complete_root,
        real_path: node.real_path,
    };
    proof {
        let new_children = r.children@;
        assert(ends_at(grown, goal.drop_first()));
        assert(forall|j: int|
            0 <= j < new_children.len() && j != k ==> j < old_children.len() && (
            #[trigger] new_children[j]) == old_children[j]);
        assert forall|i: int, j: int| 0 <= i < j < new_children.len() implies (
        #[trigger] new_children[i]).0@ != (#[trigger] new_children[j]).0@ by {
            if i == k {
                if position is Some {
                    assert(old_children[i].0@ != old_children[j].0@);
                }
            } else if j == k {
                if position is Some {
                    assert(old_children[i].0@ != old_children[j].0@);
                } else {
                    assert(old_children[i].0@ != key@);
                }
            } else {
                assert(old_children[i].0@ != old_children[j].0@);
            }
        }
        assert forall|j: int| 0 <= j < new_children.len() implies {
            &&& wf((#[trigger] new_children[j]).1, at.push(new_children[j].0@))
            &&& live(new_children[j].1)
        } by {
            if j != k {
                assert(wf(old_children[j].1, at.push(old_children[j].0@)));
            }
        }
        assert forall|p: Seq<Part>| #![trigger ends_at(r, p)] ends_at(r, p) <==> ends_at(node, p) || p
            == goal by {
            if p.len() == 0 {
            } else {
                assert(p =~= seq![p[0]] + p.drop_first());
                if p[0] == key@ {
                    ends_below(r, at, k as int, p.drop_first());
                    if position is Some {
                        ends_below(node, at, k as int, p.drop_first());
                    } else {
                        assert(!ends_at(node, p));
                    }
                    if p == goal {
                    } else {
                        assert(p.drop_first() != goal.drop_first());
                    }
                } else {
                    if ends_at(r, p) {
                        let j = choose|j: int|
                            0 <= j < new_children.len() && (#[trigger] new_children[j]).0@ == p[0]
                                && ends_at(new_children[j].1, p.drop_first());
                        assert(old_children[j] == new_children[j]);
                    }
                    if ends_at(node, p) {
                        let j = choose|j: int|
                            0 <= j < old_children.len() && (#[trigger] old_children[j]).0@ == p[0]
                                && ends_at(old_children[j].1, p.drop_first());
                        assert(new_children[j] == old_children[j]);
                    }
                }
            }
        }
    }
    r
}

impl RootTrie {
    /// The roots of the trie.
    pub closed spec fn roots(self) -> Set<Seq<Part>> {
        Set::new(|path: Seq<Part>| ends_at(self.root, path))
    }

    #[verifier::type_invariant]
    spec fn well_formed(self) -> bool {
        wf(self.root, Seq::empty())
    }

    /// Builds the trie of the given roots. Paths that are not absolute are
    /// left out.
    pub fn build(roots: &[Vec<Component>]) -> (r: RootTrie)
        ensures
            r.roots() == root_set(parts_of_all(roots@)),
    {
        let ghost all = parts_of_all(roots@);
        let mut node = TrieNode {
            children: Vec::new(),
            is_complete_root: false,
            real_path: None,
        };
        let mut i: usize = 0;
        while i < roots.len()
            invariant
                i <= roots@.len(),
                all == parts_of_all(roots@),
                wf(node, Seq::empty()),
                forall|p: Seq<Part>|
                    #![trigger ends_at(node, p)]
                    ends_at(node, p) <==> absolute(p) && all.take(i as int).contains(p),
            decreases roots@.len() - i,
        {
            let ghost before = node;
            let ghost path = parts(roots@[i as int]@);
            proof {
                assert(all.take(i + 1) =~= all.take(i as int).push(path));
                assert(path.take(0) =~= Seq::empty());
                assert(path.skip(0) =~= path);
            }
            if is_absolute(&roots[i]) {
                node = insert(node, &roots[i], 0);
            }
            proof {
                assert forall|p: Seq<Part>| #![trigger ends_at(node, p)] ends_at(node, p) <==> absolute(p)
                    && all.take(i + 1).contains(p) by {
                    let some = all.take(i as int);
                    assert(some.push(path)[some.len() as int] == path);
                    if some.contains(p) {
                        let j = choose|j: int| 0 <= j < some.len() && some[j] == p;
                        assert(some.push(path)[j] == p);
                    }
                    if some.push(path).contains(p) && p != path {
                        let j = choose|j: int|
                            0 <= j < some.push(path).len() && some.push(path)[j] == p;
                        assert(some[j] == p);
                    }
                    assert(ends_at(before, p) <==> absolute(p) && some.contains(p));
                }
            }
            i += 1;
        }
        let r = RootTrie { root: node };
        proof {
            assert(all.take(all.len() as int) =~= all);
            assert(r.roots() =~= root_set(all));
        }
        r
    }

    /// Walks the trie along the typed components. Names are corrected where
    /// that is beyond doubt; path structure is taken as it is. Returns the
    /// deepest root on the way and the texts of the components after it.
    pub fn anchor(&self, input_comps: &[Component]) -> (r: Option<(Vec<Component>, Vec<String>)>)
        ensures
            match (r, anchor_of(self.roots(), parts(input_comps@))) {
                (Some((root, tail)), Some((path, k))) => {
                    &&& parts(root@) == path
                    &&& 0 <= k <= input_comps@.len()
                    &&& texts(tail@) == texts_from(parts(input_comps@), k)
                },
                (None, None) => true,
                _ => false,
            },
    {
        proof {
            use_type_invariant(self);
        }
        if input_comps.len() == 0 {
            return None;
        }
        let ghost roots = self.roots();
        let ghost at: Seq<Part> = Seq::empty();
        proof {
            assert forall|p: Seq<Part>|
                #![trigger ends_at(self.root, p)]
                ends_at(self.root, p) <==> roots.contains(at + p) by {
                assert(at + p =~= p);
            }
        }
        match anchor_from(&self.root, input_comps, 0, None, Ghost(at), Ghost(roots)) {
            Some((k, real_path)) => {
                Some((duplicate_components(real_path), component_texts(input_comps, k)))
            },
            None => None,
        }
    }
}

/// What an anchor that was found on the way stands for.
spec fn anchor_view(best: Option<(usize, &Vec<Component>)>) -> Option<(Seq<Part>, int)> {
    match best {
        Some((k, real_path)) => Some((parts(real_path@), k as int)),
        None => None,
    }
}

/// Whether the node is what the roots have at `at`.
spec fn stands_for(node: TrieNode, at: Seq<Part>, roots: Set<Seq<Part>>) -> bool {
    &&& wf(node, at)
    &&& forall|p: Seq<Part>|
        #![trigger ends_at(node, p)]
        ends_at(node, p) <==> roots.contains(at + p)
}

/// The components below the node are those with which roots go on.
proof fn branch_keys(node: TrieNode, at: Seq<Part>, roots: Set<Seq<Part>>)
    requires
        stands_for(node, at, roots),
    ensures
        forall|part: Part| #[trigger]
            branches(roots, at, part) <==> exists|k: int|
                0 <= k < node.children@.len() && (#[trigger] node.children@[k]).0@ == part,
{
    assert forall|part: Part| #[trigger] branches(roots, at, part) <==> exists|k: int|
        0 <= k < node.children@.len() && (#[trigger] node.children@[k]).0@ == part by {
        if branches(roots, at, part) {
            let root = choose|root: Seq<Part>| #[trigger]
                roots.contains(root) && under(root, at.push(part));
            let rest = root.skip(at.len() as int);
            assert(root =~= at + rest) by {
                assert(root.take(at.len() as int + 1) == at.push(part));
                assert forall|i: int| 0 <= i < at.len() implies root[i] == at[i] by {
                    assert(root.take(at.len() as int + 1)[i] == at.push(part)[i]);
                }
            }
            assert(root.take(at.len() as int + 1)[at.len() as int] == at.push(part)[at.len() as int]);
            assert(rest[0] == part);
            assert(ends_at(node, rest));
        }
        if exists|k: int|
            0 <= k < node.children@.len() && (#[trigger] node.children@[k]).0@ == part {
            let k = choose|k: int|
                0 <= k < node.children@.len() && (#[trigger] node.children@[k]).0@ == part;
            assert(live(node.children@[k].1));
            let p = choose|p: Seq<Part>| ends_at(node.children@[k].1, p);
            ends_below(node, at, k, p);
            let root = at + (seq![part] + p);
            assert(ends_at(node, seq![part] + p));
            assert(roots.contains(root));
            assert(root.take(at.len() as int + 1) =~= at.push(part));
        }
    }
}

/// The names below the node.
fn child_names(node: &TrieNode, Ghost(at): Ghost<Seq<Part>>, Ghost(roots): Ghost<Set<Seq<Part>>>) -> (r:
    Vec<String>)
    requires
        stands_for(*node, at, roots),
    ensures
        texts(r@).no_duplicates(),
        texts(r@).to_set() == branch_names(roots, at),
{
    let mut names: Vec<String> = Vec::new();
    let ghost mut from: Seq<int> = Seq::empty();
    let mut i: usize = 0;
    while i < node.children.len()
        invariant
            i <= node.children@.len(),
            names@.len() == from.len(),
            forall|j: int|
                0 <= j < from.len() ==> 0 <= #[trigger] from[j] < i && node.children@[from[j]].0@
                    == Part::Normal(names@[j]@),
            forall|j: int, k: int| 0 <= j < k < from.len() ==> from[j] < from[k],
            forall|k: int|
                0 <= k < i && (#[trigger] node.children@[k]).0@ is Normal ==> texts(names@).contains(
                    node.children@[k].0@->Normal_0,
                ),
        decreases node.children@.len() - i,
    {
        let ghost before = names@;
        match &node.children[i].0 {
            Component::Normal(name) => {
                names.push(name.clone());
                proof {
                    from = from.push(i as int);
                    assert(texts(names@)[before.len() as int] == name@);
                    assert forall|k: int| 0 <= k < i + 1 && (#[trigger] node.children@[k]).0@
                        is Normal implies texts(names@).contains(
                        node.children@[k].0@->Normal_0,
                    ) by {
                        if k < i {
                            let n = node.children@[k].0@->Normal_0;
                            let j = choose|j: int| 0 <= j < before.len() && texts(before)[j] == n;
                            assert(texts(names@)[j] == n);
                        }
                    }
                }
            },
            _ => {},
        }
        i += 1;
    }
    proof {
        branch_keys(*node, at, roots);
        let all = texts(names@);
        assert forall|j: int, k: int| 0 <= j < all.len() && 0 <= k < all.len() && j
            != k implies all[j] != all[k] by {
            if j < k {
                assert(from[j] < from[k]);
                assert(node.children@[from[j]].0@ != node.children@[from[k]].0@);
            } else {
                assert(from[k] < from[j]);
                assert(node.children@[from[k]].0@ != node.children@[from[j]].0@);
            }
        }
        assert forall|n: Seq<char>| all.to_set().contains(n) <==> branch_names(roots, at).contains(
            n,
        ) by {
            if all.contains(n) {
                let j = choose|j: int| 0 <= j < all.len() && all[j] == n;
                assert(node.children@[from[j]].0@ == Part::Normal(n));
                assert(branches(roots, at, Part::Normal(n)));
            }
            if branches(roots, at, Part::Normal(n)) {
                let k = choose|k: int|
                    0 <= k < node.children@.len() && (#[trigger] node.children@[k]).0@
                        == Part::Normal(n);
                assert(node.children@[k].0@ is Normal);
            }
        }
        assert(all.to_set() =~= branch_names(roots, at));
    }
    names
}

/// Whether path structure stands below the node.
fn has_structure(node: &TrieNode) -> (r: bool)
    ensures
        r <==> exists|k: int|
            0 <= k < node.children@.len() && (#[trigger] node.children@[k]).0@ !is Normal,
{
    let mut i: usize = 0;
    while i < node.children.len()
        invariant
            i <= node.children@.len(),
            forall|k: int| 0 <= k < i ==> (#[trigger] node.children@[k]).0@ is Normal,
        decreases node.children@.len() - i,
    {
        if !node.children[i].0.is_normal() {
            return true;
        }
        i += 1;
    }
    false
}

/// Walks on from a node along the typed components from `i` on.
fn anchor_from<'a>(
    node: &'a TrieNode,
    typed: &[Component],
    i: usize,
    best: Option<(usize, &'a Vec<Component>)>,
    Ghost(at): Ghost<Seq<Part>>,
    Ghost(roots): Ghost<Set<Seq<Part>>>,
) -> (r: Option<(usize, &'a Vec<Component>)>)
    requires
        i <= typed@.len(),
        stands_for(*node, at, roots),
        best matches Some((k, _)) ==> k <= i,
    ensures
        anchor_view(r) == anchored(roots, at, parts(typed@), i as int, anchor_view(best)),
        r matches Some((k, _)) ==> k <= typed@.len(),
    decreases typed@.len() - i,
{
    proof {
        assert(at + Seq::<Part>::empty() =~= at);
        assert(ends_at(*node, Seq::empty()) <==> roots.contains(at));
        branch_keys(*node, at, roots);
    }
    let mut here: Option<(usize, &'a Vec<Component>)> = best;
    if node.is_complete_root {
        match &node.real_path {
            Some(real_path) => {
                here = Some((i, real_path));
            },
            None => {},
        }
    }
    if i >= typed.len() {
        return here;
    }
    let key: Component = match &typed[i] {
        Component::Normal(seg) => {
            let names = child_names(node, Ghost(at), Ghost(roots));
            proof {
                outcome_by_set(seg@, texts(names@));
                pick_is_a_candidate(seg@, texts(names@));
            }
            match pick(seg.as_str(), &names) {
                LevelPick::Exact(name) => {
                    assert(branch_names(roots, at).contains(name@));
                    Component::Normal(name)
                },
                LevelPick::Corrected(name) => {
                    assert(branch_names(roots, at).contains(name@));
                    Component::Normal(name)
                },
                LevelPick::Abort => {
                    return here;
                },
            }
        },
        _ => typed[i].duplicate(),
    };
    match find_child(&node.children, &key) {
        Some(k) => {
            proof {
                let part = key@;
                let child = node.children@[k as int].1;
                assert forall|p: Seq<Part>|
                    #![trigger ends_at(child, p)]
                    ends_at(child, p) <==> roots.contains(at.push(part) + p) by {
                    ends_below(*node, at, k as int, p);
                    assert(at + (seq![part] + p) =~= at.push(part) + p);
                    assert(ends_at(*node, seq![part] + p) <==> roots.contains(
                        at + (seq![part] + p),
                    ));
                }
                assert(branches(roots, at, part));
            }
            anchor_from(&node.children[k].1, typed, i + 1, here, Ghost(at.push(key@)), Ghost(roots))
        },
        None => {
            assert(!branches(roots, at, key@));
            if has_structure(node) {
                proof {
                    let k = choose|k: int|
                        0 <= k < node.children@.len() && (#[trigger] node.children@[k]).0@
                            !is Normal;
                    assert(branches(roots, at, node.children@[k].0@));
                }
                None
            } else {
                here
            }
        },
    }
}

proof fn anchored_is_root(
    roots: Set<Seq<Part>>,
    at: Seq<Part>,
    typed: Seq<Part>,
    i: int,
    best: Option<(Seq<Part>, int)>,
)
    requires
        0 <= i <= typed.len(),
        at.len() == i,
        forall|j: int| 0 <= j < i ==> step_keeps_kind(#[trigger] typed[j], at[j]),
        best matches Some((root, k)) ==> 0 <= k <= i && roots.contains(root) && root == at.take(k),
    ensures
        anchored(roots, at, typed, i, best) matches Some((root, k)) ==> {
            &&& roots.contains(root)
            &&& root.len() == k <= typed.len()
            &&& forall|j: int| 0 <= j < k ==> step_keeps_kind(#[trigger] typed[j], root[j])
        },
    decreases typed.len() - i,
{
    let here = if roots.contains(at) {
        Some((at, i))
    } else {
        best
    };
    assert(at.take(i) =~= at);
    if i < typed.len() {
        match step(roots, at, typed[i]) {
            Step::Go(part) => {
                let next = at.push(part);
                if here is Some {
                    assert(next.take((here->0).1) =~= at.take((here->0).1));
                }
                anchored_is_root(roots, next, typed, i + 1, here);
            },
            Step::Stop => {},
            Step::Fail => {},
        }
    }
}

/// Whether a step from what was typed is a lawful one: names go to names, and
/// path structure to itself.
pub open spec fn step_keeps_kind(typed: Part, taken: Part) -> bool {
    if typed is Normal {
        taken is Normal
    } else {
        taken == typed
    }
}

/// What is anchored is one of the roots, of as many components as were typed
/// for it. Names may have been corrected to get there; path structure never.
pub proof fn anchor_is_a_root(roots: Set<Seq<Part>>, typed: Seq<Part>)
    ensures
        anchor_of(roots, typed) matches Some((root, k)) ==> {
            &&& roots.contains(root)
            &&& root.len() == k <= typed.len()
            &&& forall|j: int| 0 <= j < k ==> step_keeps_kind(#[trigger] typed[j], root[j])
        },
{
    if typed.len() > 0 {
        anchored_is_root(roots, Seq::empty(), typed, 0, None);
    }
}

/// Whether the component is path structure that, at the root or below it, meets
/// other path structure of a root and none of its own.
pub open spec fn clashes(roots: Set<Seq<Part>>, root: Seq<Part>, part: Part) -> bool {
    part !is Normal && exists|at: Seq<Part>| #[trigger]
        step(roots, at, part) is Fail && under(at, root)
}

proof fn anchored_stays_under(
    roots: Set<Seq<Part>>,
    at: Seq<Part>,
    typed: Seq<Part>,
    root: Seq<Part>,
    i: int,
    best: Option<(Seq<Part>, int)>,
)
    requires
        0 <= i <= typed.len(),
        at.len() == i,
        under(at, root),
        best matches Some((anchor, k)) && under(anchor, root) && k == anchor.len(),
    ensures
        match anchored(roots, at, typed, i, best) {
            Some((anchor, k)) => under(anchor, root) && k == anchor.len(),
            None => exists|j: int| i <= j < typed.len() && clashes(roots, root, #[trigger] typed[j]),
        },
    decreases typed.len() - i,
{
    let here = if roots.contains(at) {
        Some((at, i))
    } else {
        best
    };
    if i < typed.len() {
        match step(roots, at, typed[i]) {
            Step::Go(part) => {
                let next = at.push(part);
                assert(next.take(root.len() as int) =~= at.take(root.len() as int));
                anchored_stays_under(roots, next, typed, root, i + 1, here);
            },
            Step::Stop => {},
            Step::Fail => {
                assert(clashes(roots, root, typed[i]));
            },
        }
    }
}

proof fn anchored_follows_root(
    roots: Set<Seq<Part>>,
    typed: Seq<Part>,
    root: Seq<Part>,
    i: int,
    best: Option<(Seq<Part>, int)>,
)
    requires
        roots.contains(root),
        under(typed, root),
        0 <= i <= root.len(),
    ensures
        match anchored(roots, typed.take(i), typed, i, best) {
            Some((anchor, k)) => under(anchor, root) && k == anchor.len(),
            None => exists|j: int|
                root.len() <= j < typed.len() && clashes(roots, root, #[trigger] typed[j]),
        },
    decreases root.len() - i,
{
    let at = typed.take(i);
    if i == root.len() {
        assert(at =~= root);
        assert(at.take(i) =~= root);
        let here = Some((at, i));
        assert(anchored(roots, at, typed, i, best) == anchored(roots, at, typed, i, here));
        anchored_stays_under(roots, at, typed, root, i, here);
    } else {
        assert(typed[i] == root[i]) by {
            assert(typed.take(root.len() as int)[i] == root[i]);
        }
        assert(root.take(i + 1) =~= at.push(typed[i])) by {
            assert forall|j: int| 0 <= j < i implies root[j] == at[j] by {
                assert(typed.take(root.len() as int)[j] == root[j]);
            }
        }
        assert(under(root, at.push(typed[i])));
        assert(branches(roots, at, typed[i]));
        if typed[i] is Normal {
            assert(branch_names(roots, at).contains(typed[i]->Normal_0));
        }
        assert(step(roots, at, typed[i]) == Step::Go(typed[i]));
        assert(at.push(typed[i]) =~= typed.take(i + 1));
        let here = if roots.contains(at) {
            Some((at, i))
        } else {
            best
        };
        anchored_follows_root(roots, typed, root, i + 1, here);
    }
}

/// A path that was typed rightly is anchored: where a root is the beginning of
/// it, the anchor is that root or one below it, whatever follows. The one thing
/// that stands against an anchor is path structure in what follows that meets
/// other path structure of a root.
pub proof fn verbatim_root_is_anchored(
    roots: Set<Seq<Part>>,
    typed: Seq<Part>,
    root: Seq<Part>,
)
    requires
        roots.contains(root),
        typed.len() > 0,
        under(typed, root),
    ensures
        match anchor_of(roots, typed) {
            Some((anchor, k)) => under(anchor, root) && k == anchor.len(),
            None => exists|j: int|
                root.len() <= j < typed.len() && clashes(roots, root, #[trigger] typed[j]),
        },
{
    assert(typed.take(0) =~= Seq::empty());
    anchored_follows_root(roots, typed, root, 0, None);
}

/// Names alone never clash, so a root that names follow is always anchored.
pub proof fn names_never_clash(roots: Set<Seq<Part>>, typed: Seq<Part>, root: Seq<Part>)
    requires
        roots.contains(root),
        typed.len() > 0,
        under(typed, root),
        forall|j: int| root.len() <= j < typed.len() ==> (#[trigger] typed[j]) is Normal,
    ensures
        anchor_of(roots, typed) is Some,
{
    verbatim_root_is_anchored(roots, typed, root);
}

/// Whether a path starts at the root and holds nothing but names from there on,
/// as an absolute path without `.` and `..` does.
pub open spec fn names_from_root(path: Seq<Part>) -> bool {
    &&& absolute(path)
    &&& forall|j: int|
        0 <= j < path.len() && (#[trigger] path[j]) !is Normal ==> j == 0 || (j == 1
            && path[0] is Prefix)
}

/// Where the roots are absolute paths without `.` and `..`, a path that was
/// typed rightly is always anchored: where a root is the beginning of it, the
/// anchor is that root or one below it, whatever follows.
pub proof fn plain_root_is_anchored(
    roots: Set<Seq<Part>>,
    typed: Seq<Part>,
    root: Seq<Part>,
)
    requires
        roots.contains(root),
        under(typed, root),
        forall|other: Seq<Part>| #[trigger] roots.contains(other) ==> names_from_root(other),
    ensures
        anchor_of(roots, typed) matches Some((anchor, k)) && roots.contains(anchor) && under(
            anchor,
            root,
        ) && k == anchor.len(),
{
    verbatim_root_is_anchored(roots, typed, root);
    anchor_is_a_root(roots, typed);
    assert(names_from_root(root));
    assert forall|part: Part| !clashes(roots, root, part) by {
        if clashes(roots, root, part) {
            let at = choose|at: Seq<Part>| #[trigger]
                step(roots, at, part) is Fail && under(at, root);
            let met = choose|met: Part| met !is Normal && #[trigger] branches(roots, at, met);
            let other = choose|other: Seq<Part>| #[trigger]
                roots.contains(other) && under(other, at.push(met));
            let n = at.len() as int;
            assert(names_from_root(other));
            assert(other.take(n + 1)[n] == met);
            assert(at.take(root.len() as int)[0] == root[0]);
            assert(other.take(n + 1)[0] == at.push(met)[0]);
            assert(other[n] !is Normal);
            if root[0] is Prefix {
                assert(at.take(root.len() as int)[1] == root[1]);
                assert(other.take(n + 1)[1] == at.push(met)[1]);
            }
        }
    }
}

/// The roots of a trie are the given paths that start at a root, with a prefix
/// before it or without, and no others.
pub proof fn absolute_paths_are_roots(roots: Seq<Seq<Part>>, path: Seq<Part>)
    ensures
        root_set(roots).contains(path) <==> {
            &&& exists|i: int| 0 <= i < roots.len() && #[trigger] roots[i] == path
            &&& {
                ||| path.len() > 0 && path[0] is RootDir
                ||| path.len() > 1 && path[0] is Prefix && path[1] is RootDir
            }
        },
{
}

/// Nothing is anchored without roots, and nothing is anchored of an empty path.
pub proof fn nothing_is_anchored(roots: Set<Seq<Part>>, typed: Seq<Part>)
    requires
        typed.len() == 0 || forall|root: Seq<Part>| !roots.contains(root),
    ensures
        anchor_of(roots, typed) is None,
{
    anchor_is_a_root(roots, typed);
}

/// Whether the typed name stands for the name where there is no other: it is
/// the name, or differs in white space and case alone, or is within its limit
/// of edits, which is three for names of nine characters or more, two from six
/// on, and one below.
pub open spec fn comes_close(typed: Seq<char>, name: Seq<char>) -> bool {
    let d = edit_distance(typed, name);
    ||| typed == name
    ||| noise_free(typed) == noise_free(name)
    ||| d <= 1
    ||| d == 2 && (typed.len() >= 6 || name.len() >= 6)
    ||| d == 3 && (typed.len() >= 9 || name.len() >= 9)
}

proof fn lone_name_is_picked(typed: Seq<char>, name: Seq<char>)
    ensures
        comes_close(typed, name) ==> match outcome_in(typed, set![name]) {
            Pick::Exact(picked) => picked == name,
            Pick::Corrected(picked) => picked == name,
            Pick::Abort => false,
        },
        !comes_close(typed, name) ==> outcome_in(typed, set![name]) is Abort,
{
    let candidates = seq![name];
    assert(candidates[0] == name);
    assert(candidates.no_duplicates());
    assert(candidates.to_set() =~= set![name]) by {
        assert forall|x: Seq<char>| candidates.to_set().contains(x) <==> x == name by {
            assert(candidates.contains(x) <==> x == name);
        }
    }
    outcome_by_set(typed, candidates);
    if typed == name {
        what_is_there_is_exact(typed, candidates, 0);
    } else if noise_free(typed) == noise_free(name) {
        noise_alone_is_corrected(typed, candidates, 0, 0);
    } else if comes_close(typed, name) {
        close_name_is_corrected(typed, candidates, 0);
    } else {
        doubtful_name_is_refused(typed, candidates);
    }
}

/// Whether what was typed leads along the root for its first `n` components:
/// names stand for names, and path structure for itself.
pub open spec fn leads_along(typed: Seq<Part>, root: Seq<Part>, n: int) -> bool {
    forall|j: int|
        0 <= j < n ==> match (#[trigger] typed[j], root[j]) {
            (Part::Normal(seg), Part::Normal(name)) => comes_close(seg, name),
            (a, b) => a == b,
        }
}

proof fn step_along_lone_root(root: Seq<Part>, i: int, typed: Part)
    requires
        0 <= i < root.len(),
    ensures
        ({
            let taken = step(set![root], root.take(i), typed);
            match (typed, root[i]) {
                (Part::Normal(seg), Part::Normal(name)) => if comes_close(seg, name) {
                    taken == Step::Go(root[i])
                } else {
                    taken is Stop
                },
                (Part::Normal(_), _) => taken is Stop,
                (a, b) => if a == b {
                    taken == Step::Go(root[i])
                } else if b is Normal {
                    taken is Stop
                } else {
                    taken is Fail
                },
            }
        }),
{
    let roots = set![root];
    let at = root.take(i);
    assert forall|part: Part| branches(roots, at, part) <==> part == root[i] by {
        if part == root[i] {
            assert(root.take(i + 1) =~= at.push(part));
            assert(roots.contains(root));
            assert(under(root, at.push(part)));
        }
        if branches(roots, at, part) {
            let other = choose|other: Seq<Part>| #[trigger]
                roots.contains(other) && under(other, at.push(part));
            assert(other == root);
            assert(root.take(i + 1)[i] == at.push(part)[i]);
        }
    }
    if let Part::Normal(seg) = typed {
        let names = branch_names(roots, at);
        if let Part::Normal(name) = root[i] {
            assert(names =~= set![name]) by {
                assert forall|x: Seq<char>| names.contains(x) <==> x == name by {
                    assert(branches(roots, at, Part::Normal(x)) <==> Part::Normal(x) == root[i]);
                }
            }
            lone_name_is_picked(seg, name);
        } else {
            assert forall|x: Seq<char>| !names.contains(x) by {
                assert(!branches(roots, at, Part::Normal(x)));
            }
            assert(!names.contains(seg));
            assert forall|name: Seq<char>| !only_noise_apart_in(seg, names, name) by {}
            assert forall|name: Seq<char>| !stands_out_in(seg, names, name) by {}
        }
    } else {
        if typed != root[i] && root[i] !is Normal {
            assert(branches(roots, at, root[i]));
        }
    }
}

proof fn anchored_along_lone_root(
    root: Seq<Part>,
    typed: Seq<Part>,
    i: int,
    best: Option<(Seq<Part>, int)>,
)
    requires
        0 <= i <= root.len() <= typed.len(),
        leads_along(typed, root, root.len() as int),
    ensures
        anchored(set![root], root.take(i), typed, i, best) == anchored(
            set![root],
            root,
            typed,
            root.len() as int,
            best,
        ),
    decreases root.len() - i,
{
    if i < root.len() {
        assert(set![root].contains(root.take(i)) ==> root.take(i).len() == root.len());
        step_along_lone_root(root, i, typed[i]);
        assert(root.take(i).push(root[i]) =~= root.take(i + 1));
        anchored_along_lone_root(root, typed, i + 1, best);
    } else {
        assert(root.take(i) =~= root);
    }
}

proof fn nothing_below_lone_root(root: Seq<Part>, typed: Part)
    ensures
        step(set![root], root, typed) is Stop,
{
    let roots = set![root];
    assert forall|part: Part| !branches(roots, root, part) by {
        if branches(roots, root, part) {
            let other = choose|other: Seq<Part>| #[trigger]
                roots.contains(other) && under(other, root.push(part));
            assert(other == root);
        }
    }
    if let Part::Normal(seg) = typed {
        let names = branch_names(roots, root);
        assert forall|x: Seq<char>| !names.contains(x) by {
            assert(!branches(roots, root, Part::Normal(x)));
        }
        assert(!names.contains(seg));
        assert forall|name: Seq<char>| !only_noise_apart_in(seg, names, name) by {}
        assert forall|name: Seq<char>| !stands_out_in(seg, names, name) by {}
    }
}

/// Where there is one root, a path is anchored at it exactly if it leads along
/// it to its end, each name typed right or misspelt within its limit.
pub proof fn lone_root_is_anchored(root: Seq<Part>, typed: Seq<Part>)
    requires
        root.len() > 0,
    ensures
        root.len() <= typed.len() && leads_along(typed, root, root.len() as int) ==> anchor_of(
            set![root],
            typed,
        ) == Some((root, root.len() as int)),
        anchor_of(set![root], typed) is Some ==> root.len() <= typed.len() && leads_along(
            typed,
            root,
            root.len() as int,
        ),
{
    let roots = set![root];
    let none = Seq::<Part>::empty();
    assert(root.take(0) =~= none);
    if root.len() <= typed.len() && leads_along(typed, root, root.len() as int) {
        anchored_along_lone_root(root, typed, 0, None);
        if root.len() < typed.len() {
            nothing_below_lone_root(root, typed[root.len() as int]);
        }
        assert(roots.contains(root));
    }
    if typed.len() > 0 {
        anchored_needs_lone_root(root, typed, 0);
    }
}

proof fn anchored_needs_lone_root(root: Seq<Part>, typed: Seq<Part>, i: int)
    requires
        0 <= i <= root.len(),
        i <= typed.len(),
        leads_along(typed, root, i),
    ensures
        anchored(set![root], root.take(i), typed, i, None) is Some ==> root.len() <= typed.len()
            && leads_along(typed, root, root.len() as int),
    decreases root.len() - i,
{
    let roots = set![root];
    if i < root.len() {
        assert(!roots.contains(root.take(i))) by {
            assert(root.take(i).len() != root.len());
        }
        if i < typed.len() {
            step_along_lone_root(root, i, typed[i]);
            if step(roots, root.take(i), typed[i]) is Go {
                assert(root.take(i).push(root[i]) =~= root.take(i + 1));
                assert(leads_along(typed, root, i + 1));
                anchored_needs_lone_root(root, typed, i + 1);
            }
        }
    }
}

/// The names with which some root goes on from the place.
pub open spec fn names_below(roots: Set<Seq<Part>>, at: Seq<Part>) -> Set<Seq<char>> {
    Set::new(
        |name: Seq<char>|
            exists|root: Seq<Part>| #[trigger]
                roots.contains(root) && under(root, at.push(Part::Normal(name))),
    )
}

/// Whether what was typed leads along the root among others: a name is picked
/// for the root's own among all the names there, and path structure is the
/// root's.
pub open spec fn picked_along(roots: Set<Seq<Part>>, typed: Seq<Part>, root: Seq<Part>) -> bool {
    &&& root.len() <= typed.len()
    &&& forall|j: int|
        0 <= j < root.len() ==> match (#[trigger] typed[j], root[j]) {
            (Part::Normal(seg), Part::Normal(name)) => match outcome_in(
                seg,
                names_below(roots, root.take(j)),
            ) {
                Pick::Exact(picked) => picked == name,
                Pick::Corrected(picked) => picked == name,
                Pick::Abort => false,
            },
            (a, b) => a == b,
        }
}

proof fn anchored_follows_picks(
    roots: Set<Seq<Part>>,
    typed: Seq<Part>,
    root: Seq<Part>,
    i: int,
    best: Option<(Seq<Part>, int)>,
)
    requires
        roots.contains(root),
        picked_along(roots, typed, root),
        0 <= i <= root.len(),
    ensures
        match anchored(roots, root.take(i), typed, i, best) {
            Some((anchor, k)) => under(anchor, root) && k == anchor.len(),
            None => exists|j: int|
                root.len() <= j < typed.len() && clashes(roots, root, #[trigger] typed[j]),
        },
    decreases root.len() - i,
{
    let at = root.take(i);
    if i == root.len() {
        assert(at =~= root);
        assert(at.take(i) =~= root);
        let here = Some((at, i));
        assert(anchored(roots, at, typed, i, best) == anchored(roots, at, typed, i, here));
        anchored_stays_under(roots, at, typed, root, i, here);
    } else {
        assert(root.take(i + 1) =~= at.push(root[i]));
        assert(under(root, at.push(root[i])));
        assert(branches(roots, at, root[i]));
        assert(branch_names(roots, at) =~= names_below(roots, at)) by {
            assert forall|name: Seq<char>| branch_names(roots, at).contains(name) <==> names_below(
                roots,
                at,
            ).contains(name) by {}
        }
        assert(step(roots, at, typed[i]) == Step::Go(root[i]));
        let here = if roots.contains(at) {
            Some((at, i))
        } else {
            best
        };
        anchored_follows_picks(roots, typed, root, i + 1, here);
    }
}

/// A misspelt path is anchored as the one that is meant: where each name is
/// picked for that of the root, among all the names with which roots go on
/// there, the anchor is that root or one below it. Path structure in what
/// follows may stand against it, as it may against a path typed right.
pub proof fn misspelt_root_is_anchored(
    roots: Set<Seq<Part>>,
    typed: Seq<Part>,
    root: Seq<Part>,
)
    requires
        roots.contains(root),
        typed.len() > 0,
        picked_along(roots, typed, root),
    ensures
        match anchor_of(roots, typed) {
            Some((anchor, k)) => under(anchor, root) && k == anchor.len(),
            None => exists|j: int|
                root.len() <= j < typed.len() && clashes(roots, root, #[trigger] typed[j]),
        },
{
    assert(root.take(0) =~= Seq::empty());
    anchored_follows_picks(roots, typed, root, 0, None);
}

} // verus!
