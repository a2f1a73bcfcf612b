//! Correcting mistyped paths, level by level, with a preference for giving up
//! over guessing.
use vstd::prelude::*;

use crate::text::{
    chars_of, lowercase_of, is_white_space, same_text, string_of, texts, to_lowercase, white_space,
};

verus! {

/// How far a correction may be from what was typed: so many hundredths of the
/// longer name's length.
pub const LEVEL_R_MAX_PERCENT: usize = 34;

/// The most edits in one segment, however long it is.
pub const LEVEL_MAX_DIST: usize = 3;

/// The runner-up needs at least 3/2 of the champion's edits.
pub const LEVEL_MARGIN_RATIO_NUM: usize = 3;

pub const LEVEL_MARGIN_RATIO_DEN: usize = 2;

/// The runner-up needs at least this many edits more than the champion.
pub const LEVEL_MARGIN_ABS: usize = 2;

/// The most entries of a directory that are looked at.
pub const LEVEL_FANOUT_MAX: usize = 10_000;

/// The most levels below an anchor.
pub const WALK_DEPTH_MAX: usize = 16;

/// The minimum number of insertions, deletions and substitutions of single
/// characters that make one text into the other.
pub open spec fn edit_distance(a: Seq<char>, b: Seq<char>) -> nat
    decreases a.len() + b.len(),
{
    if a.len() == 0 {
        b.len()
    } else if b.len() == 0 {
        a.len()
    } else {
        let substitute = edit_distance(a.drop_last(), b.drop_last()) + if a.last() == b.last() {
            0nat
        } else {
            1nat
        };
        let delete = edit_distance(a.drop_last(), b) + 1;
        let insert = edit_distance(a, b.drop_last()) + 1;
        if substitute <= delete && substitute <= insert {
            substitute
        } else if delete <= insert {
            delete
        } else {
            insert
        }
    }
}

/// `strsim::levenshtein`: the minimum number of insertions, deletions and
/// substitutions of characters that change one string into the other.
#[verifier::external_body]
fn levenshtein(a: &str, b: &str) -> (r: usize)
    ensures
        r == edit_distance(a@, b@),
{
    strsim::levenshtein(a, b)
}

/// A text without its white space and in lower case.
pub open spec fn noise_free(s: Seq<char>) -> Seq<char>
    decreases s.len(),
{
    if s.len() == 0 {
        Seq::empty()
    } else if is_white_space(s.last()) {
        noise_free(s.drop_last())
    } else {
        noise_free(s.drop_last()) + lowercase_of(s.last())
    }
}

/// The text without its white space and in lower case.
pub fn normalize_noise(s: &str) -> (r: String)
    ensures
        r@ == noise_free(s@),
{
    let v = chars_of(s);
    let mut out: Vec<char> = Vec::new();
    let mut i: usize = 0;
    assert(v@.take(0) =~= Seq::empty());
    while i < v.len()
        invariant
            i <= v@.len(),
            v@ == s@,
            out@ == noise_free(v@.take(i as int)),
        decreases v@.len() - i,
    {
        let c: char = v[i];
        proof {
            assert(v@.take(i + 1).drop_last() =~= v@.take(i as int));
            assert(v@.take(i + 1).last() == c);
        }
        if !white_space(c) {
            let mut lower = to_lowercase(c);
            out.append(&mut lower);
        }
        i += 1;
    }
    assert(v@.take(v@.len() as int) =~= s@);
    string_of(&out)
}

/// The outcome of one level.
#[derive(Debug, PartialEq, Eq)]
pub enum LevelPick {
    /// A candidate is what was typed.
    Exact(String),
    /// A candidate is what was meant.
    Corrected(String),
    /// No candidate, or none that stands out.
    Abort,
}

/// What an outcome stands for.
#[verifier::ext_equal]
pub enum Pick {
    Exact(Seq<char>),
    Corrected(Seq<char>),
    Abort,
}

impl View for LevelPick {
    type V = Pick;

    open spec fn view(&self) -> Pick {
        match *self {
            LevelPick::Exact(name) => Pick::Exact(name@),
            LevelPick::Corrected(name) => Pick::Corrected(name@),
            LevelPick::Abort => Pick::Abort,
        }
    }
}

/// Whether two texts differ in white space and case at most.
pub open spec fn same_but_noise(a: Seq<char>, b: Seq<char>) -> bool {
    noise_free(a) == noise_free(b)
}

/// The most edits for a name of the length: a third of it, but at least one
/// and at most three.
pub open spec fn relevance_cap(len: nat) -> nat {
    let share = len * LEVEL_R_MAX_PERCENT as nat / 100;
    if share < 1 {
        1
    } else if share > LEVEL_MAX_DIST {
        LEVEL_MAX_DIST as nat
    } else {
        share
    }
}

/// Whether the candidate is close enough to what was typed.
pub open spec fn relevant(seg: Seq<char>, candidate: Seq<char>) -> bool {
    edit_distance(seg, candidate) <= relevance_cap(
        if seg.len() >= candidate.len() {
            seg.len()
        } else {
            candidate.len()
        },
    )
}

/// Whether a distance is far enough from a smaller one, both in edits and in
/// proportion.
pub open spec fn clears_margin(champion: nat, other: nat) -> bool {
    &&& other >= champion + LEVEL_MARGIN_ABS
    &&& other * LEVEL_MARGIN_RATIO_DEN >= champion * LEVEL_MARGIN_RATIO_NUM
}

/// Whether the candidate at `i` is the only one that differs from what was
/// typed in white space and case at most.
pub open spec fn only_noise_apart(seg: Seq<char>, candidates: Seq<Seq<char>>, i: int) -> bool {
    &&& 0 <= i < candidates.len()
    &&& same_but_noise(candidates[i], seg)
    &&& forall|j: int|
        0 <= j < candidates.len() && j != i ==> !same_but_noise(#[trigger] candidates[j], seg)
}

/// Whether the candidate at `i` is close enough to what was typed and every
/// other one is clearly farther off.
pub open spec fn stands_out(seg: Seq<char>, candidates: Seq<Seq<char>>, i: int) -> bool {
    &&& 0 <= i < candidates.len()
    &&& relevant(seg, candidates[i])
    &&& forall|j: int|
        0 <= j < candidates.len() && j != i ==> clears_margin(
            edit_distance(seg, candidates[i]),
            edit_distance(seg, #[trigger] candidates[j]),
        )
}

/// The outcome for a typed segment among the candidates: first what is equal,
/// next what is equal but for noise, if it is the only such, and last what
/// stands out by its edit distance.
pub open spec fn outcome(seg: Seq<char>, candidates: Seq<Seq<char>>) -> Pick {
    if candidates.contains(seg) {
        Pick::Exact(seg)
    } else if exists|i: int|
        0 <= i < candidates.len() && same_but_noise(#[trigger] candidates[i], seg) {
        if exists|i: int| only_noise_apart(seg, candidates, i) {
            Pick::Corrected(candidates[choose|i: int| only_noise_apart(seg, candidates, i)])
        } else {
            Pick::Abort
        }
    } else if exists|i: int| stands_out(seg, candidates, i) {
        Pick::Corrected(candidates[choose|i: int| stands_out(seg, candidates, i)])
    } else {
        Pick::Abort
    }
}

/// The length of the text in characters.
fn char_count(s: &str) -> (r: usize)
    ensures
        r == s@.len(),
{
    chars_of(s).len()
}

/// The most edits for a name of the length.
fn relevance_limit(len: usize) -> (r: usize)
    ensures
        r == relevance_cap(len as nat),
{
    if len >= 9 {
        LEVEL_MAX_DIST
    } else {
        let share: usize = len * LEVEL_R_MAX_PERCENT / 100;
        if share < 1 {
            1
        } else {
            share
        }
    }
}

/// Decides one level: which of the candidates is meant by the segment, if that
/// is beyond doubt.
pub fn pick(seg: &str, candidates: &[String]) -> (r: LevelPick)
    ensures
        r@ == outcome(seg@, texts(candidates@)),
{
    let ghost names = texts(candidates@);
    let mut e: usize = 0;
    while e < candidates.len()
        invariant
            e <= candidates@.len(),
            names == texts(candidates@),
            forall|j: int| 0 <= j < e ==> #[trigger] names[j] != seg@,
        decreases candidates@.len() - e,
    {
        if same_text(candidates[e].as_str(), seg) {
            assert(names[e as int] == seg@);
            return LevelPick::Exact(candidates[e].clone());
        }
        e += 1;
    }
    assert(!names.contains(seg@));
    let key = normalize_noise(seg);
    let mut hit: Option<usize> = None;
    let mut hits: usize = 0;
    let mut n: usize = 0;
    while n < candidates.len()
        invariant
            n <= candidates@.len(),
            names == texts(candidates@),
            key@ == noise_free(seg@),
            hits <= n,
            hits == 0 <==> hit is None,
            hits == 0 ==> forall|j: int| 0 <= j < n ==> !same_but_noise(#[trigger] names[j], seg@),
            hit matches Some(h) ==> h < n && same_but_noise(names[h as int], seg@),
            hits == 1 ==> forall|j: int|
                0 <= j < n && j != hit->0 ==> !same_but_noise(#[trigger] names[j], seg@),
            hits >= 2 ==> exists|a: int, b: int|
                0 <= a < b < n && same_but_noise(#[trigger] names[a], seg@) && same_but_noise(
                    #[trigger] names[b],
                    seg@,
                ),
        decreases candidates@.len() - n,
    {
        let candidate_key = normalize_noise(candidates[n].as_str());
        if same_text(candidate_key.as_str(), key.as_str()) {
            assert(same_but_noise(names[n as int], seg@));
            hits += 1;
            hit = Some(n);
        } else {
            assert(!same_but_noise(names[n as int], seg@));
        }
        n += 1;
    }
    if hits == 1 {
        let h: usize = match hit {
            Some(h) => h,
            None => 0,
        };
        assert(only_noise_apart(seg@, names, h as int));
        return LevelPick::Corrected(candidates[h].clone());
    }
    if hits >= 2 {
        assert(forall|i: int| !only_noise_apart(seg@, names, i));
        return LevelPick::Abort;
    }
    if candidates.len() == 0 {
        return LevelPick::Abort;
    }
    let mut best: usize = 0;
    let mut best_distance: usize = levenshtein(seg, candidates[0].as_str());
    let mut second: Option<usize> = None;
    let mut k: usize = 1;
    while k < candidates.len()
        invariant
            1 <= k <= candidates@.len(),
            names == texts(candidates@),
            best < k,
            best_distance == edit_distance(seg@, names[best as int]),
            k >= 2 <==> second is Some,
            second matches Some(s) ==> s >= best_distance,
            second matches Some(s) ==> exists|j: int|
                0 <= j < k && j != best && s == edit_distance(seg@, #[trigger] names[j]),
            forall|j: int|
                0 <= j < k && j != best ==> second is Some && second->0 <= edit_distance(
                    seg@,
                    #[trigger] names[j],
                ),
        decreases candidates@.len() - k,
    {
        let d: usize = levenshtein(seg, candidates[k].as_str());
        assert(d == edit_distance(seg@, names[k as int]));
        if d < best_distance {
            assert(best_distance == edit_distance(seg@, names[best as int]));
            second = Some(best_distance);
            best_distance = d;
            best = k;
        } else {
            let closer: bool = match second {
                Some(s) => d < s,
                None => true,
            };
            if closer {
                second = Some(d);
            }
        }
        k += 1;
    }
    let seg_len: usize = char_count(seg);
    let best_len: usize = char_count(candidates[best].as_str());
    let len_ref: usize = if seg_len >= best_len {
        seg_len
    } else {
        best_len
    };
    let ghost distance = |j: int| edit_distance(seg@, names[j]);
    if best_distance > relevance_limit(len_ref) {
        assert forall|i: int| !stands_out(seg@, names, i) by {
            if stands_out(seg@, names, i) && i != best {
                assert(distance(best as int) >= distance(i) + LEVEL_MARGIN_ABS);
                assert(distance(best as int) <= distance(i));
            }
        }
        return LevelPick::Abort;
    }
    if let Some(s) = second {
        if s - best_distance < LEVEL_MARGIN_ABS || s < (best_distance * LEVEL_MARGIN_RATIO_NUM
            + LEVEL_MARGIN_RATIO_DEN - 1) / LEVEL_MARGIN_RATIO_DEN {
            assert forall|i: int| !stands_out(seg@, names, i) by {
                if stands_out(seg@, names, i) {
                    if i != best {
                        assert(clears_margin(distance(i), edit_distance(seg@, names[best as int])));
                        assert(distance(best as int) <= distance(i));
                    } else {
                        let j = choose|j: int|
                            0 <= j < k && j != best && s == edit_distance(
                                seg@,
                                #[trigger] names[j],
                            );
                        assert(clears_margin(distance(i), edit_distance(seg@, names[j])));
                    }
                }
            }
            return LevelPick::Abort;
        }
    }
    proof {
        assert(stands_out(seg@, names, best as int));
        let i = choose|i: int| stands_out(seg@, names, i);
        if i != best {
            assert(clears_margin(distance(i), edit_distance(seg@, names[best as int])));
            assert(clears_margin(distance(best as int), edit_distance(seg@, names[i])));
        }
    }
    LevelPick::Corrected(candidates[best].clone())
}

/// Whether the name is the only one of the set that differs from what was
/// typed in white space and case at most.
pub open spec fn only_noise_apart_in(seg: Seq<char>, names: Set<Seq<char>>, name: Seq<char>) -> bool {
    &&& names.contains(name)
    &&& same_but_noise(name, seg)
    &&& forall|other: Seq<char>| #[trigger]
        names.contains(other) && other != name ==> !same_but_noise(other, seg)
}

/// Whether the name is close enough to what was typed and every other one of
/// the set is clearly farther off.
pub open spec fn stands_out_in(seg: Seq<char>, names: Set<Seq<char>>, name: Seq<char>) -> bool {
    &&& names.contains(name)
    &&& relevant(seg, name)
    &&& forall|other: Seq<char>| #[trigger]
        names.contains(other) && other != name ==> clears_margin(
            edit_distance(seg, name),
            edit_distance(seg, other),
        )
}

/// The outcome for a typed segment among a set of names.
pub open spec fn outcome_in(seg: Seq<char>, names: Set<Seq<char>>) -> Pick {
    if names.contains(seg) {
        Pick::Exact(seg)
    } else if exists|name: Seq<char>| #[trigger] names.contains(name) && same_but_noise(name, seg) {
        if exists|name: Seq<char>| only_noise_apart_in(seg, names, name) {
            Pick::Corrected(choose|name: Seq<char>| only_noise_apart_in(seg, names, name))
        } else {
            Pick::Abort
        }
    } else if exists|name: Seq<char>| stands_out_in(seg, names, name) {
        Pick::Corrected(choose|name: Seq<char>| stands_out_in(seg, names, name))
    } else {
        Pick::Abort
    }
}

/// Among distinct candidates, the outcome depends on the set of them alone.
pub proof fn outcome_by_set(seg: Seq<char>, candidates: Seq<Seq<char>>)
    requires
        candidates.no_duplicates(),
    ensures
        outcome(seg, candidates) == outcome_in(seg, candidates.to_set()),
{
    let names = candidates.to_set();
    assert forall|name: Seq<char>| #[trigger] names.contains(name) <==> exists|i: int|
        0 <= i < candidates.len() && candidates[i] == name by {}
    assert forall|i: int| 0 <= i < candidates.len() implies names.contains(
        #[trigger] candidates[i],
    ) by {}
    if !candidates.contains(seg) {
        if exists|i: int|
            0 <= i < candidates.len() && same_but_noise(#[trigger] candidates[i], seg) {
            let i = choose|i: int|
                0 <= i < candidates.len() && same_but_noise(#[trigger] candidates[i], seg);
            assert(names.contains(candidates[i]) && same_but_noise(candidates[i], seg));
            if exists|i: int| only_noise_apart(seg, candidates, i) {
                let i = choose|i: int| only_noise_apart(seg, candidates, i);
                assert(only_noise_apart_in(seg, names, candidates[i]));
                let name = choose|name: Seq<char>| only_noise_apart_in(seg, names, name);
                assert(names.contains(candidates[i]));
                assert(name == candidates[i]);
            } else if exists|name: Seq<char>| only_noise_apart_in(seg, names, name) {
                let name = choose|name: Seq<char>| only_noise_apart_in(seg, names, name);
                let k = choose|k: int| 0 <= k < candidates.len() && candidates[k] == name;
                assert(only_noise_apart(seg, candidates, k));
            }
        } else {
            assert forall|name: Seq<char>| #[trigger]
                names.contains(name) implies !same_but_noise(name, seg) by {
                let k = choose|k: int| 0 <= k < candidates.len() && candidates[k] == name;
                assert(!same_but_noise(candidates[k], seg));
            }
            if exists|i: int| stands_out(seg, candidates, i) {
                let i = choose|i: int| stands_out(seg, candidates, i);
                assert(stands_out_in(seg, names, candidates[i]));
                let name = choose|name: Seq<char>| stands_out_in(seg, names, name);
                assert(names.contains(candidates[i]));
                if name != candidates[i] {
                    assert(names.contains(name));
                    assert(clears_margin(
                        edit_distance(seg, name),
                        edit_distance(seg, candidates[i]),
                    ));
                    assert(clears_margin(
                        edit_distance(seg, candidates[i]),
                        edit_distance(seg, name),
                    ));
                }
            } else if exists|name: Seq<char>| stands_out_in(seg, names, name) {
                let name = choose|name: Seq<char>| stands_out_in(seg, names, name);
                let k = choose|k: int| 0 <= k < candidates.len() && candidates[k] == name;
                assert(stands_out(seg, candidates, k));
            }
        }
    }
}

/// Where two lists hold the same texts, each as often, a text of the one has
/// its place in the other, and what is beside it there is beside it here.
proof fn counterpart(a: Seq<Seq<char>>, b: Seq<Seq<char>>, i: int) -> (k: int)
    requires
        a.to_multiset() == b.to_multiset(),
        0 <= i < a.len(),
    ensures
        0 <= k < b.len(),
        b[k] == a[i],
        forall|j: int|
            0 <= j < b.len() && j != k ==> exists|l: int|
                0 <= l < a.len() && l != i && a[l] == #[trigger] b[j],
{
    assert(a.contains(a[i]));
    same_contents(a, b);
    assert(b.contains(a[i]));
    let k = choose|k: int| 0 <= k < b.len() && b[k] == a[i];
    let others_a = a.remove(i);
    let others_b = b.remove(k);
    vstd::seq_lib::to_multiset_remove(a, i);
    vstd::seq_lib::to_multiset_remove(b, k);
    same_contents(others_b, others_a);
    assert forall|j: int| 0 <= j < b.len() && j != k implies exists|l: int|
        0 <= l < a.len() && l != i && a[l] == #[trigger] b[j] by {
        let m = if j < k {
            j
        } else {
            j - 1
        };
        assert(others_b[m] == b[j]);
        assert(others_b.contains(b[j]));
        assert(others_a.contains(b[j]));
        let n = choose|n: int| 0 <= n < others_a.len() && others_a[n] == b[j];
        let l = if n < i {
            n
        } else {
            n + 1
        };
        assert(a[l] == b[j]);
    }
    k
}

proof fn same_contents(a: Seq<Seq<char>>, b: Seq<Seq<char>>)
    requires
        a.to_multiset() == b.to_multiset(),
    ensures
        forall|name: Seq<char>| a.contains(name) <==> #[trigger] b.contains(name),
{
    assert forall|name: Seq<char>| a.contains(name) <==> #[trigger] b.contains(name) by {
        vstd::seq_lib::to_multiset_contains(a, name);
        vstd::seq_lib::to_multiset_contains(b, name);
    }
}

/// What one list settles on, another with the same texts settles on too.
proof fn settled_alike(seg: Seq<char>, a: Seq<Seq<char>>, b: Seq<Seq<char>>)
    requires
        a.to_multiset() == b.to_multiset(),
    ensures
        forall|i: int| #[trigger]
            only_noise_apart(seg, a, i) ==> exists|k: int|
                only_noise_apart(seg, b, k) && b[k] == a[i],
        forall|i: int| #[trigger]
            stands_out(seg, a, i) ==> exists|k: int| stands_out(seg, b, k) && b[k] == a[i],
{
    assert forall|i: int| #[trigger] only_noise_apart(seg, a, i) implies exists|k: int|
        only_noise_apart(seg, b, k) && b[k] == a[i] by {
        let k = counterpart(a, b, i);
        assert(only_noise_apart(seg, b, k));
    }
    assert forall|i: int| #[trigger] stands_out(seg, a, i) implies exists|k: int|
        stands_out(seg, b, k) && b[k] == a[i] by {
        let k = counterpart(a, b, i);
        assert(stands_out(seg, b, k));
    }
}

/// At most one candidate is settled on.
proof fn settled_once(seg: Seq<char>, candidates: Seq<Seq<char>>)
    ensures
        forall|i: int, k: int| #[trigger]
            only_noise_apart(seg, candidates, i) && #[trigger] only_noise_apart(seg, candidates, k)
                ==> i == k,
        forall|i: int, k: int| #[trigger]
            stands_out(seg, candidates, i) && #[trigger] stands_out(seg, candidates, k) ==> i == k,
{
    assert forall|i: int, k: int| #[trigger]
        stands_out(seg, candidates, i) && #[trigger] stands_out(seg, candidates, k) implies i
        == k by {
        if i != k {
            let d = edit_distance(seg, candidates[i]);
            assert(clears_margin(d, edit_distance(seg, candidates[k])));
            assert(clears_margin(edit_distance(seg, candidates[k]), d));
        }
    }
}

/// The order in which the candidates are listed makes no difference, however
/// often each of them is listed.
pub proof fn pick_ignores_order(seg: Seq<char>, a: Seq<Seq<char>>, b: Seq<Seq<char>>)
    requires
        a.to_multiset() == b.to_multiset(),
    ensures
        outcome(seg, a) == outcome(seg, b),
{
    same_contents(a, b);
    assert(a.contains(seg) <==> b.contains(seg));
    settled_alike(seg, a, b);
    settled_alike(seg, b, a);
    settled_once(seg, a);
    settled_once(seg, b);
    assert forall|i: int| 0 <= i < a.len() && same_but_noise(#[trigger] a[i], seg) implies exists|
        k: int,
    | 0 <= k < b.len() && same_but_noise(#[trigger] b[k], seg) by {
        let k = counterpart(a, b, i);
        assert(same_but_noise(b[k], seg));
    }
    assert forall|i: int| 0 <= i < b.len() && same_but_noise(#[trigger] b[i], seg) implies exists|
        k: int,
    | 0 <= k < a.len() && same_but_noise(#[trigger] a[k], seg) by {
        let k = counterpart(b, a, i);
        assert(same_but_noise(a[k], seg));
    }
}

/// Nothing is invented: what is picked is one of the candidates, and it is
/// called exact just where it is what was typed.
pub proof fn pick_is_a_candidate(seg: Seq<char>, candidates: Seq<Seq<char>>)
    ensures
        outcome(seg, candidates) matches Pick::Exact(name) ==> name == seg && candidates.contains(
            name,
        ),
        outcome(seg, candidates) matches Pick::Corrected(name) ==> name != seg
            && candidates.contains(name),
        candidates.contains(seg) ==> outcome(seg, candidates) is Exact,
{
}

/// A correction by edit distance is never more than three edits away, and
/// every other candidate is at least two edits farther off.
pub proof fn correction_is_close(seg: Seq<char>, candidates: Seq<Seq<char>>, i: int)
    requires
        stands_out(seg, candidates, i),
    ensures
        edit_distance(seg, candidates[i]) <= LEVEL_MAX_DIST,
        forall|j: int|
            0 <= j < candidates.len() && j != i ==> edit_distance(seg, #[trigger] candidates[j])
                >= edit_distance(seg, candidates[i]) + LEVEL_MARGIN_ABS,
{
}

/// The most edits: at least one, never more than three, never fewer for a
/// longer name, and three from nine characters on. Below that it is the whole
/// part of 34 hundredths of the length.
pub proof fn cap_grows_to_three(a: nat, b: nat)
    ensures
        1 <= relevance_cap(a) <= 3,
        a <= b ==> relevance_cap(a) <= relevance_cap(b),
        a >= 9 ==> relevance_cap(a) == 3,
        6 <= a < 9 ==> relevance_cap(a) == 2,
        a < 6 ==> relevance_cap(a) == 1,
{
}

/// What is typed right is taken as it is, whatever else is there.
pub proof fn what_is_there_is_exact(seg: Seq<char>, candidates: Seq<Seq<char>>, i: int)
    requires
        0 <= i < candidates.len(),
        candidates[i] == seg,
    ensures
        outcome(seg, candidates) == Pick::Exact(seg),
{
    assert(candidates.contains(seg));
}

/// A single candidate that differs in white space and case alone is meant,
/// however close the others come; two of them are one too many.
pub proof fn noise_alone_is_corrected(
    seg: Seq<char>,
    candidates: Seq<Seq<char>>,
    i: int,
    j: int,
)
    requires
        forall|k: int| 0 <= k < candidates.len() ==> (#[trigger] candidates[k]) != seg,
        0 <= i < candidates.len(),
        noise_free(candidates[i]) == noise_free(seg),
    ensures
        (forall|k: int|
            0 <= k < candidates.len() && k != i ==> noise_free(#[trigger] candidates[k])
                != noise_free(seg)) ==> outcome(seg, candidates) == Pick::Corrected(candidates[i]),
        0 <= j < candidates.len() && j != i && noise_free(candidates[j]) == noise_free(seg)
            ==> outcome(seg, candidates) is Abort,
{
    assert(same_but_noise(candidates[i], seg));
    if forall|k: int|
        0 <= k < candidates.len() && k != i ==> noise_free(#[trigger] candidates[k]) != noise_free(
            seg,
        ) {
        assert forall|k: int| 0 <= k < candidates.len() && k != i implies !same_but_noise(
            #[trigger] candidates[k],
            seg,
        ) by {}
        assert(only_noise_apart(seg, candidates, i));
        settled_once(seg, candidates);
    }
    if 0 <= j < candidates.len() && j != i && noise_free(candidates[j]) == noise_free(seg) {
        assert forall|k: int| !only_noise_apart(seg, candidates, k) by {
            if only_noise_apart(seg, candidates, k) {
                if k != i {
                    assert(!same_but_noise(candidates[i], seg));
                } else {
                    assert(!same_but_noise(candidates[j], seg));
                }
            }
        }
    }
}

/// A misspelt name is corrected to the one candidate within its limit of edits
/// that every other candidate is clearly farther off than: by two edits at
/// least, and half as many again. The limit is three edits for names of nine
/// characters or more, two from six on, and one below.
pub proof fn close_name_is_corrected(seg: Seq<char>, candidates: Seq<Seq<char>>, i: int)
    requires
        forall|k: int|
            0 <= k < candidates.len() ==> (#[trigger] candidates[k]) != seg && noise_free(
                candidates[k],
            ) != noise_free(seg),
        0 <= i < candidates.len(),
        ({
            let d = edit_distance(seg, candidates[i]);
            ||| d <= 1
            ||| d == 2 && (seg.len() >= 6 || candidates[i].len() >= 6)
            ||| d == 3 && (seg.len() >= 9 || candidates[i].len() >= 9)
        }),
        forall|j: int|
            0 <= j < candidates.len() && j != i ==> {
                &&& edit_distance(seg, #[trigger] candidates[j]) >= edit_distance(
                    seg,
                    candidates[i],
                ) + 2
                &&& 2 * edit_distance(seg, candidates[j]) >= 3 * edit_distance(seg, candidates[i])
            },
    ensures
        outcome(seg, candidates) == Pick::Corrected(candidates[i]),
{
    assert(!candidates.contains(seg));
    assert forall|k: int| 0 <= k < candidates.len() implies !same_but_noise(
        #[trigger] candidates[k],
        seg,
    ) by {}
    assert(stands_out(seg, candidates, i));
    settled_once(seg, candidates);
}

/// A single edit is always close enough, whatever the length of the name, where
/// every other candidate is three edits away or more.
pub proof fn one_edit_is_corrected(seg: Seq<char>, candidates: Seq<Seq<char>>, i: int)
    requires
        forall|k: int|
            0 <= k < candidates.len() ==> (#[trigger] candidates[k]) != seg && noise_free(
                candidates[k],
            ) != noise_free(seg),
        0 <= i < candidates.len(),
        edit_distance(seg, candidates[i]) == 1,
        forall|j: int|
            0 <= j < candidates.len() && j != i ==> edit_distance(seg, #[trigger] candidates[j])
                >= 3,
    ensures
        outcome(seg, candidates) == Pick::Corrected(candidates[i]),
{
    close_name_is_corrected(seg, candidates, i);
}

/// Nothing is guessed: where no candidate is typed or meant but for noise, and
/// each is beyond its limit of edits or has another beside it that is not
/// clearly farther off, there is no outcome.
pub proof fn doubtful_name_is_refused(seg: Seq<char>, candidates: Seq<Seq<char>>)
    requires
        forall|k: int|
            0 <= k < candidates.len() ==> (#[trigger] candidates[k]) != seg && noise_free(
                candidates[k],
            ) != noise_free(seg),
        forall|i: int|
            0 <= i < candidates.len() ==> {
                let d = edit_distance(seg, #[trigger] candidates[i]);
                ||| d > 3
                ||| d == 3 && seg.len() < 9 && candidates[i].len() < 9
                ||| d == 2 && seg.len() < 6 && candidates[i].len() < 6
                ||| exists|j: int|
                    0 <= j < candidates.len() && j != i && {
                        ||| edit_distance(seg, #[trigger] candidates[j]) < d + 2
                        ||| 2 * edit_distance(seg, candidates[j]) < 3 * d
                    }
            },
    ensures
        outcome(seg, candidates) is Abort,
{
    assert(!candidates.contains(seg));
    assert forall|k: int| 0 <= k < candidates.len() implies !same_but_noise(
        #[trigger] candidates[k],
        seg,
    ) by {}
    assert forall|i: int| !stands_out(seg, candidates, i) by {
        if stands_out(seg, candidates, i) {
            let d = edit_distance(seg, candidates[i]);
            cap_grows_to_three(
                if seg.len() >= candidates[i].len() {
                    seg.len()
                } else {
                    candidates[i].len()
                },
                0,
            );
            let j = choose|j: int|
                0 <= j < candidates.len() && j != i && {
                    ||| edit_distance(seg, #[trigger] candidates[j]) < d + 2
                    ||| 2 * edit_distance(seg, candidates[j]) < 3 * d
                };
            assert(clears_margin(d, edit_distance(seg, candidates[j])));
        }
    }
}

/// Noise is taken out character by character: white space goes, and every other
/// character stands in lower case.
pub proof fn noise_is_taken_out_by_character(a: Seq<char>, b: Seq<char>, c: char)
    ensures
        noise_free(a + b) == noise_free(a) + noise_free(b),
        noise_free(seq![c]) == (if is_white_space(c) {
            Seq::empty()
        } else {
            lowercase_of(c)
        }),
    decreases b.len(),
{
    let one = seq![c];
    assert(one.drop_last() =~= Seq::empty());
    assert(noise_free(one.drop_last()) =~= Seq::empty());
    assert(Seq::<char>::empty() + lowercase_of(c) =~= lowercase_of(c));
    if b.len() == 0 {
        assert(a + b =~= a);
        assert(noise_free(a) + noise_free(b) =~= noise_free(a));
    } else {
        noise_is_taken_out_by_character(a, b.drop_last(), c);
        assert((a + b).drop_last() =~= a + b.drop_last());
        assert((a + b).last() == b.last());
        assert(noise_free(a) + (noise_free(b.drop_last()) + lowercase_of(b.last())) =~= noise_free(
            a,
        ) + noise_free(b.drop_last()) + lowercase_of(b.last()));
    }
}

} // verus!
