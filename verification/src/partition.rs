//! The path partitioner: categories are processed in a fixed priority
//! order, and a shared, growing "claimed" path set keeps them disjoint. A
//! call hands in the paths matched for one category and receives back the
//! subset not already claimed, deduplicated and sorted lexicographically;
//! the claimed set absorbs every match, so a path matched by an earlier
//! category is invisible to every later one.

use vstd::prelude::*;
use crate::strutil::{lemma_lex_connected, lemma_lex_irreflexive, lemma_lex_transitive, lex_lt,
    str_eq, str_lt};

verus! {

/// The character sequences of a sequence of strings.
pub open spec fn views_of(v: Seq<String>) -> Seq<Seq<char>> {
    v.map_values(|s: String| s@)
}

/// The set of paths a sequence of strings holds.
pub open spec fn path_set(v: Seq<String>) -> Set<Seq<char>> {
    views_of(v).to_set()
}

/// Strictly increasing in lexicographic order: sorted, with no duplicates.
pub open spec fn strictly_sorted(s: Seq<Seq<char>>) -> bool {
    forall|i: int, j: int| 0 <= i < j < s.len() ==> lex_lt(s[i], s[j])
}

/// The views of a string sequence, index by index.
proof fn lemma_views(v: Seq<String>)
    ensures
        views_of(v).len() == v.len(),
        forall|i: int| 0 <= i < v.len() ==> views_of(v)[i] == (#[trigger] v[i])@,
{
    assert forall|i: int| 0 <= i < v.len() implies views_of(v)[i] == v[i]@ by {
        assert(views_of(v)[i] == v[i]@);
    }
}

/// Membership in a path set is witnessed by an index.
proof fn lemma_path_set_contains(v: Seq<String>, x: Seq<char>)
    ensures
        path_set(v).contains(x) <==> exists|i: int|
            0 <= i < v.len() && (#[trigger] v[i])@ == x,
{
    let vs = views_of(v);
    if vs.contains(x) {
        let i = choose|i: int| 0 <= i < vs.len() && vs[i] == x;
        assert(v[i]@ == x);
    }
    if exists|i: int| 0 <= i < v.len() && (#[trigger] v[i])@ == x {
        let i = choose|i: int| 0 <= i < v.len() && (#[trigger] v[i])@ == x;
        assert(vs[i] == x);
        assert(vs.contains(x));
    }
}

/// Inserts a path into a sorted, duplicate-free vector, keeping it sorted
/// and duplicate-free; inserting a path already present changes nothing.
fn sorted_insert(v: &mut Vec<String>, s: String)
    requires
        strictly_sorted(views_of(old(v)@)),
    ensures
        strictly_sorted(views_of(final(v)@)),
        path_set(final(v)@) == path_set(old(v)@).insert(s@),
{
    let ghost sv = s@;
    let mut i: usize = 0;
    while i < v.len() && str_lt(v[i].as_str(), s.as_str())
        invariant
            0 <= i <= v.len(),
            sv == s@,
            strictly_sorted(views_of(v@)),
            v@ == old(v)@,
            forall|k: int| 0 <= k < i ==> lex_lt((#[trigger] v@[k])@, sv),
        decreases v.len() - i,
    {
        i = i + 1;
    }
    if i < v.len() && str_eq(v[i].as_str(), s.as_str()) {
        proof {
            lemma_path_set_contains(v@, sv);
            assert(v@[i as int]@ == sv);
            assert(path_set(v@).contains(sv));
            assert(path_set(v@) =~= path_set(old(v)@).insert(sv));
        }
        return;
    }
    proof {
        lemma_views(v@);
        if i < v.len() {
            if !lex_lt(sv, v@[i as int]@) {
                lemma_lex_connected(v@[i as int]@, sv);
                assert(false);
            }
            assert(lex_lt(sv, v@[i as int]@));
        }
    }
    let ghost pre = v@;
    v.insert(i, s);
    proof {
        pre.insert_ensures(i as int, s);
        lemma_views(pre);
        lemma_views(v@);
        let nv = views_of(v@);
        assert(nv.len() == pre.len() + 1);
        assert(forall|k: int| 0 <= k < i ==> nv[k] == (#[trigger] pre[k])@);
        assert(forall|k: int|
            i <= k < pre.len() ==> nv[k + 1] == (#[trigger] pre[k])@);
        assert(nv[i as int] == sv);
        assert forall|p: int, q: int| 0 <= p < q < nv.len() implies lex_lt(nv[p], nv[q]) by {
            if q < i {
                assert(nv[p] == pre[p]@ && nv[q] == pre[q]@);
            } else if p > i {
                assert(nv[p] == pre[p - 1]@ && nv[q] == pre[q - 1]@);
            } else if p < i && q == i {
                assert(nv[p] == pre[p]@);
                assert(lex_lt(pre[p]@, sv));
            } else if p == i {
                assert(nv[q] == pre[q - 1]@);
                assert(lex_lt(sv, pre[i as int]@));
                if q - 1 > i {
                    assert(lex_lt(pre[i as int]@, pre[q - 1]@));
                    lemma_lex_transitive(sv, pre[i as int]@, pre[q - 1]@);
                }
            } else {
                // p < i < q
                assert(nv[p] == pre[p]@ && nv[q] == pre[q - 1]@);
                assert(lex_lt(pre[p]@, sv));
                assert(lex_lt(sv, pre[i as int]@));
                if q - 1 == i {
                    lemma_lex_transitive(pre[p]@, sv, pre[q - 1]@);
                } else {
                    lemma_lex_transitive(sv, pre[i as int]@, pre[q - 1]@);
                    lemma_lex_transitive(pre[p]@, sv, pre[q - 1]@);
                }
            }
        }
        assert forall|x: Seq<char>| path_set(v@).contains(x) implies path_set(pre).insert(
            sv,
        ).contains(x) by {
            lemma_path_set_contains(v@, x);
            let k = choose|k: int| 0 <= k < v@.len() && (#[trigger] v@[k])@ == x;
            if k < i {
                lemma_path_set_contains(pre, x);
                assert(pre[k]@ == x);
            } else if k == i {
            } else {
                lemma_path_set_contains(pre, x);
                assert(pre[k - 1]@ == x);
            }
        }
        assert forall|x: Seq<char>| path_set(pre).insert(sv).contains(x) implies path_set(
            v@,
        ).contains(x) by {
            lemma_path_set_contains(v@, x);
            if x == sv {
                assert(v@[i as int]@ == x);
            } else {
                lemma_path_set_contains(pre, x);
                let k = choose|k: int| 0 <= k < pre.len() && (#[trigger] pre[k])@ == x;
                if k < i {
                    assert(v@[k]@ == x);
                } else {
                    assert(v@[k + 1]@ == x);
                }
            }
        }
        assert(path_set(v@) =~= path_set(pre).insert(sv));
    }
}

/// Deduplicates a batch of matched paths and sorts it lexicographically.
fn sort_paths(matches: &Vec<String>) -> (r: Vec<String>)
    ensures
        strictly_sorted(views_of(r@)),
        path_set(r@) == path_set(matches@),
{
    let mut r: Vec<String> = Vec::new();
    proof {
        assert forall|x: Seq<char>| !path_set(r@).contains(x) by {
            lemma_path_set_contains(r@, x);
        }
        assert forall|x: Seq<char>| !path_set(matches@.take(0)).contains(x) by {
            lemma_path_set_contains(matches@.take(0), x);
        }
        assert(path_set(r@) =~= path_set(matches@.take(0)));
    }
    let mut i: usize = 0;
    while i < matches.len()
        invariant
            0 <= i <= matches.len(),
            strictly_sorted(views_of(r@)),
            path_set(r@) == path_set(matches@.take(i as int)),
        decreases matches.len() - i,
    {
        sorted_insert(&mut r, matches[i].clone());
        proof {
            let t1 = matches@.take(i as int + 1);
            let t0 = matches@.take(i as int);
            assert forall|x: Seq<char>| path_set(t1).contains(x) == path_set(t0).insert(
                matches@[i as int]@,
            ).contains(x) by {
                lemma_path_set_contains(t1, x);
                lemma_path_set_contains(t0, x);
                if path_set(t1).contains(x) {
                    let k = choose|k: int| 0 <= k < t1.len() && (#[trigger] t1[k])@ == x;
                    if k < i {
                        assert(t0[k]@ == x);
                    }
                }
                if path_set(t0).contains(x) {
                    let k = choose|k: int| 0 <= k < t0.len() && (#[trigger] t0[k])@ == x;
                    assert(t1[k]@ == x);
                }
                if x == matches@[i as int]@ {
                    assert(t1[i as int]@ == x);
                }
            }
            assert(path_set(t1) =~= path_set(t0).insert(matches@[i as int]@));
        }
        i = i + 1;
    }
    proof {
        assert(matches@.take(matches@.len() as int) =~= matches@);
    }
    r
}

/// The sorted merge at the partitioner's heart: keeps exactly the paths of
/// sorted `a` that do not appear in sorted `b`, in order.
fn sorted_subtract(a: &Vec<String>, b: &Vec<String>) -> (r: Vec<String>)
    requires
        strictly_sorted(views_of(a@)),
        strictly_sorted(views_of(b@)),
    ensures
        strictly_sorted(views_of(r@)),
        path_set(r@) == path_set(a@).difference(path_set(b@)),
{
    let mut r: Vec<String> = Vec::new();
    let mut j: usize = 0;
    proof {
        assert forall|x: Seq<char>| !path_set(r@).contains(x) by {
            lemma_path_set_contains(r@, x);
        }
        assert forall|x: Seq<char>| !path_set(a@.take(0)).contains(x) by {
            lemma_path_set_contains(a@.take(0), x);
        }
        assert(path_set(r@) =~= path_set(a@.take(0)).difference(path_set(b@)));
    }
    let mut i: usize = 0;
    while i < a.len()
        invariant
            0 <= i <= a.len(),
            0 <= j <= b.len(),
            strictly_sorted(views_of(a@)),
            strictly_sorted(views_of(b@)),
            strictly_sorted(views_of(r@)),
            path_set(r@) == path_set(a@.take(i as int)).difference(path_set(b@)),
            i < a.len() ==> forall|k: int| 0 <= k < j ==> lex_lt((#[trigger] b@[k])@, a@[i as int]@),
            i < a.len() ==> forall|k: int|
                0 <= k < r@.len() ==> lex_lt((#[trigger] r@[k])@, a@[i as int]@),
        decreases a.len() - i,
    {
        let ghost av = a@[i as int]@;
        while j < b.len() && str_lt(b[j].as_str(), a[i].as_str())
            invariant
                0 <= i < a.len(),
                0 <= j <= b.len(),
                av == a@[i as int]@,
                forall|k: int| 0 <= k < j ==> lex_lt((#[trigger] b@[k])@, av),
            decreases b.len() - j,
        {
            j = j + 1;
        }
        if j < b.len() && str_eq(b[j].as_str(), a[i].as_str()) {
            // `a[i]` is claimed: it appears in `b`, so it is dropped.
            proof {
                lemma_path_set_contains(b@, av);
                assert(b@[j as int]@ == av);
                assert(path_set(b@).contains(av));
                let t1 = a@.take(i as int + 1);
                let t0 = a@.take(i as int);
                assert forall|x: Seq<char>| path_set(t1).contains(x) == (path_set(t0).contains(x)
                    || x == av) by {
                    lemma_path_set_contains(t1, x);
                    lemma_path_set_contains(t0, x);
                    if path_set(t1).contains(x) {
                        let k = choose|k: int| 0 <= k < t1.len() && (#[trigger] t1[k])@ == x;
                        if k < i {
                            assert(t0[k]@ == x);
                        }
                    }
                    if path_set(t0).contains(x) {
                        let k = choose|k: int| 0 <= k < t0.len() && (#[trigger] t0[k])@ == x;
                        assert(t1[k]@ == x);
                    }
                    if x == av {
                        assert(t1[i as int]@ == x);
                    }
                }
                assert(path_set(r@) =~= path_set(t1).difference(path_set(b@)));
            }
        } else {
            // `a[i]` is unclaimed: every entry of `b` sorts strictly away
            // from it, so the merge keeps it.
            proof {
                lemma_views(a@);
                lemma_views(b@);
                if j < b.len() {
                    if !lex_lt(av, b@[j as int]@) {
                        lemma_lex_connected(b@[j as int]@, av);
                        assert(false);
                    }
                    assert(lex_lt(av, b@[j as int]@));
                }
                assert forall|x: Seq<char>| path_set(b@).contains(x) implies x != av by {
                    lemma_path_set_contains(b@, x);
                    let k = choose|k: int| 0 <= k < b@.len() && (#[trigger] b@[k])@ == x;
                    if k < j {
                        assert(lex_lt(b@[k]@, av));
                        if x == av {
                            lemma_lex_irreflexive(av);
                        }
                    } else {
                        assert(j < b.len());
                        if k > j {
                            assert(lex_lt(b@[j as int]@, b@[k]@));
                            lemma_lex_transitive(av, b@[j as int]@, b@[k]@);
                        }
                        if x == av {
                            lemma_lex_irreflexive(av);
                        }
                    }
                }
            }
            let ghost pre = r@;
            r.push(a[i].clone());
            proof {
                lemma_views(pre);
                lemma_views(r@);
                let nv = views_of(r@);
                assert(forall|k: int| 0 <= k < pre.len() ==> nv[k] == (#[trigger] pre[k])@);
                assert(nv[pre.len() as int] == av);
                assert forall|p: int, q: int| 0 <= p < q < nv.len() implies lex_lt(
                    nv[p],
                    nv[q],
                ) by {
                    if q < pre.len() {
                        assert(lex_lt(views_of(pre)[p], views_of(pre)[q]));
                        assert(views_of(pre)[p] == pre[p]@ && views_of(pre)[q] == pre[q]@);
                    } else {
                        assert(nv[q] == av);
                        assert(lex_lt(pre[p]@, av));
                    }
                }
                let t1 = a@.take(i as int + 1);
                let t0 = a@.take(i as int);
                assert forall|x: Seq<char>| path_set(t1).contains(x) == (path_set(t0).contains(x)
                    || x == av) by {
                    lemma_path_set_contains(t1, x);
                    lemma_path_set_contains(t0, x);
                    if path_set(t1).contains(x) {
                        let k = choose|k: int| 0 <= k < t1.len() && (#[trigger] t1[k])@ == x;
                        if k < i {
                            assert(t0[k]@ == x);
                        }
                    }
                    if path_set(t0).contains(x) {
                        let k = choose|k: int| 0 <= k < t0.len() && (#[trigger] t0[k])@ == x;
                        assert(t1[k]@ == x);
                    }
                    if x == av {
                        assert(t1[i as int]@ == x);
                    }
                }
                assert forall|x: Seq<char>| path_set(r@).contains(x) == (path_set(pre).contains(x)
                    || x == av) by {
                    lemma_path_set_contains(r@, x);
                    lemma_path_set_contains(pre, x);
                    if path_set(r@).contains(x) {
                        let k = choose|k: int| 0 <= k < r@.len() && (#[trigger] r@[k])@ == x;
                        if k < pre.len() {
                            assert(pre[k]@ == x);
                        }
                    }
                    if path_set(pre).contains(x) {
                        let k = choose|k: int| 0 <= k < pre.len() && (#[trigger] pre[k])@ == x;
                        assert(r@[k]@ == x);
                    }
                    if x == av {
                        assert(r@[pre.len() as int]@ == x);
                    }
                }
                assert(path_set(pre) == path_set(t0).difference(path_set(b@)));
                assert(!path_set(b@).contains(av));
                assert forall|x: Seq<char>| path_set(r@).contains(x) == (path_set(t1).contains(x)
                    && !path_set(b@).contains(x)) by {
                    assert(path_set(r@).contains(x) == (path_set(pre).contains(x) || x == av));
                    assert(path_set(t1).contains(x) == (path_set(t0).contains(x) || x == av));
                }
                assert(path_set(r@) =~= path_set(t1).difference(path_set(b@)));
            }
        }
        proof {
            lemma_views(a@);
            if i + 1 < a.len() {
                assert(lex_lt(a@[i as int]@, a@[i as int + 1]@));
                assert forall|k: int| 0 <= k < j implies lex_lt(
                    (#[trigger] b@[k])@,
                    a@[i as int + 1]@,
                ) by {
                    lemma_lex_transitive(b@[k]@, a@[i as int]@, a@[i as int + 1]@);
                }
                assert forall|k: int| 0 <= k < r@.len() implies lex_lt(
                    (#[trigger] r@[k])@,
                    a@[i as int + 1]@,
                ) by {
                    if lex_lt(r@[k]@, a@[i as int]@) {
                        lemma_lex_transitive(r@[k]@, a@[i as int]@, a@[i as int + 1]@);
                    }
                }
            }
        }
        i = i + 1;
    }
    proof {
        assert(a@.take(a@.len() as int) =~= a@);
    }
    r
}

/// The shared, growing claimed-path set, threaded through successive
/// partition calls in fixed category order. Its size is monotonically
/// non-decreasing across calls: a path, once claimed, can never be claimed
/// by a later category.
pub struct Partitioner {
    claimed: Vec<String>,
}

impl View for Partitioner {
    type V = Set<Seq<char>>;

    closed spec fn view(&self) -> Set<Seq<char>> {
        path_set(self.claimed@)
    }
}

impl Partitioner {
    /// The claimed set is kept sorted and duplicate-free.
    pub closed spec fn wf(self) -> bool {
        strictly_sorted(views_of(self.claimed@))
    }

    /// A partitioner with nothing yet claimed.
    pub fn new() -> (r: Partitioner)
        ensures
            r.wf(),
            r@ == Set::<Seq<char>>::empty(),
    {
        let r = Partitioner { claimed: Vec::new() };
        proof {
            assert forall|x: Seq<char>| !path_set(r.claimed@).contains(x) by {
                lemma_path_set_contains(r.claimed@, x);
            }
            assert(r@ =~= Set::<Seq<char>>::empty());
        }
        r
    }

    /// Hands in the paths matched for one category (in any order, possibly
    /// with duplicates) and returns the subset not already claimed,
    /// deduplicated and sorted lexicographically; every match, kept or
    /// not, is claimed afterwards.
    pub fn partition(&mut self, matches: &Vec<String>) -> (r: Vec<String>)
        requires
            old(self).wf(),
        ensures
            final(self).wf(),
            final(self)@ == old(self)@.union(path_set(matches@)),
            old(self)@.subset_of(final(self)@),
            path_set(r@) == path_set(matches@).difference(old(self)@),
            strictly_sorted(views_of(r@)),
    {
        let m = sort_paths(matches);
        let kept = sorted_subtract(&m, &self.claimed);
        let ghost c0 = self@;
        let mut i: usize = 0;
        proof {
            assert forall|x: Seq<char>| !path_set(kept@.take(0)).contains(x) by {
                lemma_path_set_contains(kept@.take(0), x);
            }
            assert(self@ =~= c0.union(path_set(kept@.take(0))));
        }
        while i < kept.len()
            invariant
                0 <= i <= kept.len(),
                self.wf(),
                self@ == c0.union(path_set(kept@.take(i as int))),
            decreases kept.len() - i,
        {
            sorted_insert(&mut self.claimed, kept[i].clone());
            proof {
                let t1 = kept@.take(i as int + 1);
                let t0 = kept@.take(i as int);
                assert forall|x: Seq<char>| path_set(t1).contains(x) == (path_set(t0).contains(x)
                    || x == kept@[i as int]@) by {
                    lemma_path_set_contains(t1, x);
                    lemma_path_set_contains(t0, x);
                    if path_set(t1).contains(x) {
                        let k = choose|k: int| 0 <= k < t1.len() && (#[trigger] t1[k])@ == x;
                        if k < i {
                            assert(t0[k]@ == x);
                        }
                    }
                    if path_set(t0).contains(x) {
                        let k = choose|k: int| 0 <= k < t0.len() && (#[trigger] t0[k])@ == x;
                        assert(t1[k]@ == x);
                    }
                    if x == kept@[i as int]@ {
                        assert(t1[i as int]@ == x);
                    }
                }
                assert(self@ =~= c0.union(path_set(t1)));
            }
            i = i + 1;
        }
        proof {
            assert(kept@.take(kept@.len() as int) =~= kept@);
            assert(self@ =~= c0.union(path_set(matches@)));
        }
        kept
    }
}

/// The claimed set after running categories `ms` in order, starting from
/// claimed set `c0`: every match of every category is claimed.
pub open spec fn spec_claimed_through(c0: Set<Seq<char>>, ms: Seq<Set<Seq<char>>>) -> Set<
    Seq<char>,
>
    decreases ms.len(),
{
    if ms.len() == 0 {
        c0
    } else {
        spec_claimed_through(c0, ms.drop_last()).union(ms.last())
    }
}

/// The paths returned for category `i` of a run: its matches, less
/// everything claimed by the categories before it.
pub open spec fn spec_kept(c0: Set<Seq<char>>, ms: Seq<Set<Seq<char>>>, i: int) -> Set<Seq<char>> {
    ms[i].difference(spec_claimed_through(c0, ms.take(i)))
}

/// What one category matches is claimed from every later point of the run.
proof fn lemma_claimed_through_grows(c0: Set<Seq<char>>, ms: Seq<Set<Seq<char>>>, i: int)
    requires
        0 <= i < ms.len(),
    ensures
        ms[i].subset_of(spec_claimed_through(c0, ms)),
        c0.subset_of(spec_claimed_through(c0, ms)),
    decreases ms.len(),
{
    if ms.len() > 0 {
        if i == ms.len() - 1 {
            if ms.len() > 1 {
                lemma_claimed_through_grows(c0, ms.drop_last(), 0);
            }
            assert(spec_claimed_through(c0, ms) == spec_claimed_through(
                c0,
                ms.drop_last(),
            ).union(ms.last()));
            if ms.len() == 1 {
                assert(spec_claimed_through(c0, ms.drop_last()) == c0);
            }
        } else {
            lemma_claimed_through_grows(c0, ms.drop_last(), i);
            assert(ms.drop_last()[i] == ms[i]);
        }
    }
}

/// Partition disjointness, first half: for any run of categories, the
/// returned path sets are pairwise disjoint.
pub proof fn lemma_partition_disjoint(
    c0: Set<Seq<char>>,
    ms: Seq<Set<Seq<char>>>,
    i: int,
    j: int,
)
    requires
        0 <= i < j < ms.len(),
    ensures
        spec_kept(c0, ms, i).intersect(spec_kept(c0, ms, j)) == Set::<Seq<char>>::empty(),
{
    let ti = ms.take(i);
    let tj = ms.take(j);
    assert(tj[i] == ms[i]);
    lemma_claimed_through_grows(c0, tj, i);
    assert(ms[i].subset_of(spec_claimed_through(c0, tj)));
    assert forall|x: Seq<char>| !(spec_kept(c0, ms, i).contains(x) && spec_kept(
        c0,
        ms,
        j,
    ).contains(x)) by {
        if spec_kept(c0, ms, i).contains(x) {
            assert(ms[i].contains(x));
            assert(spec_claimed_through(c0, tj).contains(x));
        }
    }
    assert(spec_kept(c0, ms, i).intersect(spec_kept(c0, ms, j)) =~= Set::<Seq<char>>::empty());
}

/// The union of all matches of a run.
pub open spec fn spec_all_matches(ms: Seq<Set<Seq<char>>>) -> Set<Seq<char>>
    decreases ms.len(),
{
    if ms.len() == 0 {
        Set::empty()
    } else {
        spec_all_matches(ms.drop_last()).union(ms.last())
    }
}

/// The union of all returned path sets of a run.
pub open spec fn spec_all_kept(c0: Set<Seq<char>>, ms: Seq<Set<Seq<char>>>) -> Set<Seq<char>>
    decreases ms.len(),
{
    if ms.len() == 0 {
        Set::empty()
    } else {
        spec_all_kept(c0, ms.drop_last()).union(spec_kept(c0, ms, ms.len() - 1))
    }
}

/// The claimed set of a run is the starting set plus all matches.
proof fn lemma_claimed_through_is_union(c0: Set<Seq<char>>, ms: Seq<Set<Seq<char>>>)
    ensures
        spec_claimed_through(c0, ms) == c0.union(spec_all_matches(ms)),
    decreases ms.len(),
{
    if ms.len() == 0 {
        assert(spec_claimed_through(c0, ms) =~= c0.union(spec_all_matches(ms)));
    } else {
        lemma_claimed_through_is_union(c0, ms.drop_last());
        assert(spec_claimed_through(c0, ms) =~= c0.union(spec_all_matches(ms)));
    }
}

/// Partition disjointness, second half: the union of the returned path
/// sets equals the set of all distinct paths matched by any category, less
/// what was claimed before the run began.
pub proof fn lemma_partition_union(c0: Set<Seq<char>>, ms: Seq<Set<Seq<char>>>)
    ensures
        spec_all_kept(c0, ms) == spec_all_matches(ms).difference(c0),
    decreases ms.len(),
{
    if ms.len() == 0 {
        assert(spec_all_kept(c0, ms) =~= spec_all_matches(ms).difference(c0));
    } else {
        lemma_partition_union(c0, ms.drop_last());
        assert(ms.take(ms.len() - 1) =~= ms.drop_last());
        lemma_claimed_through_is_union(c0, ms.drop_last());
        assert(spec_kept(c0, ms, ms.len() - 1) =~= ms.last().difference(
            c0.union(spec_all_matches(ms.drop_last())),
        ));
        assert(spec_all_kept(c0, ms) =~= spec_all_matches(ms).difference(c0));
    }
}

} // verus!
