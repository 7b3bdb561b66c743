//! Rename detection: pairing files that left the old snapshot with files that
//! appeared in the new one, first by identical content, then by similarity.
use vstd::prelude::*;
use crate::files::{FileMap, FileType, Snapshot};
use crate::paths::{PathSet, basename, basename_of, file_paths_of, lemma_sorted_no_duplicates};
use crate::similarity::{
    Score, Threshold, byte_len, calculate_similarity, can_be_similar, jaccard_ok, jaccard_passes,
    length_ratio_ok, line_set, line_set_of, line_similarity,
    score_above, score_clears,
};
use crate::text::str_eq;

verus! {

/// The boost factor (over 5) of a pair of paths: 6 when the basenames agree.
pub open spec fn boost_of(old_path: Seq<char>, new_path: Seq<char>) -> nat {
    if basename(old_path) == basename(new_path) { 6 } else { 5 }
}

/// The pair passes the length and Jaccard filters, and its boosted share of
/// equal lines reaches the threshold.
pub open spec fn similar_enough(
    thr: Threshold,
    old_path: Seq<char>,
    old: Seq<char>,
    new_path: Seq<char>,
    new: Seq<char>,
) -> bool {
    let (e, t) = line_similarity(old, new);
    &&& length_ratio_ok(thr, byte_len(old), byte_len(new))
    &&& jaccard_ok(thr, old, new)
    &&& e * boost_of(old_path, new_path) * thr.den_spec() >= 5 * t * thr.num_spec()
}

/// A file at `new_path` may continue the file at `old_path`: the contents are
/// the same, or similar enough.
pub open spec fn rename_ok(
    thr: Threshold,
    old_path: Seq<char>,
    old: Seq<char>,
    new_path: Seq<char>,
    new: Seq<char>,
) -> bool {
    old == new || similar_enough(thr, old_path, old, new_path, new)
}

/// Content of the file at `path` in a snapshot.
pub open spec fn content_at(m: Map<Seq<char>, (FileType, Seq<char>)>, path: Seq<char>) -> Seq<char> {
    m[path].1
}

/// A pair of positions `(a, d)` into the added and deleted paths that may be
/// a rename.
pub open spec fn pair_valid(
    thr: Threshold,
    from: Map<Seq<char>, (FileType, Seq<char>)>,
    to: Map<Seq<char>, (FileType, Seq<char>)>,
    deleted: Seq<Seq<char>>,
    added: Seq<Seq<char>>,
    p: (usize, usize),
) -> bool {
    &&& p.0 < added.len()
    &&& p.1 < deleted.len()
    &&& rename_ok(thr, deleted[p.1 as int], content_at(from, deleted[p.1 as int]), added[p.0 as int],
        content_at(to, added[p.0 as int]))
}

/// The renames found: `(new path, old path)` pairs.
pub open spec fn renames_valid(
    thr: Threshold,
    from: Map<Seq<char>, (FileType, Seq<char>)>,
    to: Map<Seq<char>, (FileType, Seq<char>)>,
    deleted: Set<Seq<char>>,
    added: Set<Seq<char>>,
    r: Seq<(String, String)>,
) -> bool {
    &&& forall|k: int| 0 <= k < r.len() ==> {
        &&& added.contains(#[trigger] r[k].0@)
        &&& deleted.contains(r[k].1@)
        &&& rename_ok(thr, r[k].1@, content_at(from, r[k].1@), r[k].0@, content_at(to, r[k].0@))
    }
    &&& forall|k1: int, k2: int| 0 <= k1 < r.len() && 0 <= k2 < r.len() && k1 != k2 ==>
        #[trigger] r[k1].0@ != #[trigger] r[k2].0@ && r[k1].1@ != r[k2].1@
}

/// Content of a path known to be a file of the snapshot.
fn file_content<'a>(files: &'a FileMap, path: &str) -> (r: &'a str)
    requires
        file_paths_of(files@).contains(path@),
    ensures
        r@ == content_at(files@, path@),
{
    match files.get(path) {
        Some(e) => e.content.as_str(),
        None => "",
    }
}

fn bools(n: usize) -> (r: Vec<bool>)
    ensures
        r@.len() == n,
        forall|i: int| 0 <= i < n ==> !#[trigger] r@[i],
{
    let mut v: Vec<bool> = Vec::new();
    let mut i: usize = 0;
    while i < n
        invariant
            i <= n,
            v@.len() == i,
            forall|j: int| 0 <= j < i ==> !#[trigger] v@[j],
        decreases n - i,
    {
        v.push(false);
        i = i + 1;
    }
    v
}

/// The first position below `j` of an unused deleted file whose content is `c`.
pub open spec fn first_equal(from: Snapshot, ds: Seq<Seq<char>>, used: Seq<bool>, c: Seq<char>, j: int) -> Option<int>
    decreases j,
{
    if j <= 0 {
        None
    } else {
        match first_equal(from, ds, used, c, j - 1) {
            Some(k) => Some(k),
            None => if !used[j - 1] && content_at(from, ds[j - 1]) == c { Some(j - 1) } else { None },
        }
    }
}

/// Matching state: used deleted positions, matched added positions, and the
/// pairs `(added, deleted)` found so far.
pub type MatchState = (Seq<bool>, Seq<bool>, Seq<(int, int)>);

/// The state after the identical-content pass over the first `i` added files.
pub open spec fn exact_phase(from: Snapshot, to: Snapshot, ds: Seq<Seq<char>>, as_: Seq<Seq<char>>, i: int) -> MatchState
    decreases i,
{
    if i <= 0 {
        (Seq::new(ds.len(), |k: int| false), Seq::new(as_.len(), |k: int| false), Seq::empty())
    } else {
        let (u, m, p) = exact_phase(from, to, ds, as_, i - 1);
        match first_equal(from, ds, u, content_at(to, as_[i - 1]), ds.len() as int) {
            Some(k) => (u.update(k, true), m.update(i - 1, true), p.push((i - 1, k))),
            None => (u, m, p),
        }
    }
}

/// `(equal, total, boost)` of deleted position `j` against added position `i`.
pub open spec fn candidate_score(from: Snapshot, to: Snapshot, ds: Seq<Seq<char>>, as_: Seq<Seq<char>>, i: int, j: int) -> (nat, nat, nat) {
    let (e, t) = line_similarity(content_at(from, ds[j]), content_at(to, as_[i]));
    (e, t, boost_of(ds[j], as_[i]))
}

/// Score `a` is strictly above score `b`.
pub open spec fn score_gt(a: (nat, nat, nat), b: (nat, nat, nat)) -> bool {
    a.0 * a.2 * b.1 > b.0 * b.2 * a.1
}

/// The best unused candidate below position `j` for added position `i`: the
/// highest score that clears the threshold, the later one on a tie.
pub open spec fn best_below(
    thr: Threshold,
    from: Snapshot,
    to: Snapshot,
    ds: Seq<Seq<char>>,
    as_: Seq<Seq<char>>,
    used: Seq<bool>,
    i: int,
    j: int,
) -> Option<int>
    decreases j,
{
    if j <= 0 {
        None
    } else {
        let b = best_below(thr, from, to, ds, as_, used, i, j - 1);
        if !used[j - 1] && similar_enough(thr, ds[j - 1], content_at(from, ds[j - 1]), as_[i], content_at(to, as_[i]))
            && (b is None || !score_gt(candidate_score(from, to, ds, as_, i, b->0), candidate_score(from, to, ds, as_, i, j - 1))) {
            Some(j - 1)
        } else {
            b
        }
    }
}

/// The state after the similarity pass over the first `i` added files.
pub open spec fn similar_phase(thr: Threshold, from: Snapshot, to: Snapshot, ds: Seq<Seq<char>>, as_: Seq<Seq<char>>, i: int) -> MatchState
    decreases i,
{
    if i <= 0 {
        exact_phase(from, to, ds, as_, as_.len() as int)
    } else {
        let (u, m, p) = similar_phase(thr, from, to, ds, as_, i - 1);
        if m[i - 1] {
            (u, m, p)
        } else {
            match best_below(thr, from, to, ds, as_, u, i - 1, ds.len() as int) {
                Some(k) => (u.update(k, true), m.update(i - 1, true), p.push((i - 1, k))),
                None => (u, m, p),
            }
        }
    }
}

/// The renames found between deleted paths `ds` and added paths `as_`, both
/// in ascending order: `(new path, old path)` pairs in the order found.
pub open spec fn rename_pairs(thr: Threshold, from: Snapshot, to: Snapshot, ds: Seq<Seq<char>>, as_: Seq<Seq<char>>) -> Seq<(Seq<char>, Seq<char>)> {
    similar_phase(thr, from, to, ds, as_, as_.len() as int).2.map_values(|x: (int, int)| (as_[x.0], ds[x.1]))
}

/// The views of a list of renames.
pub open spec fn pairs_view(r: Seq<(String, String)>) -> Seq<(Seq<char>, Seq<char>)> {
    r.map_values(|x: (String, String)| (x.0@, x.1@))
}

/// The pairs of positions as integers.
pub open spec fn index_view(p: Seq<(usize, usize)>) -> Seq<(int, int)> {
    p.map_values(|x: (usize, usize)| (x.0 as int, x.1 as int))
}

/// Pairs each added file with a deleted one that it continues: first the
/// first unused deleted file with the same content, in path order; then, for
/// the added files left, the unused deleted file with the highest score that
/// clears the threshold, the later one on a tie. Each path is used once.
pub fn detect_renames(
    thr: &Threshold,
    from: &FileMap,
    to: &FileMap,
    deleted: &PathSet,
    added: &PathSet,
) -> (r: Vec<(String, String)>)
    requires
        thr.wf(),
        deleted.wf(),
        added.wf(),
        deleted@.subset_of(file_paths_of(from@)),
        added@.subset_of(file_paths_of(to@)),
    ensures
        renames_valid(*thr, from@, to@, deleted@, added@, r@),
        pairs_view(r@) == rename_pairs(*thr, from@, to@, deleted.items(), added.items()),
{
    let nd = deleted.len();
    let na = added.len();
    let ghost ds = deleted.items();
    let ghost as_ = added.items();
    let mut used = bools(nd);
    let mut matched = bools(na);
    let mut pairs: Vec<(usize, usize)> = Vec::new();
    assert(used@ =~= exact_phase(from@, to@, ds, as_, 0).0);
    assert(matched@ =~= exact_phase(from@, to@, ds, as_, 0).1);
    assert(index_view(pairs@) =~= exact_phase(from@, to@, ds, as_, 0).2);

    // Identical contents.
    let mut a: usize = 0;
    while a < na
        invariant
            thr.wf(),
            ds == deleted.items(),
            as_ == added.items(),
            nd == ds.len(),
            na == as_.len(),
            deleted@.subset_of(file_paths_of(from@)),
            added@.subset_of(file_paths_of(to@)),
            used@.len() == nd,
            matched@.len() == na,
            a <= na,
            (used@, matched@, index_view(pairs@)) == exact_phase(from@, to@, ds, as_, a as int),
            forall|k: int| 0 <= k < pairs@.len() ==> pair_valid(*thr, from@, to@, ds, as_, #[trigger] pairs@[k])
                && used@[pairs@[k].1 as int] && matched@[pairs@[k].0 as int],
            forall|k1: int, k2: int| 0 <= k1 < k2 < pairs@.len() ==>
                (#[trigger] pairs@[k1]).0 != (#[trigger] pairs@[k2]).0 && pairs@[k1].1 != pairs@[k2].1,
            forall|k: int| 0 <= k < pairs@.len() ==> (#[trigger] pairs@[k]).0 < a,
        decreases na - a,
    {
        let ap = added.at(a);
        assert(added@.contains(ap@));
        let ac = file_content(to, ap.as_str());
        let mut k: usize = nd;
        let mut d: usize = 0;
        while d < nd
            invariant
                ds == deleted.items(),
                nd == ds.len(),
                d <= nd,
                k == nd || k < d,
                ac@ == content_at(to@, as_[a as int]),
                deleted@.subset_of(file_paths_of(from@)),
                used@.len() == nd,
                k == nd ==> first_equal(from@, ds, used@, ac@, d as int) is None,
                k < nd ==> first_equal(from@, ds, used@, ac@, d as int) == Some(k as int),
            decreases nd - d,
        {
            if k == nd && !used[d] {
                let dp = deleted.at(d);
                assert(deleted@.contains(dp@));
                let dc = file_content(from, dp.as_str());
                if str_eq(dc, ac) {
                    k = d;
                }
            }
            d = d + 1;
        }
        if k < nd {
            proof {
                lemma_first_equal_found(from@, ds, used@, ac@, nd as int);
            }
            assert(matched@[a as int] == false) by {
                lemma_exact_phase_unmatched(from@, to@, ds, as_, a as int, a as int);
            }
            assert(pair_valid(*thr, from@, to@, ds, as_, (a, k)));
            pairs.push((a, k));
            used.set(k, true);
            matched.set(a, true);
            assert(index_view(pairs@) =~= exact_phase(from@, to@, ds, as_, a + 1).2);
        }
        a = a + 1;
    }

    // Similar contents.
    let ghost used1 = used@;
    let mut dsets: Vec<PathSet> = Vec::new();
    let mut d: usize = 0;
    while d < nd
        invariant
            ds == deleted.items(),
            nd == ds.len(),
            deleted@.subset_of(file_paths_of(from@)),
            used@ == used1,
            used@.len() == nd,
            d <= nd,
            dsets@.len() == d,
            forall|i: int| 0 <= i < d ==> (#[trigger] dsets@[i]).wf()
                && (!used1[i] ==> dsets@[i]@ == line_set(content_at(from@, ds[i]))),
        decreases nd - d,
    {
        if used[d] {
            dsets.push(PathSet::new());
        } else {
            let dp = deleted.at(d);
            assert(deleted@.contains(dp@));
            dsets.push(line_set_of(file_content(from, dp.as_str())));
        }
        d = d + 1;
    }

    let mut a: usize = 0;
    while a < na
        invariant
            thr.wf(),
            ds == deleted.items(),
            as_ == added.items(),
            nd == ds.len(),
            na == as_.len(),
            deleted@.subset_of(file_paths_of(from@)),
            added@.subset_of(file_paths_of(to@)),
            used@.len() == nd,
            matched@.len() == na,
            a <= na,
            (used@, matched@, index_view(pairs@)) == similar_phase(*thr, from@, to@, ds, as_, a as int),
            dsets@.len() == nd,
            forall|i: int| 0 <= i < nd ==> (#[trigger] dsets@[i]).wf()
                && (!used@[i] ==> dsets@[i]@ == line_set(content_at(from@, ds[i]))),
            forall|i: int| 0 <= i < nd ==> (!#[trigger] used@[i] ==> !used1[i]),
            forall|k: int| 0 <= k < pairs@.len() ==> pair_valid(*thr, from@, to@, ds, as_, #[trigger] pairs@[k])
                && used@[pairs@[k].1 as int] && matched@[pairs@[k].0 as int],
            forall|k1: int, k2: int| 0 <= k1 < k2 < pairs@.len() ==>
                (#[trigger] pairs@[k1]).0 != (#[trigger] pairs@[k2]).0 && pairs@[k1].1 != pairs@[k2].1,
        decreases na - a,
    {
        if !matched[a] {
            let ap = added.at(a);
            assert(added@.contains(ap@));
            let ac = file_content(to, ap.as_str());
            let alines = line_set_of(ac);
            let aname = basename_of(ap.as_str());
            let mut best: Option<(usize, Score)> = None;
            let mut d: usize = 0;
            while d < nd
                invariant
                    thr.wf(),
                    ds == deleted.items(),
                    nd == ds.len(),
                    a < na,
                    d <= nd,
                    ap@ == as_[a as int],
                    ac@ == content_at(to@, as_[a as int]),
                    aname@ == basename(ap@),
                    alines.wf(),
                    alines@ == line_set(ac@),
                    deleted@.subset_of(file_paths_of(from@)),
                    used@.len() == nd,
                    dsets@.len() == nd,
                    forall|i: int| 0 <= i < nd ==> (#[trigger] dsets@[i]).wf()
                        && (!used@[i] ==> dsets@[i]@ == line_set(content_at(from@, ds[i]))),
                    match best {
                        Some((b, s)) => {
                            &&& b < nd
                            &&& !used@[b as int]
                            &&& s.wf()
                            &&& best_below(*thr, from@, to@, ds, as_, used@, a as int, d as int) == Some(b as int)
                            &&& (s.equal as nat, s.total as nat, s.boost as nat) == candidate_score(from@, to@, ds, as_, a as int, b as int)
                            &&& rename_ok(*thr, ds[b as int], content_at(from@, ds[b as int]), as_[a as int],
                                content_at(to@, as_[a as int]))
                        },
                        None => best_below(*thr, from@, to@, ds, as_, used@, a as int, d as int) is None,
                    },
                decreases nd - d,
            {
                if !used[d] {
                    let dp = deleted.at(d);
                    assert(deleted@.contains(dp@));
                    let dc = file_content(from, dp.as_str());
                    if can_be_similar(thr, dc, ac) && jaccard_passes(thr, &alines, &dsets[d]) {
                        let (equal, total) = calculate_similarity(dc, ac);
                        let boost: u8 = if str_eq(aname, basename_of(dp.as_str())) { 6 } else { 5 };
                        let score = Score { equal, total, boost };
                        if score_clears(&score, thr) {
                            proof {
                                assert(jaccard_ok(*thr, dc@, ac@));
                                assert(similar_enough(*thr, dp@, dc@, ap@, ac@));
                            }
                            let better = match &best {
                                None => true,
                                Some((_, s)) => !score_above(s, &score),
                            };
                            if better {
                                best = Some((d, score));
                            }
                        }
                    }
                }
                d = d + 1;
            }
            if let Some((b, _)) = best {
                pairs.push((a, b));
                used.set(b, true);
                matched.set(a, true);
                assert(index_view(pairs@) =~= similar_phase(*thr, from@, to@, ds, as_, a + 1).2);
            }
        }
        a = a + 1;
    }

    proof {
        lemma_sorted_no_duplicates(ds);
        lemma_sorted_no_duplicates(as_);
    }
    let mut r: Vec<(String, String)> = Vec::new();
    let mut k: usize = 0;
    while k < pairs.len()
        invariant
            ds == deleted.items(),
            as_ == added.items(),
            ds.no_duplicates(),
            as_.no_duplicates(),
            k <= pairs@.len(),
            r@.len() == k,
            forall|j: int| 0 <= j < pairs@.len() ==> pair_valid(*thr, from@, to@, ds, as_, #[trigger] pairs@[j]),
            forall|k1: int, k2: int| 0 <= k1 < k2 < pairs@.len() ==>
                (#[trigger] pairs@[k1]).0 != (#[trigger] pairs@[k2]).0 && pairs@[k1].1 != pairs@[k2].1,
            forall|j: int| 0 <= j < k ==> (#[trigger] r@[j]).0@ == as_[pairs@[j].0 as int]
                && r@[j].1@ == ds[pairs@[j].1 as int],
        decreases pairs@.len() - k,
    {
        let (ai, di) = pairs[k];
        r.push((added.at(ai).clone(), deleted.at(di).clone()));
        k = k + 1;
    }
    proof {
        assert forall|j: int| 0 <= j < r@.len() implies added@.contains(#[trigger] r@[j].0@)
            && deleted@.contains(r@[j].1@) by {
            assert(pair_valid(*thr, from@, to@, ds, as_, pairs@[j]));
            assert(as_.contains(as_[pairs@[j].0 as int]));
            assert(ds.contains(ds[pairs@[j].1 as int]));
        }
        assert forall|k1: int, k2: int| 0 <= k1 < r@.len() && 0 <= k2 < r@.len() && k1 != k2 implies
            #[trigger] r@[k1].0@ != #[trigger] r@[k2].0@ && r@[k1].1@ != r@[k2].1@ by {
            if k1 < k2 {
                assert(pairs@[k1].0 != pairs@[k2].0);
            } else {
                assert(pairs@[k2].0 != pairs@[k1].0);
            }
            assert(pair_valid(*thr, from@, to@, ds, as_, pairs@[k1]));
            assert(pair_valid(*thr, from@, to@, ds, as_, pairs@[k2]));
        }
        assert(pairs_view(r@) =~= rename_pairs(*thr, from@, to@, ds, as_));
    }
    r
}

proof fn lemma_first_equal_found(from: Snapshot, ds: Seq<Seq<char>>, used: Seq<bool>, c: Seq<char>, j: int)
    requires
        first_equal(from, ds, used, c, j) is Some,
    ensures
        ({
            let k = first_equal(from, ds, used, c, j)->0;
            0 <= k < j && !used[k] && content_at(from, ds[k]) == c
        }),
    decreases j,
{
    if j > 0 && first_equal(from, ds, used, c, j - 1) is Some {
        lemma_first_equal_found(from, ds, used, c, j - 1);
    }
}

/// Positions at or above `i` are not matched by the first `i` steps.
proof fn lemma_exact_phase_unmatched(from: Snapshot, to: Snapshot, ds: Seq<Seq<char>>, as_: Seq<Seq<char>>, i: int, x: int)
    requires
        0 <= i <= x < as_.len(),
    ensures
        exact_phase(from, to, ds, as_, i).1.len() == as_.len(),
        exact_phase(from, to, ds, as_, i).0.len() == ds.len(),
        !exact_phase(from, to, ds, as_, i).1[x],
    decreases i,
{
    if i > 0 {
        lemma_exact_phase_unmatched(from, to, ds, as_, i - 1, x);
        let (u, m, p) = exact_phase(from, to, ds, as_, i - 1);
        match first_equal(from, ds, u, content_at(to, as_[i - 1]), ds.len() as int) {
            Some(k) => {
                lemma_first_equal_found(from, ds, u, content_at(to, as_[i - 1]), ds.len() as int);
            },
            None => {},
        }
    }
}

} // verus!
