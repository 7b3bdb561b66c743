//! The similarity threshold and the three filters that rename detection
//! applies to a candidate pair: length ratio, line-set Jaccard index and the
//! share of equal lines.
use vstd::prelude::*;
use vstd::string::StringSliceAdditionalSpecFns;
use crate::differ::{ChangeTag, LineChange, changes_view, count_tag, diff_texts, text_diff};
use crate::paths::{PathSet, lemma_sorted_no_duplicates};
use crate::text::{split_lines, split_by_char, str_eq, views_of};

verus! {

/// A similarity threshold `num / den`, within `[0, 1]`.
pub struct Threshold {
    num: u32,
    den: u32,
}

impl Threshold {
    pub closed spec fn num_spec(&self) -> nat {
        self.num as nat
    }

    pub closed spec fn den_spec(&self) -> nat {
        self.den as nat
    }

    pub open spec fn wf(&self) -> bool {
        0 < self.den_spec() && self.num_spec() <= self.den_spec() && self.den_spec() <= u32::MAX
    }

    /// The threshold `num / den`, clamped to `[0, 1]`.
    pub fn new(num: i64, den: u32) -> (r: Threshold)
        requires
            den > 0,
        ensures
            r.wf(),
            r.den_spec() == den,
            r.num_spec() == if num < 0 { 0 } else if num > den { den as int } else { num as int },
    {
        let n: u32 = if num < 0 {
            0
        } else if num > den as i64 {
            den
        } else {
            num as u32
        };
        Threshold { num: n, den }
    }

    pub fn num(&self) -> (r: u32)
        ensures
            r == self.num_spec(),
    {
        self.num
    }

    pub fn den(&self) -> (r: u32)
        ensures
            r == self.den_spec(),
    {
        self.den
    }
}

/// Byte length of a text in UTF-8.
pub open spec fn byte_len(s: Seq<char>) -> nat {
    (vstd::utf8::encode_utf8(s).len() as usize) as nat
}

/// The length ratio `f / max(1, t)` lies within `[thr, 1 / thr]`.
pub open spec fn length_ratio_ok(thr: Threshold, f: nat, t: nat) -> bool {
    let tt = if t == 0 { 1nat } else { t };
    thr.num_spec() * tt <= thr.den_spec() * f && f * thr.num_spec() <= thr.den_spec() * tt
}

/// Whether the byte lengths of two texts allow them to be similar.
pub fn can_be_similar(thr: &Threshold, from: &str, to: &str) -> (r: bool)
    requires
        thr.wf(),
    ensures
        r == length_ratio_ok(*thr, byte_len(from@), byte_len(to@)),
{
    let f = from.len() as u128;
    let t0 = to.len() as u128;
    let t: u128 = if t0 == 0 { 1 } else { t0 };
    let p = thr.num() as u128;
    let q = thr.den() as u128;
    assert(p * t <= u32::MAX * t) by (nonlinear_arith) requires p <= u32::MAX, t <= u64::MAX;
    assert(q * f <= u32::MAX * f) by (nonlinear_arith) requires q <= u32::MAX, f <= u64::MAX;
    assert(f * p <= f * u32::MAX) by (nonlinear_arith) requires p <= u32::MAX, f <= u64::MAX;
    assert(q * t <= u32::MAX * t) by (nonlinear_arith) requires q <= u32::MAX, t <= u64::MAX;
    p * t <= q * f && f * p <= q * t
}

/// The distinct lines of a text.
pub open spec fn line_set(s: Seq<char>) -> Set<Seq<char>> {
    split_lines(s).to_set()
}

/// The distinct lines of a text, as a path set.
pub fn line_set_of(content: &str) -> (r: PathSet)
    ensures
        r.wf(),
        r@ == line_set(content@),
{
    let lines = split_by_char(content, '\n');
    let mut set = PathSet::new();
    let mut i: usize = 0;
    while i < lines.len()
        invariant
            i <= lines@.len(),
            set.wf(),
            set@ == views_of(lines@).subrange(0, i as int).to_set(),
        decreases lines@.len() - i,
    {
        set.insert(lines[i].clone());
        i = i + 1;
        assert(views_of(lines@).subrange(0, i as int) =~= views_of(lines@).subrange(0, i - 1).push(lines@[i - 1]@));
        proof {
            views_of(lines@).subrange(0, i - 1).lemma_push_to_set_commute(lines@[i - 1]@);
        }
        assert(set@ =~= views_of(lines@).subrange(0, i as int).to_set());
    }
    assert(views_of(lines@).subrange(0, i as int) =~= views_of(lines@));
    set
}

/// Sizes of the intersection and of the union of two line sets.
pub fn jaccard_counts(a: &PathSet, b: &PathSet) -> (r: (u128, u128))
    requires
        a.wf(),
        b.wf(),
    ensures
        r.0 == a@.intersect(b@).len(),
        r.1 == a@.union(b@).len(),
        r.0 <= r.1 <= 2 * usize::MAX,
{
    broadcast use vstd::set::group_set_axioms, vstd::seq_lib::seq_to_set_is_finite;
    let ghost s = a.items();
    let mut inter: u128 = 0;
    let mut i: usize = 0;
    proof {
        lemma_sorted_no_duplicates(s);
        assert(s.subrange(0, 0).to_set().intersect(b@) =~= Set::<Seq<char>>::empty());
    }
    while i < a.len()
        invariant
            s == a.items(),
            s.no_duplicates(),
            b.wf(),
            i <= s.len(),
            inter == s.subrange(0, i as int).to_set().intersect(b@).len(),
            inter <= i,
        decreases s.len() - i,
    {
        let x = a.at(i);
        let ghost prev = s.subrange(0, i as int).to_set();
        assert(s.subrange(0, i + 1).to_set() =~= prev.insert(x@)) by {
            assert(s.subrange(0, i + 1) =~= s.subrange(0, i as int).push(x@));
            s.subrange(0, i as int).lemma_push_to_set_commute(x@);
        }
        assert(!prev.contains(x@)) by {
            if prev.contains(x@) {
                let k = choose|k: int| 0 <= k < i && s.subrange(0, i as int)[k] == x@;
                assert(s[k] == s[i as int]);
            }
        }
        if b.contains(x.as_str()) {
            assert(prev.insert(x@).intersect(b@) =~= prev.intersect(b@).insert(x@));
            inter = inter + 1;
        } else {
            assert(prev.insert(x@).intersect(b@) =~= prev.intersect(b@));
        }
        i = i + 1;
    }
    proof {
        assert(s.subrange(0, i as int) =~= s);
        s.unique_seq_to_set();
        lemma_sorted_no_duplicates(b.items());
        b.items().unique_seq_to_set();
        vstd::set_lib::lemma_set_intersect_union_lens(a@, b@);
        vstd::set_lib::lemma_len_intersect(a@, b@);
        assert(a@.union(b@) == a@ + b@);
        vstd::set_lib::lemma_len_subset(a@.intersect(b@), b@);
    }
    let union = a.len() as u128 + b.len() as u128 - inter;
    (inter, union)
}

/// The line sets of two texts are close enough: Jaccard index at least
/// `0.7 * thr`, i.e. `10 * den * |A ∩ B| >= 7 * num * |A ∪ B|`.
pub open spec fn jaccard_ok(thr: Threshold, from: Seq<char>, to: Seq<char>) -> bool {
    10 * thr.den_spec() * line_set(to).intersect(line_set(from)).len()
        >= 7 * thr.num_spec() * line_set(to).union(line_set(from)).len()
}

/// The Jaccard filter on two line sets (`added` for the new text).
pub fn jaccard_passes(thr: &Threshold, added: &PathSet, deleted: &PathSet) -> (r: bool)
    requires
        thr.wf(),
        added.wf(),
        deleted.wf(),
    ensures
        r == (10 * thr.den_spec() * added@.intersect(deleted@).len()
            >= 7 * thr.num_spec() * added@.union(deleted@).len()),
{
    let (i, u) = jaccard_counts(added, deleted);
    let q = thr.den() as u128;
    let p = thr.num() as u128;
    assert(10 * q * i <= 10 * u32::MAX * (2 * usize::MAX)) by (nonlinear_arith)
        requires q <= u32::MAX, i <= 2 * usize::MAX;
    assert(7 * p * u <= 7 * u32::MAX * (2 * usize::MAX)) by (nonlinear_arith)
        requires p <= u32::MAX, u <= 2 * usize::MAX;
    10 * q * i >= 7 * p * u
}

/// The share of equal lines between two texts, as `(equal, total)`: `(1, 1)`
/// for identical texts, `(0, 1)` where either is empty.
pub open spec fn line_similarity(from: Seq<char>, to: Seq<char>) -> (nat, nat) {
    if from == to {
        (1, 1)
    } else if from.len() == 0 || to.len() == 0 {
        (0, 1)
    } else {
        let cs = text_diff(from, to);
        (count_tag(cs, ChangeTag::Equal), if cs.len() == 0 { 1 } else { cs.len() })
    }
}

proof fn lemma_count_tag_le(cs: Seq<(ChangeTag, Seq<char>)>, tag: ChangeTag)
    ensures
        count_tag(cs, tag) <= cs.len(),
    decreases cs.len(),
{
    if cs.len() > 0 {
        lemma_count_tag_le(cs.drop_last(), tag);
    }
}

/// Number of equal lines of a change list.
fn count_equal(changes: &Vec<LineChange>) -> (r: usize)
    ensures
        r == count_tag(changes_view(changes@), ChangeTag::Equal),
{
    let mut n: usize = 0;
    let mut i: usize = 0;
    while i < changes.len()
        invariant
            i <= changes@.len(),
            n == count_tag(changes_view(changes@.subrange(0, i as int)), ChangeTag::Equal),
            n <= i,
        decreases changes@.len() - i,
    {
        assert(changes_view(changes@.subrange(0, i + 1)).drop_last() =~= changes_view(changes@.subrange(0, i as int)));
        if changes[i].tag == ChangeTag::Equal {
            n = n + 1;
        }
        i = i + 1;
    }
    assert(changes@.subrange(0, i as int) =~= changes@);
    n
}

/// The share of equal lines between two texts, as `(equal, total)`.
pub fn calculate_similarity(from: &str, to: &str) -> (r: (usize, usize))
    ensures
        (r.0 as nat, r.1 as nat) == line_similarity(from@, to@),
        r.0 <= r.1,
        r.1 >= 1,
{
    if str_eq(from, to) {
        return (1, 1);
    }
    if from.is_empty() || to.is_empty() {
        return (0, 1);
    }
    let changes = diff_texts(from, to);
    let equal = count_equal(&changes);
    proof {
        lemma_count_tag_le(changes_view(changes@), ChangeTag::Equal);
    }
    let total = if changes.len() == 0 { 1 } else { changes.len() };
    (equal, total)
}

/// A candidate's score `equal * boost / (5 * total)`, where `boost` is 6
/// when the basenames agree (a factor of 1.2) and 5 otherwise.
pub struct Score {
    pub equal: usize,
    pub total: usize,
    pub boost: u8,
}

impl Score {
    pub open spec fn wf(&self) -> bool {
        self.total >= 1 && (self.boost == 5 || self.boost == 6)
    }

    /// The score is at least the threshold.
    pub open spec fn clears(&self, thr: Threshold) -> bool {
        self.equal * self.boost * thr.den_spec() >= 5 * self.total * thr.num_spec()
    }

    /// The score is strictly above `other`.
    pub open spec fn above(&self, other: Score) -> bool {
        self.equal * self.boost * other.total > other.equal * other.boost * self.total
    }
}

/// Whether `x * a > y * b`, for factors 5 and 6.
fn scaled_gt(x: u128, a: u8, y: u128, b: u8) -> (r: bool)
    requires
        a == 5 || a == 6,
        b == 5 || b == 6,
    ensures
        r == (x * a > y * b),
{
    if a == b {
        assert((x * a > y * b) == (x > y)) by (nonlinear_arith) requires a == b, a > 0;
        x > y
    } else if a == 6 {
        if x >= y {
            assert((x * a > y * b) == (x > 0)) by (nonlinear_arith) requires a == 6, b == 5, x >= y, y >= 0;
            x > 0
        } else {
            let d = y - x;
            if x == 0 {
                assert(!(x * a > y * b)) by (nonlinear_arith) requires x == 0, y >= 0, b == 5;
                false
            } else {
                let q = (x - 1) / 5;
                assert((x * a > y * b) == (d <= q)) by (nonlinear_arith)
                    requires a == 6, b == 5, d == y - x, q == (x - 1) / 5, x >= 1;
                d <= q
            }
        }
    } else {
        if x <= y {
            assert(!(x * a > y * b)) by (nonlinear_arith) requires a == 5, b == 6, x <= y, x >= 0;
            false
        } else {
            let d = x - y;
            let q = y / 5;
            assert((x * a > y * b) == (d > q)) by (nonlinear_arith)
                requires a == 5, b == 6, d == x - y, q == y / 5, y >= 0;
            d > q
        }
    }
}

/// Whether `s` clears the threshold.
pub fn score_clears(s: &Score, thr: &Threshold) -> (r: bool)
    requires
        s.wf(),
        thr.wf(),
    ensures
        r == s.clears(*thr),
{
    let e = s.equal as u128;
    let t = s.total as u128;
    let k = s.boost as u128;
    let q = thr.den() as u128;
    let p = thr.num() as u128;
    assert(e * k <= u64::MAX * 6) by (nonlinear_arith)
        requires e <= u64::MAX, k <= 6;
    assert(5 * t <= 5 * u64::MAX) by (nonlinear_arith)
        requires t <= u64::MAX;
    assert(e * k * q <= u64::MAX * 6 * u32::MAX) by (nonlinear_arith)
        requires e <= u64::MAX, k <= 6, q <= u32::MAX;
    assert(5 * t * p <= 5 * u64::MAX * u32::MAX) by (nonlinear_arith)
        requires t <= u64::MAX, p <= u32::MAX;
    e * k * q >= 5 * t * p
}

/// Whether `s` is strictly above `other`.
pub fn score_above(s: &Score, other: &Score) -> (r: bool)
    requires
        s.wf(),
        other.wf(),
    ensures
        r == s.above(*other),
{
    let (a, b, c, d) = (s.equal as u128, other.total as u128, other.equal as u128, s.total as u128);
    assert(a * b <= u64::MAX * u64::MAX) by (nonlinear_arith) requires a <= u64::MAX, b <= u64::MAX;
    assert(c * d <= u64::MAX * u64::MAX) by (nonlinear_arith) requires c <= u64::MAX, d <= u64::MAX;
    let x = a * b;
    let y = c * d;
    assert(x <= u64::MAX * u64::MAX) by (nonlinear_arith)
        requires x == s.equal as u128 * other.total as u128, s.equal <= u64::MAX, other.total <= u64::MAX;
    assert(y <= u64::MAX * u64::MAX) by (nonlinear_arith)
        requires y == other.equal as u128 * s.total as u128, other.equal <= u64::MAX, s.total <= u64::MAX;
    let r = scaled_gt(x, s.boost, y, other.boost);
    assert(r == s.above(*other)) by (nonlinear_arith)
        requires
            r == (x * s.boost > y * other.boost),
            x == s.equal * other.total,
            y == other.equal * s.total;
    r
}

} // verus!
