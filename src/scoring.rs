//! Match candidates, their scores, and how candidates are ranked and pruned.
//!
//! Scores and densities are fixed-point numbers: `SCORE_SCALE` stands for 1.0.
use std::collections::HashMap;
use vstd::prelude::*;

verus! {

broadcast use vstd::std_specs::hash::group_hash_axioms;

/// The fixed-point unit of scores and densities: this value means 1.0.
pub const SCORE_SCALE: u128 = 1_000_000;

/// Candidates farther than this from the hunk's recorded line get no bonus.
pub const MAX_DISTANCE_FOR_BONUS: usize = 50;

/// The proximity bonus at distance zero (0.05).
pub const MAX_PROXIMITY_BONUS: u128 = 50_000;

/// Candidates are kept when `RETAIN_DENOMINATOR * score >= RETAIN_NUMERATOR * best`.
pub const RETAIN_NUMERATOR: u128 = 9;

pub const RETAIN_DENOMINATOR: u128 = 10;

/// A place where a hunk may apply.
#[derive(Debug, Clone, Copy, PartialEq, Eq)]
pub struct HunkMatch {
    /// First line replaced, 0-based, in the current lines.
    pub start_index: usize,
    /// Number of lines replaced.
    pub matched_length: usize,
    /// Confidence, in units of `SCORE_SCALE`.
    pub score: u128,
    /// Anchor lines per matched line, in units of `SCORE_SCALE`.
    pub density: u128,
}

pub open spec fn distance(a: int, b: int) -> int {
    if a >= b {
        a - b
    } else {
        b - a
    }
}

/// The bonus at distance `d` (at most `MAX_DISTANCE_FOR_BONUS`): linear from
/// `MAX_PROXIMITY_BONUS` down to zero.
pub open spec fn proximity_bonus(d: int) -> int {
    (MAX_PROXIMITY_BONUS as int) * (MAX_DISTANCE_FOR_BONUS as int - d) / (
    MAX_DISTANCE_FOR_BONUS as int)
}

/// `m` after the bonus for lying near line `old_start` (1-based, so the line
/// expected at index `old_start - 1`). A bonus never lifts a score above 1.0.
pub open spec fn with_proximity(m: HunkMatch, old_start: usize) -> HunkMatch {
    let d = distance(m.start_index as int, old_start - 1);
    if d <= MAX_DISTANCE_FOR_BONUS {
        let s = m.score + proximity_bonus(d);
        HunkMatch {
            score: if s < SCORE_SCALE {
                s as u128
            } else {
                SCORE_SCALE
            },
            ..m
        }
    } else {
        m
    }
}

/// Adds to each candidate the bonus for lying near the hunk's recorded line.
pub fn apply_proximity_bonus(matches: &mut Vec<HunkMatch>, old_start_line: usize)
    ensures
        final(matches)@.len() == old(matches)@.len(),
        forall|k: int|
            0 <= k < old(matches)@.len() ==> #[trigger] final(matches)@[k] == with_proximity(
                old(matches)@[k],
                old_start_line,
            ),
{
    let expected = old_start_line as u128;
    let mut i: usize = 0;
    while i < matches.len()
        invariant
            expected == old_start_line,
            i <= matches@.len(),
            matches@.len() == old(matches)@.len(),
            forall|k: int|
                0 <= k < i ==> #[trigger] matches@[k] == with_proximity(
                    old(matches)@[k],
                    old_start_line,
                ),
            forall|k: int| i <= k < matches@.len() ==> #[trigger] matches@[k] == old(matches)@[k],
        decreases matches@.len() - i,
    {
        let m = matches[i];
        // The distance between the line number `start_index + 1` and `old_start_line`.
        let line = m.start_index as u128 + 1;
        let d: u128 = if line >= expected {
            line - expected
        } else {
            expected - line
        };
        if d <= MAX_DISTANCE_FOR_BONUS as u128 {
            let bonus: u128 = MAX_PROXIMITY_BONUS * ((MAX_DISTANCE_FOR_BONUS as u128) - d) / (
            MAX_DISTANCE_FOR_BONUS as u128);
            let score = if m.score >= SCORE_SCALE || m.score + bonus >= SCORE_SCALE {
                SCORE_SCALE
            } else {
                m.score + bonus
            };
            matches.set(i, HunkMatch { score, ..m });
        }
        i = i + 1;
    }
}

/// `a` ranks above `b` for the same start: higher score, then higher density.
pub open spec fn better(a: HunkMatch, b: HunkMatch) -> bool {
    a.score > b.score || (a.score == b.score && a.density > b.density)
}

/// The order of the result: score, then density, descending; then start index.
pub open spec fn precedes(a: HunkMatch, b: HunkMatch) -> bool {
    better(a, b) || (a.score == b.score && a.density == b.density && a.start_index
        < b.start_index)
}

/// `ms[i]` is the candidate kept for its start index: none there ranks above
/// it, and it is the first of those that rank equal.
pub open spec fn is_kept(ms: Seq<HunkMatch>, i: int) -> bool {
    &&& 0 <= i < ms.len()
    &&& forall|j: int|
        0 <= j < ms.len() && (#[trigger] ms[j]).start_index == ms[i].start_index ==> !better(
            ms[j],
            ms[i],
        ) && (j < i ==> better(ms[i], ms[j]))
}

/// The highest score among `ms` (zero for none).
pub open spec fn max_score(ms: Seq<HunkMatch>) -> u128
    decreases ms.len(),
{
    if ms.len() == 0 {
        0
    } else {
        let m = max_score(ms.drop_last());
        if ms.last().score > m {
            ms.last().score
        } else {
            m
        }
    }
}

/// A score close enough to the best to be offered.
pub open spec fn within_band(score: u128, top: u128) -> bool {
    RETAIN_DENOMINATOR * score >= RETAIN_NUMERATOR * top
}

/// Each candidate of `out` ranks above the next ones.
pub open spec fn ranked(out: Seq<HunkMatch>) -> bool {
    forall|i: int, j: int| 0 <= i < j < out.len() ==> precedes(out[i], out[j])
}

/// `x` is a kept candidate of `ms`.
pub open spec fn is_kept_value(ms: Seq<HunkMatch>, x: HunkMatch) -> bool {
    exists|i: int| is_kept(ms, i) && ms[i] == x
}

/// Each candidate of `out` is a kept candidate of `ms`.
pub open spec fn all_kept(out: Seq<HunkMatch>, ms: Seq<HunkMatch>) -> bool {
    forall|k: int| 0 <= k < out.len() ==> #[trigger] is_kept_value(ms, out[k])
}

/// Each candidate of `out` scores within the band of the best of `ms`.
pub open spec fn all_in_band(out: Seq<HunkMatch>, ms: Seq<HunkMatch>) -> bool {
    forall|k: int| 0 <= k < out.len() ==> within_band(#[trigger] out[k].score, max_score(ms))
}

/// Each kept candidate of `ms` within the band is in `out`.
pub open spec fn offers_all(out: Seq<HunkMatch>, ms: Seq<HunkMatch>) -> bool {
    forall|i: int|
        is_kept(ms, i) && within_band(ms[i].score, max_score(ms)) ==> out.contains(
            #[trigger] ms[i],
        )
}

/// `out` is the deduplication of `ms`: the kept candidate of each start index
/// whose score is within the band of the best score, in `precedes` order.
pub open spec fn is_dedup_of(out: Seq<HunkMatch>, ms: Seq<HunkMatch>) -> bool {
    &&& ranked(out)
    &&& all_kept(out, ms)
    &&& all_in_band(out, ms)
    &&& offers_all(out, ms)
}

pub proof fn lemma_max_score(ms: Seq<HunkMatch>)
    ensures
        forall|j: int| 0 <= j < ms.len() ==> (#[trigger] ms[j]).score <= max_score(ms),
        ms.len() > 0 ==> exists|j: int| 0 <= j < ms.len() && (#[trigger] ms[j]).score == max_score(ms),
    decreases ms.len(),
{
    if ms.len() > 0 {
        let p = ms.drop_last();
        lemma_max_score(p);
        assert forall|j: int| 0 <= j < ms.len() implies (#[trigger] ms[j]).score <= max_score(ms) by {
            if j < ms.len() - 1 {
                assert(ms[j] == p[j]);
            }
        }
        if ms.last().score > max_score(p) || p.len() == 0 {
            assert(ms[ms.len() - 1].score == max_score(ms));
        } else {
            let j = choose|j: int| 0 <= j < p.len() && (#[trigger] p[j]).score == max_score(p);
            assert(ms[j] == p[j]);
        }
    }
}

/// The band as a single bound: `score >= top - top / 10`.
proof fn lemma_band_bar(top: u128)
    ensures
        forall|s: u128| #[trigger] within_band(s, top) <==> s >= top - top / RETAIN_DENOMINATOR,
{
    let q = top / 10;
    let r = top % 10;
    assert(top == 10 * q + r);
}

proof fn lemma_kept_prefix_extend(ms: Seq<HunkMatch>, i: int, k: int)
    requires
        0 <= k < i < ms.len(),
        is_kept(ms.take(i), k),
        ms[i].start_index != ms[k].start_index,
    ensures
        is_kept(ms.take(i + 1), k),
{
    let p = ms.take(i);
    let q = ms.take(i + 1);
    assert forall|j: int|
        0 <= j < q.len() && (#[trigger] q[j]).start_index == q[k].start_index implies !better(
        q[j],
        q[k],
    ) && (j < k ==> better(q[k], q[j])) by {
        assert(q[k] == p[k]);
        if j < i {
            assert(q[j] == p[j]);
        }
    }
}

/// Keeps, for each start index, the best candidate; orders the survivors by
/// score, density and start index; and drops those below the band of the best.
pub fn deduplicate_matches(matches: Vec<HunkMatch>) -> (r: Vec<HunkMatch>)
    ensures
        is_dedup_of(r@, matches@),
{
    let ms = matches;
    // The best candidate of each start index, in order of first appearance.
    let mut reps: Vec<HunkMatch> = Vec::new();
    // Where each start index stands in `reps`.
    let mut pos: HashMap<usize, usize> = HashMap::new();
    let ghost mut idx: Seq<int> = Seq::empty();
    let mut i: usize = 0;
    while i < ms.len()
        invariant
            i <= ms@.len(),
            reps@.len() == idx.len(),
            forall|k: int|
                0 <= k < reps@.len() ==> 0 <= #[trigger] idx[k] < i && reps@[k] == ms@[idx[k]]
                    && is_kept(ms@.take(i as int), idx[k]),
            forall|j: int|
                0 <= j < i ==> exists|k: int|
                    0 <= k < reps@.len() && (#[trigger] reps@[k]).start_index == (
                    #[trigger] ms@[j]).start_index,
            forall|k1: int, k2: int|
                0 <= k1 < reps@.len() && 0 <= k2 < reps@.len() && k1 != k2 ==> (
                #[trigger] reps@[k1]).start_index != (#[trigger] reps@[k2]).start_index,
            forall|s: usize|
                #[trigger] pos@.contains_key(s) ==> pos@[s] < reps@.len() && reps@[pos@[s] as int].start_index
                    == s,
            forall|q: int| 0 <= q < reps@.len() ==> pos@.contains_key(#[trigger] reps@[q].start_index),
        decreases ms@.len() - i,
    {
        let m = ms[i];
        let ghost reps_before = reps@;
        let k: usize = match pos.get(&m.start_index) {
            Some(kr) => *kr,
            None => reps.len(),
        };
        proof {
            if k == reps@.len() {
                assert forall|q: int| 0 <= q < reps@.len() implies (#[trigger] reps@[q]).start_index
                    != m.start_index by {
                    assert(pos@.contains_key(reps@[q].start_index));
                }
            } else {
                assert(reps@[k as int].start_index == m.start_index);
            }
        }
        let ghost q = ms@.take(i + 1);
        proof {
            assert forall|t: int| 0 <= t < i implies #[trigger] q[t] == ms@.take(i as int)[t] by {}
        }
        if k < reps.len() {
            let old_rep = reps[k];
            proof {
                let p = ms@.take(i as int);
                assert forall|t: int|
                    0 <= t < reps@.len() && t != k implies is_kept(q, #[trigger] idx[t]) by {
                    lemma_kept_prefix_extend(ms@, i as int, idx[t]);
                }
            }
            if m.score > old_rep.score || (m.score == old_rep.score && m.density > old_rep.density) {
                reps.set(k, m);
                proof {
                    let p = ms@.take(i as int);
                    let ik = idx[k as int];
                    assert forall|j: int|
                        0 <= j < q.len() && (#[trigger] q[j]).start_index
                            == q[i as int].start_index implies !better(q[j], q[i as int]) && (j
                        < i ==> better(q[i as int], q[j])) by {
                        if j < i {
                            assert(q[j] == p[j]);
                            assert(p[ik] == old_rep);
                        }
                    }
                    idx = idx.update(k as int, i as int);
                }
            } else {
                proof {
                    let p = ms@.take(i as int);
                    let ik = idx[k as int];
                    assert(p[ik] == old_rep);
                    assert forall|j: int|
                        0 <= j < q.len() && (#[trigger] q[j]).start_index == q[ik].start_index implies !better(
                        q[j],
                        q[ik],
                    ) && (j < ik ==> better(q[ik], q[j])) by {
                        if j < i {
                            assert(q[j] == p[j]);
                        }
                    }
                }
            }
        } else {
            reps.push(m);
            proof {
                let p = ms@.take(i as int);
                assert forall|t: int|
                    0 <= t < idx.len() implies is_kept(q, #[trigger] idx[t]) by {
                    assert(reps@[t] == ms@[idx[t]]);
                    lemma_kept_prefix_extend(ms@, i as int, idx[t]);
                }
                assert forall|j: int|
                    0 <= j < q.len() && (#[trigger] q[j]).start_index
                        == q[i as int].start_index implies !better(q[j], q[i as int]) && (j < i
                    ==> better(q[i as int], q[j])) by {
                    if j < i {
                        assert(q[j] == ms@[j]);
                        let kk = choose|kk: int|
                            0 <= kk < reps@.len() - 1 && (#[trigger] reps@[kk]).start_index
                                == ms@[j].start_index;
                        assert(reps@[kk].start_index != m.start_index);
                    }
                }
                idx = idx.push(i as int);
            }
            let ghost pos_before = pos@;
            pos.insert(m.start_index, reps.len() - 1);
            proof {
                assert forall|s: usize| #[trigger] pos@.contains_key(s) implies pos@[s] < reps@.len()
                    && reps@[pos@[s] as int].start_index == s by {
                    if s != m.start_index {
                        assert(pos_before.contains_key(s));
                    }
                }
                assert forall|q: int| 0 <= q < reps@.len() implies pos@.contains_key(
                    #[trigger] reps@[q].start_index,
                ) by {
                    if q < reps@.len() - 1 {
                        assert(pos_before.contains_key(reps_before[q].start_index));
                    }
                }
            }
        }
        proof {
            assert forall|j: int| 0 <= j < i + 1 implies exists|kk: int|
                0 <= kk < reps@.len() && (#[trigger] reps@[kk]).start_index == (
                #[trigger] ms@[j]).start_index by {
                if j == i {
                    assert(reps@[k as int].start_index == ms@[j].start_index);
                } else {
                    let kk = choose|kk: int|
                        0 <= kk < reps_before.len() && (#[trigger] reps_before[kk]).start_index
                            == ms@[j].start_index;
                    assert(reps@[kk].start_index == reps_before[kk].start_index);
                }
            }
        }
        i = i + 1;
    }
    proof {
        assert(ms@.take(ms@.len() as int) =~= ms@);
    }
    // Order the kept candidates.
    let mut sorted: Vec<HunkMatch> = Vec::new();
    let mut t: usize = 0;
    while t < reps.len()
        invariant
            t <= reps@.len(),
            forall|a: int, b: int| 0 <= a < b < sorted@.len() ==> precedes(sorted@[a], sorted@[b]),
            forall|x: HunkMatch| sorted@.contains(x) <==> reps@.take(t as int).contains(x),
            forall|k1: int, k2: int|
                0 <= k1 < reps@.len() && 0 <= k2 < reps@.len() && k1 != k2 ==> (
                #[trigger] reps@[k1]).start_index != (#[trigger] reps@[k2]).start_index,
        decreases reps@.len() - t,
    {
        let x = reps[t];
        let mut p: usize = 0;
        while p < sorted.len() && !(x.score > sorted[p].score || (x.score == sorted[p].score && (
        x.density > sorted[p].density || (x.density == sorted[p].density && x.start_index
            < sorted[p].start_index))))
            invariant
                p <= sorted@.len(),
                forall|a: int| 0 <= a < p ==> !precedes(x, #[trigger] sorted@[a]),
            decreases sorted@.len() - p,
        {
            p = p + 1;
        }
        let ghost before = sorted@;
        proof {
            assert forall|a: int| 0 <= a < before.len() implies (#[trigger] before[a]).start_index
                != x.start_index by {
                assert(before.contains(before[a]));
                assert(reps@.take(t as int).contains(before[a]));
                let w = choose|w: int| 0 <= w < t && #[trigger] reps@.take(t as int)[w] == before[a];
                assert(reps@[w] == before[a]);
            }
        }
        sorted.insert(p, x);
        proof {
            assert forall|a: int, b: int| 0 <= a < b < sorted@.len() implies precedes(
                sorted@[a],
                sorted@[b],
            ) by {
                if b < p {
                    assert(sorted@[a] == before[a] && sorted@[b] == before[b]);
                } else if b == p {
                    assert(sorted@[a] == before[a]);
                    assert(!precedes(x, before[a]));
                } else if a == p {
                    assert(sorted@[b] == before[b - 1]);
                    if b - 1 > p {
                        assert(precedes(before[p as int], before[b - 1]));
                    }
                } else if a < p {
                    assert(sorted@[a] == before[a] && sorted@[b] == before[b - 1]);
                } else {
                    assert(sorted@[a] == before[a - 1] && sorted@[b] == before[b - 1]);
                }
            }
            assert forall|y: HunkMatch| sorted@.contains(y) <==> reps@.take(t + 1).contains(y) by {
                if sorted@.contains(y) {
                    let w = choose|w: int| 0 <= w < sorted@.len() && #[trigger] sorted@[w] == y;
                    if w == p {
                        assert(reps@.take(t + 1)[t as int] == y);
                    } else {
                        if w < p {
                            assert(before[w] == y);
                        } else {
                            assert(before[w - 1] == y);
                        }
                        assert(before.contains(y));
                        let v = choose|v: int| 0 <= v < t && #[trigger] reps@.take(t as int)[v] == y;
                        assert(reps@.take(t + 1)[v] == y);
                    }
                }
                if reps@.take(t + 1).contains(y) {
                    let v = choose|v: int| 0 <= v < t + 1 && #[trigger] reps@.take(t + 1)[v] == y;
                    if v < t {
                        assert(reps@.take(t as int)[v] == y);
                        assert(before.contains(y));
                        let w = choose|w: int| 0 <= w < before.len() && #[trigger] before[w] == y;
                        if w < p {
                            assert(sorted@[w] == y);
                        } else {
                            assert(sorted@[w + 1] == y);
                        }
                    } else {
                        assert(sorted@[p as int] == y);
                    }
                }
            }
        }
        t = t + 1;
    }
    proof {
        assert(reps@.take(reps@.len() as int) =~= reps@);
    }
    // Keep those within the band of the best.
    let mut out: Vec<HunkMatch> = Vec::new();
    if sorted.len() == 0 {
        proof {
            lemma_max_score(ms@);
            assert forall|i: int| is_kept(ms@, i) implies false by {
                assert(is_kept(ms@.take(ms@.len() as int), i));
                let kk = choose|kk: int|
                    0 <= kk < reps@.len() && (#[trigger] reps@[kk]).start_index
                        == (#[trigger] ms@[i]).start_index;
                assert(reps@.take(reps@.len() as int)[kk] == reps@[kk]);
                assert(sorted@.contains(reps@[kk]));
            }
        }
        return out;
    }
    let top = sorted[0].score;
    proof {
        lemma_max_score(ms@);
        // The first survivor has the best score of all candidates.
        assert(sorted@.contains(sorted@[0]));
        assert(reps@.contains(sorted@[0]));
        let k0 = choose|k0: int| 0 <= k0 < reps@.len() && #[trigger] reps@[k0] == sorted@[0];
        assert forall|j: int| 0 <= j < ms@.len() implies (#[trigger] ms@[j]).score <= top by {
            let kk = choose|kk: int|
                0 <= kk < reps@.len() && (#[trigger] reps@[kk]).start_index
                    == (#[trigger] ms@[j]).start_index;
            assert(is_kept(ms@, idx[kk]));
            assert(sorted@.contains(reps@[kk]));
            let w = choose|w: int| 0 <= w < sorted@.len() && #[trigger] sorted@[w] == reps@[kk];
            if w > 0 {
                assert(precedes(sorted@[0], sorted@[w]));
            }
        }
        let jm = choose|j: int| 0 <= j < ms@.len() && (#[trigger] ms@[j]).score == max_score(ms@);
        assert(ms@[idx[k0]] == sorted@[0]);
        assert(top == max_score(ms@));
    }
    let mut w: usize = 0;
    let bar = top - top / RETAIN_DENOMINATOR;
    proof {
        lemma_band_bar(top);
    }
    while w < sorted.len() && sorted[w].score >= bar
        invariant
            bar == top - top / RETAIN_DENOMINATOR,
            forall|s: u128| #[trigger] within_band(s, top) <==> s >= bar,
            forall|k: int| 0 <= k < w ==> (#[trigger] sorted@[k]).score >= bar,
            w <= sorted@.len(),
            out@ == sorted@.take(w as int),
        decreases sorted@.len() - w,
    {
        out.push(sorted[w]);
        w = w + 1;
        assert(out@ =~= sorted@.take(w as int));
    }
    proof {
        assert forall|k: int| 0 <= k < out@.len() implies #[trigger] is_kept_value(ms@, out@[k]) by {
            assert(out@[k] == sorted@[k]);
            assert(sorted@.contains(sorted@[k]));
            let kk = choose|kk: int| 0 <= kk < reps@.len() && #[trigger] reps@[kk] == sorted@[k];
            assert(is_kept(ms@, idx[kk]));
        }
        assert forall|i: int|
            is_kept(ms@, i) && within_band(ms@[i].score, max_score(ms@)) implies out@.contains(
            #[trigger] ms@[i],
        ) by {
            let kk = choose|kk: int|
                0 <= kk < reps@.len() && (#[trigger] reps@[kk]).start_index
                    == (#[trigger] ms@[i]).start_index;
            let ik = idx[kk];
            assert(is_kept(ms@, ik));
            // Two kept candidates with one start index are the same candidate.
            if ik < i {
                assert(better(ms@[i], ms@[ik]));
            } else if ik > i {
                assert(better(ms@[ik], ms@[i]));
            }
            assert(sorted@.contains(reps@[kk]));
            let v = choose|v: int| 0 <= v < sorted@.len() && #[trigger] sorted@[v] == reps@[kk];
            if v >= w {
                // The scores fall along `sorted`, so the band ends at `w`.
                assert(!within_band(sorted@[w as int].score, top));
                if v > w {
                    assert(precedes(sorted@[w as int], sorted@[v]));
                }
            }
            assert(out@[v] == ms@[i]);
        }
    }
    out
}

/// Two kept candidates with one start index are the same candidate.
proof fn lemma_kept_unique(ms: Seq<HunkMatch>, i1: int, i2: int)
    requires
        is_kept(ms, i1),
        is_kept(ms, i2),
        ms[i1].start_index == ms[i2].start_index,
    ensures
        i1 == i2,
{
    if i1 < i2 {
        assert(better(ms[i2], ms[i1]));
        assert(!better(ms[i2], ms[i1]));
    } else if i2 < i1 {
        assert(better(ms[i1], ms[i2]));
        assert(!better(ms[i1], ms[i2]));
    }
}

/// Every start index among the candidates has a kept candidate.
pub proof fn lemma_kept_exists(ms: Seq<HunkMatch>, j: int)
    requires
        0 <= j < ms.len(),
    ensures
        exists|i: int| is_kept(ms, i) && #[trigger] ms[i].start_index == ms[j].start_index,
    decreases ms.len(),
{
    let n = ms.len() - 1;
    let p = ms.drop_last();
    let last = ms[n];
    let found = exists|i: int| 0 <= i < p.len() && #[trigger] p[i].start_index == ms[j].start_index;
    if j < n {
        assert(p[j].start_index == ms[j].start_index);
    }
    if !found {
        assert(j == n);
        assert forall|t: int|
            0 <= t < ms.len() && (#[trigger] ms[t]).start_index == ms[n].start_index implies !better(
            ms[t],
            ms[n],
        ) && (t < n ==> better(ms[n], ms[t])) by {
            if t < n {
                assert(p[t] == ms[t]);
            }
        }
        assert(is_kept(ms, n));
        assert(ms[n].start_index == ms[j].start_index);
    } else {
        let j0 = choose|i: int| 0 <= i < p.len() && #[trigger] p[i].start_index == ms[j].start_index;
        lemma_kept_exists(p, j0);
        let i = choose|i: int| is_kept(p, i) && #[trigger] p[i].start_index == p[j0].start_index;
        if last.start_index == ms[j].start_index && better(last, p[i]) {
            assert forall|t: int|
                0 <= t < ms.len() && (#[trigger] ms[t]).start_index == ms[n].start_index implies !better(
                ms[t],
                ms[n],
            ) && (t < n ==> better(ms[n], ms[t])) by {
                if t < n {
                    assert(p[t] == ms[t]);
                }
            }
            assert(is_kept(ms, n));
            assert(ms[n].start_index == ms[j].start_index);
        } else {
            assert forall|t: int|
                0 <= t < ms.len() && (#[trigger] ms[t]).start_index == ms[i].start_index implies !better(
                ms[t],
                ms[i],
            ) && (t < i ==> better(ms[i], ms[t])) by {
                assert(p[i] == ms[i]);
                if t < n {
                    assert(p[t] == ms[t]);
                }
            }
            assert(is_kept(ms, i));
            assert(ms[i].start_index == ms[j].start_index);
        }
    }
}

proof fn lemma_sorted_eq(a: Seq<HunkMatch>, b: Seq<HunkMatch>)
    requires
        forall|i: int, j: int| 0 <= i < j < a.len() ==> precedes(a[i], a[j]),
        forall|i: int, j: int| 0 <= i < j < b.len() ==> precedes(b[i], b[j]),
        forall|x: HunkMatch| a.contains(x) <==> b.contains(x),
        forall|i: int, j: int|
            0 <= i < a.len() && 0 <= j < b.len() && a[i] != b[j] ==> precedes(#[trigger] a[i],
                #[trigger] b[j]) || precedes(b[j], a[i]),
    ensures
        a == b,
    decreases a.len(),
{
    if a.len() == 0 {
        if b.len() > 0 {
            assert(b.contains(b[0]));
        }
        assert(a =~= b);
    } else {
        assert(a.contains(a[0]));
        let w = choose|w: int| 0 <= w < b.len() && b[w] == a[0];
        assert(b.contains(b[0]));
        let v = choose|v: int| 0 <= v < a.len() && a[v] == b[0];
        if a[0] != b[0] {
            if w > 0 {
                assert(precedes(b[0], b[w]));
            }
            if v > 0 {
                assert(precedes(a[0], a[v]));
            }
        }
        assert(a[0] == b[0]);
        let a1 = a.drop_first();
        let b1 = b.drop_first();
        assert forall|x: HunkMatch| a1.contains(x) <==> b1.contains(x) by {
            if a1.contains(x) {
                let i = choose|i: int| 0 <= i < a1.len() && a1[i] == x;
                assert(precedes(a[0], a[i + 1]));
                assert(a.contains(x));
                let j = choose|j: int| 0 <= j < b.len() && b[j] == x;
                assert(j != 0);
                assert(b1[j - 1] == x);
            }
            if b1.contains(x) {
                let i = choose|i: int| 0 <= i < b1.len() && b1[i] == x;
                assert(precedes(b[0], b[i + 1]));
                assert(b.contains(x));
                let j = choose|j: int| 0 <= j < a.len() && a[j] == x;
                assert(j != 0);
                assert(a1[j - 1] == x);
            }
        }
        assert forall|i: int, j: int|
            0 <= i < a1.len() && 0 <= j < b1.len() && a1[i] != b1[j] implies precedes(
            #[trigger] a1[i],
            #[trigger] b1[j],
        ) || precedes(b1[j], a1[i]) by {
            assert(a1[i] == a[i + 1] && b1[j] == b[j + 1]);
        }
        lemma_sorted_eq(a1, b1);
        assert forall|i: int| 0 <= i < a.len() implies a[i] == b[i] by {
            if i > 0 {
                assert(a[i] == a1[i - 1] && b[i] == b1[i - 1]);
            }
        }
        assert(a =~= b);
    }
}

/// The deduplication of a list of candidates is unique.
pub proof fn lemma_dedup_unique(ms: Seq<HunkMatch>, a: Seq<HunkMatch>, b: Seq<HunkMatch>)
    requires
        is_dedup_of(a, ms),
        is_dedup_of(b, ms),
    ensures
        a == b,
{
    assert forall|x: HunkMatch| a.contains(x) implies b.contains(x) by {
        let k = choose|k: int| 0 <= k < a.len() && a[k] == x;
        assert(is_kept_value(ms, a[k]));
        let i = choose|i: int| is_kept(ms, i) && ms[i] == a[k];
        assert(within_band(a[k].score, max_score(ms)));
    }
    assert forall|x: HunkMatch| b.contains(x) implies a.contains(x) by {
        let k = choose|k: int| 0 <= k < b.len() && b[k] == x;
        assert(is_kept_value(ms, b[k]));
        let i = choose|i: int| is_kept(ms, i) && ms[i] == b[k];
        assert(within_band(b[k].score, max_score(ms)));
    }
    assert forall|i: int, j: int|
        0 <= i < a.len() && 0 <= j < b.len() && a[i] != b[j] implies precedes(
        #[trigger] a[i],
        #[trigger] b[j],
    ) || precedes(b[j], a[i]) by {
        assert(is_kept_value(ms, a[i]));
        let i1 = choose|i1: int| is_kept(ms, i1) && ms[i1] == a[i];
        assert(is_kept_value(ms, b[j]));
        let i2 = choose|i2: int| is_kept(ms, i2) && ms[i2] == b[j];
        if a[i].start_index == b[j].start_index {
            lemma_kept_unique(ms, i1, i2);
        }
    }
    lemma_sorted_eq(a, b);
}

proof fn lemma_dedup_distinct_starts(ms: Seq<HunkMatch>, once: Seq<HunkMatch>)
    requires
        is_dedup_of(once, ms),
    ensures
        forall|k: int, j: int|
            0 <= k < once.len() && 0 <= j < once.len() && k != j ==> (
            #[trigger] once[k]).start_index != (#[trigger] once[j]).start_index,
{
    assert forall|k: int, j: int|
        0 <= k < once.len() && 0 <= j < once.len() && k != j implies (#[trigger] once[k]).start_index
        != (#[trigger] once[j]).start_index by {
        assert(is_kept_value(ms, once[k]));
        let i1 = choose|i1: int| is_kept(ms, i1) && ms[i1] == once[k];
        assert(is_kept_value(ms, once[j]));
        let i2 = choose|i2: int| is_kept(ms, i2) && ms[i2] == once[j];
        if once[k].start_index == once[j].start_index {
            lemma_kept_unique(ms, i1, i2);
            if k < j {
                assert(precedes(once[k], once[j]));
            } else {
                assert(precedes(once[j], once[k]));
            }
        }
    }
}

proof fn lemma_self_kept(ms: Seq<HunkMatch>, once: Seq<HunkMatch>)
    requires
        is_dedup_of(once, ms),
    ensures
        forall|k: int| 0 <= k < once.len() ==> #[trigger] is_kept(once, k),
{
    lemma_dedup_distinct_starts(ms, once);
    assert forall|k: int| 0 <= k < once.len() implies #[trigger] is_kept(once, k) by {
        assert forall|j: int|
            0 <= j < once.len() && (#[trigger] once[j]).start_index == once[k].start_index implies !better(
            once[j],
            once[k],
        ) && (j < k ==> better(once[k], once[j])) by {
            if j != k {
                assert(once[j].start_index != once[k].start_index);
            }
        }
    }
}

proof fn lemma_self_band(ms: Seq<HunkMatch>, once: Seq<HunkMatch>)
    requires
        is_dedup_of(once, ms),
    ensures
        forall|k: int| 0 <= k < once.len() ==> within_band(#[trigger] once[k].score, max_score(once)),
{
    lemma_max_score(ms);
    lemma_max_score(once);
    if once.len() > 0 {
        let j = choose|j: int| 0 <= j < once.len() && (#[trigger] once[j]).score == max_score(once);
        assert(is_kept_value(ms, once[j]));
        let i = choose|i: int| is_kept(ms, i) && ms[i] == once[j];
        assert(max_score(once) <= max_score(ms));
    }
    assert forall|k: int| 0 <= k < once.len() implies within_band(
        #[trigger] once[k].score,
        max_score(once),
    ) by {
        assert(within_band(once[k].score, max_score(ms)));
    }
}

proof fn lemma_dedup_self(ms: Seq<HunkMatch>, once: Seq<HunkMatch>)
    requires
        is_dedup_of(once, ms),
    ensures
        is_dedup_of(once, once),
{
    lemma_self_kept(ms, once);
    lemma_self_band(ms, once);
    assert forall|k: int| 0 <= k < once.len() implies #[trigger] is_kept_value(once, once[k]) by {
        assert(is_kept(once, k) && once[k] == once[k]);
    }
    assert forall|i: int|
        is_kept(once, i) && within_band(once[i].score, max_score(once)) implies once.contains(
        #[trigger] once[i],
    ) by {
        assert(0 <= i < once.len());
    }
    assert(ranked(once));
    assert(all_kept(once, once));
    assert(all_in_band(once, once));
    assert(offers_all(once, once));
}

/// Deduplicating a second time changes nothing.
pub proof fn lemma_dedup_idempotent(ms: Seq<HunkMatch>, once: Seq<HunkMatch>, twice: Seq<HunkMatch>)
    requires
        is_dedup_of(once, ms),
        is_dedup_of(twice, once),
    ensures
        twice == once,
{
    lemma_dedup_self(ms, once);
    lemma_dedup_unique(once, twice, once);
}

proof fn lemma_best_offered(ms: Seq<HunkMatch>, out: Seq<HunkMatch>, j: int)
    requires
        is_dedup_of(out, ms),
        0 <= j < ms.len(),
        ms[j].score == max_score(ms),
    ensures
        exists|k: int|
            0 <= k < out.len() && (#[trigger] out[k]).start_index == ms[j].start_index
                && out[k].score == max_score(ms),
{
    lemma_max_score(ms);
    lemma_kept_exists(ms, j);
    let i = choose|i: int| is_kept(ms, i) && #[trigger] ms[i].start_index == ms[j].start_index;
    assert(!better(ms[j], ms[i]));
    assert(ms[i].score == max_score(ms));
    assert(out.contains(ms[i]));
    let k = choose|k: int| 0 <= k < out.len() && out[k] == ms[i];
    assert(out[k].start_index == ms[j].start_index);
}

/// Deduplication never drops the best candidate: the first result carries the
/// best score, and every start index where the best score occurs is offered.
pub proof fn lemma_dedup_keeps_best(ms: Seq<HunkMatch>, out: Seq<HunkMatch>)
    requires
        is_dedup_of(out, ms),
        ms.len() > 0,
    ensures
        out.len() > 0,
        out[0].score == max_score(ms),
        forall|j: int|
            0 <= j < ms.len() && (#[trigger] ms[j]).score == max_score(ms) ==> exists|k: int|
                0 <= k < out.len() && (#[trigger] out[k]).start_index == ms[j].start_index
                    && out[k].score == max_score(ms),
{
    assert forall|j: int| 0 <= j < ms.len() && (#[trigger] ms[j]).score == max_score(ms) implies exists|k: int|
        0 <= k < out.len() && (#[trigger] out[k]).start_index == ms[j].start_index && out[k].score
            == max_score(ms) by {
        lemma_best_offered(ms, out, j);
    }
    lemma_first_is_best(ms, out);
}

proof fn lemma_first_is_best(ms: Seq<HunkMatch>, out: Seq<HunkMatch>)
    requires
        is_dedup_of(out, ms),
        ms.len() > 0,
    ensures
        out.len() > 0,
        out[0].score == max_score(ms),
{
    lemma_max_score(ms);
    let j = choose|j: int| 0 <= j < ms.len() && (#[trigger] ms[j]).score == max_score(ms);
    lemma_best_offered(ms, out, j);
    let k = choose|k: int|
        0 <= k < out.len() && (#[trigger] out[k]).start_index == ms[j].start_index && out[k].score
            == max_score(ms);
    if k > 0 {
        assert(precedes(out[0], out[k]));
    }
    assert(is_kept_value(ms, out[0]));
    let i0 = choose|i0: int| is_kept(ms, i0) && ms[i0] == out[0];
    assert(out[0].score <= max_score(ms));
}

} // verus!
