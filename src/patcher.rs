//! Locating a hunk in the current lines of a file, and applying it there.
use crate::diff::{Hunk, Line, LineModel};
pub use crate::lookup::{build_lookup_tables, CleanMap, IndexMap, LookupTable};
use crate::lookup::{ascending_within, clean_view, lemma_clean_entries_ascending, line_views, lookup, occurrences, tables_of};
pub use crate::normalize::normalize_line;
use crate::normalize::normalize;
pub use crate::scoring::HunkMatch;
use crate::scoring::{apply_proximity_bonus, deduplicate_matches, distance, is_dedup_of, with_proximity, SCORE_SCALE};
use crate::text::{chars_of, indentation, get_indentation, same_chars, trim, trim_chars, utf8_len, utf8_len_of};
use vstd::prelude::*;

verus! {

/// The outcome for one file.
#[derive(Debug, PartialEq, Eq)]
pub enum FilePatchResult {
    Modified { path: String, new_content: String },
    Created { path: String, new_content: String },
    Deleted { path: String },
}

/// Why a patch could not be applied.
#[derive(Debug, PartialEq, Eq)]
pub enum PatchError {
    HunkApplicationFailed { file_path: String, hunk_index: usize, reason: String },
    AmbiguousMatch { file_path: String, hunk_index: usize },
    IOError(String),
}

/// How hard to search for a hunk.
#[derive(Debug, Clone, Copy, PartialEq, Eq)]
pub struct MatchOptions {
    /// 0: exact only; 1: also whitespace-insensitive; 2: also the anchor heuristic.
    pub fuzziness: u8,
    /// Matches must start at or after this line (0-based).
    pub min_line: usize,
    /// Least score an anchor-heuristic candidate needs, in units of `SCORE_SCALE`.
    pub match_threshold: u128,
}

/// Score of every whitespace-insensitive match (0.9).
pub const WHITESPACE_MATCH_SCORE: u128 = 900_000;

/// Bonus for a candidate whose first line is indented as the top anchor (0.05).
pub const INDENT_BONUS: u128 = 50_000;

/// Least extra search window of the anchor heuristic, in lines.
pub const MIN_WINDOW_SLACK: usize = 10;

/// Extra search window per added or removed line.
pub const WINDOW_SLACK_PER_CHANGE: usize = 4;

/// Largest search window of the anchor heuristic, in lines.
pub const MAX_SEARCH_WINDOW: usize = 400;

/// Weights of the LCS ratio and of the density in a heuristic score, out of
/// `SCORE_WEIGHT_TOTAL`.
pub const LCS_WEIGHT: u128 = 7;

pub const DENSITY_WEIGHT: u128 = 3;

pub const SCORE_WEIGHT_TOTAL: u128 = 10;

/// The anchor lines of a hunk: its context and removal lines, in order.
pub open spec fn anchors(lines: Seq<LineModel>) -> Seq<Seq<char>>
    decreases lines.len(),
{
    if lines.len() == 0 {
        Seq::empty()
    } else {
        let p = anchors(lines.drop_last());
        match lines.last() {
            LineModel::Context(s) => p.push(s),
            LineModel::Removal(s) => p.push(s),
            LineModel::Addition(_) => p,
        }
    }
}

/// The lines a hunk leaves: its context and addition lines, in order.
pub open spec fn new_side(lines: Seq<LineModel>) -> Seq<Seq<char>>
    decreases lines.len(),
{
    if lines.len() == 0 {
        Seq::empty()
    } else {
        let p = new_side(lines.drop_last());
        match lines.last() {
            LineModel::Context(s) => p.push(s),
            LineModel::Addition(s) => p.push(s),
            LineModel::Removal(_) => p,
        }
    }
}

/// Number of added and removed lines.
pub open spec fn change_count(lines: Seq<LineModel>) -> nat
    decreases lines.len(),
{
    if lines.len() == 0 {
        0
    } else {
        change_count(lines.drop_last()) + match lines.last() {
            LineModel::Context(_) => 0nat,
            _ => 1nat,
        }
    }
}

/// The normalized forms of `ls` that are not empty, in order.
pub open spec fn clean_texts(ls: Seq<Seq<char>>) -> Seq<Seq<char>>
    decreases ls.len(),
{
    if ls.len() == 0 {
        Seq::empty()
    } else {
        let p = clean_texts(ls.drop_last());
        if normalize(ls.last()).len() > 0 {
            p.push(normalize(ls.last()))
        } else {
            p
        }
    }
}

/// The match of a hunk without anchor lines: it inserts at its recorded line.
pub open spec fn insertion_match(old_start: usize, min_line: usize) -> HunkMatch {
    HunkMatch {
        start_index: if old_start >= min_line {
            old_start
        } else {
            min_line
        },
        matched_length: 0,
        score: SCORE_SCALE,
        density: SCORE_SCALE,
    }
}

/// The lines at `k` are the anchor lines `a`, verbatim.
pub open spec fn window_eq(src: Seq<Seq<char>>, a: Seq<Seq<char>>, k: int) -> bool {
    0 <= k && k + a.len() <= src.len() && src.subrange(k, k + a.len()) == a
}

/// `r` is what the strict search returns for anchors `a` from `min_line` on.
pub open spec fn strict_result(
    r: Seq<HunkMatch>,
    src: Seq<Seq<char>>,
    a: Seq<Seq<char>>,
    old_start: usize,
    min_line: usize,
) -> bool {
    if a.len() == 0 {
        r == seq![insertion_match(old_start, min_line)]
    } else if exists|k: int| k >= min_line && #[trigger] window_eq(src, a, k) {
        &&& r.len() == 1
        &&& r[0].start_index >= min_line
        &&& window_eq(src, a, r[0].start_index as int)
        &&& forall|k: int| min_line <= k < r[0].start_index ==> !#[trigger] window_eq(src, a, k)
        &&& r[0].matched_length == a.len()
        &&& r[0].score == SCORE_SCALE
        &&& r[0].density == SCORE_SCALE
    } else {
        r.len() == 0
    }
}

proof fn lemma_line_views_push(v: Seq<String>, x: String)
    ensures
        line_views(v.push(x)) == line_views(v).push(x@),
{
    assert(line_views(v.push(x)) =~= line_views(v).push(x@));
}

/// Collects the anchor lines of a hunk.
fn anchor_lines(lines: &Vec<Line>) -> (r: Vec<String>)
    ensures
        line_views(r@) == anchors(lines@.map_values(|l: Line| l@)),
{
    let mut r: Vec<String> = Vec::new();
    let mut i: usize = 0;
    while i < lines.len()
        invariant
            i <= lines@.len(),
            line_views(r@) == anchors(lines@.take(i as int).map_values(|l: Line| l@)),
        decreases lines@.len() - i,
    {
        proof {
            let t = lines@.take(i + 1).map_values(|l: Line| l@);
            assert(t.drop_last() =~= lines@.take(i as int).map_values(|l: Line| l@));
            assert(t.last() == lines@[i as int]@);
        }
        match &lines[i] {
            Line::Context(s) => {
                r.push(s.clone());
            },
            Line::Removal(s) => {
                r.push(s.clone());
            },
            Line::Addition(_) => {},
        }
        proof {
            assert(line_views(r@) =~= anchors(lines@.take(i + 1).map_values(|l: Line| l@)));
        }
        i = i + 1;
    }
    proof {
        assert(lines@.take(i as int) =~= lines@);
    }
    r
}

/// Normalizes the lines and keeps the non-empty results.
fn clean_lines(ls: &[String], from: usize, to: usize) -> (r: Vec<String>)
    requires
        from <= to <= ls@.len(),
    ensures
        line_views(r@) == clean_texts(line_views(ls@).subrange(from as int, to as int)),
{
    let mut r: Vec<String> = Vec::new();
    let mut i: usize = from;
    while i < to
        invariant
            from <= i <= to <= ls@.len(),
            line_views(r@) == clean_texts(line_views(ls@).subrange(from as int, i as int)),
        decreases to - i,
    {
        let n = normalize_line(ls[i].as_str());
        proof {
            let t = line_views(ls@).subrange(from as int, i + 1);
            assert(t.drop_last() =~= line_views(ls@).subrange(from as int, i as int));
            assert(t.last() == ls@[i as int]@);
        }
        if !n.as_str().is_empty() {
            r.push(n);
        }
        proof {
            assert(line_views(r@) =~= clean_texts(line_views(ls@).subrange(from as int, i + 1)));
        }
        i = i + 1;
    }
    r
}

/// Whether the lines at `k` are exactly `a`.
fn window_matches(src: &[String], a: &Vec<String>, k: usize) -> (r: bool)
    requires
        k + a@.len() <= src@.len(),
    ensures
        r == window_eq(line_views(src@), line_views(a@), k as int),
{
    let n = src.len();
    let mut j: usize = 0;
    while j < a.len()
        invariant
            n == src@.len(),
            k + a@.len() <= src@.len(),
            j <= a@.len(),
            forall|q: int| 0 <= q < j ==> src@[k + q]@ == (#[trigger] a@[q])@,
        decreases a@.len() - j,
    {
        if src[k + j] != a[j] {
            proof {
                let w = line_views(src@).subrange(k as int, k + a@.len());
                assert(w[j as int] != line_views(a@)[j as int]);
            }
            return false;
        }
        j = j + 1;
    }
    assert(line_views(src@).subrange(k as int, k + a@.len()) =~= line_views(a@));
    true
}

/// Finds the first place at or after `min_line` where the hunk's anchor lines
/// stand verbatim.
pub fn find_strict_match(source_lines: &[String], hunk: &Hunk, min_line: usize) -> (r: Vec<HunkMatch>)
    ensures
        strict_result(r@, line_views(source_lines@), anchors(hunk@.lines), hunk.old_start, min_line),
{
    let a = anchor_lines(&hunk.lines);
    let ghost src = line_views(source_lines@);
    let ghost av = line_views(a@);
    if a.len() == 0 {
        let start = if hunk.old_start >= min_line {
            hunk.old_start
        } else {
            min_line
        };
        let r = vec![HunkMatch { start_index: start, matched_length: 0, score: SCORE_SCALE, density: SCORE_SCALE }];
        assert(r@ =~= seq![insertion_match(hunk.old_start, min_line)]);
        return r;
    }
    if a.len() > source_lines.len() || min_line > source_lines.len() - a.len() {
        proof {
            assert forall|k: int| k >= min_line implies !#[trigger] window_eq(src, av, k) by {}
        }
        return Vec::new();
    }
    let n = source_lines.len();
    let last = n - a.len();
    let mut k: usize = min_line;
    while k <= last
        invariant
            min_line <= k,
            n == source_lines@.len(),
            last == source_lines@.len() - a@.len(),
            a@.len() > 0,
            src == line_views(source_lines@),
            av == line_views(a@),
            av == anchors(hunk@.lines),
            forall|q: int| min_line <= q < k ==> !#[trigger] window_eq(src, av, q),
        decreases last + 1 - k,
    {
        if window_matches(source_lines, &a, k) {
            let r = vec![HunkMatch { start_index: k, matched_length: a.len(), score: SCORE_SCALE, density: SCORE_SCALE }];
            proof {
                assert(window_eq(src, av, k as int));
                assert(r@[0].start_index == k);
            }
            return r;
        }
        k = k + 1;
    }
    proof {
        assert forall|q: int| q >= min_line implies !#[trigger] window_eq(src, av, q) by {}
    }
    Vec::new()
}

/// Replaces `matched_length` lines at `start_index` by the hunk's context and
/// addition lines.
pub fn apply_hunk(source_lines: &[String], hunk: &Hunk, start_index: usize, matched_length: usize) -> (r: Vec<String>)
    requires
        start_index <= source_lines@.len(),
    ensures
        line_views(r@) == line_views(source_lines@).take(start_index as int) + new_side(hunk@.lines)
            + line_views(source_lines@).skip(
            if start_index + matched_length < source_lines@.len() {
                start_index + matched_length
            } else {
                source_lines@.len() as int
            },
        ),
{
    let ghost src = line_views(source_lines@);
    let mut r: Vec<String> = Vec::new();
    let mut i: usize = 0;
    while i < start_index
        invariant
            i <= start_index <= source_lines@.len(),
            src == line_views(source_lines@),
            line_views(r@) == src.take(i as int),
        decreases start_index - i,
    {
        let s = source_lines[i].clone();
        assert(s@ == src[i as int]);
        let ghost before = r@;
        r.push(s);
        proof {
            lemma_line_views_push(before, s);
            assert(src.take(i + 1) =~= src.take(i as int).push(src[i as int]));
        }
        i = i + 1;
    }
    let ghost head = line_views(r@);
    let mut j: usize = 0;
    while j < hunk.lines.len()
        invariant
            j <= hunk.lines@.len(),
            line_views(r@) == head + new_side(hunk.lines@.take(j as int).map_values(|l: Line| l@)),
        decreases hunk.lines@.len() - j,
    {
        proof {
            let t = hunk.lines@.take(j + 1).map_values(|l: Line| l@);
            assert(t.drop_last() =~= hunk.lines@.take(j as int).map_values(|l: Line| l@));
            assert(t.last() == hunk.lines@[j as int]@);
        }
        let ghost before = r@;
        match &hunk.lines[j] {
            Line::Context(s) => {
                let c = s.clone();
                r.push(c);
                proof {
                    lemma_line_views_push(before, c);
                }
            },
            Line::Addition(s) => {
                let c = s.clone();
                r.push(c);
                proof {
                    lemma_line_views_push(before, c);
                }
            },
            Line::Removal(_) => {},
        }
        proof {
            assert(line_views(r@) =~= head + new_side(
                hunk.lines@.take(j + 1).map_values(|l: Line| l@),
            ));
        }
        j = j + 1;
    }
    proof {
        assert(hunk.lines@.take(j as int) =~= hunk.lines@);
    }
    let ghost mid = line_views(r@);
    let end: usize = if matched_length < source_lines.len() - start_index {
        start_index + matched_length
    } else {
        source_lines.len()
    };
    let mut t: usize = end;
    while t < source_lines.len()
        invariant
            end <= t <= source_lines@.len(),
            src == line_views(source_lines@),
            line_views(r@) == mid + src.subrange(end as int, t as int),
        decreases source_lines@.len() - t,
    {
        let s = source_lines[t].clone();
        assert(s@ == src[t as int]);
        let ghost before = r@;
        r.push(s);
        proof {
            lemma_line_views_push(before, s);
            assert(src.subrange(end as int, t + 1) =~= src.subrange(end as int, t as int).push(src[t as int]));
            assert(line_views(r@) =~= mid + src.subrange(end as int, t + 1));
        }
        t = t + 1;
    }
    assert(src.subrange(end as int, t as int) =~= src.skip(end as int));
    r
}

/// Clean-map entries `k..k + ca.len()` carry the texts `ca`.
pub open spec fn clean_window_eq(cm: Seq<(usize, Seq<char>)>, ca: Seq<Seq<char>>, k: int) -> bool {
    &&& 0 <= k
    &&& k + ca.len() <= cm.len()
    &&& forall|j: int| 0 <= j < ca.len() ==> (#[trigger] cm[k + j]).1 == ca[j]
}

/// The whitespace-insensitive match whose window starts at clean-map entry `k`
/// and spans `m` entries.
pub open spec fn tier1_match(cm: Seq<(usize, Seq<char>)>, m: int, k: int) -> HunkMatch {
    let start = cm[k].0 as int;
    let len = cm[k + m - 1].0 - start + 1;
    HunkMatch {
        start_index: start as usize,
        matched_length: len as usize,
        score: WHITESPACE_MATCH_SCORE,
        density: (SCORE_SCALE * m / len) as u128,
    }
}

/// The whitespace-insensitive matches among windows starting at entries
/// before `n`, in order.
pub open spec fn tier1_candidates(
    cm: Seq<(usize, Seq<char>)>,
    ca: Seq<Seq<char>>,
    min_line: usize,
    n: int,
) -> Seq<HunkMatch>
    decreases n,
{
    if n <= 0 {
        Seq::empty()
    } else {
        let p = tier1_candidates(cm, ca, min_line, n - 1);
        if cm[n - 1].0 >= min_line && clean_window_eq(cm, ca, n - 1) {
            p.push(tier1_match(cm, ca.len() as int, n - 1))
        } else {
            p
        }
    }
}

fn clean_window_matches(cm: &CleanMap, ca: &Vec<String>, k: usize) -> (r: bool)
    requires
        k + ca@.len() <= cm@.len(),
    ensures
        r == clean_window_eq(clean_view(cm@), line_views(ca@), k as int),
{
    let n = cm.len();
    let mut j: usize = 0;
    while j < ca.len()
        invariant
            n == cm@.len(),
            k + ca@.len() <= cm@.len(),
            j <= ca@.len(),
            forall|q: int| 0 <= q < j ==> (#[trigger] cm@[k + q]).1@ == ca@[q]@,
        decreases ca@.len() - j,
    {
        if cm[k + j].1 != ca[j] {
            proof {
                let cv = clean_view(cm@);
                assert(cv[k + j].1 == cm@[k + j].1@);
                assert(cv[k + j].1 != line_views(ca@)[j as int]);
            }
            return false;
        }
        j = j + 1;
    }
    proof {
        let cv = clean_view(cm@);
        assert forall|q: int| 0 <= q < ca@.len() implies (#[trigger] cv[k + q]).1 == line_views(ca@)[q] by {
            assert(cm@[k + q].1@ == ca@[q]@);
        }
    }
    true
}

/// Slides the normalized anchors over the clean map.
fn whitespace_insensitive_candidates(cm: &CleanMap, ca: &Vec<String>, min_line: usize) -> (r: Vec<HunkMatch>)
    requires
        ca@.len() > 0,
        ascending_within(clean_view(cm@), usize::MAX as int),
    ensures
        r@ == tier1_candidates(clean_view(cm@), line_views(ca@), min_line, cm@.len() as int),
{
    let ghost cv = clean_view(cm@);
    let ghost cav = line_views(ca@);
    let m = ca.len();
    let mut r: Vec<HunkMatch> = Vec::new();
    let mut k: usize = 0;
    while k < cm.len()
        invariant
            k <= cm@.len(),
            m == ca@.len(),
            m > 0,
            cv == clean_view(cm@),
            cav == line_views(ca@),
            ascending_within(cv, usize::MAX as int),
            r@ == tier1_candidates(cv, cav, min_line, k as int),
        decreases cm@.len() - k,
    {
        if cm[k].0 >= min_line && m <= cm.len() - k && clean_window_matches(cm, ca, k) {
            let start = cm[k].0;
            let end = cm[k + m - 1].0;
            proof {
                assert(cv[k as int].0 == start && cv[k + m - 1].0 == end);
                if m > 1 {
                    assert(cv[k as int].0 < cv[k + m - 1].0);
                }
            }
            let len = end - start + 1;
            let density = SCORE_SCALE * (m as u128) / (len as u128);
            r.push(HunkMatch { start_index: start, matched_length: len, score: WHITESPACE_MATCH_SCORE, density });
        } else {
            proof {
                if cv[k as int].0 >= min_line && clean_window_eq(cv, cav, k as int) {
                    assert(m <= cm@.len() - k);
                }
            }
        }
        k = k + 1;
    }
    r
}

/// Length of a longest common subsequence of `a` and `b`.
pub open spec fn lcs_len(a: Seq<Seq<char>>, b: Seq<Seq<char>>) -> nat
    decreases a.len() + b.len(),
{
    if a.len() == 0 || b.len() == 0 {
        0
    } else if a.last() == b.last() {
        1 + lcs_len(a.drop_last(), b.drop_last())
    } else {
        let x = lcs_len(a.drop_last(), b);
        let y = lcs_len(a, b.drop_last());
        if x >= y {
            x
        } else {
            y
        }
    }
}

/// Relies on `lcs::LcsTable`: `new` fills the table of common-subsequence
/// lengths of all prefixes, and `longest_common_subsequence` walks it back into
/// one longest common subsequence, whose length is `lcs_len`.
#[verifier::external_body]
fn lcs_length(a: &Vec<String>, b: &Vec<String>) -> (r: usize)
    ensures
        r == lcs_len(line_views(a@), line_views(b@)),
{
    lcs::LcsTable::new(a, b).longest_common_subsequence().len()
}

/// The share of the `m` normalized anchors that a candidate keeps in order.
pub open spec fn lcs_ratio(lcs: int, m: int) -> int {
    SCORE_SCALE * lcs / m
}

/// Anchor lines per line of a span.
pub open spec fn density_of(m: int, len: int) -> int {
    SCORE_SCALE * m / len
}

/// The weighted score of an anchor-heuristic candidate, capped at 1.0 (a
/// span shorter than the anchor lines has a density above 1.0).
pub open spec fn heuristic_score(lcs_r: int, density: int) -> int {
    let raw = (LCS_WEIGHT * lcs_r + DENSITY_WEIGHT * density) / SCORE_WEIGHT_TOTAL as int;
    if raw < SCORE_SCALE {
        raw
    } else {
        SCORE_SCALE as int
    }
}

/// The score after the indentation bonus, which never lifts a score above 1.0.
pub open spec fn with_indent_bonus(score: int, same_indent: bool) -> int {
    if same_indent {
        if score + INDENT_BONUS < SCORE_SCALE {
            score + INDENT_BONUS
        } else {
            SCORE_SCALE as int
        }
    } else {
        score
    }
}

/// The score of an anchor-heuristic candidate from its LCS length, its
/// density and whether its first line is indented as the top anchor.
pub open spec fn candidate_score(lcs: int, m: int, density: int, same_indent: bool) -> int {
    with_indent_bonus(heuristic_score(lcs_ratio(lcs, m), density), same_indent)
}

/// Anchor lines of an anchor-heuristic candidate are ranked by the UTF-8
/// length of their trimmed text.
pub open spec fn anchor_weight(l: Seq<char>) -> nat {
    utf8_len(trim(l))
}

/// The longest non-blank line of `s` (the last of equally long ones).
pub open spec fn best_anchor(s: Seq<Seq<char>>) -> Option<Seq<char>>
    decreases s.len(),
{
    if s.len() == 0 {
        None
    } else {
        let p = best_anchor(s.drop_last());
        let x = s.last();
        if trim(x).len() == 0 {
            p
        } else {
            match p {
                None => Some(x),
                Some(y) => if anchor_weight(x) >= anchor_weight(y) {
                    Some(x)
                } else {
                    p
                },
            }
        }
    }
}

/// The top and bottom anchors: the best of each half of the anchor lines, or
/// the first and last anchor lines.
pub open spec fn anchor_pair(a: Seq<Seq<char>>) -> (Seq<char>, Seq<char>) {
    if a.len() > 2 {
        let mid = a.len() / 2;
        match (best_anchor(a.take(mid as int)), best_anchor(a.skip(mid as int))) {
            (Some(t), Some(b)) => (t, b),
            _ => (a[0], a.last()),
        }
    } else {
        (a[0], a.last())
    }
}

/// How far below its top anchor a candidate's bottom anchor may lie.
pub open spec fn search_window(lines: Seq<LineModel>) -> int {
    let slack = if WINDOW_SLACK_PER_CHANGE * change_count(lines) > MIN_WINDOW_SLACK {
        WINDOW_SLACK_PER_CHANGE * change_count(lines)
    } else {
        MIN_WINDOW_SLACK as int
    };
    let w = anchors(lines).len() + slack;
    if w < MAX_SEARCH_WINDOW {
        w
    } else {
        MAX_SEARCH_WINDOW as int
    }
}

/// The anchor-heuristic candidate spanning lines `t..=b`.
pub open spec fn tier2_match(src: Seq<Seq<char>>, ca: Seq<Seq<char>>, top: Seq<char>, t: int, b: int) -> HunkMatch {
    let len = b - t + 1;
    let density = density_of(ca.len() as int, len);
    let block = clean_texts(src.subrange(t, b + 1));
    let lcs = if block.len() == 0 {
        0
    } else {
        lcs_len(ca, block) as int
    };
    HunkMatch {
        start_index: t as usize,
        matched_length: len as usize,
        score: candidate_score(lcs, ca.len() as int, density, indentation(top) == indentation(src[t]))
            as u128,
        density: density as u128,
    }
}

/// The candidate spanning `t..=b` can reach the threshold by density, and does.
pub open spec fn tier2_keeps(
    src: Seq<Seq<char>>,
    ca: Seq<Seq<char>>,
    top: Seq<char>,
    t: int,
    b: int,
    threshold: u128,
) -> bool {
    &&& heuristic_score(SCORE_SCALE as int, density_of(ca.len() as int, b - t + 1)) >= threshold
    &&& tier2_match(src, ca, top, t, b).score >= threshold
}

/// The kept candidates from top anchor line `t` to the first `n` bottom
/// anchor lines that lie below it within the window.
pub open spec fn tier2_for_top(
    src: Seq<Seq<char>>,
    ca: Seq<Seq<char>>,
    top: Seq<char>,
    bottoms: Seq<usize>,
    t: int,
    w: int,
    threshold: u128,
    n: int,
) -> Seq<HunkMatch>
    decreases n,
{
    if n <= 0 {
        Seq::empty()
    } else {
        let p = tier2_for_top(src, ca, top, bottoms, t, w, threshold, n - 1);
        let b = bottoms[n - 1] as int;
        if t < b && b < t + w && b < src.len() && tier2_keeps(src, ca, top, t, b, threshold) {
            p.push(tier2_match(src, ca, top, t, b))
        } else {
            p
        }
    }
}

/// The kept candidates from the first `n` top anchor lines at or after
/// `min_line`.
pub open spec fn tier2_candidates(
    src: Seq<Seq<char>>,
    ca: Seq<Seq<char>>,
    top: Seq<char>,
    tops: Seq<usize>,
    bottoms: Seq<usize>,
    w: int,
    min_line: usize,
    threshold: u128,
    n: int,
) -> Seq<HunkMatch>
    decreases n,
{
    if n <= 0 {
        Seq::empty()
    } else {
        let p = tier2_candidates(src, ca, top, tops, bottoms, w, min_line, threshold, n - 1);
        let t = tops[n - 1] as int;
        if t >= min_line {
            p + tier2_for_top(src, ca, top, bottoms, t, w, threshold, bottoms.len() as int)
        } else {
            p
        }
    }
}

/// All anchor-heuristic candidates for hunk lines `lines` in `src`.
pub open spec fn tier2_all(
    src: Seq<Seq<char>>,
    cm: Seq<(usize, Seq<char>)>,
    lines: Seq<LineModel>,
    min_line: usize,
    threshold: u128,
) -> Seq<HunkMatch> {
    let a = anchors(lines);
    let ca = clean_texts(a);
    let (top, bottom) = anchor_pair(a);
    let tops = occurrences(cm, normalize(top), cm.len() as int);
    let bottoms = occurrences(cm, normalize(bottom), cm.len() as int);
    tier2_candidates(src, ca, top, tops, bottoms, search_window(lines), min_line, threshold, tops.len() as int)
}

/// The index of the longest non-blank line among `s[from..to]`.
fn find_best_anchor_in_slice(s: &Vec<String>, from: usize, to: usize) -> (r: Option<usize>)
    requires
        from <= to <= s@.len(),
    ensures
        match r {
            None => best_anchor(line_views(s@).subrange(from as int, to as int)) is None,
            Some(i) => from <= i < to && best_anchor(line_views(s@).subrange(from as int, to as int))
                == Some(s@[i as int]@),
        },
{
    let mut best: Option<usize> = None;
    let mut best_weight: u128 = 0;
    let mut i: usize = from;
    while i < to
        invariant
            from <= i <= to <= s@.len(),
            match best {
                None => best_anchor(line_views(s@).subrange(from as int, i as int)) is None,
                Some(k) => from <= k < i && best_anchor(line_views(s@).subrange(from as int, i as int))
                    == Some(s@[k as int]@) && best_weight == anchor_weight(s@[k as int]@),
            },
        decreases to - i,
    {
        let cs = chars_of(s[i].as_str());
        let trimmed = trim_chars(&cs);
        proof {
            let sub = line_views(s@).subrange(from as int, i + 1);
            assert(sub.drop_last() =~= line_views(s@).subrange(from as int, i as int));
            assert(sub.last() == s@[i as int]@);
        }
        if trimmed.len() > 0 {
            let w = utf8_len_of(&trimmed);
            match best {
                None => {
                    best = Some(i);
                    best_weight = w;
                },
                Some(_) => {
                    if w >= best_weight {
                        best = Some(i);
                        best_weight = w;
                    }
                },
            }
        }
        i = i + 1;
    }
    best
}

/// The top and bottom anchor lines of a hunk with anchor lines `a`.
fn pick_anchor_pair(a: &Vec<String>) -> (r: (usize, usize))
    requires
        a@.len() > 0,
    ensures
        r.0 < a@.len(),
        r.1 < a@.len(),
        anchor_pair(line_views(a@)) == (a@[r.0 as int]@, a@[r.1 as int]@),
{
    let n = a.len();
    let ghost av = line_views(a@);
    if n > 2 {
        let mid = n / 2;
        let top = find_best_anchor_in_slice(a, 0, mid);
        let bottom = find_best_anchor_in_slice(a, mid, n);
        proof {
            assert(av.subrange(0, mid as int) =~= av.take(mid as int));
            assert(av.subrange(mid as int, n as int) =~= av.skip(mid as int));
        }
        match (top, bottom) {
            (Some(t), Some(b)) => (t, b),
            _ => (0, n - 1),
        }
    } else {
        (0, n - 1)
    }
}

fn count_changes(lines: &Vec<Line>) -> (r: usize)
    ensures
        r == change_count(lines@.map_values(|l: Line| l@)),
{
    let mut r: usize = 0;
    let mut i: usize = 0;
    while i < lines.len()
        invariant
            i <= lines@.len(),
            r <= i,
            r == change_count(lines@.take(i as int).map_values(|l: Line| l@)),
        decreases lines@.len() - i,
    {
        proof {
            let t = lines@.take(i + 1).map_values(|l: Line| l@);
            assert(t.drop_last() =~= lines@.take(i as int).map_values(|l: Line| l@));
            assert(t.last() == lines@[i as int]@);
        }
        match &lines[i] {
            Line::Context(_) => {},
            _ => {
                r = r + 1;
            },
        }
        i = i + 1;
    }
    proof {
        assert(lines@.take(i as int) =~= lines@);
    }
    r
}

/// Scores the candidate spanning lines `t..=b`; `None` when it falls short of
/// the threshold.
fn score_candidate(
    src: &[String],
    ca: &Vec<String>,
    top_indent: &Vec<char>,
    t: usize,
    b: usize,
    threshold: u128,
    Ghost(top): Ghost<Seq<char>>,
) -> (r: Option<HunkMatch>)
    requires
        t < b < src@.len(),
        ca@.len() > 0,
        top_indent@ == indentation(top),
    ensures
        r == if tier2_keeps(line_views(src@), line_views(ca@), top, t as int, b as int, threshold) {
            Some(tier2_match(line_views(src@), line_views(ca@), top, t as int, b as int))
        } else {
            None::<HunkMatch>
        },
{
    let ghost sv = line_views(src@);
    let ghost cav = line_views(ca@);
    let n = src.len();
    let m = ca.len() as u128;
    let len = b - t + 1;
    let density = SCORE_SCALE * m / (len as u128);
    let upper_raw = (LCS_WEIGHT * SCORE_SCALE + DENSITY_WEIGHT * density) / SCORE_WEIGHT_TOTAL;
    let upper = if upper_raw < SCORE_SCALE {
        upper_raw
    } else {
        SCORE_SCALE
    };
    if upper < threshold {
        return None;
    }
    let block = clean_lines(src, t, b + 1);
    let lcs: usize = if block.len() == 0 {
        0
    } else {
        lcs_length(ca, &block)
    };
    let ratio = SCORE_SCALE * (lcs as u128) / m;
    let weighted = (LCS_WEIGHT * ratio + DENSITY_WEIGHT * density) / SCORE_WEIGHT_TOTAL;
    let raw = if weighted < SCORE_SCALE {
        weighted
    } else {
        SCORE_SCALE
    };
    let line_chars = chars_of(src[t].as_str());
    let indent = get_indentation(&line_chars);
    let score = if same_chars(top_indent, &indent) {
        if raw + INDENT_BONUS < SCORE_SCALE {
            raw + INDENT_BONUS
        } else {
            SCORE_SCALE
        }
    } else {
        raw
    };
    proof {
        assert(sv[t as int] == src@[t as int]@);
    }
    if score >= threshold {
        Some(HunkMatch { start_index: t, matched_length: len, score, density })
    } else {
        None
    }
}

/// The anchor-heuristic search: spans between occurrences of the top and the
/// bottom anchor, scored by LCS and density.
fn anchor_heuristic_candidates(
    src: &[String],
    cm: &CleanMap,
    index: &IndexMap,
    hunk: &Hunk,
    a: &Vec<String>,
    ca: &Vec<String>,
    min_line: usize,
    threshold: u128,
) -> (r: Vec<HunkMatch>)
    requires
        tables_of(cm@, index@, src@),
        line_views(a@) == anchors(hunk@.lines),
        line_views(ca@) == clean_texts(line_views(a@)),
        a@.len() > 0,
        ca@.len() > 0,
    ensures
        r@ == tier2_all(line_views(src@), clean_view(cm@), hunk@.lines, min_line, threshold),
{
    let ghost sv = line_views(src@);
    let ghost cav = line_views(ca@);
    let changes = count_changes(&hunk.lines);
    let slack: u128 = if (WINDOW_SLACK_PER_CHANGE as u128) * (changes as u128) > MIN_WINDOW_SLACK as u128 {
        (WINDOW_SLACK_PER_CHANGE as u128) * (changes as u128)
    } else {
        MIN_WINDOW_SLACK as u128
    };
    let w0: u128 = a.len() as u128 + slack;
    let w: u128 = if w0 < MAX_SEARCH_WINDOW as u128 {
        w0
    } else {
        MAX_SEARCH_WINDOW as u128
    };
    let (ti, bi) = pick_anchor_pair(a);
    let ghost top = a@[ti as int]@;
    let top_norm = normalize_line(a[ti].as_str());
    let bottom_norm = normalize_line(a[bi].as_str());
    let tops = lookup(cm, index, &top_norm);
    let bottoms = lookup(cm, index, &bottom_norm);
    let top_chars = chars_of(a[ti].as_str());
    let top_indent = get_indentation(&top_chars);
    proof {
        assert(w == search_window(hunk@.lines));
        assert(anchor_pair(anchors(hunk@.lines)).0 == top);
    }
    let mut r: Vec<HunkMatch> = Vec::new();
    let mut x: usize = 0;
    while x < tops.len()
        invariant
            x <= tops@.len(),
            sv == line_views(src@),
            cav == line_views(ca@),
            cav.len() > 0,
            w <= MAX_SEARCH_WINDOW,
            top_indent@ == indentation(top),
            r@ == tier2_candidates(sv, cav, top, tops@, bottoms@, w as int, min_line, threshold, x as int),
        decreases tops@.len() - x,
    {
        let t = tops[x];
        if t >= min_line {
            let ghost base = r@;
            let mut y: usize = 0;
            while y < bottoms.len()
                invariant
                    y <= bottoms@.len(),
                    x < tops@.len(),
                    t == tops@[x as int],
                    w <= MAX_SEARCH_WINDOW,
                    sv == line_views(src@),
                    cav == line_views(ca@),
                    cav.len() > 0,
                    top_indent@ == indentation(top),
                    r@ == base + tier2_for_top(sv, cav, top, bottoms@, t as int, w as int, threshold, y as int),
                decreases bottoms@.len() - y,
            {
                let b = bottoms[y];
                if t < b && (b as u128) < (t as u128) + w && b < src.len() {
                    match score_candidate(src, ca, &top_indent, t, b, threshold, Ghost(top)) {
                        Some(m) => {
                            r.push(m);
                        },
                        None => {},
                    }
                }
                proof {
                    assert(r@ =~= base + tier2_for_top(sv, cav, top, bottoms@, t as int, w as int, threshold, y + 1));
                }
                y = y + 1;
            }
        }
        x = x + 1;
    }
    r
}

/// `ms` after the proximity bonus for a hunk recorded at line `old_start`.
pub open spec fn with_proximity_all(ms: Seq<HunkMatch>, old_start: usize) -> Seq<HunkMatch> {
    ms.map_values(|m: HunkMatch| with_proximity(m, old_start))
}

/// `r` is what the fuzzy search returns for hunk `h` in lines `src`, whose
/// clean map is `cm`.
pub open spec fn fuzzy_result(
    r: Seq<HunkMatch>,
    src: Seq<Seq<char>>,
    cm: Seq<(usize, Seq<char>)>,
    h: crate::diff::HunkModel,
    o: MatchOptions,
) -> bool {
    let a = anchors(h.lines);
    let ca = clean_texts(a);
    if a.len() == 0 {
        r == seq![insertion_match(h.old_start, o.min_line)]
    } else if ca.len() == 0 {
        r.len() == 0
    } else {
        let t1 = tier1_candidates(cm, ca, o.min_line, cm.len() as int);
        if o.fuzziness >= 1 && t1.len() > 0 {
            is_dedup_of(r, with_proximity_all(t1, h.old_start))
        } else {
            let t2 = if o.fuzziness >= 2 {
                tier2_all(src, cm, h.lines, o.min_line, o.match_threshold)
            } else {
                Seq::empty()
            };
            is_dedup_of(r, with_proximity_all(t2, h.old_start))
        }
    }
}

fn bonus_and_dedup(ms: Vec<HunkMatch>, old_start: usize) -> (r: Vec<HunkMatch>)
    ensures
        is_dedup_of(r@, with_proximity_all(ms@, old_start)),
{
    let ghost orig = ms@;
    let mut ms = ms;
    apply_proximity_bonus(&mut ms, old_start);
    assert(ms@ =~= with_proximity_all(orig, old_start));
    deduplicate_matches(ms)
}

/// Searches for the hunk whitespace-insensitively (fuzziness 1 and up) and
/// then by its top and bottom anchors (fuzziness 2), from `min_line` on.
pub fn find_fuzzy_match(
    source_lines: &[String],
    clean_source_map: &CleanMap,
    clean_index_map: &IndexMap,
    hunk: &Hunk,
    options: MatchOptions,
) -> (r: Vec<HunkMatch>)
    requires
        tables_of(clean_source_map@, clean_index_map@, source_lines@),
    ensures
        fuzzy_result(r@, line_views(source_lines@), clean_view(clean_source_map@), hunk@, options),
        scores_bounded(r@),
{
    let a = anchor_lines(&hunk.lines);
    if a.len() == 0 {
        let start = if hunk.old_start >= options.min_line {
            hunk.old_start
        } else {
            options.min_line
        };
        let r = vec![HunkMatch { start_index: start, matched_length: 0, score: SCORE_SCALE, density: SCORE_SCALE }];
        assert(r@ =~= seq![insertion_match(hunk.old_start, options.min_line)]);
        return r;
    }
    let ca = clean_lines(a.as_slice(), 0, a.len());
    assert(line_views(a@).subrange(0, a@.len() as int) =~= line_views(a@));
    if ca.len() == 0 {
        return Vec::new();
    }
    let n = source_lines.len();
    proof {
        assert(line_views(source_lines@).len() == n);
        lemma_clean_entries_ascending(line_views(source_lines@));
        assert(ascending_within(clean_view(clean_source_map@), usize::MAX as int));
    }
    if options.fuzziness >= 1 {
        let t1 = whitespace_insensitive_candidates(clean_source_map, &ca, options.min_line);
        if t1.len() > 0 {
            let r = bonus_and_dedup(t1, hunk.old_start);
            proof {
                lemma_fuzzy_scores_bounded(
                    r@,
                    line_views(source_lines@),
                    clean_view(clean_source_map@),
                    hunk@,
                    options,
                );
            }
            return r;
        }
    }
    let mut t2: Vec<HunkMatch> = Vec::new();
    if options.fuzziness >= 2 {
        t2 = anchor_heuristic_candidates(
            source_lines,
            clean_source_map,
            clean_index_map,
            hunk,
            &a,
            &ca,
            options.min_line,
            options.match_threshold,
        );
    }
    assert(options.fuzziness < 2 ==> t2@ =~= Seq::<HunkMatch>::empty());
    let r = bonus_and_dedup(t2, hunk.old_start);
    proof {
        lemma_fuzzy_scores_bounded(
            r@,
            line_views(source_lines@),
            clean_view(clean_source_map@),
            hunk@,
            options,
        );
    }
    r
}

/// Some window from line 0 on holds the anchor lines `a` verbatim.
pub open spec fn occurs_verbatim(src: Seq<Seq<char>>, a: Seq<Seq<char>>) -> bool {
    exists|k: int| k >= 0 && #[trigger] window_eq(src, a, k)
}

/// Locates a hunk: first verbatim, then, where that fails, fuzzily at the
/// given fuzziness and threshold. The search covers the whole file.
pub fn find_hunk_location(
    source_lines: &[String],
    clean_source_map: &CleanMap,
    clean_index_map: &IndexMap,
    hunk: &Hunk,
    fuzziness: u8,
    match_threshold: u128,
) -> (r: Vec<HunkMatch>)
    requires
        tables_of(clean_source_map@, clean_index_map@, source_lines@),
    ensures
        ({
            let a = anchors(hunk@.lines);
            let src = line_views(source_lines@);
            if a.len() == 0 || occurs_verbatim(src, a) {
                strict_result(r@, src, a, hunk.old_start, 0)
            } else {
                fuzzy_result(
                    r@,
                    src,
                    clean_view(clean_source_map@),
                    hunk@,
                    MatchOptions { fuzziness, min_line: 0, match_threshold },
                )
            }
        }),
        scores_bounded(r@),
{
    let strict = find_strict_match(source_lines, hunk, 0);
    if strict.len() > 0 {
        return strict;
    }
    find_fuzzy_match(
        source_lines,
        clean_source_map,
        clean_index_map,
        hunk,
        MatchOptions { fuzziness, min_line: 0, match_threshold },
    )
}

/// An anchor-heuristic score never falls when the LCS length grows, nor when
/// the density grows, the other held fixed.
pub proof fn lemma_candidate_score_monotonic(
    lcs1: int,
    lcs2: int,
    m: int,
    density1: int,
    density2: int,
    same_indent: bool,
)
    requires
        0 <= lcs1 <= lcs2,
        0 < m,
        0 <= density1 <= density2,
    ensures
        candidate_score(lcs1, m, density1, same_indent) <= candidate_score(lcs2, m, density1, same_indent),
        candidate_score(lcs1, m, density1, same_indent) <= candidate_score(lcs1, m, density2, same_indent),
{
    assert(SCORE_SCALE * lcs1 <= SCORE_SCALE * lcs2) by (nonlinear_arith)
        requires
            0 <= lcs1 <= lcs2,
    ;
    vstd::arithmetic::div_mod::lemma_div_is_ordered(SCORE_SCALE * lcs1, SCORE_SCALE * lcs2, m);
    let r1 = lcs_ratio(lcs1, m);
    let r2 = lcs_ratio(lcs2, m);
    vstd::arithmetic::div_mod::lemma_div_is_ordered(
        LCS_WEIGHT * r1 + DENSITY_WEIGHT * density1,
        LCS_WEIGHT * r2 + DENSITY_WEIGHT * density1,
        SCORE_WEIGHT_TOTAL as int,
    );
    vstd::arithmetic::div_mod::lemma_div_is_ordered(
        LCS_WEIGHT * r1 + DENSITY_WEIGHT * density1,
        LCS_WEIGHT * r1 + DENSITY_WEIGHT * density2,
        SCORE_WEIGHT_TOTAL as int,
    );
}

/// The whitespace-insensitive candidates before `n` start at clean-map
/// entries before `n`, in ascending order, and score 0.9.
proof fn lemma_tier1_shape(cm: Seq<(usize, Seq<char>)>, ca: Seq<Seq<char>>, min_line: usize, n: int)
    requires
        n <= cm.len(),
        ascending_within(cm, usize::MAX as int),
    ensures
        forall|a: int|
            0 <= a < tier1_candidates(cm, ca, min_line, n).len() ==> exists|p: int|
                0 <= p < n && (#[trigger] tier1_candidates(cm, ca, min_line, n)[a]).start_index
                    == cm[p].0,
        forall|a: int|
            0 <= a < tier1_candidates(cm, ca, min_line, n).len() ==> (#[trigger] tier1_candidates(
                cm,
                ca,
                min_line,
                n,
            )[a]).score == WHITESPACE_MATCH_SCORE,
        forall|a: int, b: int|
            0 <= a < b < tier1_candidates(cm, ca, min_line, n).len() ==> (#[trigger] tier1_candidates(
                cm,
                ca,
                min_line,
                n,
            )[a]).start_index < (#[trigger] tier1_candidates(cm, ca, min_line, n)[b]).start_index,
    decreases n,
{
    if n > 0 {
        lemma_tier1_shape(cm, ca, min_line, n - 1);
        let p = tier1_candidates(cm, ca, min_line, n - 1);
        let q = tier1_candidates(cm, ca, min_line, n);
        assert forall|a: int| 0 <= a < p.len() implies q[a] == p[a] by {}
        assert forall|a: int| 0 <= a < p.len() implies (#[trigger] p[a]).start_index < cm[n - 1].0 by {
            let pp = choose|pp: int| 0 <= pp < n - 1 && p[a].start_index == cm[pp].0;
        }
        assert forall|a: int| 0 <= a < q.len() implies exists|pp: int|
            0 <= pp < n && (#[trigger] q[a]).start_index == cm[pp].0 by {
            if a < p.len() {
                let pp = choose|pp: int| 0 <= pp < n - 1 && p[a].start_index == cm[pp].0;
            } else {
                assert(q[a].start_index == cm[n - 1].0);
            }
        }
        assert forall|a: int, b: int| 0 <= a < b < q.len() implies (#[trigger] q[a]).start_index
            < (#[trigger] q[b]).start_index by {
            if b >= p.len() {
                assert(q[a] == p[a]);
                assert(q[b].start_index == cm[n - 1].0);
            } else {
                assert(q[a] == p[a] && q[b] == p[b]);
            }
        }
    }
}

proof fn lemma_tier1_contains(cm: Seq<(usize, Seq<char>)>, ca: Seq<Seq<char>>, min_line: usize, k: int, n: int)
    requires
        0 <= k < n,
        clean_window_eq(cm, ca, k),
        cm[k].0 >= min_line,
    ensures
        tier1_candidates(cm, ca, min_line, n).contains(tier1_match(cm, ca.len() as int, k)),
    decreases n,
{
    let q = tier1_candidates(cm, ca, min_line, n);
    if n - 1 > k {
        lemma_tier1_contains(cm, ca, min_line, k, n - 1);
        let p = tier1_candidates(cm, ca, min_line, n - 1);
        let a = choose|a: int| 0 <= a < p.len() && p[a] == tier1_match(cm, ca.len() as int, k);
        assert(q[a] == p[a]);
    } else {
        assert(q[q.len() - 1] == tier1_match(cm, ca.len() as int, k));
    }
}

/// Where the non-blank lines from clean-map entry `k` on normalize to the
/// hunk's normalized anchor lines, so that they differ from them only in
/// whitespace, the whitespace-insensitive search offers the match that starts
/// at that entry's line and spans to the line of the last one, with a score of
/// at least 0.9 (for a hunk with a non-blank anchor line).
pub proof fn lemma_whitespace_block_found(
    r: Seq<HunkMatch>,
    src: Seq<Seq<char>>,
    cm: Seq<(usize, Seq<char>)>,
    h: crate::diff::HunkModel,
    o: MatchOptions,
    k: int,
)
    requires
        fuzzy_result(r, src, cm, h, o),
        cm == crate::lookup::clean_entries(src),
        src.len() <= usize::MAX,
        o.fuzziness >= 1,
        clean_texts(anchors(h.lines)).len() > 0,
        0 <= k < cm.len(),
        clean_window_eq(cm, clean_texts(anchors(h.lines)), k),
        cm[k].0 >= o.min_line,
    ensures
        exists|j: int|
            0 <= j < r.len() && (#[trigger] r[j]).start_index == cm[k].0 && r[j].matched_length
                == tier1_match(cm, clean_texts(anchors(h.lines)).len() as int, k).matched_length
                && r[j].score >= WHITESPACE_MATCH_SCORE,
{
    let ca = clean_texts(anchors(h.lines));
    assert(anchors(h.lines).len() > 0);
    lemma_clean_entries_ascending(src);
    assert(ascending_within(cm, usize::MAX as int));
    let n = cm.len() as int;
    let t1 = tier1_candidates(cm, ca, o.min_line, n);
    lemma_tier1_contains(cm, ca, o.min_line, k, n);
    lemma_tier1_shape(cm, ca, o.min_line, n);
    let i = choose|i: int| 0 <= i < t1.len() && t1[i] == tier1_match(cm, ca.len() as int, k);
    let ms = with_proximity_all(t1, h.old_start);
    // The candidates keep their distinct starts, and score between 0.9 and 1.0.
    assert forall|j: int| 0 <= j < ms.len() implies WHITESPACE_MATCH_SCORE <= (
    #[trigger] ms[j]).score <= SCORE_SCALE && ms[j].start_index == t1[j].start_index by {
        assert(t1[j].score == WHITESPACE_MATCH_SCORE);
    }
    assert(crate::scoring::is_kept(ms, i)) by {
        assert forall|j: int|
            0 <= j < ms.len() && (#[trigger] ms[j]).start_index == ms[i].start_index implies !crate::scoring::better(
            ms[j],
            ms[i],
        ) && (j < i ==> crate::scoring::better(ms[i], ms[j])) by {
            if j < i {
                assert(t1[j].start_index < t1[i].start_index);
            } else if j > i {
                assert(t1[i].start_index < t1[j].start_index);
            }
        }
    }
    crate::scoring::lemma_max_score(ms);
    let jm = choose|jm: int| 0 <= jm < ms.len() && (#[trigger] ms[jm]).score == crate::scoring::max_score(ms);
    assert(crate::scoring::within_band(ms[i].score, crate::scoring::max_score(ms)));
    assert(r.contains(ms[i]));
    let j = choose|j: int| 0 <= j < r.len() && r[j] == ms[i];
    assert(r[j].start_index == cm[k].0);
}

/// No score exceeds 1.0.
pub open spec fn scores_bounded(ms: Seq<HunkMatch>) -> bool {
    forall|k: int| 0 <= k < ms.len() ==> (#[trigger] ms[k]).score <= SCORE_SCALE
}

proof fn lemma_candidate_score_range(lcs: int, m: int, density: int, same_indent: bool)
    requires
        0 <= lcs,
        0 < m,
        0 <= density,
    ensures
        0 <= candidate_score(lcs, m, density, same_indent) <= SCORE_SCALE,
{
    assert(0 <= SCORE_SCALE * lcs) by (nonlinear_arith)
        requires
            0 <= lcs,
    ;
    vstd::arithmetic::div_mod::lemma_div_pos_is_pos(SCORE_SCALE * lcs, m);
    vstd::arithmetic::div_mod::lemma_div_pos_is_pos(
        LCS_WEIGHT * lcs_ratio(lcs, m) + DENSITY_WEIGHT * density,
        SCORE_WEIGHT_TOTAL as int,
    );
}

proof fn lemma_tier1_scores(cm: Seq<(usize, Seq<char>)>, ca: Seq<Seq<char>>, min_line: usize, n: int)
    ensures
        scores_bounded(tier1_candidates(cm, ca, min_line, n)),
    decreases n,
{
    if n > 0 {
        lemma_tier1_scores(cm, ca, min_line, n - 1);
    }
}

proof fn lemma_tier2_for_top_scores(
    src: Seq<Seq<char>>,
    ca: Seq<Seq<char>>,
    top: Seq<char>,
    bottoms: Seq<usize>,
    t: int,
    w: int,
    threshold: u128,
    n: int,
)
    requires
        ca.len() > 0,
    ensures
        scores_bounded(tier2_for_top(src, ca, top, bottoms, t, w, threshold, n)),
    decreases n,
{
    if n > 0 {
        lemma_tier2_for_top_scores(src, ca, top, bottoms, t, w, threshold, n - 1);
        let b = bottoms[n - 1] as int;
        if t < b {
            let len = b - t + 1;
            vstd::arithmetic::div_mod::lemma_div_pos_is_pos(SCORE_SCALE * ca.len(), len);
            let block = clean_texts(src.subrange(t, b + 1));
            let lcs = if block.len() == 0 {
                0
            } else {
                lcs_len(ca, block) as int
            };
            lemma_candidate_score_range(
                lcs,
                ca.len() as int,
                density_of(ca.len() as int, len),
                indentation(top) == indentation(src[t]),
            );
        }
    }
}

proof fn lemma_tier2_scores(
    src: Seq<Seq<char>>,
    ca: Seq<Seq<char>>,
    top: Seq<char>,
    tops: Seq<usize>,
    bottoms: Seq<usize>,
    w: int,
    min_line: usize,
    threshold: u128,
    n: int,
)
    requires
        ca.len() > 0,
    ensures
        scores_bounded(tier2_candidates(src, ca, top, tops, bottoms, w, min_line, threshold, n)),
    decreases n,
{
    if n > 0 {
        lemma_tier2_scores(src, ca, top, tops, bottoms, w, min_line, threshold, n - 1);
        let p = tier2_candidates(src, ca, top, tops, bottoms, w, min_line, threshold, n - 1);
        let t = tops[n - 1] as int;
        if t >= min_line {
            let q = tier2_for_top(src, ca, top, bottoms, t, w, threshold, bottoms.len() as int);
            lemma_tier2_for_top_scores(src, ca, top, bottoms, t, w, threshold, bottoms.len() as int);
            assert forall|k: int| 0 <= k < (p + q).len() implies (#[trigger] (p + q)[k]).score
                <= SCORE_SCALE by {
                if k >= p.len() {
                    assert((p + q)[k] == q[k - p.len()]);
                }
            }
        }
    }
}

proof fn lemma_proximity_scores(ms: Seq<HunkMatch>, old_start: usize)
    requires
        scores_bounded(ms),
    ensures
        scores_bounded(with_proximity_all(ms, old_start)),
{
    assert forall|k: int| 0 <= k < with_proximity_all(ms, old_start).len() implies (
    #[trigger] with_proximity_all(ms, old_start)[k]).score <= SCORE_SCALE by {
        assert(ms[k].score <= SCORE_SCALE);
    }
}

proof fn lemma_dedup_scores(out: Seq<HunkMatch>, ms: Seq<HunkMatch>)
    requires
        is_dedup_of(out, ms),
        scores_bounded(ms),
    ensures
        scores_bounded(out),
{
    assert forall|k: int| 0 <= k < out.len() implies (#[trigger] out[k]).score <= SCORE_SCALE by {
        assert(crate::scoring::is_kept_value(ms, out[k]));
        let i = choose|i: int| crate::scoring::is_kept(ms, i) && ms[i] == out[k];
    }
}

/// Every match of the fuzzy search scores at most 1.0.
pub proof fn lemma_fuzzy_scores_bounded(
    r: Seq<HunkMatch>,
    src: Seq<Seq<char>>,
    cm: Seq<(usize, Seq<char>)>,
    h: crate::diff::HunkModel,
    o: MatchOptions,
)
    requires
        fuzzy_result(r, src, cm, h, o),
    ensures
        scores_bounded(r),
{
    let a = anchors(h.lines);
    let ca = clean_texts(a);
    if a.len() > 0 && ca.len() > 0 {
        let t1 = tier1_candidates(cm, ca, o.min_line, cm.len() as int);
        lemma_tier1_scores(cm, ca, o.min_line, cm.len() as int);
        if o.fuzziness >= 1 && t1.len() > 0 {
            lemma_proximity_scores(t1, h.old_start);
            lemma_dedup_scores(r, with_proximity_all(t1, h.old_start));
        } else {
            let t2 = if o.fuzziness >= 2 {
                tier2_all(src, cm, h.lines, o.min_line, o.match_threshold)
            } else {
                Seq::empty()
            };
            if o.fuzziness >= 2 {
                let (top, bottom) = anchor_pair(a);
                let tops = occurrences(cm, normalize(top), cm.len() as int);
                let bottoms = occurrences(cm, normalize(bottom), cm.len() as int);
                lemma_tier2_scores(
                    src,
                    ca,
                    top,
                    tops,
                    bottoms,
                    search_window(h.lines),
                    o.min_line,
                    o.match_threshold,
                    tops.len() as int,
                );
            }
            lemma_proximity_scores(t2, h.old_start);
            lemma_dedup_scores(r, with_proximity_all(t2, h.old_start));
        }
    }
}

/// `e` is the anchor-heuristic candidate of some span `t..=b`.
pub open spec fn is_tier2_match(src: Seq<Seq<char>>, ca: Seq<Seq<char>>, top: Seq<char>, e: HunkMatch) -> bool {
    exists|t: int, b: int| 0 <= t < b < src.len() && e == tier2_match(src, ca, top, t, b)
}

proof fn lemma_clean_texts_len(ls: Seq<Seq<char>>)
    ensures
        clean_texts(ls).len() <= ls.len(),
    decreases ls.len(),
{
    if ls.len() > 0 {
        lemma_clean_texts_len(ls.drop_last());
    }
}

proof fn lemma_anchors_len(lines: Seq<LineModel>)
    ensures
        anchors(lines).len() <= lines.len(),
    decreases lines.len(),
{
    if lines.len() > 0 {
        lemma_anchors_len(lines.drop_last());
    }
}

proof fn lemma_tier2_for_top_form(
    src: Seq<Seq<char>>,
    ca: Seq<Seq<char>>,
    top: Seq<char>,
    bottoms: Seq<usize>,
    t: int,
    w: int,
    threshold: u128,
    n: int,
)
    requires
        0 <= t,
    ensures
        forall|a: int|
            0 <= a < tier2_for_top(src, ca, top, bottoms, t, w, threshold, n).len() ==> is_tier2_match(
                src,
                ca,
                top,
                #[trigger] tier2_for_top(src, ca, top, bottoms, t, w, threshold, n)[a],
            ),
    decreases n,
{
    if n > 0 {
        lemma_tier2_for_top_form(src, ca, top, bottoms, t, w, threshold, n - 1);
        let p = tier2_for_top(src, ca, top, bottoms, t, w, threshold, n - 1);
        let q = tier2_for_top(src, ca, top, bottoms, t, w, threshold, n);
        let b = bottoms[n - 1] as int;
        assert forall|a: int| 0 <= a < q.len() implies is_tier2_match(src, ca, top, #[trigger] q[a]) by {
            if a < p.len() {
                assert(q[a] == p[a]);
            } else {
                assert(q[a] == tier2_match(src, ca, top, t, b));
            }
        }
    }
}

proof fn lemma_tier2_form(
    src: Seq<Seq<char>>,
    ca: Seq<Seq<char>>,
    top: Seq<char>,
    tops: Seq<usize>,
    bottoms: Seq<usize>,
    w: int,
    min_line: usize,
    threshold: u128,
    n: int,
)
    ensures
        forall|a: int|
            0 <= a < tier2_candidates(src, ca, top, tops, bottoms, w, min_line, threshold, n).len()
                ==> is_tier2_match(
                src,
                ca,
                top,
                #[trigger] tier2_candidates(src, ca, top, tops, bottoms, w, min_line, threshold, n)[a],
            ),
    decreases n,
{
    if n > 0 {
        lemma_tier2_form(src, ca, top, tops, bottoms, w, min_line, threshold, n - 1);
        let p = tier2_candidates(src, ca, top, tops, bottoms, w, min_line, threshold, n - 1);
        let t = tops[n - 1] as int;
        if t >= min_line {
            let q = tier2_for_top(src, ca, top, bottoms, t, w, threshold, bottoms.len() as int);
            lemma_tier2_for_top_form(src, ca, top, bottoms, t, w, threshold, bottoms.len() as int);
            assert forall|a: int| 0 <= a < (p + q).len() implies is_tier2_match(
                src,
                ca,
                top,
                #[trigger] (p + q)[a],
            ) by {
                if a < p.len() {
                    assert((p + q)[a] == p[a]);
                } else {
                    assert((p + q)[a] == q[a - p.len()]);
                }
            }
        }
    }
}

/// The LCS length that scores a span of `src` starting at `start`.
pub open spec fn span_lcs(src: Seq<Seq<char>>, ca: Seq<Seq<char>>, start: int, len: int) -> int {
    let block = clean_texts(src.subrange(start, start + len));
    if block.len() == 0 {
        0
    } else {
        lcs_len(ca, block) as int
    }
}

/// The anchor-heuristic results are the candidates of their spans, each with
/// its proximity bonus.
proof fn lemma_tier2_result_form(
    r: Seq<HunkMatch>,
    src: Seq<Seq<char>>,
    cm: Seq<(usize, Seq<char>)>,
    h: crate::diff::HunkModel,
    o: MatchOptions,
    j: int,
)
    requires
        fuzzy_result(r, src, cm, h, o),
        o.fuzziness >= 2,
        clean_texts(anchors(h.lines)).len() > 0,
        tier1_candidates(cm, clean_texts(anchors(h.lines)), o.min_line, cm.len() as int).len() == 0,
        0 <= j < r.len(),
    ensures
        exists|t: int, b: int|
            0 <= t < b < src.len() && r[j] == with_proximity(
                tier2_match(src, clean_texts(anchors(h.lines)), anchor_pair(anchors(h.lines)).0, t, b),
                h.old_start,
            ),
{
    let a = anchors(h.lines);
    assert(a.len() > 0);
    let ca = clean_texts(a);
    let (top, bottom) = anchor_pair(a);
    let tops = occurrences(cm, normalize(top), cm.len() as int);
    let bottoms = occurrences(cm, normalize(bottom), cm.len() as int);
    let t2 = tier2_all(src, cm, h.lines, o.min_line, o.match_threshold);
    lemma_tier2_form(src, ca, top, tops, bottoms, search_window(h.lines), o.min_line, o.match_threshold, tops.len() as int);
    let ms = with_proximity_all(t2, h.old_start);
    assert(crate::scoring::is_kept_value(ms, r[j]));
    let i = choose|i: int| crate::scoring::is_kept(ms, i) && ms[i] == r[j];
    assert(is_tier2_match(src, ca, top, t2[i]));
    let (t, b) = choose|t: int, b: int| 0 <= t < b < src.len() && t2[i] == tier2_match(src, ca, top, t, b);
    assert(r[j] == with_proximity(tier2_match(src, ca, top, t, b), h.old_start));
}

/// The line at `start` is indented as the top anchor line `top`.
pub open spec fn indent_bonus_applies(src: Seq<Seq<char>>, top: Seq<char>, start: int) -> bool {
    0 <= start < src.len() && indentation(top) == indentation(src[start])
}

/// The proximity bonus never lowers the order of two scores at one distance.
proof fn lemma_proximity_monotonic(x: HunkMatch, y: HunkMatch, old_start: usize)
    requires
        x.score <= y.score,
        distance(x.start_index as int, old_start - 1) == distance(y.start_index as int, old_start - 1),
    ensures
        with_proximity(x, old_start).score <= with_proximity(y, old_start).score,
{
}

/// Among anchor-heuristic results at one distance from the recorded line and
/// with the same indentation status, the score never falls as the LCS length
/// of the span grows with the density fixed, nor as the density grows with the
/// LCS length fixed.
pub proof fn lemma_tier2_results_monotonic(
    r: Seq<HunkMatch>,
    src: Seq<Seq<char>>,
    cm: Seq<(usize, Seq<char>)>,
    h: crate::diff::HunkModel,
    o: MatchOptions,
    j1: int,
    j2: int,
)
    requires
        fuzzy_result(r, src, cm, h, o),
        src.len() <= usize::MAX,
        h.lines.len() <= usize::MAX,
        o.fuzziness >= 2,
        clean_texts(anchors(h.lines)).len() > 0,
        tier1_candidates(cm, clean_texts(anchors(h.lines)), o.min_line, cm.len() as int).len() == 0,
        0 <= j1 < r.len(),
        0 <= j2 < r.len(),
        distance(r[j1].start_index as int, h.old_start - 1) == distance(
            r[j2].start_index as int,
            h.old_start - 1,
        ),
        indent_bonus_applies(src, anchor_pair(anchors(h.lines)).0, r[j1].start_index as int)
            == indent_bonus_applies(src, anchor_pair(anchors(h.lines)).0, r[j2].start_index as int),
        ({
            let ca = clean_texts(anchors(h.lines));
            let l1 = span_lcs(src, ca, r[j1].start_index as int, r[j1].matched_length as int);
            let l2 = span_lcs(src, ca, r[j2].start_index as int, r[j2].matched_length as int);
            (r[j1].density == r[j2].density && l1 <= l2) || (l1 == l2 && r[j1].density
                <= r[j2].density)
        }),
    ensures
        r[j1].score <= r[j2].score,
{
    let a = anchors(h.lines);
    let ca = clean_texts(a);
    let top = anchor_pair(a).0;
    let m = ca.len() as int;
    lemma_tier2_result_form(r, src, cm, h, o, j1);
    lemma_tier2_result_form(r, src, cm, h, o, j2);
    lemma_anchors_len(h.lines);
    lemma_clean_texts_len(a);
    let (t1, b1) = choose|t: int, b: int|
        0 <= t < b < src.len() && r[j1] == with_proximity(tier2_match(src, ca, top, t, b), h.old_start);
    let (t2, b2) = choose|t: int, b: int|
        0 <= t < b < src.len() && r[j2] == with_proximity(tier2_match(src, ca, top, t, b), h.old_start);
    let c1 = tier2_match(src, ca, top, t1, b1);
    let c2 = tier2_match(src, ca, top, t2, b2);
    assert(src.subrange(t1, b1 + 1) == src.subrange(t1, t1 + (b1 - t1 + 1)));
    assert(src.subrange(t2, b2 + 1) == src.subrange(t2, t2 + (b2 - t2 + 1)));
    let l1 = span_lcs(src, ca, t1, b1 - t1 + 1);
    let l2 = span_lcs(src, ca, t2, b2 - t2 + 1);
    let d1 = density_of(m, b1 - t1 + 1);
    let d2 = density_of(m, b2 - t2 + 1);
    vstd::arithmetic::div_mod::lemma_div_pos_is_pos(SCORE_SCALE * m, b1 - t1 + 1);
    vstd::arithmetic::div_mod::lemma_div_pos_is_pos(SCORE_SCALE * m, b2 - t2 + 1);
    vstd::arithmetic::div_mod::lemma_div_is_ordered_by_denominator(SCORE_SCALE * m, 1, b1 - t1 + 1);
    vstd::arithmetic::div_mod::lemma_div_is_ordered_by_denominator(SCORE_SCALE * m, 1, b2 - t2 + 1);
    assert(SCORE_SCALE * m <= SCORE_SCALE * usize::MAX) by (nonlinear_arith)
        requires
            0 <= m <= usize::MAX,
    ;
    assert(r[j1].density as int == d1 && r[j2].density as int == d2);
    assert(r[j1].start_index as int == t1 && r[j2].start_index as int == t2);
    assert(r[j1].matched_length as int == b1 - t1 + 1 && r[j2].matched_length as int == b2 - t2 + 1);
    let same = indentation(top) == indentation(src[t1]);
    lemma_candidate_score_range(l1, m, d1, same);
    lemma_candidate_score_range(l2, m, d2, same);
    if r[j1].density == r[j2].density && l1 <= l2 {
        lemma_candidate_score_monotonic(l1, l2, m, d1, d1, same);
    } else {
        lemma_candidate_score_monotonic(l1, l1, m, d1, d2, same);
    }
    assert(c1.score <= c2.score);
    lemma_proximity_monotonic(c1, c2, h.old_start);
}

/// The clean entries of a prefix of the lines are a prefix of the clean
/// entries of all of them.
proof fn lemma_clean_entries_prefix(lines: Seq<Seq<char>>, n: int)
    requires
        0 <= n <= lines.len(),
    ensures
        crate::lookup::clean_entries(lines.take(n)).len() <= crate::lookup::clean_entries(lines).len(),
        forall|q: int|
            0 <= q < crate::lookup::clean_entries(lines.take(n)).len() ==> #[trigger] crate::lookup::clean_entries(
                lines,
            )[q] == crate::lookup::clean_entries(lines.take(n))[q],
    decreases lines.len(),
{
    if n == lines.len() {
        assert(lines.take(n) =~= lines);
    } else {
        assert(lines.take(n) =~= lines.drop_last().take(n));
        lemma_clean_entries_prefix(lines.drop_last(), n);
    }
}

/// Past `k` entries before line `i`, each of the non-blank lines `i..i+j`
/// adds its entry.
proof fn lemma_clean_entries_run(lines: Seq<Seq<char>>, i: int, j: int)
    requires
        0 <= i,
        0 <= j,
        i + j <= lines.len(),
        lines.len() <= usize::MAX,
        forall|q: int| i <= q < i + j ==> normalize(#[trigger] lines[q]).len() > 0,
    ensures
        crate::lookup::clean_entries(lines.take(i + j)).len() == crate::lookup::clean_entries(
            lines.take(i),
        ).len() + j,
        forall|q: int|
            0 <= q < j ==> #[trigger] crate::lookup::clean_entries(lines.take(i + j))[crate::lookup::clean_entries(
                lines.take(i),
            ).len() + q] == ((i + q) as usize, normalize(lines[i + q])),
    decreases j,
{
    let k = crate::lookup::clean_entries(lines.take(i)).len();
    if j > 0 {
        lemma_clean_entries_run(lines, i, j - 1);
        let t = lines.take(i + j);
        assert(t.drop_last() =~= lines.take(i + j - 1));
        assert(t.last() == lines[i + j - 1]);
        let prev = crate::lookup::clean_entries(lines.take(i + j - 1));
        assert(crate::lookup::clean_entries(t) == prev.push(((i + j - 1) as usize, normalize(lines[i + j - 1]))));
        assert forall|q: int| 0 <= q < j implies #[trigger] crate::lookup::clean_entries(t)[k + q] == ((i + q) as usize, normalize(lines[i + q])) by {
            if q < j - 1 {
                assert(crate::lookup::clean_entries(t)[k + q] == prev[k + q]);
            }
        }
    } else {
        assert(lines.take(i + j) =~= lines.take(i));
    }
}

/// With no blank line among them, the clean texts are the normalized lines.
proof fn lemma_clean_texts_all(ls: Seq<Seq<char>>)
    requires
        forall|q: int| 0 <= q < ls.len() ==> normalize(#[trigger] ls[q]).len() > 0,
    ensures
        clean_texts(ls).len() == ls.len(),
        forall|q: int| 0 <= q < ls.len() ==> #[trigger] clean_texts(ls)[q] == normalize(ls[q]),
    decreases ls.len(),
{
    if ls.len() > 0 {
        let p = ls.drop_last();
        assert forall|q: int| 0 <= q < p.len() implies normalize(#[trigger] p[q]).len() > 0 by {
            assert(p[q] == ls[q]);
        }
        lemma_clean_texts_all(p);
        assert(normalize(ls.last()).len() > 0);
        assert forall|q: int| 0 <= q < ls.len() implies #[trigger] clean_texts(ls)[q] == normalize(ls[q]) by {
            if q < p.len() {
                assert(clean_texts(ls)[q] == clean_texts(p)[q]);
                assert(p[q] == ls[q]);
            }
        }
    }
}

/// Where lines `i..` normalize to the hunk's anchor lines, none of which is
/// blank, so that they differ from them only in whitespace, the
/// whitespace-insensitive search offers the match at line `i` over as many
/// lines as there are anchor lines, with a score of at least 0.9.
pub proof fn lemma_whitespace_lines_found(
    r: Seq<HunkMatch>,
    src: Seq<Seq<char>>,
    cm: Seq<(usize, Seq<char>)>,
    h: crate::diff::HunkModel,
    o: MatchOptions,
    i: int,
)
    requires
        fuzzy_result(r, src, cm, h, o),
        cm == crate::lookup::clean_entries(src),
        src.len() <= usize::MAX,
        o.fuzziness >= 1,
        anchors(h.lines).len() > 0,
        forall|q: int| 0 <= q < anchors(h.lines).len() ==> normalize(#[trigger] anchors(h.lines)[q]).len() > 0,
        o.min_line <= i,
        i + anchors(h.lines).len() <= src.len(),
        forall|q: int|
            0 <= q < anchors(h.lines).len() ==> normalize(#[trigger] src[i + q]) == normalize(
                anchors(h.lines)[q],
            ),
    ensures
        exists|j: int|
            0 <= j < r.len() && (#[trigger] r[j]).start_index == i && r[j].matched_length
                == anchors(h.lines).len() && r[j].score >= WHITESPACE_MATCH_SCORE,
{
    let a = anchors(h.lines);
    let n = a.len() as int;
    lemma_clean_texts_all(a);
    let ca = clean_texts(a);
    assert forall|q: int| i <= q < i + n implies normalize(#[trigger] src[q]).len() > 0 by {
        assert(normalize(src[i + (q - i)]) == normalize(a[q - i]));
    }
    lemma_clean_entries_run(src, i, n);
    lemma_clean_entries_prefix(src, i + n);
    let k = crate::lookup::clean_entries(src.take(i)).len() as int;
    let run = crate::lookup::clean_entries(src.take(i + n));
    assert forall|q: int| 0 <= q < n implies #[trigger] cm[k + q] == ((i + q) as usize, normalize(src[i + q])) by {
        assert(run[k + q] == ((i + q) as usize, normalize(src[i + q])));
        assert(cm[k + q] == run[k + q]);
    }
    let z: int = 0;
    assert(cm[k + z] == ((i + z) as usize, normalize(src[i + z])));
    assert(cm[k + (n - 1)] == ((i + (n - 1)) as usize, normalize(src[i + (n - 1)])));
    assert forall|q: int| 0 <= q < ca.len() implies (#[trigger] cm[k + q]).1 == ca[q] by {
        assert(cm[k + q] == ((i + q) as usize, normalize(src[i + q])));
    }
    assert(clean_window_eq(cm, ca, k));
    lemma_whitespace_block_found(r, src, cm, h, o, k);
}

} // verus!
