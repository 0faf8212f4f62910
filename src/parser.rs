//! Turning raw, possibly chat-wrapped diff text into a `Patch`.
use crate::diff::{FileDiff, FileDiffModel, Hunk, HunkModel, Line, LineModel, Patch};
use crate::header::{header_read, read_header, HeaderRead};
use crate::text::{
    char_is_whitespace, chars_of, equals_str, has_prefix, is_space, join_lines, join_with_newlines,
    lemma_prefixes_agree, lines_of, slice_chars, split_lines, starts_with, string_of, trim, trim_chars,
};
use vstd::prelude::*;

verus! {

/// A hunk header that could not be read.
#[derive(Debug, PartialEq, Eq)]
pub struct ParseError {
    /// 1-based, in the text after sanitizing.
    pub line_number: usize,
    pub line_content: String,
    pub message: String,
}

pub open spec fn is_fence_open(l: Seq<char>) -> bool {
    let t = trim(l);
    t == "```diff"@ || t == "```patch"@ || t == "```"@
}

/// The first fence opener at or after `i` (the length of `ls` if none).
pub open spec fn fence_from(ls: Seq<Seq<char>>, i: int) -> int
    decreases ls.len() - i,
{
    if i < 0 || i >= ls.len() {
        ls.len() as int
    } else if is_fence_open(ls[i]) {
        i
    } else {
        fence_from(ls, i + 1)
    }
}

/// The last bare fence in `lo..hi` (the length of `ls` if none).
pub open spec fn close_before(ls: Seq<Seq<char>>, lo: int, hi: int) -> int
    decreases hi - lo,
{
    if hi <= lo {
        ls.len() as int
    } else if trim(ls[hi - 1]) == "```"@ {
        hi - 1
    } else {
        close_before(ls, lo, hi - 1)
    }
}

/// The lines inside the first markdown fence, or all lines when there is none.
pub open spec fn unfenced(ls: Seq<Seq<char>>) -> Seq<Seq<char>> {
    let f = fence_from(ls, 0);
    let start = if f < ls.len() {
        f + 1
    } else {
        0
    };
    let end = if start > 0 {
        close_before(ls, start, ls.len() as int)
    } else {
        ls.len() as int
    };
    if start > 0 && end > start {
        ls.subrange(start, end)
    } else {
        ls
    }
}

/// A line that has the shape of a diff header.
pub open spec fn is_structural(t: Seq<char>) -> bool {
    starts_with(t, "---"@) || starts_with(t, "+++"@) || starts_with(t, "@@"@) || starts_with(
        t,
        "diff --git"@,
    )
}

/// A line with a diff line marker.
pub open spec fn line_like(l: Seq<char>) -> bool {
    l.len() > 0 && (l[0] == '+' || l[0] == '-' || l[0] == ' ')
}

/// Git metadata that the sanitizer keeps.
pub open spec fn kept_metadata(t: Seq<char>) -> bool {
    starts_with(t, "index "@) || starts_with(t, "new file mode"@) || starts_with(
        t,
        "deleted file mode"@,
    ) || starts_with(t, "Binary files"@) || starts_with(t, "similarity index"@) || starts_with(
        t,
        "rename from"@,
    ) || starts_with(t, "rename to"@) || starts_with(t, "\\"@)
}

/// A line inside a hunk, with a context marker added where it lost its own.
pub open spec fn repaired(l: Seq<char>) -> Seq<char> {
    if l.len() > 0 && !line_like(l) {
        if is_space(l[0]) {
            l
        } else if trim(l).len() == 0 {
            Seq::empty()
        } else {
            seq![' '] + l
        }
    } else {
        l
    }
}

/// The lines that the sanitizer keeps, given whether a hunk header and any
/// header have been seen.
pub open spec fn sanitize_from(ls: Seq<Seq<char>>, in_hunk: bool, found: bool) -> Seq<Seq<char>>
    decreases ls.len(),
{
    if ls.len() == 0 {
        Seq::empty()
    } else {
        let l = ls[0];
        let t = trim(l);
        let rest = ls.drop_first();
        if is_structural(t) {
            seq![l] + sanitize_from(rest, in_hunk || starts_with(t, "@@"@), true)
        } else if in_hunk {
            seq![repaired(l)] + sanitize_from(rest, in_hunk, found)
        } else if found && (line_like(l) || kept_metadata(t)) {
            seq![l] + sanitize_from(rest, in_hunk, found)
        } else {
            sanitize_from(rest, in_hunk, found)
        }
    }
}

/// The text after sanitizing: fences cut, commentary dropped, context markers
/// repaired.
pub open spec fn sanitized(text: Seq<char>) -> Seq<char> {
    join_lines(sanitize_from(unfenced(split_lines(text)), false, false))
}

fn is_fence_open_exec(l: &Vec<char>) -> (r: bool)
    ensures
        r == is_fence_open(l@),
{
    let t = trim_chars(l);
    equals_str(&t, "```diff") || equals_str(&t, "```patch") || equals_str(&t, "```")
}

fn is_bare_fence(l: &Vec<char>) -> (r: bool)
    ensures
        r == (trim(l@) == "```"@),
{
    let t = trim_chars(l);
    equals_str(&t, "```")
}

pub open spec fn char_views(v: Seq<Vec<char>>) -> Seq<Seq<char>> {
    v.map_values(|l: Vec<char>| l@)
}

/// Cuts the lines down to the inside of the first markdown fence.
fn strip_fences(ls: Vec<Vec<char>>) -> (r: Vec<Vec<char>>)
    ensures
        char_views(r@) == unfenced(char_views(ls@)),
{
    let ghost lv = char_views(ls@);
    let n = ls.len();
    let mut i: usize = 0;
    while i < n && !is_fence_open_exec(&ls[i])
        invariant
            i <= n == ls@.len(),
            lv == char_views(ls@),
            fence_from(lv, 0) == fence_from(lv, i as int),
        decreases n - i,
    {
        i = i + 1;
    }
    let start: usize = if i < n {
        i + 1
    } else {
        0
    };
    if start == 0 {
        return ls;
    }
    let mut hi: usize = n;
    while hi > start && !is_bare_fence(&ls[hi - 1])
        invariant
            start <= hi <= n == ls@.len(),
            lv == char_views(ls@),
            close_before(lv, start as int, n as int) == close_before(lv, start as int, hi as int),
        decreases hi,
    {
        hi = hi - 1;
    }
    let end: usize = if hi > start {
        hi - 1
    } else {
        n
    };
    if end > start {
        let mut r: Vec<Vec<char>> = Vec::new();
        let mut k: usize = start;
        while k < end
            invariant
                start <= k <= end <= n == ls@.len(),
                lv == char_views(ls@),
                char_views(r@) == lv.subrange(start as int, k as int),
            decreases end - k,
        {
            let line = slice_chars(&ls[k], 0, ls[k].len());
            let ghost prev = r@;
            r.push(line);
            proof {
                assert(char_views(r@) =~= char_views(prev).push(line@));
                assert(ls@[k as int]@.subrange(0, ls@[k as int]@.len() as int) =~= ls@[k as int]@);
                assert(char_views(r@) =~= lv.subrange(start as int, k + 1));
            }
            k = k + 1;
        }
        r
    } else {
        ls
    }
}

fn is_structural_exec(t: &Vec<char>) -> (r: bool)
    ensures
        r == is_structural(t@),
{
    has_prefix(t, "---") || has_prefix(t, "+++") || has_prefix(t, "@@") || has_prefix(t, "diff --git")
}

fn line_like_exec(l: &Vec<char>) -> (r: bool)
    ensures
        r == line_like(l@),
{
    l.len() > 0 && (l[0] == '+' || l[0] == '-' || l[0] == ' ')
}

fn kept_metadata_exec(t: &Vec<char>) -> (r: bool)
    ensures
        r == kept_metadata(t@),
{
    has_prefix(t, "index ") || has_prefix(t, "new file mode") || has_prefix(t, "deleted file mode")
        || has_prefix(t, "Binary files") || has_prefix(t, "similarity index") || has_prefix(
        t,
        "rename from",
    ) || has_prefix(t, "rename to") || has_prefix(t, "\\")
}

fn repaired_exec(l: &Vec<char>) -> (r: Vec<char>)
    ensures
        r@ == repaired(l@),
{
    if l.len() > 0 && !line_like_exec(l) {
        if char_is_whitespace(l[0]) {
            slice_chars(l, 0, l.len())
        } else {
            let t = trim_chars(l);
            if t.len() == 0 {
                Vec::new()
            } else {
                let mut r: Vec<char> = vec![' '];
                let mut i: usize = 0;
                while i < l.len()
                    invariant
                        i <= l@.len(),
                        r@ == seq![' '] + l@.take(i as int),
                    decreases l@.len() - i,
                {
                    r.push(l[i]);
                    i = i + 1;
                    assert(r@ =~= seq![' '] + l@.take(i as int));
                }
                assert(l@.take(i as int) =~= l@);
                r
            }
        }
    } else {
        slice_chars(l, 0, l.len())
    }
}

/// Strips chat packaging from a diff: the text inside the first markdown
/// fence, without commentary, with lost context markers restored.
fn sanitize_diff(input: &str) -> (r: Vec<char>)
    ensures
        r@ == sanitized(input@),
{
    let chars = chars_of(input);
    let all = lines_of(&chars);
    proof {
        assert(char_views(all@) == split_lines(input@));
    }
    let ls = strip_fences(all);
    let ghost lv = char_views(ls@);
    let mut out: Vec<Vec<char>> = Vec::new();
    let mut in_hunk = false;
    let mut found = false;
    let mut i: usize = 0;
    assert(lv.skip(0) =~= lv);
    while i < ls.len()
        invariant
            i <= ls@.len(),
            lv == char_views(ls@),
            sanitize_from(lv, false, false) == char_views(out@) + sanitize_from(lv.skip(i as int), in_hunk, found),
        decreases ls@.len() - i,
    {
        let l = &ls[i];
        let t = trim_chars(l);
        let ghost rest = lv.skip(i as int);
        let ghost before = char_views(out@);
        proof {
            assert(rest[0] == l@);
            assert(rest.drop_first() =~= lv.skip(i + 1));
        }
        if is_structural_exec(&t) {
            out.push(slice_chars(l, 0, l.len()));
            if has_prefix(&t, "@@") {
                in_hunk = true;
            }
            found = true;
        } else if in_hunk {
            out.push(repaired_exec(l));
        } else if found && (line_like_exec(l) || kept_metadata_exec(&t)) {
            out.push(slice_chars(l, 0, l.len()));
        }
        proof {
            assert(l@.subrange(0, l@.len() as int) =~= l@);
            assert(sanitize_from(lv, false, false) =~= char_views(out@) + sanitize_from(
                lv.skip(i + 1),
                in_hunk,
                found,
            ));
        }
        i = i + 1;
    }
    proof {
        assert(lv.skip(i as int) =~= Seq::<Seq<char>>::empty());
        assert(char_views(out@) =~= sanitize_from(lv, false, false));
    }
    join_with_newlines(&out)
}

/// The text after the last whitespace character of `s`.
pub open spec fn tail_token(s: Seq<char>) -> Seq<char>
    decreases s.len(),
{
    if s.len() == 0 || is_space(s.last()) {
        Seq::empty()
    } else {
        tail_token(s.drop_last()).push(s.last())
    }
}

/// The path that a `---` or `+++` header names: its last word, without the
/// `a/` or `b/` prefix, with the spellings of `/dev/null` made one.
pub open spec fn header_path(rest: Seq<char>, side: char) -> Seq<char> {
    let c = tail_token(trim(rest));
    let f = if c.len() >= 2 && c[0] == side && c[1] == '/' {
        c.skip(2)
    } else {
        c
    };
    if f == "/dev/null"@ || f == "dev/null"@ {
        "/dev/null"@
    } else {
        f
    }
}

/// The state of the parser: the finished file diffs, and the open one.
pub struct ParseModel {
    pub diffs: Seq<FileDiffModel>,
    pub open: bool,
    pub cur: FileDiffModel,
}

pub open spec fn empty_file_diff() -> FileDiffModel {
    FileDiffModel { old_file: Seq::empty(), new_file: Seq::empty(), hunks: Seq::empty() }
}

pub open spec fn empty_hunk() -> HunkModel {
    HunkModel { old_start: 0, old_lines: 0, new_start: 0, new_lines: 0, lines: Seq::empty() }
}

/// A file diff with an old path and no new path is a deletion.
pub open spec fn finished(d: FileDiffModel) -> FileDiffModel {
    if d.old_file.len() > 0 && d.new_file.len() == 0 {
        FileDiffModel { new_file: "/dev/null"@, ..d }
    } else {
        d
    }
}

/// The file diffs once the open one is closed; one without hunks is dropped.
pub open spec fn flushed(st: ParseModel) -> Seq<FileDiffModel> {
    if st.open && st.cur.hunks.len() > 0 {
        st.diffs.push(finished(st.cur))
    } else {
        st.diffs
    }
}

/// The open file diff, or a new one.
pub open spec fn current(st: ParseModel) -> FileDiffModel {
    if st.open {
        st.cur
    } else {
        empty_file_diff()
    }
}

/// Git metadata that the parser skips.
pub open spec fn skipped_metadata(l: Seq<char>) -> bool {
    starts_with(l, "index "@) || starts_with(l, "new file mode "@) || starts_with(
        l,
        "deleted file mode "@,
    ) || starts_with(l, "similarity index "@) || starts_with(l, "rename from "@) || starts_with(
        l,
        "rename to "@,
    ) || starts_with(l, "Binary files "@) || starts_with(l, "\\ No newline at end of file"@)
}

/// A hunk line by its marker; a line without one is context as it stands.
pub open spec fn classify(l: Seq<char>) -> LineModel {
    if starts_with(l, "+"@) {
        LineModel::Addition(l.skip(1))
    } else if starts_with(l, "-"@) {
        LineModel::Removal(l.skip(1))
    } else if starts_with(l, " "@) {
        LineModel::Context(l.skip(1))
    } else {
        LineModel::Context(l)
    }
}

/// `d` with `lm` added to its last hunk.
pub open spec fn with_line(d: FileDiffModel, lm: LineModel) -> FileDiffModel {
    let h = d.hunks.last();
    FileDiffModel {
        hunks: d.hunks.update(d.hunks.len() - 1, HunkModel { lines: h.lines.push(lm), ..h }),
        ..d
    }
}

/// The hunk that a readable header opens.
pub open spec fn header_hunk(l: Seq<char>) -> HunkModel {
    match header_read(l) {
        HeaderRead::Numbers(a, b, c, d) => HunkModel {
            old_start: a,
            old_lines: b,
            new_start: c,
            new_lines: d,
            lines: Seq::empty(),
        },
        _ => empty_hunk(),
    }
}

/// One line of sanitized text applied to the parser state.
pub open spec fn parse_step(st: ParseModel, l: Seq<char>) -> ParseModel {
    if starts_with(l, "diff --git "@) {
        ParseModel { diffs: flushed(st), open: true, cur: empty_file_diff() }
    } else if starts_with(l, "---"@) {
        if trim(l.skip(3)).len() == 0 {
            st
        } else {
            let d = current(st);
            ParseModel { open: true, cur: FileDiffModel { old_file: header_path(l.skip(3), 'a'), ..d }, ..st }
        }
    } else if starts_with(l, "+++"@) {
        if trim(l.skip(3)).len() == 0 {
            st
        } else {
            let d = current(st);
            let old_file = if d.old_file.len() == 0 {
                "/dev/null"@
            } else {
                d.old_file
            };
            ParseModel {
                open: true,
                cur: FileDiffModel { old_file, new_file: header_path(l.skip(3), 'b'), ..d },
                ..st
            }
        }
    } else if starts_with(l, "@@"@) {
        let d = current(st);
        ParseModel { open: true, cur: FileDiffModel { hunks: d.hunks.push(header_hunk(l)), ..d }, ..st }
    } else if skipped_metadata(l) {
        st
    } else if line_like(l) || (st.open && st.cur.hunks.len() > 0) {
        let d0 = current(st);
        let d = if d0.hunks.len() == 0 {
            FileDiffModel { hunks: seq![empty_hunk()], ..d0 }
        } else {
            d0
        };
        ParseModel { open: true, cur: with_line(d, classify(l)), ..st }
    } else {
        st
    }
}

/// What parsing the sanitized lines `ls` from line `i` on, in state `st`,
/// gives: the file diffs, or the 1-based number, text and message of the
/// first unreadable hunk header.
pub open spec fn parse_run(ls: Seq<Seq<char>>, i: int, st: ParseModel) -> Result<
    Seq<FileDiffModel>,
    (int, Seq<char>, Seq<char>),
>
    decreases ls.len() - i,
{
    if i < 0 || i >= ls.len() {
        Ok(flushed(st))
    } else if starts_with(ls[i], "@@"@) && header_read(ls[i]) is Malformed {
        Err((i + 1, ls[i], "Malformed hunk header"@))
    } else if starts_with(ls[i], "@@"@) && header_read(ls[i]) is TooLarge {
        Err((i + 1, ls[i], "Invalid number in hunk header: number too large to fit in target type"@))
    } else {
        parse_run(ls, i + 1, parse_step(st, ls[i]))
    }
}

pub open spec fn initial_state() -> ParseModel {
    ParseModel { diffs: Seq::empty(), open: false, cur: empty_file_diff() }
}

/// What parsing `text` gives.
pub open spec fn parsed(text: Seq<char>) -> Result<Seq<FileDiffModel>, (int, Seq<char>, Seq<char>)> {
    parse_run(split_lines(sanitized(text)), 0, initial_state())
}

fn tail_token_exec(s: &Vec<char>) -> (r: Vec<char>)
    ensures
        r@ == tail_token(s@),
{
    let n = s.len();
    let mut j: usize = n;
    assert(s@.take(n as int) =~= s@);
    assert(s@.subrange(n as int, n as int) =~= Seq::<char>::empty());
    while j > 0 && !char_is_whitespace(s[j - 1])
        invariant
            j <= n == s@.len(),
            tail_token(s@) == tail_token(s@.take(j as int)) + s@.subrange(j as int, n as int),
        decreases j,
    {
        proof {
            let t = s@.take(j as int);
            assert(t.drop_last() =~= s@.take(j - 1));
            assert(t.last() == s@[j - 1]);
            assert(s@.subrange(j - 1, n as int) =~= seq![s@[j - 1]] + s@.subrange(j as int, n as int));
        }
        j = j - 1;
    }
    proof {
        if j > 0 {
            assert(s@.take(j as int).last() == s@[j - 1]);
        }
    }
    slice_chars(s, j, n)
}

fn header_path_exec(rest: &Vec<char>, side: char) -> (r: Vec<char>)
    ensures
        r@ == header_path(rest@, side),
{
    let t = trim_chars(rest);
    let c = tail_token_exec(&t);
    let f = if c.len() >= 2 && c[0] == side && c[1] == '/' {
        slice_chars(&c, 2, c.len())
    } else {
        c
    };
    if equals_str(&f, "/dev/null") || equals_str(&f, "dev/null") {
        chars_of("/dev/null")
    } else {
        f
    }
}

fn empty_file_diff_exec() -> (r: FileDiff)
    ensures
        r@ == empty_file_diff(),
{
    let r = FileDiff { old_file: String::new(), new_file: String::new(), hunks: Vec::new() };
    assert(r@.hunks =~= Seq::<HunkModel>::empty());
    r
}

/// Closes the open file diff into `diffs`.
fn flush(diffs: &mut Vec<FileDiff>, open: bool, cur: FileDiff)
    ensures
        final(diffs)@.map_values(|d: FileDiff| d@) == flushed(
            ParseModel { diffs: old(diffs)@.map_values(|d: FileDiff| d@), open, cur: cur@ },
        ),
{
    let ghost before = diffs@;
    if open && cur.hunks.len() > 0 {
        let mut d = cur;
        if !d.old_file.as_str().is_empty() && d.new_file.as_str().is_empty() {
            d.new_file = "/dev/null".to_owned();
        }
        diffs.push(d);
        assert(diffs@.map_values(|d: FileDiff| d@) =~= before.map_values(|d: FileDiff| d@).push(
            finished(cur@),
        ));
    }
}

/// Adds a line to the last hunk.
fn push_line(cur: &mut FileDiff, line: Line)
    requires
        old(cur).hunks@.len() > 0,
    ensures
        final(cur)@ == with_line(old(cur)@, line@),
{
    let ghost before = cur@;
    let mut h = cur.hunks.pop().unwrap();
    let ghost hb = h@;
    h.lines.push(line);
    assert(h@.lines =~= hb.lines.push(line@));
    cur.hunks.push(h);
    assert(cur@.hunks =~= with_line(before, line@).hunks);
}

fn classify_exec(l: &Vec<char>) -> (r: Line)
    ensures
        r@ == classify(l@),
{
    let n = l.len();
    proof {
        reveal_strlit("+");
        reveal_strlit("-");
        reveal_strlit(" ");
    }
    if has_prefix(l, "+") {
        Line::Addition(string_of(&slice_chars(l, 1, n)))
    } else if has_prefix(l, "-") {
        Line::Removal(string_of(&slice_chars(l, 1, n)))
    } else if has_prefix(l, " ") {
        Line::Context(string_of(&slice_chars(l, 1, n)))
    } else {
        Line::Context(string_of(l))
    }
}

fn skipped_metadata_exec(l: &Vec<char>) -> (r: bool)
    ensures
        r == skipped_metadata(l@),
{
    has_prefix(l, "index ") || has_prefix(l, "new file mode ") || has_prefix(l, "deleted file mode ")
        || has_prefix(l, "similarity index ") || has_prefix(l, "rename from ") || has_prefix(
        l,
        "rename to ",
    ) || has_prefix(l, "Binary files ") || has_prefix(l, "\\ No newline at end of file")
}

pub open spec fn model_of(diffs: Seq<FileDiff>, open: bool, cur: FileDiff) -> ParseModel {
    ParseModel { diffs: diffs.map_values(|d: FileDiff| d@), open, cur: cur@ }
}

/// Parses diff text into a patch: sanitizes it, then reads file headers, hunk
/// headers and hunk lines. Fails on the first hunk header that cannot be read.
pub fn parse_patch(patch_content: &str) -> (r: Result<Patch, ParseError>)
    ensures
        match r {
            Ok(p) => parsed(patch_content@) == Ok::<Seq<FileDiffModel>, (int, Seq<char>, Seq<char>)>(p@),
            Err(e) => parsed(patch_content@) == Err::<Seq<FileDiffModel>, (int, Seq<char>, Seq<char>)>(
                (e.line_number as int, e.line_content@, e.message@),
            ),
        },
{
    let text = sanitize_diff(patch_content);
    let ls = lines_of(&text);
    let ghost lv = char_views(ls@);
    assert(lv == split_lines(sanitized(patch_content@)));
    let mut diffs: Vec<FileDiff> = Vec::new();
    let mut open = false;
    let mut cur = empty_file_diff_exec();
    assert(diffs@.map_values(|d: FileDiff| d@) =~= Seq::<FileDiffModel>::empty());
    let mut i: usize = 0;
    while i < ls.len()
        invariant
            i <= ls@.len(),
            lv == char_views(ls@),
            lv == split_lines(sanitized(patch_content@)),
            !open ==> cur@ == empty_file_diff(),
            parse_run(lv, 0, initial_state()) == parse_run(lv, i as int, model_of(diffs@, open, cur)),
        decreases ls@.len() - i,
    {
        let l = &ls[i];
        let ghost st = model_of(diffs@, open, cur);
        proof {
            reveal_strlit("---");
            reveal_strlit("+++");
            reveal_strlit("@@");
            reveal_strlit("diff --git ");
        }
        assert(lv[i as int] == l@);
        if has_prefix(l, "diff --git ") {
            flush(&mut diffs, open, cur);
            cur = empty_file_diff_exec();
            open = true;
            proof {
                assert(model_of(diffs@, open, cur) == parse_step(st, l@));
            }
        } else if has_prefix(l, "---") {
            let rest = slice_chars(l, 3, l.len());
            proof {
                assert(rest@ =~= l@.skip(3));
            }
            if trim_chars(&rest).len() > 0 {
                if !open {
                    cur = empty_file_diff_exec();
                    open = true;
                }
                cur.old_file = string_of(&header_path_exec(&rest, 'a'));
            }
            proof {
                assert(model_of(diffs@, open, cur) == parse_step(st, l@));
            }
        } else if has_prefix(l, "+++") {
            let rest = slice_chars(l, 3, l.len());
            proof {
                assert(rest@ =~= l@.skip(3));
            }
            if trim_chars(&rest).len() > 0 {
                if !open {
                    cur = empty_file_diff_exec();
                    open = true;
                }
                cur.new_file = string_of(&header_path_exec(&rest, 'b'));
                if cur.old_file.as_str().is_empty() {
                    cur.old_file = "/dev/null".to_owned();
                }
            }
            proof {
                assert(model_of(diffs@, open, cur) == parse_step(st, l@));
            }
        } else if has_prefix(l, "@@") {
            match read_header(l) {
                HeaderRead::Numbers(a, b, c, d) => {
                    if !open {
                        cur = empty_file_diff_exec();
                        open = true;
                    }
                    let h = Hunk { old_start: a, old_lines: b, new_start: c, new_lines: d, lines: Vec::new() };
                    assert(h@.lines =~= Seq::<LineModel>::empty());
                    assert(h@ == header_hunk(l@));
                    assert(!(header_read(l@) is Malformed) && !(header_read(l@) is TooLarge));
                    cur.hunks.push(h);
                    proof {
                        assert(model_of(diffs@, open, cur).cur.hunks =~= parse_step(st, l@).cur.hunks);
                        assert(model_of(diffs@, open, cur) == parse_step(st, l@));
                    }
                },
                HeaderRead::Malformed => {
                    let e = ParseError {
                        line_number: i + 1,
                        line_content: string_of(l),
                        message: "Malformed hunk header".to_owned(),
                    };
                    assert(parse_run(lv, i as int, st) == Err::<Seq<FileDiffModel>, (int, Seq<char>, Seq<char>)>(
                        (e.line_number as int, e.line_content@, e.message@),
                    ));
                    return Err(e);
                },
                HeaderRead::TooLarge => {
                    let e = ParseError {
                        line_number: i + 1,
                        line_content: string_of(l),
                        message: "Invalid number in hunk header: number too large to fit in target type".to_owned(),
                    };
                    assert(parse_run(lv, i as int, st) == Err::<Seq<FileDiffModel>, (int, Seq<char>, Seq<char>)>(
                        (e.line_number as int, e.line_content@, e.message@),
                    ));
                    return Err(e);
                },
            }
        } else if skipped_metadata_exec(l) {
            assert(model_of(diffs@, open, cur) == parse_step(st, l@));
        } else if line_like_exec(l) || (open && cur.hunks.len() > 0) {
            if !open {
                cur = empty_file_diff_exec();
                open = true;
            }
            if cur.hunks.len() == 0 {
                let h = Hunk { old_start: 0, old_lines: 0, new_start: 0, new_lines: 0, lines: Vec::new() };
                assert(h@.lines =~= Seq::<LineModel>::empty());
                cur.hunks.push(h);
                assert(cur@.hunks =~= seq![empty_hunk()]);
            }
            let line = classify_exec(l);
            push_line(&mut cur, line);
            proof {
                assert(model_of(diffs@, open, cur) == parse_step(st, l@));
            }
        } else {
            assert(model_of(diffs@, open, cur) == parse_step(st, l@));
        }
        proof {
            if starts_with(l@, "@@"@) {
                if starts_with(l@, "diff --git "@) {
                    lemma_prefixes_agree(l@, "@@"@, "diff --git "@);
                }
                if starts_with(l@, "---"@) {
                    lemma_prefixes_agree(l@, "@@"@, "---"@);
                }
                if starts_with(l@, "+++"@) {
                    lemma_prefixes_agree(l@, "@@"@, "+++"@);
                }
            }
            assert(parse_run(lv, i as int, st) == parse_run(lv, i + 1, parse_step(st, l@)));
        }
        i = i + 1;
    }
    flush(&mut diffs, open, cur);
    Ok(Patch { diffs })
}

} // verus!
