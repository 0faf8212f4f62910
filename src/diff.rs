//! The structured form of a patch: lines, hunks, file diffs and whole patches.
use vstd::prelude::*;

verus! {

/// One line of a hunk, tagged by its role.
#[derive(Debug, Clone, PartialEq, Eq)]
pub enum Line {
    Context(String),
    Addition(String),
    Removal(String),
}

/// A hunk: header numbers (a hint only) and its lines in order.
#[derive(Debug, Default, PartialEq, Eq)]
pub struct Hunk {
    pub old_start: usize,
    pub old_lines: usize,
    pub new_start: usize,
    pub new_lines: usize,
    pub lines: Vec<Line>,
}

/// The changes to one file: its old and new paths and its hunks.
#[derive(Debug, Default, PartialEq, Eq)]
pub struct FileDiff {
    pub old_file: String,
    pub new_file: String,
    pub hunks: Vec<Hunk>,
}

/// An ordered list of file diffs.
#[derive(Debug, Default, PartialEq, Eq)]
pub struct Patch {
    pub diffs: Vec<FileDiff>,
}

pub enum LineModel {
    Context(Seq<char>),
    Addition(Seq<char>),
    Removal(Seq<char>),
}

pub struct HunkModel {
    pub old_start: usize,
    pub old_lines: usize,
    pub new_start: usize,
    pub new_lines: usize,
    pub lines: Seq<LineModel>,
}

pub struct FileDiffModel {
    pub old_file: Seq<char>,
    pub new_file: Seq<char>,
    pub hunks: Seq<HunkModel>,
}

impl View for Line {
    type V = LineModel;

    open spec fn view(&self) -> LineModel {
        match self {
            Line::Context(s) => LineModel::Context(s@),
            Line::Addition(s) => LineModel::Addition(s@),
            Line::Removal(s) => LineModel::Removal(s@),
        }
    }
}

impl View for Hunk {
    type V = HunkModel;

    open spec fn view(&self) -> HunkModel {
        HunkModel {
            old_start: self.old_start,
            old_lines: self.old_lines,
            new_start: self.new_start,
            new_lines: self.new_lines,
            lines: self.lines@.map_values(|l: Line| l@),
        }
    }
}

impl View for FileDiff {
    type V = FileDiffModel;

    open spec fn view(&self) -> FileDiffModel {
        FileDiffModel {
            old_file: self.old_file@,
            new_file: self.new_file@,
            hunks: self.hunks@.map_values(|h: Hunk| h@),
        }
    }
}

impl View for Patch {
    type V = Seq<FileDiffModel>;

    open spec fn view(&self) -> Seq<FileDiffModel> {
        self.diffs@.map_values(|d: FileDiff| d@)
    }
}

/// Additions become removals and removals additions; context stays.
pub open spec fn invert_line(l: LineModel) -> LineModel {
    match l {
        LineModel::Context(s) => LineModel::Context(s),
        LineModel::Addition(s) => LineModel::Removal(s),
        LineModel::Removal(s) => LineModel::Addition(s),
    }
}

/// The hunk that undoes `h`: old and new numbers swapped, lines inverted.
pub open spec fn invert_hunk(h: HunkModel) -> HunkModel {
    HunkModel {
        old_start: h.new_start,
        old_lines: h.new_lines,
        new_start: h.old_start,
        new_lines: h.old_lines,
        lines: h.lines.map_values(|l: LineModel| invert_line(l)),
    }
}

pub open spec fn invert_file_diff(d: FileDiffModel) -> FileDiffModel {
    FileDiffModel {
        old_file: d.new_file,
        new_file: d.old_file,
        hunks: d.hunks.map_values(|h: HunkModel| invert_hunk(h)),
    }
}

pub open spec fn invert_patch(p: Seq<FileDiffModel>) -> Seq<FileDiffModel> {
    p.map_values(|d: FileDiffModel| invert_file_diff(d))
}

/// Inverting a patch twice gives back the same files, hunk numbers and line
/// roles.
pub proof fn lemma_invert_involution(p: Seq<FileDiffModel>)
    ensures
        invert_patch(invert_patch(p)) == p,
{
    assert forall|i: int| 0 <= i < p.len() implies #[trigger] invert_patch(invert_patch(p))[i]
        == p[i] by {
        let d = p[i];
        let hs = invert_file_diff(invert_file_diff(d)).hunks;
        assert forall|j: int| 0 <= j < d.hunks.len() implies #[trigger] hs[j] == d.hunks[j] by {
            let h = d.hunks[j];
            let ls = invert_hunk(invert_hunk(h)).lines;
            assert forall|k: int| 0 <= k < h.lines.len() implies #[trigger] ls[k]
                == h.lines[k] by {
                match h.lines[k] {
                    LineModel::Context(_) => {},
                    LineModel::Addition(_) => {},
                    LineModel::Removal(_) => {},
                }
            }
            assert(ls =~= h.lines);
        }
        assert(hs =~= d.hunks);
    }
    assert(invert_patch(invert_patch(p)) =~= p);
}

impl Line {
    /// The line with its role inverted.
    pub fn inverted(&self) -> (r: Line)
        ensures
            r@ == invert_line(self@),
    {
        match self {
            Line::Context(s) => Line::Context(s.clone()),
            Line::Addition(s) => Line::Removal(s.clone()),
            Line::Removal(s) => Line::Addition(s.clone()),
        }
    }
}

impl Hunk {
    /// The hunk that undoes this one.
    pub fn invert(&self) -> (r: Hunk)
        ensures
            r@ == invert_hunk(self@),
    {
        let mut lines: Vec<Line> = Vec::new();
        let mut i: usize = 0;
        while i < self.lines.len()
            invariant
                i <= self.lines@.len(),
                lines@.len() == i,
                forall|k: int| 0 <= k < i ==> #[trigger] lines@[k]@ == invert_line(self.lines@[k]@),
            decreases self.lines@.len() - i,
        {
            lines.push(self.lines[i].inverted());
            i = i + 1;
        }
        let r = Hunk {
            old_start: self.new_start,
            old_lines: self.new_lines,
            new_start: self.old_start,
            new_lines: self.old_lines,
            lines,
        };
        assert(r@.lines =~= invert_hunk(self@).lines);
        r
    }
}

impl FileDiff {
    /// The file diff that undoes this one: paths swapped, hunks inverted.
    pub fn invert(&self) -> (r: FileDiff)
        ensures
            r@ == invert_file_diff(self@),
    {
        let mut hunks: Vec<Hunk> = Vec::new();
        let mut i: usize = 0;
        while i < self.hunks.len()
            invariant
                i <= self.hunks@.len(),
                hunks@.len() == i,
                forall|k: int| 0 <= k < i ==> #[trigger] hunks@[k]@ == invert_hunk(self.hunks@[k]@),
            decreases self.hunks@.len() - i,
        {
            hunks.push(self.hunks[i].invert());
            i = i + 1;
        }
        let r = FileDiff {
            old_file: self.new_file.clone(),
            new_file: self.old_file.clone(),
            hunks,
        };
        assert(r@.hunks =~= invert_file_diff(self@).hunks);
        r
    }
}

impl Patch {
    /// The patch that undoes this one.
    pub fn invert(&self) -> (r: Patch)
        ensures
            r@ == invert_patch(self@),
    {
        let mut diffs: Vec<FileDiff> = Vec::new();
        let mut i: usize = 0;
        while i < self.diffs.len()
            invariant
                i <= self.diffs@.len(),
                diffs@.len() == i,
                forall|k: int| 0 <= k < i ==> #[trigger] diffs@[k]@ == invert_file_diff(self.diffs@[k]@),
            decreases self.diffs@.len() - i,
        {
            diffs.push(self.diffs[i].invert());
            i = i + 1;
        }
        let r = Patch { diffs };
        assert(r@ =~= invert_patch(self@));
        r
    }
}

} // verus!
