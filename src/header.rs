//! The hunk header `@@ -a[,b] +c[,d] @@`.
use vstd::prelude::*;

verus! {

pub open spec fn is_digit(c: char) -> bool {
    '0' <= c && c <= '9'
}

/// Length of the run of decimal digits starting at `p`.
pub open spec fn digit_run(l: Seq<char>, p: int) -> nat
    decreases l.len() - p,
{
    if 0 <= p < l.len() && is_digit(l[p]) {
        1 + digit_run(l, p + 1)
    } else {
        0
    }
}

/// The value of a string of decimal digits.
pub open spec fn digits_value(s: Seq<char>) -> nat
    decreases s.len(),
{
    if s.len() == 0 {
        0
    } else {
        (digits_value(s.drop_last()) * 10 + (s.last() as u32) - ('0' as u32)) as nat
    }
}

/// The number written at `p`.
pub open spec fn number_at(l: Seq<char>, p: int) -> nat {
    digits_value(l.subrange(p, p + digit_run(l, p)))
}

/// `l` holds the characters of `lit` at `p`.
pub open spec fn has_at(l: Seq<char>, p: int, lit: Seq<char>) -> bool {
    0 <= p && p + lit.len() <= l.len() && l.subrange(p, p + lit.len()) == lit
}

/// Where the numbers of a header stand: the start of each run of digits.
pub struct HeaderSpans {
    pub old_start: int,
    pub old_count: Option<int>,
    pub new_start: int,
    pub new_count: Option<int>,
}

/// An optional `,digits` at `q`: where its digits start, and where it ends.
pub open spec fn optional_count(l: Seq<char>, q: int) -> (Option<int>, int) {
    if q < l.len() && l[q] == ',' && digit_run(l, q + 1) > 0 {
        (Some(q + 1), q + 1 + digit_run(l, q + 1))
    } else {
        (None, q)
    }
}

/// The header that starts at `p`, if one does.
pub open spec fn header_at(l: Seq<char>, p: int) -> Option<HeaderSpans> {
    let a = p + 4;
    let q = a + digit_run(l, a);
    let (b, q2) = optional_count(l, q);
    let c = q2 + 2;
    let q3 = c + digit_run(l, c);
    let (d, q4) = optional_count(l, q3);
    if has_at(l, p, "@@ -"@) && digit_run(l, a) > 0 && has_at(l, q2, " +"@) && digit_run(l, c) > 0
        && has_at(l, q4, " @@"@) {
        Some(HeaderSpans { old_start: a, old_count: b, new_start: c, new_count: d })
    } else {
        None
    }
}

/// The leftmost header at or after `p`.
pub open spec fn first_header(l: Seq<char>, p: int) -> Option<HeaderSpans>
    decreases l.len() - p,
{
    if p < 0 || p >= l.len() {
        None
    } else {
        match header_at(l, p) {
            Some(h) => Some(h),
            None => first_header(l, p + 1),
        }
    }
}

/// The four numbers of a header: a missing count is 1.
pub open spec fn header_numbers(l: Seq<char>, h: HeaderSpans) -> (nat, nat, nat, nat) {
    (
        number_at(l, h.old_start),
        match h.old_count {
            Some(p) => number_at(l, p),
            None => 1,
        },
        number_at(l, h.new_start),
        match h.new_count {
            Some(p) => number_at(l, p),
            None => 1,
        },
    )
}

/// What reading the header of line `l` gives.
pub enum HeaderRead {
    /// `old_start`, `old_lines`, `new_start`, `new_lines`.
    Numbers(usize, usize, usize, usize),
    /// No header in the line.
    Malformed,
    /// A header whose numbers do not fit in `usize`.
    TooLarge,
}

/// The header of `l`, as `read_header` reads it.
pub open spec fn header_read(l: Seq<char>) -> HeaderRead {
    match first_header(l, 0) {
        None => HeaderRead::Malformed,
        Some(h) => {
            let (a, b, c, d) = header_numbers(l, h);
            if a <= usize::MAX && b <= usize::MAX && c <= usize::MAX && d <= usize::MAX {
                HeaderRead::Numbers(a as usize, b as usize, c as usize, d as usize)
            } else {
                HeaderRead::TooLarge
            }
        },
    }
}

proof fn lemma_digit_run_bound(l: Seq<char>, p: int)
    requires
        0 <= p,
    ensures
        p + digit_run(l, p) <= if p <= l.len() { l.len() as int } else { p },
        forall|j: int| p <= j < p + digit_run(l, p) ==> is_digit(#[trigger] l[j]),
        p + digit_run(l, p) < l.len() ==> !is_digit(l[p + digit_run(l, p)]),
    decreases l.len() - p,
{
    if 0 <= p < l.len() && is_digit(l[p]) {
        lemma_digit_run_bound(l, p + 1);
    }
}

/// The length of the digit run at `p` and its value, or `None` when the
/// value does not fit in `usize`.
fn read_number(l: &Vec<char>, p: usize) -> (r: (usize, Option<usize>))
    requires
        p <= l@.len(),
    ensures
        r.0 == digit_run(l@, p as int),
        match r.1 {
            Some(v) => v == number_at(l@, p as int),
            None => number_at(l@, p as int) > usize::MAX,
        },
{
    proof {
        lemma_digit_run_bound(l@, p as int);
    }
    let mut i: usize = p;
    let mut v: usize = 0;
    let mut fits = true;
    while i < l.len() && '0' <= l[i] && l[i] <= '9'
        invariant
            p <= i <= l@.len(),
            i <= p + digit_run(l@, p as int),
            digit_run(l@, p as int) == (i - p) + digit_run(l@, i as int),
            fits ==> v == digits_value(l@.subrange(p as int, i as int)),
            !fits ==> digits_value(l@.subrange(p as int, i as int)) > usize::MAX,
        decreases l@.len() - i,
    {
        let d = (l[i] as u32 - '0' as u32) as usize;
        proof {
            assert(l@.subrange(p as int, i + 1).drop_last() =~= l@.subrange(p as int, i as int));
            assert(l@.subrange(p as int, i + 1).last() == l@[i as int]);
        }
        if fits {
            if v > (usize::MAX - d) / 10 {
                fits = false;
            } else {
                v = v * 10 + d;
            }
        }
        i = i + 1;
    }
    proof {
        assert(digit_run(l@, i as int) == 0);
    }
    let n = i - p;
    if fits {
        (n, Some(v))
    } else {
        (n, None)
    }
}

/// Whether `l` holds the characters of `lit` at `p`.
fn has_at_exec(l: &Vec<char>, p: usize, lit: &str) -> (r: bool)
    ensures
        r == has_at(l@, p as int, lit@),
{
    let n = lit.unicode_len();
    let len = l.len();
    if p > len || n > len - p {
        return false;
    }
    let mut i: usize = 0;
    while i < n
        invariant
            n == lit@.len(),
            len == l@.len(),
            p + n <= l@.len(),
            i <= n,
            forall|j: int| 0 <= j < i ==> l@[p + j] == lit@[j],
        decreases n - i,
    {
        if l[p + i] != lit.get_char(i) {
            assert(l@.subrange(p as int, p + n)[i as int] != lit@[i as int]);
            return false;
        }
        i = i + 1;
    }
    assert(l@.subrange(p as int, p + n) =~= lit@);
    true
}

fn optional_count_exec(l: &Vec<char>, q: usize) -> (r: (bool, usize, usize))
    requires
        q <= l@.len(),
    ensures
        optional_count(l@, q as int) == (if r.0 { Some(r.1 as int) } else { None::<int> }, r.2 as int),
        r.2 <= l@.len(),
        q <= r.2,
{
    if q < l.len() && l[q] == ',' {
        let (run, _) = read_number(l, q + 1);
        proof {
            lemma_digit_run_bound(l@, q + 1);
        }
        if run > 0 {
            return (true, q + 1, q + 1 + run);
        }
    }
    (false, 0, q)
}

/// The positions of the numbers of the header starting at `p`, if one does.
fn header_at_exec(l: &Vec<char>, p: usize) -> (r: Option<(usize, (bool, usize), usize, (bool, usize))>)
    requires
        p <= l@.len(),
    ensures
        match r {
            None => header_at(l@, p as int) is None,
            Some((a, b, c, d)) => header_at(l@, p as int) == Some(
                HeaderSpans {
                    old_start: a as int,
                    old_count: if b.0 { Some(b.1 as int) } else { None },
                    new_start: c as int,
                    new_count: if d.0 { Some(d.1 as int) } else { None },
                },
            ) && a <= l@.len() && c <= l@.len() && (b.0 ==> b.1 <= l@.len()) && (d.0 ==> d.1 <= l@.len()),
        },
{
    let len = l.len();
    proof {
        reveal_strlit("@@ -");
        reveal_strlit(" +");
        reveal_strlit(" @@");
    }
    if !has_at_exec(l, p, "@@ -") {
        return None;
    }
    let a = p + 4;
    let (ra, _) = read_number(l, a);
    proof {
        lemma_digit_run_bound(l@, a as int);
    }
    if ra == 0 {
        return None;
    }
    let (hb, b, q2) = optional_count_exec(l, a + ra);
    if !has_at_exec(l, q2, " +") {
        return None;
    }
    let c = q2 + 2;
    let (rc, _) = read_number(l, c);
    proof {
        lemma_digit_run_bound(l@, c as int);
    }
    if rc == 0 {
        return None;
    }
    let (hd, d, q4) = optional_count_exec(l, c + rc);
    if !has_at_exec(l, q4, " @@") {
        return None;
    }
    Some((a, (hb, b), c, (hd, d)))
}

/// Reads the leftmost hunk header of `l`.
pub fn read_header(l: &Vec<char>) -> (r: HeaderRead)
    ensures
        r == header_read(l@),
{
    let mut p: usize = 0;
    while p < l.len()
        invariant
            p <= l@.len(),
            first_header(l@, 0) == first_header(l@, p as int),
        decreases l@.len() - p,
    {
        match header_at_exec(l, p) {
            Some((a, b, c, d)) => {
                let (_, va) = read_number(l, a);
                let vb = if b.0 {
                    read_number(l, b.1).1
                } else {
                    Some(1)
                };
                let (_, vc) = read_number(l, c);
                let vd = if d.0 {
                    read_number(l, d.1).1
                } else {
                    Some(1)
                };
                return match (va, vb, vc, vd) {
                    (Some(x), Some(y), Some(z), Some(w)) => HeaderRead::Numbers(x, y, z, w),
                    _ => HeaderRead::TooLarge,
                };
            },
            None => {},
        }
        p = p + 1;
    }
    HeaderRead::Malformed
}

} // verus!
