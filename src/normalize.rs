//! The canonical token form of a line, used by every fuzzy comparison.
use crate::text::{
    char_is_alphanumeric, char_is_whitespace, chars_of, is_space, is_word_char, lead_ws,
    lemma_lead_ws_bound, lemma_trail_ws_bound, string_of, trail_ws, trim,
};
use vstd::prelude::*;

verus! {

/// The tokens of `s`, given the identifier run `word` gathered just before it:
/// identifier characters accumulate into one token, whitespace ends a token
/// and is dropped, and any other character is a token of its own.
pub open spec fn tokens_from(s: Seq<char>, word: Seq<char>) -> Seq<Seq<char>>
    decreases s.len(),
{
    if s.len() == 0 {
        if word.len() > 0 {
            seq![word]
        } else {
            Seq::empty()
        }
    } else if is_word_char(s[0]) {
        tokens_from(s.drop_first(), word.push(s[0]))
    } else {
        let done: Seq<Seq<char>> = if word.len() > 0 {
            seq![word]
        } else {
            Seq::empty()
        };
        if is_space(s[0]) {
            done + tokens_from(s.drop_first(), Seq::empty())
        } else {
            done + seq![seq![s[0]]] + tokens_from(s.drop_first(), Seq::empty())
        }
    }
}

pub open spec fn tokens(s: Seq<char>) -> Seq<Seq<char>> {
    tokens_from(s, Seq::empty())
}

/// The tokens with one space between each two.
pub open spec fn join_tokens(ts: Seq<Seq<char>>) -> Seq<char>
    decreases ts.len(),
{
    if ts.len() == 0 {
        Seq::empty()
    } else if ts.len() == 1 {
        ts[0]
    } else {
        join_tokens(ts.drop_last()) + seq![' '] + ts.last()
    }
}

/// The normalized form of a line.
pub open spec fn normalize(s: Seq<char>) -> Seq<char> {
    join_tokens(tokens(s))
}

/// Appends a token to the joined output.
fn emit_token(out: &mut Vec<char>, t: &Vec<char>, first: bool, Ghost(done): Ghost<Seq<Seq<char>>>)
    requires
        old(out)@ == join_tokens(done),
        first == (done.len() == 0),
    ensures
        final(out)@ == join_tokens(done.push(t@)),
{
    if !first {
        out.push(' ');
    }
    let ghost base = out@;
    let mut j: usize = 0;
    while j < t.len()
        invariant
            j <= t@.len(),
            out@ == base + t@.take(j as int),
        decreases t@.len() - j,
    {
        out.push(t[j]);
        j = j + 1;
        assert(out@ =~= base + t@.take(j as int));
    }
    proof {
        assert(t@.take(j as int) =~= t@);
        assert(done.push(t@).drop_last() =~= done);
        if done.len() == 0 {
            assert(out@ =~= join_tokens(done.push(t@)));
        }
    }
}

/// The canonical form of a line: whitespace dropped, identifier runs and other
/// characters as tokens, joined by single spaces.
pub fn normalize_line(line: &str) -> (r: String)
    ensures
        r@ == normalize(line@),
{
    let s = chars_of(line);
    let mut out: Vec<char> = Vec::new();
    let mut word: Vec<char> = Vec::new();
    let ghost mut done: Seq<Seq<char>> = Seq::empty();
    let mut first = true;
    let mut i: usize = 0;
    assert(s@.skip(0) =~= s@);
    while i < s.len()
        invariant
            i <= s@.len(),
            out@ == join_tokens(done),
            first == (done.len() == 0),
            tokens(s@) == done + tokens_from(s@.skip(i as int), word@),
        decreases s@.len() - i,
    {
        let c = s[i];
        let ghost rest = s@.skip(i as int);
        assert(rest[0] == c);
        assert(rest.drop_first() =~= s@.skip(i + 1));
        let ghost w0 = word@;
        let ghost d0 = done;
        if char_is_alphanumeric(c) || c == '_' {
            word.push(c);
        } else {
            if word.len() > 0 {
                emit_token(&mut out, &word, first, Ghost(done));
                first = false;
                proof {
                    done = done.push(word@);
                }
                word = Vec::new();
            }
            if !char_is_whitespace(c) {
                let one = vec![c];
                emit_token(&mut out, &one, first, Ghost(done));
                first = false;
                proof {
                    assert(one@ =~= seq![c]);
                    done = done.push(seq![c]);
                }
            }
        }
        proof {
            let dd: Seq<Seq<char>> = if w0.len() > 0 {
                seq![w0]
            } else {
                Seq::empty()
            };
            if is_word_char(c) {
                assert(tokens_from(rest, w0) == tokens_from(s@.skip(i + 1), word@));
            } else if is_space(c) {
                assert(word@ =~= Seq::<char>::empty());
                assert(done =~= d0 + dd);
                assert(tokens_from(rest, w0) == dd + tokens_from(s@.skip(i + 1), word@));
            } else {
                assert(word@ =~= Seq::<char>::empty());
                assert(done =~= d0 + dd + seq![seq![c]]);
                assert(tokens_from(rest, w0) == dd + seq![seq![c]] + tokens_from(
                    s@.skip(i + 1),
                    word@,
                ));
            }
            assert(tokens(s@) =~= done + tokens_from(s@.skip(i + 1), word@));
        }
        i = i + 1;
    }
    if word.len() > 0 {
        emit_token(&mut out, &word, first, Ghost(done));
        proof {
            done = done.push(word@);
        }
    }
    proof {
        assert(s@.skip(i as int).len() == 0);
        assert(tokens(s@) =~= done);
    }
    string_of(&out)
}

pub open spec fn all_whitespace(w: Seq<char>) -> bool {
    forall|i: int| 0 <= i < w.len() ==> is_space(#[trigger] w[i])
}

pub open spec fn all_word_chars(w: Seq<char>) -> bool {
    forall|i: int| 0 <= i < w.len() ==> is_word_char(#[trigger] w[i])
}

/// A token as `tokens` produces it: an identifier run, or one other
/// non-whitespace character.
pub open spec fn valid_token(t: Seq<char>) -> bool {
    (t.len() > 0 && all_word_chars(t)) || (t.len() == 1 && !is_word_char(t[0]) && !is_space(t[0]))
}

/// `ws[0] + ts[0] + ws[1] + ... + ts[k-1] + ws[k]`.
pub open spec fn interleave(ts: Seq<Seq<char>>, ws: Seq<Seq<char>>) -> Seq<char>
    decreases ts.len(),
{
    if ts.len() == 0 {
        ws[0]
    } else {
        ws[0] + (ts[0] + interleave(ts.drop_first(), ws.drop_first()))
    }
}

proof fn lemma_tokens_valid(s: Seq<char>, word: Seq<char>)
    requires
        all_word_chars(word),
    ensures
        forall|i: int| 0 <= i < tokens_from(s, word).len() ==> valid_token(#[trigger] tokens_from(s, word)[i]),
    decreases s.len(),
{
    if s.len() > 0 {
        if is_word_char(s[0]) {
            let w2 = word.push(s[0]);
            assert forall|i: int| 0 <= i < w2.len() implies is_word_char(#[trigger] w2[i]) by {
                if i < word.len() {
                    assert(w2[i] == word[i]);
                }
            }
            lemma_tokens_valid(s.drop_first(), w2);
            assert(tokens_from(s, word) == tokens_from(s.drop_first(), w2));
        } else {
            lemma_tokens_valid(s.drop_first(), Seq::empty());
            let done: Seq<Seq<char>> = if word.len() > 0 {
                seq![word]
            } else {
                Seq::empty()
            };
            let rest = tokens_from(s.drop_first(), Seq::empty());
            if is_space(s[0]) {
                assert forall|i: int| 0 <= i < tokens_from(s, word).len() implies valid_token(
                    #[trigger] tokens_from(s, word)[i],
                ) by {
                    assert(tokens_from(s, word) == done + rest);
                    if i >= done.len() {
                        assert(tokens_from(s, word)[i] == rest[i - done.len()]);
                    } else {
                        assert(tokens_from(s, word)[i] == word);
                    }
                }
            } else {
                let one: Seq<Seq<char>> = seq![seq![s[0]]];
                assert forall|i: int| 0 <= i < tokens_from(s, word).len() implies valid_token(
                    #[trigger] tokens_from(s, word)[i],
                ) by {
                    assert(tokens_from(s, word) == done + one + rest);
                    if i >= done.len() + 1 {
                        assert(tokens_from(s, word)[i] == rest[i - done.len() - 1]);
                    } else if i == done.len() {
                        assert(tokens_from(s, word)[i] == seq![s[0]]);
                    } else {
                        assert(tokens_from(s, word)[i] == word);
                    }
                }
            }
        }
    } else {
        if word.len() > 0 {
            assert(tokens_from(s, word) == seq![word]);
        }
    }
}

/// Leading separators produce no tokens.
proof fn lemma_skip_separators(w: Seq<char>, r: Seq<char>)
    requires
        all_whitespace(w),
    ensures
        tokens_from(w + r, Seq::empty()) == tokens_from(r, Seq::empty()),
    decreases w.len(),
{
    if w.len() > 0 {
        assert(is_space(w[0]));
        assert((w + r)[0] == w[0]);
        assert((w + r).drop_first() =~= w.drop_first() + r);
        let e: Seq<Seq<char>> = Seq::empty();
        assert(e + tokens_from(w.drop_first() + r, Seq::empty()) =~= tokens_from(w.drop_first() + r, Seq::empty()));
        lemma_skip_separators(w.drop_first(), r);
    } else {
        assert(w + r =~= r);
    }
}

/// An identifier run continues the pending run.
proof fn lemma_word_run(t: Seq<char>, r: Seq<char>, word: Seq<char>)
    requires
        all_word_chars(t),
    ensures
        tokens_from(t + r, word) == tokens_from(r, word + t),
    decreases t.len(),
{
    if t.len() > 0 {
        assert((t + r)[0] == t[0]);
        assert((t + r).drop_first() =~= t.drop_first() + r);
        assert(is_word_char(t[0]));
        assert forall|i: int| 0 <= i < t.drop_first().len() implies is_word_char(#[trigger] t.drop_first()[i]) by {
            assert(t.drop_first()[i] == t[i + 1]);
        }
        lemma_word_run(t.drop_first(), r, word.push(t[0]));
        assert(word.push(t[0]) + t.drop_first() =~= word + t);
    } else {
        assert(t + r =~= r);
        assert(word + t =~= word);
    }
}

/// After a pending run, text that starts with a separator (or is empty)
/// yields that run as a token, then its own tokens.
proof fn lemma_run_ends(x: Seq<char>, word: Seq<char>)
    requires
        word.len() > 0,
        x.len() == 0 || is_space(x[0]),
    ensures
        tokens_from(x, word) == seq![word] + tokens_from(x, Seq::empty()),
{
    if x.len() > 0 {
        let e: Seq<Seq<char>> = Seq::empty();
        assert(e + tokens_from(x.drop_first(), Seq::empty()) =~= tokens_from(x.drop_first(), Seq::empty()));
    } else {
        assert(seq![word] + Seq::<Seq<char>>::empty() =~= seq![word]);
    }
}

proof fn lemma_tokens_of_interleave(ts: Seq<Seq<char>>, ws: Seq<Seq<char>>)
    requires
        ws.len() == ts.len() + 1,
        forall|i: int| 0 <= i < ts.len() ==> valid_token(#[trigger] ts[i]),
        forall|i: int| 0 <= i < ws.len() ==> all_whitespace(#[trigger] ws[i]),
        forall|i: int| 0 < i < ws.len() - 1 ==> (#[trigger] ws[i]).len() > 0,
    ensures
        tokens(interleave(ts, ws)) == ts,
    decreases ts.len(),
{
    if ts.len() == 0 {
        lemma_skip_separators(ws[0], Seq::empty());
        assert(ws[0] + Seq::<char>::empty() =~= ws[0]);
        assert(tokens_from(Seq::<char>::empty(), Seq::empty()) =~= ts);
    } else {
        let t = ts[0];
        let ts1 = ts.drop_first();
        let ws1 = ws.drop_first();
        assert forall|i: int| 0 <= i < ts1.len() implies valid_token(#[trigger] ts1[i]) by {
            assert(ts1[i] == ts[i + 1]);
        }
        assert forall|i: int| 0 <= i < ws1.len() implies all_whitespace(#[trigger] ws1[i]) by {
            assert(ws1[i] == ws[i + 1]);
        }
        assert forall|i: int| 0 < i < ws1.len() - 1 implies (#[trigger] ws1[i]).len() > 0 by {
            assert(ws1[i] == ws[i + 1]);
        }
        lemma_tokens_of_interleave(ts1, ws1);
        let x = interleave(ts1, ws1);
        lemma_skip_separators(ws[0], t + x);
        // `x` starts with the run `ws[1]`, or is empty.
        assert(x.len() == 0 || is_space(x[0]) || (ws1[0].len() == 0 && ts1.len() == 0)) by {
            if ts1.len() == 0 {
                assert(x == ws1[0]);
                if x.len() > 0 {
                    assert(all_whitespace(ws1[0]));
                }
            } else {
                assert(ws1[0] == ws[1]);
                assert(ws[1].len() > 0);
                assert(all_whitespace(ws[1]));
                assert(x[0] == ws1[0][0]);
            }
        }
        if all_word_chars(t) && t.len() > 0 {
            lemma_word_run(t, x, Seq::empty());
            assert(Seq::<char>::empty() + t =~= t);
            lemma_run_ends(x, t);
        } else {
            assert(t.len() == 1);
            assert((t + x)[0] == t[0]);
            assert((t + x).drop_first() =~= x);
            assert(tokens_from(t + x, Seq::empty()) =~= seq![seq![t[0]]] + tokens_from(x, Seq::empty()));
            assert(seq![t[0]] =~= t);
        }
        assert(ts =~= seq![t] + ts1);
    }
}

/// Replacing the single spaces between the tokens of a line by any runs of
/// whitespace, and adding runs before and after, leaves its normalized form
/// unchanged.
pub proof fn lemma_whitespace_invariance(s: Seq<char>, ws: Seq<Seq<char>>)
    requires
        ws.len() == tokens(s).len() + 1,
        forall|i: int| 0 <= i < ws.len() ==> all_whitespace(#[trigger] ws[i]),
        forall|i: int| 0 < i < ws.len() - 1 ==> (#[trigger] ws[i]).len() > 0,
    ensures
        normalize(interleave(tokens(s), ws)) == normalize(s),
{
    lemma_tokens_valid(s, Seq::empty());
    lemma_tokens_of_interleave(tokens(s), ws);
}

/// Joined text whose only whitespace is single spaces between its tokens.
pub open spec fn spaced_tokens(out: Seq<char>) -> bool {
    &&& forall|i: int|
        0 <= i < out.len() && is_space(#[trigger] out[i]) ==> out[i] == ' ' && 0 < i < out.len() - 1
            && !is_space(out[i - 1]) && !is_space(out[i + 1])
}

proof fn lemma_join_shape(ts: Seq<Seq<char>>)
    requires
        forall|i: int| 0 <= i < ts.len() ==> valid_token(#[trigger] ts[i]),
    ensures
        spaced_tokens(join_tokens(ts)),
        (join_tokens(ts).len() == 0) == (ts.len() == 0),
        join_tokens(ts).len() > 0 ==> !is_space(join_tokens(ts)[0]) && !is_space(
            join_tokens(ts).last(),
        ),
    decreases ts.len(),
{
    if ts.len() == 1 {
        let t = ts[0];
        assert(valid_token(t));
        assert forall|i: int| 0 <= i < t.len() implies !is_space(#[trigger] t[i]) by {
            if t.len() > 0 && all_word_chars(t) {
                assert(is_word_char(t[i]));
            }
        }
    } else if ts.len() > 1 {
        let p = ts.drop_last();
        let t = ts.last();
        assert forall|i: int| 0 <= i < p.len() implies valid_token(#[trigger] p[i]) by {
            assert(p[i] == ts[i]);
        }
        lemma_join_shape(p);
        assert(valid_token(ts[ts.len() - 1]));
        assert forall|i: int| 0 <= i < t.len() implies !is_space(#[trigger] t[i]) by {
            if t.len() > 0 && all_word_chars(t) {
                assert(is_word_char(t[i]));
            }
        }
        let jp = join_tokens(p);
        let out = join_tokens(ts);
        assert(out == jp + seq![' '] + t);
        assert forall|i: int|
            0 <= i < out.len() && is_space(#[trigger] out[i]) implies out[i] == ' ' && 0 < i < out.len()
            - 1 && !is_space(out[i - 1]) && !is_space(out[i + 1]) by {
            if i < jp.len() {
                assert(out[i] == jp[i]);
                if i + 1 < jp.len() {
                    assert(out[i + 1] == jp[i + 1]);
                }
                if i > 0 {
                    assert(out[i - 1] == jp[i - 1]);
                }
                if i == jp.len() - 1 {
                    assert(jp[i] == jp.last());
                }
            } else if i == jp.len() {
                assert(out[i - 1] == jp.last());
                assert(out[i + 1] == t[0]);
            } else {
                assert(out[i] == t[i - jp.len() - 1]);
            }
        }
        assert(out[0] == jp[0]);
        assert(out.last() == t.last());
    }
}

proof fn lemma_tokens_empty(s: Seq<char>, word: Seq<char>)
    ensures
        (tokens_from(s, word).len() == 0) == (word.len() == 0 && all_whitespace(s)),
    decreases s.len(),
{
    if s.len() > 0 {
        let rest = s.drop_first();
        assert forall|i: int| 0 <= i < rest.len() implies rest[i] == s[i + 1] by {}
        if is_word_char(s[0]) {
            lemma_tokens_empty(rest, word.push(s[0]));
            assert(!is_space(s[0]));
        } else {
            lemma_tokens_empty(rest, Seq::empty());
            if all_whitespace(rest) && is_space(s[0]) {
                assert forall|i: int| 0 <= i < s.len() implies is_space(#[trigger] s[i]) by {
                    if i > 0 {
                        assert(s[i] == rest[i - 1]);
                    }
                }
            }
            if all_whitespace(s) {
                assert(is_space(s[0]));
                assert forall|i: int| 0 <= i < rest.len() implies is_space(#[trigger] rest[i]) by {
                    assert(is_space(s[i + 1]));
                }
            }
        }
    }
}

/// The normalized form of a line is empty exactly when the line is blank, and
/// its only whitespace is single spaces between tokens.
pub proof fn lemma_normalize_shape(s: Seq<char>)
    ensures
        (normalize(s).len() == 0) == (trim(s).len() == 0),
        spaced_tokens(normalize(s)),
{
    lemma_tokens_valid(s, Seq::empty());
    lemma_join_shape(tokens(s));
    lemma_tokens_empty(s, Seq::empty());
    lemma_lead_ws_bound(s);
    lemma_trail_ws_bound(s);
    if lead_ws(s) == s.len() {
        assert(all_whitespace(s));
    } else {
        assert(!is_space(s[lead_ws(s) as int]));
        assert(!all_whitespace(s));
        // The trimmed text keeps that non-blank character.
        if trail_ws(s) > s.len() - lead_ws(s) - 1 {
            assert(is_space(s[lead_ws(s) as int]));
        }
        assert(trim(s).len() > 0);
    }
}

} // verus!
