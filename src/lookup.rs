//! Per-file lookup tables: the non-blank lines in normalized form, and an index
//! from normalized text to the places where it occurs.
use crate::normalize::{normalize, normalize_line};
use std::collections::HashMap;
use vstd::prelude::*;

verus! {

broadcast use vstd::std_specs::hash::group_hash_axioms;

/// The clean map: `(line index, normalized text)` for each non-blank line,
/// in line order.
pub type CleanMap = Vec<(usize, String)>;

/// The index: for each text hash, the positions in the clean map whose text
/// has that hash, ascending.
pub type IndexMap = HashMap<u64, Vec<usize>>;

pub type LookupTable = (CleanMap, IndexMap);

pub open spec fn entry_view(e: (usize, String)) -> (usize, Seq<char>) {
    (e.0, e.1@)
}

pub open spec fn clean_view(cm: Seq<(usize, String)>) -> Seq<(usize, Seq<char>)> {
    cm.map_values(|e: (usize, String)| entry_view(e))
}

pub open spec fn line_views(lines: Seq<String>) -> Seq<Seq<char>> {
    lines.map_values(|s: String| s@)
}

/// The non-blank lines of `lines`, with their indices and normalized texts.
pub open spec fn clean_entries(lines: Seq<Seq<char>>) -> Seq<(usize, Seq<char>)>
    decreases lines.len(),
{
    if lines.len() == 0 {
        Seq::empty()
    } else {
        let p = clean_entries(lines.drop_last());
        let n = normalize(lines.last());
        if n.len() > 0 {
            p.push(((lines.len() - 1) as usize, n))
        } else {
            p
        }
    }
}

pub const HASH_MODULUS: u128 = 0x1_0000_0000_0000_0000;

pub const HASH_MULTIPLIER: u128 = 31;

/// A polynomial hash of a text, modulo 2^64.
pub open spec fn text_hash(s: Seq<char>) -> u64
    decreases s.len(),
{
    if s.len() == 0 {
        0
    } else {
        ((text_hash(s.drop_last()) as int * HASH_MULTIPLIER + (s.last() as u32) as int)
            % HASH_MODULUS as int) as u64
    }
}

/// The positions among the first `n` texts whose hash is `h`, ascending.
pub open spec fn hash_positions(texts: Seq<(usize, Seq<char>)>, h: u64, n: int) -> Seq<usize>
    decreases n,
{
    if n <= 0 {
        Seq::empty()
    } else {
        let p = hash_positions(texts, h, n - 1);
        if text_hash(texts[n - 1].1) == h {
            p.push((n - 1) as usize)
        } else {
            p
        }
    }
}

/// `index` maps each hash to the positions of `texts` that have it.
pub open spec fn indexes(index: Map<u64, Vec<usize>>, texts: Seq<(usize, Seq<char>)>) -> bool {
    forall|h: u64|
        #![trigger index[h]]
        #![trigger hash_positions(texts, h, texts.len() as int)]
        (index.contains_key(h) ==> index[h]@ == hash_positions(texts, h, texts.len() as int))
            && (!index.contains_key(h) ==> hash_positions(texts, h, texts.len() as int).len() == 0)
}

/// The lookup tables describe `lines`.
pub open spec fn tables_of(cm: Seq<(usize, String)>, index: Map<u64, Vec<usize>>, lines: Seq<String>) -> bool {
    &&& clean_view(cm) == clean_entries(line_views(lines))
    &&& indexes(index, clean_view(cm))
}

/// The line indices of the entries among the first `n` whose text is `key`.
pub open spec fn occurrences(cm: Seq<(usize, Seq<char>)>, key: Seq<char>, n: int) -> Seq<usize>
    decreases n,
{
    if n <= 0 {
        Seq::empty()
    } else {
        let p = occurrences(cm, key, n - 1);
        if cm[n - 1].1 == key {
            p.push(cm[n - 1].0)
        } else {
            p
        }
    }
}

/// The line indices at the listed positions whose text is `key`.
pub open spec fn select(cm: Seq<(usize, Seq<char>)>, key: Seq<char>, ps: Seq<usize>) -> Seq<usize>
    decreases ps.len(),
{
    if ps.len() == 0 {
        Seq::empty()
    } else {
        let p = select(cm, key, ps.drop_last());
        if cm[ps.last() as int].1 == key {
            p.push(cm[ps.last() as int].0)
        } else {
            p
        }
    }
}

proof fn lemma_select_hash_positions(cm: Seq<(usize, Seq<char>)>, key: Seq<char>, n: int)
    requires
        0 <= n <= cm.len(),
        cm.len() <= usize::MAX,
    ensures
        select(cm, key, hash_positions(cm, text_hash(key), n)) == occurrences(cm, key, n),
    decreases n,
{
    if n > 0 {
        lemma_select_hash_positions(cm, key, n - 1);
        let hp = hash_positions(cm, text_hash(key), n);
        if text_hash(cm[n - 1].1) == text_hash(key) {
            assert(hp.drop_last() =~= hash_positions(cm, text_hash(key), n - 1));
            assert(hp.last() as int == n - 1);
        } else {
            assert(cm[n - 1].1 != key);
        }
    }
}

fn hash_text(s: &String) -> (h: u64)
    ensures
        h == text_hash(s@),
{
    let cs = crate::text::chars_of(s.as_str());
    let mut h: u64 = 0;
    let mut i: usize = 0;
    while i < cs.len()
        invariant
            i <= cs@.len(),
            cs@ == s@,
            h == text_hash(cs@.take(i as int)),
        decreases cs@.len() - i,
    {
        assert(cs@.take(i + 1).drop_last() =~= cs@.take(i as int));
        let c = cs[i];
        h = (((h as u128) * HASH_MULTIPLIER + (c as u32) as u128) % HASH_MODULUS) as u64;
        i = i + 1;
    }
    assert(cs@.take(i as int) =~= cs@);
    h
}

/// Builds the clean map and the index for `source_lines`.
pub fn build_lookup_tables(source_lines: &[String]) -> (r: LookupTable)
    ensures
        tables_of(r.0@, r.1@, source_lines@),
{
    let mut cm: Vec<(usize, String)> = Vec::new();
    let mut i: usize = 0;
    while i < source_lines.len()
        invariant
            i <= source_lines@.len(),
            clean_view(cm@) == clean_entries(line_views(source_lines@.take(i as int))),
        decreases source_lines@.len() - i,
    {
        let n = normalize_line(source_lines[i].as_str());
        proof {
            let l = line_views(source_lines@.take(i + 1));
            assert(l.drop_last() =~= line_views(source_lines@.take(i as int)));
            assert(l.last() == source_lines@[i as int]@);
        }
        if !n.as_str().is_empty() {
            cm.push((i, n));
        }
        proof {
            assert(clean_view(cm@) =~= clean_entries(line_views(source_lines@.take(i + 1))));
        }
        i = i + 1;
    }
    proof {
        assert(source_lines@.take(i as int) =~= source_lines@);
    }
    let mut index: HashMap<u64, Vec<usize>> = HashMap::new();
    let mut j: usize = 0;
    while j < cm.len()
        invariant
            j <= cm@.len(),
            indexes_upto(index@, clean_view(cm@), j as int),
        decreases cm@.len() - j,
    {
        let h = hash_text(&cm[j].1);
        let ghost before = index@;
        let ghost cv = clean_view(cm@);
        let mut list: Vec<usize> = match index.remove(&h) {
            Some(v) => {
                assert(before.contains_key(h) && before[h] == v);
                v
            },
            None => {
                assert(!before.contains_key(h));
                assert(hash_positions(cv, h, j as int) =~= Seq::<usize>::empty());
                Vec::new()
            },
        };
        proof {
            assert(cv[j as int].1 == cm@[j as int].1@);
            assert(list@ == hash_positions(cv, h, j as int));
            assert(index@ == before.remove(h));
            assert forall|g: u64| g != h implies index@.contains_key(g) == before.contains_key(g) && (
            index@.contains_key(g) ==> index@[g] == before[g]) by {}
        }
        list.push(j);
        let ghost new_list = list;
        let ghost removed = index@;
        index.insert(h, list);
        proof {
            assert(index@ == removed.insert(h, new_list));
            assert(hash_positions(cv, h, j + 1) =~= hash_positions(cv, h, j as int).push(j));
            assert forall|g: u64|
                #![trigger index@[g]]
                #![trigger hash_positions(cv, g, j + 1)]
                (index@.contains_key(g) ==> index@[g]@ == hash_positions(cv, g, j + 1))
                    && (!index@.contains_key(g) ==> hash_positions(cv, g, j + 1).len() == 0) by {
                if g != h {
                    assert(hash_positions(cv, g, j + 1) == hash_positions(cv, g, j as int));
                    assert(index@.contains_key(g) == before.contains_key(g));
                    if before.contains_key(g) {
                        assert(index@[g] == before[g]);
                    }
                }
            }
        }
        j = j + 1;
    }
    (cm, index)
}

/// `index` maps each hash to the positions among the first `n` texts that
/// have it.
pub open spec fn indexes_upto(index: Map<u64, Vec<usize>>, texts: Seq<(usize, Seq<char>)>, n: int) -> bool {
    forall|h: u64|
        #![trigger index[h]]
        #![trigger hash_positions(texts, h, n)]
        (index.contains_key(h) ==> index[h]@ == hash_positions(texts, h, n))
            && (!index.contains_key(h) ==> hash_positions(texts, h, n).len() == 0)
}

/// The line indices, ascending, of the lines whose normalized text is `key`.
pub fn lookup(cm: &CleanMap, index: &IndexMap, key: &String) -> (r: Vec<usize>)
    requires
        indexes(index@, clean_view(cm@)),
    ensures
        r@ == occurrences(clean_view(cm@), key@, cm@.len() as int),
{
    let ghost cv = clean_view(cm@);
    let len = cm.len();
    assert(cv.len() == len);
    let h = hash_text(key);
    let mut r: Vec<usize> = Vec::new();
    proof {
        lemma_select_hash_positions(cv, key@, cv.len() as int);
    }
    match index.get(&h) {
        None => {
            proof {
                assert(!index@.contains_key(h));
                assert(hash_positions(cv, h, cv.len() as int) =~= Seq::<usize>::empty());
            }
        },
        Some(ps) => {
            let mut k: usize = 0;
            while k < ps.len()
                invariant
                    k <= ps@.len(),
                    ps@ == hash_positions(cv, h, cv.len() as int),
                    cv == clean_view(cm@),
                    cv.len() == len,
                    r@ == select(cv, key@, ps@.take(k as int)),
                decreases ps@.len() - k,
            {
                let p = ps[k];
                proof {
                    lemma_hash_positions_bound(cv, h, cv.len() as int);
                    assert(ps@.take(k + 1).drop_last() =~= ps@.take(k as int));
                    assert(cv[p as int] == entry_view(cm@[p as int]));
                }
                if cm[p].1 == *key {
                    r.push(cm[p].0);
                }
                k = k + 1;
            }
            proof {
                assert(ps@.take(k as int) =~= ps@);
            }
        },
    }
    r
}

proof fn lemma_hash_positions_bound(texts: Seq<(usize, Seq<char>)>, h: u64, n: int)
    requires
        n <= usize::MAX,
    ensures
        forall|k: int|
            0 <= k < hash_positions(texts, h, n).len() ==> #[trigger] hash_positions(texts, h, n)[k] < n,
    decreases n,
{
    if n > 0 {
        lemma_hash_positions_bound(texts, h, n - 1);
        let p = hash_positions(texts, h, n - 1);
        assert forall|k: int|
            0 <= k < hash_positions(texts, h, n).len() implies #[trigger] hash_positions(texts, h, n)[k] < n by {
            if k < p.len() {
                assert(hash_positions(texts, h, n)[k] == p[k]);
            }
        }
    }
}

/// The entries of the clean map come in strictly ascending line order, each
/// within the lines.
pub open spec fn ascending_within(cm: Seq<(usize, Seq<char>)>, n: int) -> bool {
    &&& forall|i: int, j: int| 0 <= i < j < cm.len() ==> cm[i].0 < cm[j].0
    &&& forall|i: int| 0 <= i < cm.len() ==> #[trigger] cm[i].0 < n
}

pub proof fn lemma_clean_entries_ascending(lines: Seq<Seq<char>>)
    requires
        lines.len() <= usize::MAX,
    ensures
        ascending_within(clean_entries(lines), lines.len() as int),
    decreases lines.len(),
{
    if lines.len() > 0 {
        lemma_clean_entries_ascending(lines.drop_last());
    }
}

} // verus!
