//! Properties that hold across calls of the store's operations.
use vstd::prelude::*;
use crate::dictionary::{index_of_sentences, known_spec, learn_all, learn_one, rebuilt, with_word_spec};
use crate::index::{insert_all_spec, insert_spec};
use crate::order::{lemma_stable_sort_of_sorted, lemma_stable_sort_sorted};
use crate::respond::respond_spec;
use crate::text::{lower_of, words_of};

verus! {

/// Rebuilding twice in a row gives the same sentence order and the same
/// index as rebuilding once.
pub proof fn rebuild_is_idempotent(sv: Seq<Seq<char>>)
    ensures
        rebuilt(rebuilt(sv).0) == rebuilt(sv),
{
    lemma_stable_sort_sorted(sv);
    lemma_stable_sort_of_sorted(rebuilt(sv).0);
}

proof fn lemma_learn_holds_all(st: (Seq<Seq<char>>, Map<Seq<char>, Seq<usize>>), cs: Seq<Seq<char>>, k: int)
    requires
        0 <= k < cs.len(),
    ensures
        learn_all(st, cs).0.contains(cs[k]),
    decreases cs.len(),
{
    let p = learn_all(st, cs.drop_last()).0;
    if k < cs.len() - 1 {
        lemma_learn_holds_all(st, cs.drop_last(), k);
        assert(cs.drop_last()[k] == cs[k]);
        if !p.contains(cs.last()) {
            let i = choose|i: int| 0 <= i < p.len() && p[i] == cs[k];
            assert(p.push(cs.last())[i] == cs[k]);
        }
    } else if !p.contains(cs.last()) {
        assert(p.push(cs.last())[p.len() as int] == cs.last());
    }
}

proof fn lemma_learn_known(st: (Seq<Seq<char>>, Map<Seq<char>, Seq<usize>>), cs: Seq<Seq<char>>)
    requires
        forall|k: int| 0 <= k < cs.len() ==> st.0.contains(#[trigger] cs[k]),
    ensures
        learn_all(st, cs) == st,
    decreases cs.len(),
{
    if cs.len() > 0 {
        assert forall|k: int| 0 <= k < cs.len() - 1 implies st.0.contains(#[trigger] cs.drop_last()[k]) by {
            assert(cs.drop_last()[k] == cs[k]);
        }
        lemma_learn_known(st, cs.drop_last());
        assert(st.0.contains(cs[cs.len() - 1]));
    }
}

/// Learning the same sentences again changes nothing: neither the sentences
/// nor the index.
pub proof fn learn_again_changes_nothing(st: (Seq<Seq<char>>, Map<Seq<char>, Seq<usize>>), cs: Seq<Seq<char>>)
    ensures
        learn_all(learn_all(st, cs), cs) == learn_all(st, cs),
{
    let st1 = learn_all(st, cs);
    assert forall|k: int| 0 <= k < cs.len() implies st1.0.contains(#[trigger] cs[k]) by {
        lemma_learn_holds_all(st, cs, k);
    }
    lemma_learn_known(st1, cs);
}

/// Learning never stores a sentence twice, also where the same sentence
/// comes twice in one line.
pub proof fn learn_keeps_sentences_distinct(st: (Seq<Seq<char>>, Map<Seq<char>, Seq<usize>>), cs: Seq<Seq<char>>)
    requires
        st.0.no_duplicates(),
    ensures
        learn_all(st, cs).0.no_duplicates(),
    decreases cs.len(),
{
    if cs.len() > 0 {
        learn_keeps_sentences_distinct(st, cs.drop_last());
        let p = learn_all(st, cs.drop_last()).0;
        if !p.contains(cs.last()) {
            let q = p.push(cs.last());
            assert forall|i: int, j: int| 0 <= i < j < q.len() implies q[i] != q[j] by {
                if j == p.len() {
                    assert(p[i] == q[i]);
                }
            }
        }
    }
}

/// Every position that `m` lists under a word is below `ws.len()`, and the
/// word list `ws` has for that position holds the word.
pub open spec fn lists_hold_words(ws: Seq<Seq<Seq<char>>>, m: Map<Seq<char>, Seq<usize>>) -> bool {
    forall|w: Seq<char>, t: int|
        #![trigger m[w][t]]
        m.contains_key(w) && 0 <= t < m[w].len() ==> {
            &&& (m[w][t] as int) < ws.len()
            &&& ws[m[w][t] as int].contains(w)
        }
}

/// The words of each sentence's lowercase form.
pub open spec fn lower_words(sv: Seq<Seq<char>>) -> Seq<Seq<Seq<char>>> {
    sv.map_values(|s: Seq<char>| words_of(lower_of(s)))
}

/// The words of each sentence as stored.
pub open spec fn stored_words(sv: Seq<Seq<char>>) -> Seq<Seq<Seq<char>>> {
    sv.map_values(|s: Seq<char>| words_of(s))
}

/// Every position that `m` lists under a word names a sentence of `sv` whose
/// lowercase form has that word.
pub open spec fn index_consistent(sv: Seq<Seq<char>>, m: Map<Seq<char>, Seq<usize>>) -> bool {
    lists_hold_words(lower_words(sv), m)
}

proof fn lemma_holds_insert(ws: Seq<Seq<Seq<char>>>, m: Map<Seq<char>, Seq<usize>>, w: Seq<char>, p: usize)
    requires
        lists_hold_words(ws, m),
        (p as int) < ws.len(),
        ws[p as int].contains(w),
    ensures
        lists_hold_words(ws, insert_spec(m, w, p)),
{
    let r = insert_spec(m, w, p);
    assert forall|k: Seq<char>, t: int| r.contains_key(k) && 0 <= t < r[k].len() implies {
        &&& (r[k][t] as int) < ws.len()
        &&& ws[r[k][t] as int].contains(k)
    } by {
        if k == w && m.contains_key(w) && !m[w].contains(p) && t < m[w].len() {
            assert(r[k][t] == m[w][t]);
        }
    }
}

proof fn lemma_holds_insert_all(ws: Seq<Seq<Seq<char>>>, m: Map<Seq<char>, Seq<usize>>, xs: Seq<Seq<char>>, p: usize)
    requires
        lists_hold_words(ws, m),
        (p as int) < ws.len(),
        forall|k: int| 0 <= k < xs.len() ==> ws[p as int].contains(#[trigger] xs[k]),
    ensures
        lists_hold_words(ws, insert_all_spec(m, xs, p)),
    decreases xs.len(),
{
    if xs.len() > 0 {
        assert forall|k: int| 0 <= k < xs.len() - 1 implies ws[p as int].contains(#[trigger] xs.drop_last()[k]) by {
            assert(xs.drop_last()[k] == xs[k]);
        }
        lemma_holds_insert_all(ws, m, xs.drop_last(), p);
        assert(ws[p as int].contains(xs[xs.len() - 1]));
        lemma_holds_insert(ws, insert_all_spec(m, xs.drop_last(), p), xs.last(), p);
    }
}

proof fn lemma_holds_extend(ws: Seq<Seq<Seq<char>>>, m: Map<Seq<char>, Seq<usize>>, x: Seq<Seq<char>>)
    requires
        lists_hold_words(ws, m),
    ensures
        lists_hold_words(ws.push(x), m),
{
    assert forall|w: Seq<char>, t: int| m.contains_key(w) && 0 <= t < m[w].len() implies {
        &&& (m[w][t] as int) < ws.push(x).len()
        &&& ws.push(x)[m[w][t] as int].contains(w)
    } by {
        assert(ws.push(x)[m[w][t] as int] == ws[m[w][t] as int]);
    }
}

/// The index that a rebuild makes is consistent with the sentences: each
/// position listed under a word names a sentence whose lowercase form has
/// the word.
pub proof fn rebuilt_index_is_consistent(sv: Seq<Seq<char>>)
    requires
        sv.len() <= usize::MAX,
    ensures
        index_consistent(sv, index_of_sentences(sv)),
    decreases sv.len(),
{
    if sv.len() > 0 {
        let d = sv.drop_last();
        rebuilt_index_is_consistent(d);
        let ws = lower_words(sv);
        assert(lower_words(d).push(words_of(lower_of(sv.last()))) =~= ws);
        lemma_holds_extend(lower_words(d), index_of_sentences(d), words_of(lower_of(sv.last())));
        let n = (sv.len() - 1) as usize;
        let xs = words_of(lower_of(sv.last()));
        assert forall|k: int| 0 <= k < xs.len() implies ws[n as int].contains(#[trigger] xs[k]) by {
            assert(ws[n as int] == xs);
        }
        lemma_holds_insert_all(ws, index_of_sentences(d), xs, n);
    }
}

/// Learning keeps the index consistent with the sentences as stored: each
/// position listed under a word names a sentence that has the word.
pub proof fn learn_keeps_index_consistent(st: (Seq<Seq<char>>, Map<Seq<char>, Seq<usize>>), cs: Seq<Seq<char>>)
    requires
        lists_hold_words(stored_words(st.0), st.1),
        st.0.len() + cs.len() <= usize::MAX,
    ensures
        lists_hold_words(stored_words(learn_all(st, cs).0), learn_all(st, cs).1),
        learn_all(st, cs).0.len() <= st.0.len() + cs.len(),
    decreases cs.len(),
{
    if cs.len() > 0 {
        learn_keeps_index_consistent(st, cs.drop_last());
        let p = learn_all(st, cs.drop_last());
        let s = cs.last();
        if !p.0.contains(s) {
            let ws = stored_words(p.0.push(s));
            assert(stored_words(p.0).push(words_of(s)) =~= ws);
            lemma_holds_extend(stored_words(p.0), p.1, words_of(s));
            let n = p.0.len() as usize;
            let xs = words_of(s);
            assert forall|k: int| 0 <= k < xs.len() implies ws[n as int].contains(#[trigger] xs[k]) by {
                assert(ws[n as int] == xs);
            }
            lemma_holds_insert_all(ws, p.1, xs, n);
        }
    }
}

/// No response where no word of the line is known.
pub proof fn no_response_without_known_words(
    sv: Seq<Seq<char>>,
    m: Map<Seq<char>, Seq<usize>>,
    line: Seq<char>,
    a: u64,
    b: u64,
    c: u64,
)
    requires
        known_spec(m, line).len() == 0,
    ensures
        respond_spec(sv, m, line, a, b, c) is None,
{
}

/// No response where every known word of the line is listed under fewer
/// than two sentences.
pub proof fn no_response_without_two_sentences(
    sv: Seq<Seq<char>>,
    m: Map<Seq<char>, Seq<usize>>,
    line: Seq<char>,
    a: u64,
    b: u64,
    c: u64,
)
    requires
        forall|k: int| 0 <= k < known_spec(m, line).len() ==> (#[trigger] m[known_spec(m, line)[k]]).len() < 2,
    ensures
        respond_spec(sv, m, line, a, b, c) is None,
{
    let kw = known_spec(m, line);
    if kw.len() > 0 {
        let pivot = kw[(a as int) % (kw.len() as int)];
        assert(m[kw[(a as int) % (kw.len() as int)]].len() < 2);
        assert(with_word_spec(sv, m, pivot).len() < 2);
    }
}

} // verus!
