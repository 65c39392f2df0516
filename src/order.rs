//! Ordering texts, and the stable sort of sentences by their lowercase form.
use vstd::prelude::*;
use crate::text::{lower_of, texts, to_lower};

verus! {

/// `a` sorts strictly before `b`: lexicographic order of code points, which
/// is the order of `String`s (their UTF-8 bytes order the same way).
pub open spec fn text_lt(a: Seq<char>, b: Seq<char>) -> bool
    decreases a.len(),
{
    if a.len() == 0 {
        b.len() > 0
    } else if b.len() == 0 {
        false
    } else if a[0] != b[0] {
        a[0] < b[0]
    } else {
        text_lt(a.drop_first(), b.drop_first())
    }
}

/// Where a stable insertion puts `x` into `t`: after every sentence whose
/// lowercase form is not greater than that of `x`.
pub open spec fn insert_pos(t: Seq<Seq<char>>, x: Seq<char>) -> int
    decreases t.len(),
{
    if t.len() == 0 {
        0
    } else if text_lt(lower_of(x), lower_of(t[0])) {
        0
    } else {
        1 + insert_pos(t.drop_first(), x)
    }
}

/// `s` sorted ascending by lowercase form, equal forms kept in their order.
pub open spec fn stable_sort(s: Seq<Seq<char>>) -> Seq<Seq<char>>
    decreases s.len(),
{
    if s.len() == 0 {
        s
    } else {
        let t = stable_sort(s.drop_last());
        t.insert(insert_pos(t, s.last()), s.last())
    }
}

/// No sentence of `t` has a lowercase form smaller than one before it.
pub open spec fn sorted_by_lower(t: Seq<Seq<char>>) -> bool {
    forall|i: int, j: int| 0 <= i < j < t.len() ==> !text_lt(lower_of(t[j]), lower_of(t[i]))
}

pub proof fn lemma_text_lt_asym(a: Seq<char>, b: Seq<char>)
    ensures
        text_lt(a, b) ==> !text_lt(b, a),
    decreases a.len(),
{
    if a.len() > 0 && b.len() > 0 && a[0] == b[0] {
        lemma_text_lt_asym(a.drop_first(), b.drop_first());
    }
}

pub proof fn lemma_text_lt_trans(a: Seq<char>, b: Seq<char>, c: Seq<char>)
    ensures
        text_lt(a, b) && text_lt(b, c) ==> text_lt(a, c),
    decreases a.len(),
{
    if a.len() > 0 && b.len() > 0 && c.len() > 0 && a[0] == b[0] && b[0] == c[0] {
        lemma_text_lt_trans(a.drop_first(), b.drop_first(), c.drop_first());
    }
}

proof fn lemma_insert_pos_props(t: Seq<Seq<char>>, x: Seq<char>)
    ensures
        0 <= insert_pos(t, x) <= t.len(),
        forall|q: int| 0 <= q < insert_pos(t, x) ==> !text_lt(lower_of(x), lower_of(#[trigger] t[q])),
        insert_pos(t, x) < t.len() ==> text_lt(lower_of(x), lower_of(t[insert_pos(t, x)])),
    decreases t.len(),
{
    if t.len() > 0 && !text_lt(lower_of(x), lower_of(t[0])) {
        lemma_insert_pos_props(t.drop_first(), x);
        assert forall|q: int| 0 <= q < insert_pos(t, x) implies !text_lt(lower_of(x), lower_of(#[trigger] t[q])) by {
            if q > 0 {
                assert(t[q] == t.drop_first()[q - 1]);
            }
        }
    }
}

proof fn lemma_insert_pos_at(t: Seq<Seq<char>>, x: Seq<char>, j: int)
    requires
        0 <= j <= t.len(),
        forall|q: int| 0 <= q < j ==> !text_lt(lower_of(x), lower_of(#[trigger] t[q])),
        j == t.len() || text_lt(lower_of(x), lower_of(t[j])),
    ensures
        insert_pos(t, x) == j,
    decreases t.len(),
{
    if t.len() > 0 && j > 0 {
        assert(!text_lt(lower_of(x), lower_of(t[0])));
        assert forall|q: int| 0 <= q < j - 1 implies !text_lt(lower_of(x), lower_of(#[trigger] t.drop_first()[q])) by {
            assert(t.drop_first()[q] == t[q + 1]);
        }
        lemma_insert_pos_at(t.drop_first(), x, j - 1);
    }
}

proof fn lemma_insert_keeps_sorted(t: Seq<Seq<char>>, x: Seq<char>)
    requires
        sorted_by_lower(t),
    ensures
        sorted_by_lower(t.insert(insert_pos(t, x), x)),
{
    lemma_insert_pos_props(t, x);
    let p = insert_pos(t, x);
    let u = t.insert(p, x);
    assert forall|i: int, j: int| 0 <= i < j < u.len() implies !text_lt(lower_of(u[j]), lower_of(u[i])) by {
        let kx = lower_of(x);
        if i == p {
            let tj = lower_of(t[j - 1]);
            let tp = lower_of(t[p]);
            lemma_text_lt_asym(kx, tp);
            lemma_text_lt_trans(tj, kx, tp);
        } else if j == p {
            lemma_text_lt_asym(kx, lower_of(t[i]));
        }
    }
}

/// The stable sort orders by lowercase form.
pub proof fn lemma_stable_sort_sorted(s: Seq<Seq<char>>)
    ensures
        sorted_by_lower(stable_sort(s)),
        stable_sort(s).len() == s.len(),
    decreases s.len(),
{
    if s.len() > 0 {
        lemma_stable_sort_sorted(s.drop_last());
        lemma_insert_keeps_sorted(stable_sort(s.drop_last()), s.last());
        lemma_insert_pos_props(stable_sort(s.drop_last()), s.last());
    }
}

/// The stable sort leaves a sequence that is already in order as it is.
pub proof fn lemma_stable_sort_of_sorted(t: Seq<Seq<char>>)
    requires
        sorted_by_lower(t),
    ensures
        stable_sort(t) == t,
    decreases t.len(),
{
    if t.len() > 0 {
        let d = t.drop_last();
        lemma_stable_sort_of_sorted(d);
        assert forall|q: int| 0 <= q < d.len() implies !text_lt(lower_of(t.last()), lower_of(#[trigger] d[q])) by {
            assert(d[q] == t[q]);
        }
        lemma_insert_pos_at(d, t.last(), d.len() as int);
        assert(d.insert(d.len() as int, t.last()) =~= t);
    }
}

/// Whether `a` sorts strictly before `b`.
pub fn text_less(a: &str, b: &str) -> (r: bool)
    ensures
        r == text_lt(a@, b@),
{
    let na = a.unicode_len();
    let nb = b.unicode_len();
    let mut i: usize = 0;
    assert(a@.skip(0) =~= a@);
    assert(b@.skip(0) =~= b@);
    while i < na && i < nb
        invariant
            na == a@.len(),
            nb == b@.len(),
            i <= na,
            i <= nb,
            text_lt(a@, b@) == text_lt(a@.skip(i as int), b@.skip(i as int)),
        decreases na - i,
    {
        let ca = a.get_char(i);
        let cb = b.get_char(i);
        if ca != cb {
            return ca < cb;
        }
        assert(a@.skip(i as int).drop_first() =~= a@.skip(i + 1));
        assert(b@.skip(i as int).drop_first() =~= b@.skip(i + 1));
        i = i + 1;
    }
    na == i && i < nb
}

/// Sorts `sentences` ascending by lowercase form; equal forms keep their
/// order.
pub fn sort_sentences(sentences: &mut Vec<String>)
    ensures
        texts(final(sentences)@) == stable_sort(texts(old(sentences)@)),
{
    let ghost src = texts(sentences@);
    let mut out: Vec<String> = Vec::new();
    let mut keys: Vec<String> = Vec::new();
    let mut i: usize = 0;
    while i < sentences.len()
        invariant
            src == texts(sentences@),
            i <= sentences@.len(),
            texts(out@) == stable_sort(src.take(i as int)),
            keys@.len() == out@.len(),
            forall|q: int| 0 <= q < out@.len() ==> (#[trigger] keys@[q])@ == lower_of(out@[q]@),
        decreases sentences@.len() - i,
    {
        let x = sentences[i].clone();
        let kx = to_lower(x.as_str());
        let ghost t = texts(out@);
        let mut j: usize = 0;
        while j < out.len() && !text_less(kx.as_str(), keys[j].as_str())
            invariant
                j <= out@.len(),
                t == texts(out@),
                keys@.len() == out@.len(),
                forall|q: int| 0 <= q < out@.len() ==> (#[trigger] keys@[q])@ == lower_of(out@[q]@),
                kx@ == lower_of(x@),
                forall|q: int| 0 <= q < j ==> !text_lt(lower_of(x@), lower_of(#[trigger] t[q])),
            decreases out@.len() - j,
        {
            assert(t[j as int] == out@[j as int]@);
            j = j + 1;
        }
        proof {
            if j < out@.len() {
                assert(t[j as int] == out@[j as int]@);
            }
            lemma_insert_pos_at(t, x@, j as int);
            assert(src.take(i + 1).drop_last() =~= src.take(i as int));
            assert(src[i as int] == x@);
        }
        out.insert(j, x);
        keys.insert(j, kx);
        proof {
            assert(texts(out@) =~= t.insert(j as int, x@));
            assert forall|q: int| 0 <= q < out@.len() implies (#[trigger] keys@[q])@ == lower_of(out@[q]@) by {
                if q < j {
                } else if q > j {
                }
            }
        }
        i = i + 1;
    }
    assert(src.take(sentences@.len() as int) =~= src);
    *sentences = out;
}

} // verus!
