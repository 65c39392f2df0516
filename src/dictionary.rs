//! The knowledge store: learned sentences and the index of their words.
use vstd::prelude::*;
use crate::index::{Indices, entries_map, entry_words, insert_all_spec, insert_spec, insert_word_into_indices};
use crate::order::{sort_sentences, stable_sort};
use crate::text::{lower_of, sentences_of, split_sentences, split_words, texts, to_lower, words_of};

verus! {

/// Every position listed in `m` is below `n`.
pub open spec fn map_below(m: Map<Seq<char>, Seq<usize>>, n: nat) -> bool {
    forall|w: Seq<char>, t: int| m.contains_key(w) && 0 <= t < m[w].len() ==> (m[w][t] as nat) < n
}

/// Learning one candidate sentence `s`: a known one changes nothing; a new one
/// is appended and its words list its position.
pub open spec fn learn_one(st: (Seq<Seq<char>>, Map<Seq<char>, Seq<usize>>), s: Seq<char>) -> (Seq<Seq<char>>, Map<Seq<char>, Seq<usize>>) {
    if st.0.contains(s) {
        st
    } else {
        (st.0.push(s), insert_all_spec(st.1, words_of(s), st.0.len() as usize))
    }
}

/// Learning the candidate sentences `cs` one after the other.
pub open spec fn learn_all(st: (Seq<Seq<char>>, Map<Seq<char>, Seq<usize>>), cs: Seq<Seq<char>>) -> (Seq<Seq<char>>, Map<Seq<char>, Seq<usize>>)
    decreases cs.len(),
{
    if cs.len() == 0 {
        st
    } else {
        learn_one(learn_all(st, cs.drop_last()), cs.last())
    }
}

/// The candidate sentences of a line: the sentences of its lowercase form.
pub open spec fn candidates(line: Seq<char>) -> Seq<Seq<char>> {
    sentences_of(lower_of(line))
}

/// The words of a line, lowercased, that are keys of `m`, in order and with
/// repeats.
pub open spec fn known_spec(m: Map<Seq<char>, Seq<usize>>, line: Seq<char>) -> Seq<Seq<char>> {
    words_of(lower_of(line)).filter(|w: Seq<char>| m.contains_key(w))
}

/// The index that a full rebuild makes of the sentences `sv`: each
/// sentence, lowercased, lists its position under each of its words.
pub open spec fn index_of_sentences(sv: Seq<Seq<char>>) -> Map<Seq<char>, Seq<usize>>
    decreases sv.len(),
{
    if sv.len() == 0 {
        Map::empty()
    } else {
        insert_all_spec(index_of_sentences(sv.drop_last()), words_of(lower_of(sv.last())), (sv.len() - 1) as usize)
    }
}

/// The sentences and index that a full rebuild makes of the sentences `sv`.
pub open spec fn rebuilt(sv: Seq<Seq<char>>) -> (Seq<Seq<char>>, Map<Seq<char>, Seq<usize>>) {
    (stable_sort(sv), index_of_sentences(stable_sort(sv)))
}

/// The sentences at the positions that `m` lists under `w`, in list order.
pub open spec fn with_word_spec(sv: Seq<Seq<char>>, m: Map<Seq<char>, Seq<usize>>, w: Seq<char>) -> Seq<Seq<char>> {
    if m.contains_key(w) {
        m[w].map_values(|p: usize| sv[p as int])
    } else {
        seq![]
    }
}

proof fn lemma_insert_below(m: Map<Seq<char>, Seq<usize>>, w: Seq<char>, p: usize, n: nat)
    requires
        map_below(m, n),
        (p as nat) < n,
    ensures
        map_below(insert_spec(m, w, p), n),
{
    let r = insert_spec(m, w, p);
    assert forall|k: Seq<char>, t: int| r.contains_key(k) && 0 <= t < r[k].len() implies (r[k][t] as nat) < n by {
        if k == w && m.contains_key(w) && !m[w].contains(p) && t < m[w].len() {
            assert(r[k][t] == m[w][t]);
        }
    }
}

/// The sentences and the index, owned together.
pub struct Dictionary {
    sentences: Vec<String>,
    indices: Indices,
}

impl Dictionary {
    /// The sentences, in order.
    pub closed spec fn sentences_view(&self) -> Seq<Seq<char>> {
        texts(self.sentences@)
    }

    /// The index: word to sentence positions.
    pub closed spec fn index_view(&self) -> Map<Seq<char>, Seq<usize>> {
        self.indices.view()
    }

    /// The index is well formed and each listed position names a sentence.
    pub closed spec fn wf(&self) -> bool {
        &&& self.indices.wf()
        &&& map_below(self.indices.view(), self.sentences@.len())
    }

    /// A store with no sentences and an empty index.
    pub fn new_empty() -> (r: Dictionary)
        ensures
            r.wf(),
            r.sentences_view() == Seq::<Seq<char>>::empty(),
            r.index_view() == Map::<Seq<char>, Seq<usize>>::empty(),
    {
        let r = Dictionary { sentences: Vec::new(), indices: Indices::new() };
        assert(r.sentences_view() =~= seq![]);
        r
    }

    /// A store of the given sentences and index entries; `None` where a word
    /// has two entries or a position names no sentence.
    pub fn from_parts(sentences: Vec<String>, entries: Vec<(String, Vec<usize>)>) -> (r: Option<Dictionary>)
        ensures
            r is Some <==> (entry_words(entries@).no_duplicates() && map_below(entries_map(entries@), sentences@.len() as nat)),
            r matches Some(d) ==> {
                &&& d.wf()
                &&& d.sentences_view() == texts(sentences@)
                &&& d.index_view() == entries_map(entries@)
            },
    {
        let ghost e = entries@;
        match Indices::from_entries(entries) {
            None => None,
            Some(indices) => {
                if indices.all_below(sentences.len()) {
                    Some(Dictionary { sentences, indices })
                } else {
                    None
                }
            },
        }
    }

    /// The sentences, in order.
    pub fn sentences(&self) -> (r: Vec<String>)
        ensures
            texts(r@) == self.sentences_view(),
    {
        let r = self.sentences.clone();
        assert(texts(r@) =~= self.sentences_view());
        r
    }

    /// Whether both stores hold the same sentences in the same order and
    /// the same index, whatever the order of its entries.
    pub fn eq(&self, other: &Dictionary) -> (r: bool)
        requires
            self.wf(),
            other.wf(),
        ensures
            r == (self.sentences_view() == other.sentences_view() && self.index_view() == other.index_view()),
    {
        if self.sentences.len() != other.sentences.len() {
            assert(self.sentences_view().len() != other.sentences_view().len());
            return false;
        }
        let mut i: usize = 0;
        while i < self.sentences.len()
            invariant
                self.sentences@.len() == other.sentences@.len(),
                i <= self.sentences@.len(),
                forall|q: int| 0 <= q < i ==> self.sentences_view()[q] == other.sentences_view()[q],
            decreases self.sentences@.len() - i,
        {
            if self.sentences[i] != other.sentences[i] {
                assert(self.sentences_view()[i as int] != other.sentences_view()[i as int]);
                return false;
            }
            i = i + 1;
        }
        assert(self.sentences_view() =~= other.sentences_view());
        self.indices.same_map(&other.indices)
    }

    /// The index entries: each word with its positions.
    pub fn index_entries(&self) -> (r: Vec<(String, Vec<usize>)>)
        requires
            self.wf(),
        ensures
            entry_words(r@).no_duplicates(),
            entries_map(r@) == self.index_view(),
    {
        self.indices.entries()
    }

    /// A store taken apart into its sentences and its index entries meets
    /// the condition on which `from_parts` accepts them, and those parts
    /// stand for the same sentences and index: putting the parts together
    /// again gives back the store.
    pub proof fn parts_round_trip(&self, s: Seq<String>, e: Seq<(String, Vec<usize>)>)
        requires
            self.wf(),
            texts(s) == self.sentences_view(),
            entry_words(e).no_duplicates(),
            entries_map(e) == self.index_view(),
        ensures
            entry_words(e).no_duplicates() && map_below(entries_map(e), s.len() as nat),
            texts(s) == self.sentences_view() && entries_map(e) == self.index_view(),
    {
        assert(texts(s).len() == s.len());
    }

    /// Empties the index and keeps the sentences.
    pub fn reset_indices(&mut self)
        requires
            old(self).wf(),
        ensures
            final(self).wf(),
            final(self).sentences_view() == old(self).sentences_view(),
            final(self).index_view() == Map::<Seq<char>, Seq<usize>>::empty(),
    {
        self.indices = Indices::new();
    }

    /// Whether there are sentences but the index is empty.
    pub fn needs_to_build_indices(&self) -> (r: bool)
        requires
            self.wf(),
        ensures
            r == (self.sentences_view().len() > 0 && self.index_view().dom().len() == 0),
    {
        self.sentences.len() > 0 && self.indices.len() == 0
    }

    /// Sorts the sentences by lowercase form (stable) and builds the index
    /// anew from them.
    pub fn rebuild_indices(&mut self)
        requires
            old(self).wf(),
        ensures
            final(self).wf(),
            (final(self).sentences_view(), final(self).index_view()) == rebuilt(old(self).sentences_view()),
    {
        self.reset_indices();
        sort_sentences(&mut self.sentences);
        let ghost sv = self.sentences_view();
        let mut indices = Indices::new();
        let mut i: usize = 0;
        while i < self.sentences.len()
            invariant
                sv == self.sentences_view(),
                i <= self.sentences@.len(),
                indices.wf(),
                map_below(indices.view(), i as nat),
                indices.view() == index_of_sentences(sv.take(i as int)),
            decreases self.sentences@.len() - i,
        {
            let lowered = to_lower(self.sentences[i].as_str());
            let words = split_words(lowered.as_str());
            let ghost m0 = indices.view();
            proof {
                assert(sv.take(i + 1).drop_last() =~= sv.take(i as int));
                assert(sv[i as int] == self.sentences@[i as int]@);
            }
            let mut k: usize = 0;
            while k < words.len()
                invariant
                    k <= words@.len(),
                    indices.wf(),
                    map_below(indices.view(), i as nat + 1),
                    i < self.sentences@.len(),
                    indices.view() == insert_all_spec(m0, texts(words@).take(k as int), i),
                decreases words@.len() - k,
            {
                proof {
                    assert(texts(words@).take(k + 1).drop_last() =~= texts(words@).take(k as int));
                    lemma_insert_below(indices.view(), words@[k as int]@, i, i as nat + 1);
                }
                insert_word_into_indices(&mut indices, words[k].as_str(), i);
                k = k + 1;
            }
            assert(texts(words@).take(words@.len() as int) =~= texts(words@));
            i = i + 1;
        }
        assert(sv.take(sv.len() as int) =~= sv);
        self.indices = indices;
    }

    /// Whether `sentence` is one of the sentences.
    pub fn knows_sentence(&self, sentence: &str) -> (r: bool)
        ensures
            r == self.sentences_view().contains(sentence@),
    {
        let s = String::from_str(sentence);
        let mut i: usize = 0;
        while i < self.sentences.len()
            invariant
                i <= self.sentences@.len(),
                self.sentences_view().len() == self.sentences@.len(),
                s@ == sentence@,
                forall|j: int| 0 <= j < i ==> self.sentences_view()[j] != s@,
            decreases self.sentences@.len() - i,
        {
            if self.sentences[i] == s {
                assert(self.sentences_view()[i as int] == sentence@);
                return true;
            }
            i = i + 1;
        }
        false
    }

    /// Whether `word` is a key of the index.
    pub fn knows_word(&self, word: &str) -> (r: bool)
        requires
            self.wf(),
        ensures
            r == self.index_view().contains_key(word@),
    {
        self.indices.contains_word(word)
    }

    /// Learns the sentences of `line`, lowercased, that are not known yet:
    /// each is appended and its words list its position. Returns whether any
    /// sentence was new.
    pub fn learn(&mut self, line: &str) -> (r: bool)
        requires
            old(self).wf(),
        ensures
            final(self).wf(),
            (final(self).sentences_view(), final(self).index_view())
                == learn_all((old(self).sentences_view(), old(self).index_view()), candidates(line@)),
            r == (final(self).sentences_view().len() > old(self).sentences_view().len()),
    {
        let ghost st0 = (self.sentences_view(), self.index_view());
        let lowered = to_lower(line);
        let cands = split_sentences(lowered.as_str());
        let mut learned = false;
        let mut i: usize = 0;
        while i < cands.len()
            invariant
                self.wf(),
                i <= cands@.len(),
                texts(cands@) == candidates(line@),
                (self.sentences_view(), self.index_view()) == learn_all(st0, texts(cands@).take(i as int)),
                self.sentences_view().len() >= st0.0.len(),
                learned == (self.sentences_view().len() > st0.0.len()),
            decreases cands@.len() - i,
        {
            let sentence = &cands[i];
            proof {
                assert(texts(cands@).take(i + 1).drop_last() =~= texts(cands@).take(i as int));
                assert(texts(cands@)[i as int] == sentence@);
            }
            if !self.knows_sentence(sentence.as_str()) {
                let ghost st = (self.sentences_view(), self.index_view());
                let pos = self.sentences.len();
                self.sentences.push(sentence.clone());
                assert(self.sentences_view() =~= st.0.push(sentence@));
                let words = split_words(sentence.as_str());
                let mut k: usize = 0;
                while k < words.len()
                    invariant
                        self.indices.wf(),
                        pos < self.sentences@.len(),
                        self.sentences@.len() == st.0.len() + 1,
                        self.sentences_view() == st.0.push(sentence@),
                        map_below(self.indices.view(), self.sentences@.len()),
                        k <= words@.len(),
                        texts(words@) == words_of(sentence@),
                        pos == st.0.len(),
                        self.index_view() == insert_all_spec(st.1, texts(words@).take(k as int), pos),
                    decreases words@.len() - k,
                {
                    proof {
                        assert(texts(words@).take(k + 1).drop_last() =~= texts(words@).take(k as int));
                        lemma_insert_below(self.indices.view(), words@[k as int]@, pos, self.sentences@.len() as nat);
                    }
                    insert_word_into_indices(&mut self.indices, words[k].as_str(), pos);
                    k = k + 1;
                }
                assert(texts(words@).take(words@.len() as int) =~= texts(words@));
                learned = true;
            }
            i = i + 1;
        }
        assert(texts(cands@).take(cands@.len() as int) =~= texts(cands@));
        learned
    }

    /// The sentences listed under `word`, in index order; empty for an
    /// unknown word.
    pub fn sentences_with_word(&self, word: &str) -> (r: Vec<String>)
        requires
            self.wf(),
        ensures
            texts(r@) == with_word_spec(self.sentences_view(), self.index_view(), word@),
    {
        let ps = self.indices.positions_of(word);
        let mut out: Vec<String> = Vec::new();
        let mut i: usize = 0;
        while i < ps.len()
            invariant
                self.wf(),
                i <= ps@.len(),
                self.index_view().contains_key(word@) ==> ps@ == self.index_view()[word@],
                !self.index_view().contains_key(word@) ==> ps@.len() == 0,
                texts(out@) == ps@.take(i as int).map_values(|p: usize| self.sentences_view()[p as int]),
            decreases ps@.len() - i,
        {
            let p = ps[i];
            assert(self.index_view()[word@][i as int] == p);
            assert(p < self.sentences@.len());
            let s = self.sentences[p].clone();
            proof {
                assert(s@ == self.sentences_view()[p as int]);
                assert(texts(out@.push(s)) =~= texts(out@).push(s@));
                assert(ps@.take(i + 1).map_values(|p: usize| self.sentences_view()[p as int]) =~= ps@.take(
                    i as int,
                ).map_values(|p: usize| self.sentences_view()[p as int]).push(self.sentences_view()[p as int]));
            }
            out.push(s);
            i = i + 1;
        }
        assert(ps@.take(ps@.len() as int) =~= ps@);
        proof {
            if !self.index_view().contains_key(word@) {
                assert(texts(out@) =~= seq![]);
            }
        }
        out
    }

    /// The words of `line`, lowercased, that the index knows, in order and
    /// with repeats.
    pub fn known_words(&self, line: &str) -> (r: Vec<String>)
        requires
            self.wf(),
        ensures
            texts(r@) == known_spec(self.index_view(), line@),
    {
        let lowered = to_lower(line);
        let words = split_words(lowered.as_str());
        let ghost ws = texts(words@);
        let ghost pred = |w: Seq<char>| self.index_view().contains_key(w);
        let mut out: Vec<String> = Vec::new();
        let mut i: usize = 0;
        while i < words.len()
            invariant
                self.wf(),
                i <= words@.len(),
                ws == texts(words@),
                pred == (|w: Seq<char>| self.index_view().contains_key(w)),
                texts(out@) == ws.take(i as int).filter(pred),
            decreases words@.len() - i,
        {
            proof {
                reveal(Seq::filter);
                assert(ws.take(i + 1).drop_last() =~= ws.take(i as int));
                assert(ws[i as int] == words@[i as int]@);
            }
            if self.knows_word(words[i].as_str()) {
                let w = words[i].clone();
                assert(texts(out@.push(w)) =~= texts(out@).push(w@));
                out.push(w);
            }
            i = i + 1;
        }
        assert(ws.take(words@.len() as int) =~= ws);
        out
    }
}

} // verus!
