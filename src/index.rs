//! The inverted index: from a word to the positions of the sentences that
//! hold it.
use vstd::prelude::*;
use crate::text::texts;

verus! {

/// The index as a map, built from its words and their position lists
/// (a later entry for a word would win; in a well-formed index there is none).
pub open spec fn index_map(words: Seq<Seq<char>>, lists: Seq<Seq<usize>>) -> Map<Seq<char>, Seq<usize>>
    decreases words.len(),
{
    if words.len() == 0 {
        Map::empty()
    } else {
        index_map(words.drop_last(), lists.drop_last()).insert(words.last(), lists[words.len() - 1])
    }
}

/// The map that inserting position `p` under word `w` leads to.
pub open spec fn insert_spec(m: Map<Seq<char>, Seq<usize>>, w: Seq<char>, p: usize) -> Map<Seq<char>, Seq<usize>> {
    if m.contains_key(w) {
        if m[w].contains(p) {
            m
        } else {
            m.insert(w, m[w].push(p))
        }
    } else {
        m.insert(w, seq![p])
    }
}

/// Inserting position `p` under each of the words `ws`, in order.
pub open spec fn insert_all_spec(m: Map<Seq<char>, Seq<usize>>, ws: Seq<Seq<char>>, p: usize) -> Map<Seq<char>, Seq<usize>>
    decreases ws.len(),
{
    if ws.len() == 0 {
        m
    } else {
        insert_spec(insert_all_spec(m, ws.drop_last(), p), ws.last(), p)
    }
}

/// The words of a list of entries.
pub open spec fn entry_words(e: Seq<(String, Vec<usize>)>) -> Seq<Seq<char>> {
    e.map_values(|x: (String, Vec<usize>)| x.0@)
}

/// The position lists of a list of entries.
pub open spec fn entry_lists(e: Seq<(String, Vec<usize>)>) -> Seq<Seq<usize>> {
    e.map_values(|x: (String, Vec<usize>)| x.1@)
}

/// The map that a list of entries stands for.
pub open spec fn entries_map(e: Seq<(String, Vec<usize>)>) -> Map<Seq<char>, Seq<usize>> {
    index_map(entry_words(e), entry_lists(e))
}

/// Word to sentence positions. Each word has one entry; entries keep the
/// order in which their words first came.
pub struct Indices {
    words: Vec<String>,
    lists: Vec<Vec<usize>>,
}

/// The position lists of a sequence of vectors.
pub open spec fn lists_of(v: Seq<Vec<usize>>) -> Seq<Seq<usize>> {
    v.map_values(|x: Vec<usize>| x@)
}

proof fn lemma_index_map_at(words: Seq<Seq<char>>, lists: Seq<Seq<usize>>, j: int)
    requires
        words.len() == lists.len(),
        words.no_duplicates(),
        0 <= j < words.len(),
    ensures
        index_map(words, lists).contains_key(words[j]),
        index_map(words, lists)[words[j]] == lists[j],
    decreases words.len(),
{
    if j < words.len() - 1 {
        lemma_index_map_at(words.drop_last(), lists.drop_last(), j);
    }
}

proof fn lemma_index_map_keys(words: Seq<Seq<char>>, lists: Seq<Seq<usize>>, k: Seq<char>)
    requires
        words.len() == lists.len(),
    ensures
        index_map(words, lists).contains_key(k) <==> words.contains(k),
    decreases words.len(),
{
    if words.len() > 0 {
        lemma_index_map_keys(words.drop_last(), lists.drop_last(), k);
        if words.drop_last().contains(k) {
            let i = choose|i: int| 0 <= i < words.drop_last().len() && words.drop_last()[i] == k;
            assert(words[i] == k);
        }
        if words.contains(k) && k != words.last() {
            let i = choose|i: int| 0 <= i < words.len() && words[i] == k;
            assert(words.drop_last()[i] == k);
        }
    }
}

proof fn lemma_index_map_update(words: Seq<Seq<char>>, lists: Seq<Seq<usize>>, j: int, l: Seq<usize>)
    requires
        words.len() == lists.len(),
        words.no_duplicates(),
        0 <= j < words.len(),
    ensures
        index_map(words, lists.update(j, l)) == index_map(words, lists).insert(words[j], l),
    decreases words.len(),
{
    let n = words.len();
    if j == n - 1 {
        assert(lists.update(j, l).drop_last() =~= lists.drop_last());
        assert(index_map(words, lists.update(j, l)) =~= index_map(words, lists).insert(words[j], l));
    } else {
        assert(lists.update(j, l).drop_last() =~= lists.drop_last().update(j, l));
        lemma_index_map_update(words.drop_last(), lists.drop_last(), j, l);
        assert(words.drop_last()[j] != words.last());
        assert(index_map(words, lists.update(j, l)) =~= index_map(words, lists).insert(words[j], l));
    }
}

impl Indices {
    /// The words of the entries, in entry order.
    pub closed spec fn word_seq(&self) -> Seq<Seq<char>> {
        texts(self.words@)
    }

    /// The position lists of the entries, in entry order.
    pub closed spec fn list_seq(&self) -> Seq<Seq<usize>> {
        lists_of(self.lists@)
    }

    /// One list per word, and no word twice.
    pub closed spec fn wf(&self) -> bool {
        &&& self.words@.len() == self.lists@.len()
        &&& texts(self.words@).no_duplicates()
    }

    /// What the index maps each word to.
    pub closed spec fn view(&self) -> Map<Seq<char>, Seq<usize>> {
        index_map(self.word_seq(), self.list_seq())
    }

    /// Every position in the index is below `n`.
    pub open spec fn positions_below(&self, n: nat) -> bool {
        forall|w: Seq<char>, t: int|
            self.view().contains_key(w) && 0 <= t < self.view()[w].len() ==> (self.view()[w][t] as nat) < n
    }

    /// An index with no entries.
    pub fn new() -> (r: Indices)
        ensures
            r.wf(),
            r.view() == Map::<Seq<char>, Seq<usize>>::empty(),
    {
        let r = Indices { words: Vec::new(), lists: Vec::new() };
        assert(r.word_seq() =~= seq![]);
        r
    }

    /// An index of the given entries; `None` where a word comes twice.
    pub fn from_entries(entries: Vec<(String, Vec<usize>)>) -> (r: Option<Indices>)
        ensures
            r is Some <==> entry_words(entries@).no_duplicates(),
            r matches Some(ix) ==> ix.wf() && ix.view() == entries_map(entries@),
    {
        let ghost e = entries@;
        let mut ix = Indices { words: Vec::new(), lists: Vec::new() };
        assert(ix.word_seq() =~= entry_words(e).take(0));
        assert(ix.list_seq() =~= entry_lists(e).take(0));
        let mut i: usize = 0;
        while i < entries.len()
            invariant
                entries@ == e,
                i <= e.len(),
                ix.wf(),
                ix.word_seq() == entry_words(e).take(i as int),
                ix.list_seq() == entry_lists(e).take(i as int),
            decreases e.len() - i,
        {
            let w = entries[i].0.clone();
            let l = entries[i].1.clone();
            match ix.find(&w) {
                Some(j) => {
                    proof {
                        assert(ix.word_seq().len() == i);
                        assert(entry_words(e).take(i as int)[j as int] == entry_words(e)[j as int]);
                        assert(entry_words(e)[j as int] == w@);
                        assert(entry_words(e)[i as int] == w@);
                        assert((j as int) < (i as int));
                        assert(!entry_words(e).no_duplicates());
                    }
                    return None;
                },
                None => {
                    let ghost ws = ix.word_seq();
                    let ghost ls = ix.list_seq();
                    proof { lemma_index_map_keys(ws, ls, w@); }
                    ix.words.push(w);
                    ix.lists.push(l);
                    proof {
                        assert(ix.word_seq() =~= ws.push(w@));
                        assert(ix.list_seq() =~= ls.push(l@));
                        assert(entry_words(e).take(i + 1) =~= ws.push(w@));
                        assert(entry_lists(e).take(i + 1) =~= ls.push(l@));
                    }
                },
            }
            i = i + 1;
        }
        assert(entry_words(e).take(e.len() as int) =~= entry_words(e));
        assert(entry_lists(e).take(e.len() as int) =~= entry_lists(e));
        Some(ix)
    }

    /// The entries, in entry order.
    pub fn entries(&self) -> (r: Vec<(String, Vec<usize>)>)
        requires
            self.wf(),
        ensures
            entry_words(r@).no_duplicates(),
            entries_map(r@) == self.view(),
    {
        let mut out: Vec<(String, Vec<usize>)> = Vec::new();
        let mut i: usize = 0;
        while i < self.words.len()
            invariant
                self.wf(),
                i <= self.words@.len(),
                entry_words(out@) == self.word_seq().take(i as int),
                entry_lists(out@) == self.list_seq().take(i as int),
            decreases self.words@.len() - i,
        {
            let x = (self.words[i].clone(), self.lists[i].clone());
            proof {
                assert(entry_words(out@.push(x)) =~= entry_words(out@).push(x.0@));
                assert(entry_lists(out@.push(x)) =~= entry_lists(out@).push(x.1@));
                assert(x.1@ == self.lists@[i as int]@);
                assert(entry_words(out@.push(x)) =~= self.word_seq().take(i + 1));
                assert(entry_lists(out@.push(x)) =~= self.list_seq().take(i + 1));
            }
            out.push(x);
            i = i + 1;
        }
        assert(self.word_seq().take(self.words@.len() as int) =~= self.word_seq());
        assert(self.list_seq().take(self.words@.len() as int) =~= self.list_seq());
        out
    }

    /// Whether every listed position is below `n`.
    pub fn all_below(&self, n: usize) -> (r: bool)
        requires
            self.wf(),
        ensures
            r == self.positions_below(n as nat),
    {
        let mut j: usize = 0;
        while j < self.lists.len()
            invariant
                self.wf(),
                j <= self.lists@.len(),
                forall|q: int, t: int| 0 <= q < j && 0 <= t < self.list_seq()[q].len() ==> (self.list_seq()[q][t] as nat) < n,
            decreases self.lists@.len() - j,
        {
            let l = &self.lists[j];
            let mut t: usize = 0;
            while t < l.len()
                invariant
                    self.wf(),
                    j < self.lists@.len(),
                    l@ == self.list_seq()[j as int],
                    t <= l@.len(),
                    forall|u: int| 0 <= u < t ==> (l@[u] as nat) < n,
                decreases l@.len() - t,
            {
                if l[t] >= n {
                    proof {
                        lemma_index_map_at(self.word_seq(), self.list_seq(), j as int);
                        assert(self.view()[self.word_seq()[j as int]][t as int] == l@[t as int]);
                    }
                    return false;
                }
                t = t + 1;
            }
            j = j + 1;
        }
        proof {
            assert forall|w: Seq<char>, t: int|
                self.view().contains_key(w) && 0 <= t < self.view()[w].len() implies (self.view()[w][t] as nat) < n by {
                lemma_index_map_keys(self.word_seq(), self.list_seq(), w);
                let q = choose|q: int| 0 <= q < self.word_seq().len() && self.word_seq()[q] == w;
                lemma_index_map_at(self.word_seq(), self.list_seq(), q);
            }
        }
        true
    }

    /// Whether both indices list the same positions under the same words,
    /// whatever the order of their entries.
    pub fn same_map(&self, other: &Indices) -> (r: bool)
        requires
            self.wf(),
            other.wf(),
        ensures
            r == (self.view() == other.view()),
    {
        proof {
            self.lemma_dom_len();
            other.lemma_dom_len();
        }
        if self.words.len() != other.words.len() {
            return false;
        }
        let mut j: usize = 0;
        while j < self.words.len()
            invariant
                self.wf(),
                other.wf(),
                j <= self.words@.len(),
                forall|q: int| 0 <= q < j ==> other.view().contains_key(#[trigger] self.word_seq()[q])
                    && other.view()[self.word_seq()[q]] == self.list_seq()[q],
            decreases self.words@.len() - j,
        {
            proof { lemma_index_map_at(self.word_seq(), self.list_seq(), j as int); }
            match other.find(&self.words[j]) {
                None => {
                    return false;
                },
                Some(k) => {
                    proof { lemma_index_map_at(other.word_seq(), other.list_seq(), k as int); }
                    if !same_list(&self.lists[j], &other.lists[k]) {
                        return false;
                    }
                },
            }
            j = j + 1;
        }
        proof {
            let a = self.view();
            let b = other.view();
            assert forall|w: Seq<char>| #[trigger] a.dom().contains(w) implies b.dom().contains(w) && b[w] == a[w] by {
                lemma_index_map_keys(self.word_seq(), self.list_seq(), w);
                let q = choose|q: int| 0 <= q < self.word_seq().len() && self.word_seq()[q] == w;
                lemma_index_map_at(self.word_seq(), self.list_seq(), q);
            }
            assert(a.dom().subset_of(b.dom()));
            vstd::set_lib::lemma_subset_equality(a.dom(), b.dom());
            assert(a =~= b);
        }
        true
    }

    /// The number of words in the index.
    pub fn len(&self) -> (r: usize)
        requires
            self.wf(),
        ensures
            r == self.view().dom().len(),
    {
        proof { self.lemma_dom_len(); }
        self.words.len()
    }

    proof fn lemma_dom_len(&self)
        requires
            self.wf(),
        ensures
            self.view().dom().len() == self.words@.len(),
            self.view().dom().finite(),
        decreases self.words@.len(),
    {
        let ws = self.word_seq();
        let ls = self.list_seq();
        assert forall|k: Seq<char>| #[trigger] self.view().dom().contains(k) <==> ws.to_set().contains(k) by {
            lemma_index_map_keys(ws, ls, k);
        }
        assert(self.view().dom() =~= ws.to_set());
        ws.unique_seq_to_set();
    }

    /// Where `w` has its entry, if it has one.
    fn find(&self, w: &String) -> (r: Option<usize>)
        requires
            self.wf(),
        ensures
            match r {
                Some(j) => j < self.words@.len() && self.word_seq()[j as int] == w@,
                None => !self.view().contains_key(w@),
            },
    {
        let mut j: usize = 0;
        while j < self.words.len()
            invariant
                self.wf(),
                j <= self.words@.len(),
                forall|i: int| 0 <= i < j ==> self.word_seq()[i] != w@,
            decreases self.words@.len() - j,
        {
            if self.words[j] == *w {
                return Some(j);
            }
            j = j + 1;
        }
        proof {
            lemma_index_map_keys(self.word_seq(), self.list_seq(), w@);
        }
        None
    }

    /// Whether `w` is a word of the index.
    pub fn contains_word(&self, w: &str) -> (r: bool)
        requires
            self.wf(),
        ensures
            r == self.view().contains_key(w@),
    {
        let w = String::from_str(w);
        match self.find(&w) {
            Some(j) => {
                proof { lemma_index_map_at(self.word_seq(), self.list_seq(), j as int); }
                true
            },
            None => false,
        }
    }

    /// The positions listed under `w`, empty where `w` has no entry.
    pub fn positions_of(&self, w: &str) -> (r: Vec<usize>)
        requires
            self.wf(),
        ensures
            self.view().contains_key(w@) ==> r@ == self.view()[w@],
            !self.view().contains_key(w@) ==> r@.len() == 0,
    {
        let w = String::from_str(w);
        match self.find(&w) {
            Some(j) => {
                proof { lemma_index_map_at(self.word_seq(), self.list_seq(), j as int); }
                self.lists[j].clone()
            },
            None => Vec::new(),
        }
    }
}

/// Whether two position lists are equal.
fn same_list(a: &Vec<usize>, b: &Vec<usize>) -> (r: bool)
    ensures
        r == (a@ == b@),
{
    if a.len() != b.len() {
        return false;
    }
    let mut i: usize = 0;
    while i < a.len()
        invariant
            a@.len() == b@.len(),
            i <= a@.len(),
            forall|q: int| 0 <= q < i ==> a@[q] == b@[q],
        decreases a@.len() - i,
    {
        if a[i] != b[i] {
            return false;
        }
        i = i + 1;
    }
    assert(a@ =~= b@);
    true
}

/// Lists position `p` under `word`, unless it is listed there already.
pub fn insert_word_into_indices(indices: &mut Indices, word: &str, p: usize)
    requires
        old(indices).wf(),
    ensures
        final(indices).wf(),
        final(indices).view() == insert_spec(old(indices).view(), word@, p),
{
    let w = String::from_str(word);
    match indices.find(&w) {
        Some(j) => {
            proof { lemma_index_map_at(indices.word_seq(), indices.list_seq(), j as int); }
            let mut l = indices.lists[j].clone();
            let mut k: usize = 0;
            let mut found = false;
            while k < l.len()
                invariant
                    found == exists|i: int| 0 <= i < k && l@[i] == p,
                    k <= l@.len(),
                decreases l@.len() - k,
            {
                if l[k] == p {
                    found = true;
                }
                k = k + 1;
            }
            assert(found == l@.contains(p));
            if !found {
                let ghost old_lists = indices.lists@;
                l.push(p);
                indices.lists.set(j, l);
                proof {
                    assert(lists_of(indices.lists@) =~= lists_of(old_lists).update(j as int, l@));
                    lemma_index_map_update(indices.word_seq(), lists_of(old_lists), j as int, l@);
                }
            }
        },
        None => {
            let ghost old_words = indices.word_seq();
            let ghost old_lists = indices.list_seq();
            let mut l: Vec<usize> = Vec::new();
            l.push(p);
            indices.words.push(w);
            indices.lists.push(l);
            proof {
                lemma_index_map_keys(old_words, old_lists, w@);
                assert(indices.word_seq() =~= old_words.push(w@));
                assert(indices.list_seq() =~= old_lists.push(l@));
                assert(indices.word_seq().drop_last() =~= old_words);
                assert(indices.list_seq().drop_last() =~= old_lists);
                assert(l@ =~= seq![p]);
            }
        },
    }
}

} // verus!
