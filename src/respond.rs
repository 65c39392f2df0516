//! Responses: two learned sentences spliced around a word of the input.
use vstd::prelude::*;
use crate::dictionary::{Dictionary, known_spec, with_word_spec};
use crate::text::{split_words, texts, words_of};

verus! {

/// A source of random numbers.
pub trait RandomSource {
    fn next_u64(&mut self) -> u64;
}

/// `i` is the first position of `w` in `ws`.
pub open spec fn first_at(ws: Seq<Seq<char>>, w: Seq<char>, i: int) -> bool {
    &&& 0 <= i < ws.len()
    &&& ws[i] == w
    &&& forall|j: int| 0 <= j < i ==> ws[j] != w
}

/// The first position of `w` in `ws` (meaningful where `ws` holds `w`).
pub open spec fn first_index(ws: Seq<Seq<char>>, w: Seq<char>) -> int {
    choose|i: int| first_at(ws, w, i)
}

/// The words before the first `w`, if `ws` holds `w`.
pub open spec fn left_of_spec(ws: Seq<Seq<char>>, w: Seq<char>) -> Option<Seq<Seq<char>>> {
    if ws.contains(w) {
        Some(ws.take(first_index(ws, w)))
    } else {
        None
    }
}

/// The words from the first `w` to the end, if `ws` holds `w`.
pub open spec fn right_of_spec(ws: Seq<Seq<char>>, w: Seq<char>) -> Option<Seq<Seq<char>>> {
    if ws.contains(w) {
        Some(ws.skip(first_index(ws, w)))
    } else {
        None
    }
}

/// The words joined with single spaces.
pub open spec fn join_spec(ws: Seq<Seq<char>>) -> Seq<char>
    decreases ws.len(),
{
    if ws.len() == 0 {
        seq![]
    } else if ws.len() == 1 {
        ws[0]
    } else {
        join_spec(ws.drop_last()) + seq![' '] + ws.last()
    }
}

/// The response to `line` when the draws are `a` (the pivot among the known
/// words), `b` (the left donor) and `c` (the right donor), each taken modulo
/// the number of choices.
pub open spec fn respond_spec(
    sv: Seq<Seq<char>>,
    m: Map<Seq<char>, Seq<usize>>,
    line: Seq<char>,
    a: u64,
    b: u64,
    c: u64,
) -> Option<Seq<char>> {
    let kw = known_spec(m, line);
    if kw.len() == 0 {
        None
    } else {
        let pivot = kw[(a as int) % (kw.len() as int)];
        let ss = with_word_spec(sv, m, pivot);
        if ss.len() < 2 {
            None
        } else {
            let s1 = ss[(b as int) % (ss.len() as int)];
            let s2 = ss[(c as int) % (ss.len() as int)];
            match right_of_spec(words_of(s2), pivot) {
                None => None,
                Some(rw) => {
                    let lw = match left_of_spec(words_of(s1), pivot) {
                        Some(l) => l,
                        None => seq![],
                    };
                    if lw.len() == 0 {
                        Some(join_spec(rw))
                    } else {
                        Some(join_spec(lw) + seq![' '] + join_spec(rw))
                    }
                },
            }
        }
    }
}

proof fn lemma_first_unique(ws: Seq<Seq<char>>, w: Seq<char>, i: int)
    requires
        first_at(ws, w, i),
    ensures
        first_index(ws, w) == i,
        ws.contains(w),
{
    let k = first_index(ws, w);
    assert(first_at(ws, w, k));
    if k < i {
        assert(ws[k] != w);
    }
    if i < k {
        assert(ws[i] != w);
    }
}

/// Where `pivot` first stands among the words of `line`, with those words.
fn find_pivot(line: &str, pivot: &str) -> (r: (Vec<String>, Option<usize>))
    ensures
        texts(r.0@) == words_of(line@),
        match r.1 {
            Some(j) => first_at(words_of(line@), pivot@, j as int),
            None => !words_of(line@).contains(pivot@),
        },
{
    let words = split_words(line);
    let p = String::from_str(pivot);
    let mut j: usize = 0;
    while j < words.len()
        invariant
            j <= words@.len(),
            p@ == pivot@,
            texts(words@) == words_of(line@),
            forall|i: int| 0 <= i < j ==> words_of(line@)[i] != pivot@,
        decreases words@.len() - j,
    {
        if words[j] == p {
            assert(words_of(line@)[j as int] == pivot@);
            return (words, Some(j));
        }
        j = j + 1;
    }
    (words, None)
}

/// The words of `line` before the first `pivot`; `None` where `pivot` is
/// not one of its words.
pub fn get_words_left_of_pivot(line: &str, pivot: &str) -> (r: Option<Vec<String>>)
    ensures
        match r {
            Some(v) => left_of_spec(words_of(line@), pivot@) == Some(texts(v@)),
            None => left_of_spec(words_of(line@), pivot@) is None,
        },
{
    let (words, found) = find_pivot(line, pivot);
    match found {
        None => None,
        Some(j) => {
            proof { lemma_first_unique(words_of(line@), pivot@, j as int); }
            let mut out: Vec<String> = Vec::new();
            let mut i: usize = 0;
            while i < j
                invariant
                    i <= j < words@.len(),
                    texts(out@) == texts(words@).take(i as int),
                decreases j - i,
            {
                let w = words[i].clone();
                assert(texts(out@.push(w)) =~= texts(out@).push(w@));
                assert(texts(out@.push(w)) =~= texts(words@).take(i + 1));
                out.push(w);
                i = i + 1;
            }
            Some(out)
        },
    }
}

/// The words of `line` from the first `pivot` to the end; `None` where
/// `pivot` is not one of its words.
pub fn get_words_right_of_pivot_inclusive(line: &str, pivot: &str) -> (r: Option<Vec<String>>)
    ensures
        match r {
            Some(v) => right_of_spec(words_of(line@), pivot@) == Some(texts(v@)),
            None => right_of_spec(words_of(line@), pivot@) is None,
        },
{
    let (words, found) = find_pivot(line, pivot);
    match found {
        None => None,
        Some(j) => {
            proof { lemma_first_unique(words_of(line@), pivot@, j as int); }
            let mut out: Vec<String> = Vec::new();
            let mut i: usize = j;
            while i < words.len()
                invariant
                    j <= i <= words@.len(),
                    texts(out@) == texts(words@).subrange(j as int, i as int),
                decreases words@.len() - i,
            {
                let w = words[i].clone();
                assert(texts(out@.push(w)) =~= texts(out@).push(w@));
                assert(texts(out@.push(w)) =~= texts(words@).subrange(j as int, i + 1));
                out.push(w);
                i = i + 1;
            }
            assert(texts(words@).subrange(j as int, words@.len() as int) =~= texts(words@).skip(j as int));
            Some(out)
        },
    }
}

/// The words joined with single spaces.
fn join_words(ws: &Vec<String>) -> (r: String)
    ensures
        r@ == join_spec(texts(ws@)),
{
    let mut out = String::new();
    let mut i: usize = 0;
    while i < ws.len()
        invariant
            i <= ws@.len(),
            out@ == join_spec(texts(ws@).take(i as int)),
        decreases ws@.len() - i,
    {
        proof {
            reveal_strlit(" ");
            assert(texts(ws@).take(i + 1).drop_last() =~= texts(ws@).take(i as int));
        }
        if i > 0 {
            out.append(" ");
        }
        out.append(ws[i].as_str());
        proof {
            if i == 0 {
                assert(out@ =~= join_spec(texts(ws@).take(1)));
            }
        }
        i = i + 1;
    }
    assert(texts(ws@).take(ws@.len() as int) =~= texts(ws@));
    out
}

/// `x % n` as an index below `n`.
fn pick(x: u64, n: usize) -> (r: usize)
    requires
        n > 0,
    ensures
        r as int == (x as int) % (n as int),
{
    (x % (n as u64)) as usize
}

impl Dictionary {
    /// The response to `line` for the draws `a`, `b` and `c` (see
    /// `respond_spec`): `a` picks the pivot among the known words, `b` and
    /// `c` the two sentences that give the words left of it and from it on.
    /// A right donor that does not hold the pivot (an index out of step with
    /// the sentences) gives no response.
    pub fn respond_with_draws(&self, line: &str, a: u64, b: u64, c: u64) -> (r: Option<String>)
        requires
            self.wf(),
        ensures
            match r {
                Some(s) => respond_spec(self.sentences_view(), self.index_view(), line@, a, b, c) == Some(s@),
                None => respond_spec(self.sentences_view(), self.index_view(), line@, a, b, c) is None,
            },
    {
        let known = self.known_words(line);
        if known.len() == 0 {
            return None;
        }
        let pivot = &known[pick(a, known.len())];
        self.splice(line, pivot, b, c)
    }

    /// A response to `line`, with the draws taken from `rng`: one for the
    /// pivot, then, where at least two sentences hold it, one for each donor.
    /// No response where no word of `line` is known, or where the pivot is
    /// listed under fewer than two sentences.
    pub fn respond_to<R: RandomSource>(&self, line: &str, rng: &mut R) -> (r: Option<String>)
        requires
            self.wf(),
        ensures
            exists|a: u64, b: u64, c: u64|
                match r {
                    Some(s) => respond_spec(self.sentences_view(), self.index_view(), line@, a, b, c) == Some(s@),
                    None => respond_spec(self.sentences_view(), self.index_view(), line@, a, b, c) is None,
                },
            known_spec(self.index_view(), line@).len() == 0 ==> r is None,
    {
        let known = self.known_words(line);
        if known.len() == 0 {
            assert(respond_spec(self.sentences_view(), self.index_view(), line@, 0, 0, 0) is None);
            return None;
        }
        let a = rng.next_u64();
        let pivot = &known[pick(a, known.len())];
        if self.sentences_with_word(pivot.as_str()).len() < 2 {
            assert(respond_spec(self.sentences_view(), self.index_view(), line@, a, 0, 0) is None);
            return None;
        }
        let b = rng.next_u64();
        let c = rng.next_u64();
        let r = self.splice(line, pivot, b, c);
        assert(known_spec(self.index_view(), line@)[(a as int) % (known_spec(self.index_view(), line@).len() as int)] == pivot@);
        assert(match r {
            Some(s) => respond_spec(self.sentences_view(), self.index_view(), line@, a, b, c) == Some(s@),
            None => respond_spec(self.sentences_view(), self.index_view(), line@, a, b, c) is None,
        });
        r
    }

    /// Steps from the pivot on: the two donors drawn by `b` and `c`.
    fn splice(&self, line: &str, pivot: &String, b: u64, c: u64) -> (r: Option<String>)
        requires
            self.wf(),
        ensures
            ({
                let ss = with_word_spec(self.sentences_view(), self.index_view(), pivot@);
                ss.len() < 2 ==> r is None
            }),
            forall|a: u64| #![auto]
                known_spec(self.index_view(), line@).len() > 0
                && known_spec(self.index_view(), line@)[(a as int) % (known_spec(self.index_view(), line@).len() as int)] == pivot@
                ==> match r {
                    Some(s) => respond_spec(self.sentences_view(), self.index_view(), line@, a, b, c) == Some(s@),
                    None => respond_spec(self.sentences_view(), self.index_view(), line@, a, b, c) is None,
                },
    {
        let ss = self.sentences_with_word(pivot.as_str());
        if ss.len() < 2 {
            return None;
        }
        let s1 = &ss[pick(b, ss.len())];
        let s2 = &ss[pick(c, ss.len())];
        let right = match get_words_right_of_pivot_inclusive(s2.as_str(), pivot.as_str()) {
            Some(v) => v,
            None => return None,
        };
        let left = match get_words_left_of_pivot(s1.as_str(), pivot.as_str()) {
            Some(v) => v,
            None => Vec::new(),
        };
        let rs = join_words(&right);
        if left.len() == 0 {
            assert(texts(left@) =~= seq![]);
            Some(rs)
        } else {
            let mut out = join_words(&left);
            proof { reveal_strlit(" "); }
            out.append(" ");
            out.append(rs.as_str());
            Some(out)
        }
    }
}

} // verus!
