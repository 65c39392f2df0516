//! Sentence and word tokenization, and case folding.
use vstd::prelude::*;

verus! {

/// The characters of Unicode's `White_Space` property.
pub open spec fn is_space(c: char) -> bool {
    ('\u{9}' <= c && c <= '\u{d}') || c == ' ' || c == '\u{85}' || c == '\u{a0}' || c == '\u{1680}'
        || ('\u{2000}' <= c && c <= '\u{200a}') || c == '\u{2028}' || c == '\u{2029}'
        || c == '\u{202f}' || c == '\u{205f}' || c == '\u{3000}'
}

/// Punctuation that ends a sentence.
pub open spec fn is_terminal(c: char) -> bool {
    c == '.' || c == '!' || c == '?'
}

/// Characters that separate words: whitespace and `, . ! ? :`.
pub open spec fn is_word_delim(c: char) -> bool {
    is_space(c) || c == ',' || c == '.' || c == '!' || c == '?' || c == ':'
}

fn space(c: char) -> (r: bool)
    ensures
        r == is_space(c),
{
    ('\u{9}' <= c && c <= '\u{d}') || c == ' ' || c == '\u{85}' || c == '\u{a0}' || c == '\u{1680}'
        || ('\u{2000}' <= c && c <= '\u{200a}') || c == '\u{2028}' || c == '\u{2029}'
        || c == '\u{202f}' || c == '\u{205f}' || c == '\u{3000}'
}

fn word_delim(c: char) -> (r: bool)
    ensures
        r == is_word_delim(c),
{
    space(c) || c == ',' || c == '.' || c == '!' || c == '?' || c == ':'
}

/// Left-to-right scan of `s` for words: the words completed so far, and the
/// word in progress.
pub open spec fn word_scan(s: Seq<char>) -> (Seq<Seq<char>>, Seq<char>)
    decreases s.len(),
{
    if s.len() == 0 {
        (seq![], seq![])
    } else {
        let (done, cur) = word_scan(s.drop_last());
        let c = s.last();
        if is_word_delim(c) {
            if cur.len() > 0 {
                (done.push(cur), seq![])
            } else {
                (done, seq![])
            }
        } else {
            (done, cur.push(c))
        }
    }
}

/// The words of `s`: its maximal runs of characters that are not delimiters,
/// in order.
pub open spec fn words_of(s: Seq<char>) -> Seq<Seq<char>> {
    let (done, cur) = word_scan(s);
    if cur.len() > 0 {
        done.push(cur)
    } else {
        done
    }
}

/// Left-to-right scan of `s` for sentences: a whitespace run right after
/// terminal punctuation ends a sentence, and whitespace at the start of a
/// sentence is dropped.
pub open spec fn sentence_scan(s: Seq<char>) -> (Seq<Seq<char>>, Seq<char>)
    decreases s.len(),
{
    if s.len() == 0 {
        (seq![], seq![])
    } else {
        let (done, cur) = sentence_scan(s.drop_last());
        let c = s.last();
        if is_space(c) && cur.len() > 0 && is_terminal(cur.last()) {
            (done.push(cur), seq![])
        } else if is_space(c) && cur.len() == 0 {
            (done, seq![])
        } else {
            (done, cur.push(c))
        }
    }
}

/// `s` without its trailing whitespace.
pub open spec fn trim_end(s: Seq<char>) -> Seq<char>
    decreases s.len(),
{
    if s.len() > 0 && is_space(s.last()) {
        trim_end(s.drop_last())
    } else {
        s
    }
}

/// The sentences of `s`, trimmed, non-empty, in order.
pub open spec fn sentences_of(s: Seq<char>) -> Seq<Seq<char>> {
    let (done, cur) = sentence_scan(s);
    if trim_end(cur).len() > 0 {
        done.push(trim_end(cur))
    } else {
        done
    }
}

/// The text values of a sequence of strings.
pub open spec fn texts(v: Seq<String>) -> Seq<Seq<char>> {
    v.map_values(|x: String| x@)
}

/// The lowercase form of a text, as `str::to_lowercase` gives it.
pub uninterp spec fn lower_of(s: Seq<char>) -> Seq<char>;

/// Relies on `str::to_lowercase`: the result depends on the characters
/// alone.
#[verifier::external_body]
pub(crate) fn to_lower(s: &str) -> (r: String)
    ensures
        r@ == lower_of(s@),
{
    s.to_lowercase()
}

proof fn lemma_push_texts(v: Seq<String>, x: String)
    ensures
        texts(v.push(x)) == texts(v).push(x@),
{
    assert(texts(v.push(x)) =~= texts(v).push(x@));
}

/// Splits `s` into its words (see `words_of`).
pub fn split_words(s: &str) -> (r: Vec<String>)
    ensures
        texts(r@) == words_of(s@),
{
    let n = s.unicode_len();
    let mut out: Vec<String> = Vec::new();
    let mut start: usize = 0;
    let mut i: usize = 0;
    while i < n
        invariant
            n == s@.len(),
            start <= i <= n,
            word_scan(s@.take(i as int)) == (texts(out@), s@.subrange(start as int, i as int)),
        decreases n - i,
    {
        let c = s.get_char(i);
        proof {
            assert(s@.take(i + 1).drop_last() =~= s@.take(i as int));
            assert(s@.subrange(start as int, i + 1) =~= s@.subrange(start as int, i as int).push(c));
        }
        if word_delim(c) {
            if start < i {
                let w = String::from_str(s.substring_char(start, i));
                proof { lemma_push_texts(out@, w); }
                out.push(w);
            }
            start = i + 1;
        }
        i = i + 1;
    }
    assert(s@.take(n as int) =~= s@);
    if start < n {
        let w = String::from_str(s.substring_char(start, n));
        proof { lemma_push_texts(out@, w); }
        out.push(w);
    }
    out
}

/// Splits `s` into its sentences (see `sentences_of`).
pub fn split_sentences(s: &str) -> (r: Vec<String>)
    ensures
        texts(r@) == sentences_of(s@),
{
    let n = s.unicode_len();
    let mut out: Vec<String> = Vec::new();
    let mut start: usize = 0;
    let mut i: usize = 0;
    while i < n
        invariant
            n == s@.len(),
            start <= i <= n,
            sentence_scan(s@.take(i as int)) == (texts(out@), s@.subrange(start as int, i as int)),
        decreases n - i,
    {
        let c = s.get_char(i);
        proof {
            assert(s@.take(i + 1).drop_last() =~= s@.take(i as int));
            assert(s@.subrange(start as int, i + 1) =~= s@.subrange(start as int, i as int).push(c));
        }
        if space(c) {
            if start < i {
                let p = s.get_char(i - 1);
                if p == '.' || p == '!' || p == '?' {
                    let t = String::from_str(s.substring_char(start, i));
                    proof { lemma_push_texts(out@, t); }
                    out.push(t);
                    start = i + 1;
                }
            } else {
                start = i + 1;
            }
        }
        i = i + 1;
    }
    assert(s@.take(n as int) =~= s@);
    let mut end: usize = n;
    while end > start && space(s.get_char(end - 1))
        invariant
            n == s@.len(),
            start <= end <= n,
            trim_end(s@.subrange(start as int, n as int)) == trim_end(s@.subrange(start as int, end as int)),
        decreases end,
    {
        assert(s@.subrange(start as int, end as int).drop_last() =~= s@.subrange(start as int, end - 1));
        end = end - 1;
    }
    if start < end {
        let t = String::from_str(s.substring_char(start, end));
        proof { lemma_push_texts(out@, t); }
        out.push(t);
    }
    out
}

} // verus!
