//! Candidate-term extraction: sliding n-gram windows over the tokens of a
//! chunk, kept when both edge tokens are content words (internal stop
//! words are allowed) and the phrase is longer than two bytes.
use vstd::prelude::*;
use crate::text::{
    chars_of, contains_string, join_range, join_with, lowercase, split_words, str_to_lowercase,
    string_of, strip, strip_bounds, utf8_len, utf8_len_exceeds, views, words, char_views, Strip,
    is_alphanumeric_char, lemma_strip_shape, lemma_utf8_len_is_encoding_len,
    is_white_space, lemma_words_split_at_white_space,
};

verus! {

// ── Stop words ────────────────────────────────────────────────────────────────

/// The stop-word list that the `stop_words` crate holds for a language code.
pub uninterp spec fn stop_words_of(code: Seq<char>) -> Seq<Seq<char>>;

/// Calls `stop_words::get` on a language code and copies the words into
/// owned strings. The contract claims only that the words are the crate's
/// list for that code, named by `stop_words_of`; `get` panics on codes it
/// does not know, so only English, which the crate's default features
/// hold, is admitted.
#[verifier::external_body]
fn stop_words_get(code: &str) -> (words: Vec<String>)
    requires
        code@ == "en"@,
    ensures
        views(words@) == stop_words_of(code@),
{
    stop_words::get(code).iter().map(|w| w.to_string()).collect()
}

/// The English stop words that decide which tokens may stand at the edge of a term.
pub fn build_stopword_set() -> (words: Vec<String>)
    ensures
        views(words@) == stop_words_of("en"@),
{
    stop_words_get("en")
}

// ── Config ────────────────────────────────────────────────────────────────────

/// Controls n-gram extraction: unigrams through `max_n`-grams are candidates.
pub struct NerConfig {
    /// Maximum n-gram length to emit.
    pub max_n: usize,
}

impl Default for NerConfig {
    fn default() -> (c: Self)
        ensures
            c.max_n == 3,
    {
        NerConfig { max_n: 3 }
    }
}

// ── Tokenizer ─────────────────────────────────────────────────────────────────

/// The tokens that the words `ws` give: each word with its non-alphanumeric
/// ends stripped, empties dropped, the rest lower-cased.
pub open spec fn tokens_of_words(ws: Seq<Seq<char>>) -> Seq<Seq<char>>
    decreases ws.len(),
{
    if ws.len() == 0 {
        seq![]
    } else {
        let prev = tokens_of_words(ws.drop_last());
        let t = strip(ws.last(), Strip::NonAlphanumeric);
        if t.len() == 0 {
            prev
        } else {
            prev.push(lowercase(t))
        }
    }
}

/// The tokens of a text: its white-space separated words, stripped and lower-cased.
pub open spec fn tokens(text: Seq<char>) -> Seq<Seq<char>> {
    tokens_of_words(words(text))
}

/// Splits on white space, strips punctuation from both ends of each word,
/// lower-cases, and drops words that strip to nothing.
pub fn tokenize(text: &str) -> (res: Vec<String>)
    ensures
        views(res@) == tokens(text@),
{
    let cs = chars_of(text);
    let ws = split_words(&cs);
    let ghost wv = char_views(ws@);
    let mut res: Vec<String> = Vec::new();
    let mut k: usize = 0;
    while k < ws.len()
        invariant
            k <= ws.len(),
            wv == char_views(ws@),
            wv == words(text@),
            views(res@) == tokens_of_words(wv.take(k as int)),
        decreases ws.len() - k,
    {
        assert(wv.take(k + 1).drop_last() =~= wv.take(k as int));
        assert(wv.take(k + 1).last() == ws@[k as int]@);
        let (a, b) = strip_bounds(&ws[k], Strip::NonAlphanumeric);
        if a < b {
            let stripped = string_of(&ws[k], a, b);
            let lower = str_to_lowercase(stripped.as_str());
            let ghost before = res@;
            res.push(lower);
            assert(views(res@) =~= views(before).push(lower@));
        }
        k += 1;
    }
    assert(wv.take(ws.len() as int) =~= wv);
    res
}

// ── N-gram extraction ─────────────────────────────────────────────────────────

/// The phrase of the `n` tokens starting at `i`, joined by single spaces.
pub open spec fn window_phrase(tokens: Seq<Seq<char>>, i: int, n: int) -> Seq<char> {
    join_with(tokens.subrange(i, i + n), seq![' '])
}

/// Whether the window of `n` tokens at `i` lies inside `tokens`, has content
/// words at both edges, and joins to a phrase of more than two bytes.
pub open spec fn window_kept(tokens: Seq<Seq<char>>, stop: Seq<Seq<char>>, i: int, n: int) -> bool {
    &&& 1 <= n
    &&& 0 <= i
    &&& i + n <= tokens.len()
    &&& !stop.contains(tokens[i])
    &&& !stop.contains(tokens[i + n - 1])
    &&& utf8_len(window_phrase(tokens, i, n)) > 2
}

/// Whether `p` is the phrase of some kept window of at most `max_n` tokens.
pub open spec fn is_ngram_term(tokens: Seq<Seq<char>>, stop: Seq<Seq<char>>, max_n: nat, p: Seq<char>) -> bool {
    exists|n: int, i: int|
        n <= max_n && #[trigger] window_kept(tokens, stop, i, n) && p == window_phrase(tokens, i, n)
}

/// Whether `p` is the phrase of a kept window that comes before `(n, i)`:
/// a shorter window, or one of length `n` starting before `i`.
spec fn covered(tokens: Seq<Seq<char>>, stop: Seq<Seq<char>>, n: int, i: int, p: Seq<char>) -> bool {
    exists|n2: int, i2: int|
        (n2 < n || (n2 == n && i2 < i)) && #[trigger] window_kept(tokens, stop, i2, n2) && p
            == window_phrase(tokens, i2, n2)
}

proof fn lemma_covered_step(tokens: Seq<Seq<char>>, stop: Seq<Seq<char>>, n: int, i: int, p: Seq<char>)
    ensures
        covered(tokens, stop, n, i + 1, p) <==> (covered(tokens, stop, n, i, p) || (window_kept(
            tokens,
            stop,
            i,
            n,
        ) && p == window_phrase(tokens, i, n))),
{
    if covered(tokens, stop, n, i + 1, p) {
        let (n2, i2) = choose|n2: int, i2: int|
            (n2 < n || (n2 == n && i2 < i + 1)) && #[trigger] window_kept(tokens, stop, i2, n2) && p
                == window_phrase(tokens, i2, n2);
        if !(n2 == n && i2 == i) {
            assert(window_kept(tokens, stop, i2, n2));
        }
    }
    if covered(tokens, stop, n, i, p) {
        let (n2, i2) = choose|n2: int, i2: int|
            (n2 < n || (n2 == n && i2 < i)) && #[trigger] window_kept(tokens, stop, i2, n2) && p
                == window_phrase(tokens, i2, n2);
        assert(window_kept(tokens, stop, i2, n2));
    }
    if window_kept(tokens, stop, i, n) && p == window_phrase(tokens, i, n) {
        assert(window_kept(tokens, stop, i, n));
    }
}

proof fn lemma_covered_next_length(tokens: Seq<Seq<char>>, stop: Seq<Seq<char>>, n: int, i: int, p: Seq<char>)
    requires
        i + n > tokens.len(),
    ensures
        covered(tokens, stop, n + 1, 0, p) <==> covered(tokens, stop, n, i, p),
{
    if covered(tokens, stop, n + 1, 0, p) {
        let (n2, i2) = choose|n2: int, i2: int|
            (n2 < n + 1 || (n2 == n + 1 && i2 < 0)) && #[trigger] window_kept(tokens, stop, i2, n2) && p
                == window_phrase(tokens, i2, n2);
        assert(window_kept(tokens, stop, i2, n2));
    }
    if covered(tokens, stop, n, i, p) {
        let (n2, i2) = choose|n2: int, i2: int|
            (n2 < n || (n2 == n && i2 < i)) && #[trigger] window_kept(tokens, stop, i2, n2) && p
                == window_phrase(tokens, i2, n2);
        assert(window_kept(tokens, stop, i2, n2));
    }
}

proof fn lemma_covered_all(tokens: Seq<Seq<char>>, stop: Seq<Seq<char>>, max_n: nat, m: int, p: Seq<char>)
    requires
        m <= max_n,
        m == max_n || m == tokens.len(),
    ensures
        covered(tokens, stop, m + 1, 0, p) <==> is_ngram_term(tokens, stop, max_n, p),
{
    if covered(tokens, stop, m + 1, 0, p) {
        let (n2, i2) = choose|n2: int, i2: int|
            (n2 < m + 1 || (n2 == m + 1 && i2 < 0)) && #[trigger] window_kept(tokens, stop, i2, n2) && p
                == window_phrase(tokens, i2, n2);
        assert(window_kept(tokens, stop, i2, n2));
    }
    if is_ngram_term(tokens, stop, max_n, p) {
        let (n2, i2) = choose|n2: int, i2: int|
            n2 <= max_n && #[trigger] window_kept(tokens, stop, i2, n2) && p == window_phrase(tokens, i2, n2);
        assert(window_kept(tokens, stop, i2, n2));
    }
}

/// Every phrase of 1 to `max_n` consecutive tokens whose first and last
/// token are not stop words and which is longer than two bytes, each once.
pub fn ngram_terms(tokens: &[String], stopwords: &[String], max_n: usize) -> (terms: Vec<String>)
    ensures
        views(terms@).no_duplicates(),
        forall|p: Seq<char>|
            views(terms@).contains(p) <==> is_ngram_term(views(tokens@), views(stopwords@), max_n as nat, p),
{
    let ghost tv = views(tokens@);
    let ghost sv = views(stopwords@);
    let len = tokens.len();
    let m = if max_n < len { max_n } else { len };
    let mut terms: Vec<String> = Vec::new();
    let mut done: usize = 0;
    while done < m
        invariant
            done <= m,
            m <= max_n,
            m == max_n || m == len,
            m <= len,
            len == tokens.len(),
            tv == views(tokens@),
            sv == views(stopwords@),
            views(terms@).no_duplicates(),
            forall|p: Seq<char>| views(terms@).contains(p) <==> covered(tv, sv, done + 1, 0, p),
        decreases m - done,
    {
        let n = done + 1;
        let mut i: usize = 0;
        while n <= len - i
            invariant
                1 <= n <= m,
                m <= len,
                len == tokens.len(),
                tv == views(tokens@),
                sv == views(stopwords@),
                i <= len,
                views(terms@).no_duplicates(),
                forall|p: Seq<char>| views(terms@).contains(p) <==> covered(tv, sv, n as int, i as int, p),
            decreases len - i,
        {
            let ghost before = views(terms@);
            let first_stop = contains_string(stopwords, &tokens[i]);
            let last_stop = contains_string(stopwords, &tokens[i + n - 1]);
            assert(tv[i as int] == tokens@[i as int]@);
            assert(tv[i + n - 1] == tokens@[i + n - 1]@);
            let mut kept = false;
            if !first_stop && !last_stop {
                let phrase = join_range(tokens, i, i + n, " ");
                assert(phrase@ == window_phrase(tv, i as int, n as int)) by {
                    reveal_strlit(" ");
                    assert(" "@ =~= seq![' ']);
                }
                if utf8_len_exceeds(phrase.as_str(), 2) {
                    kept = true;
                    if !contains_string(&terms, &phrase) {
                        terms.push(phrase);
                        assert(views(terms@) =~= before.push(phrase@));
                    }
                }
            }
            assert(kept == window_kept(tv, sv, i as int, n as int));
            assert forall|p: Seq<char>|
                views(terms@).contains(p) <==> (before.contains(p) || (kept && p == window_phrase(
                    tv,
                    i as int,
                    n as int,
                ))) by {
                if views(terms@) != before {
                    assert(views(terms@) == before.push(window_phrase(tv, i as int, n as int)));
                    if views(terms@).contains(p) && !before.contains(p) {
                        let j = choose|j: int| 0 <= j < views(terms@).len() && views(terms@)[j] == p;
                        assert(j == before.len());
                    }
                    if before.contains(p) {
                        let j = choose|j: int| 0 <= j < before.len() && before[j] == p;
                        assert(views(terms@)[j] == p);
                    }
                    if p == window_phrase(tv, i as int, n as int) {
                        assert(views(terms@)[before.len() as int] == p);
                    }
                }
            }
            assert forall|p: Seq<char>| views(terms@).contains(p) <==> covered(tv, sv, n as int, i + 1, p) by {
                lemma_covered_step(tv, sv, n as int, i as int, p);
                assert(before.contains(p) <==> covered(tv, sv, n as int, i as int, p));
                assert(views(terms@).contains(p) <==> (before.contains(p) || (kept && p == window_phrase(
                    tv,
                    i as int,
                    n as int,
                ))));
            }
            i += 1;
        }
        assert forall|p: Seq<char>| views(terms@).contains(p) <==> covered(tv, sv, n + 1, 0, p) by {
            lemma_covered_next_length(tv, sv, n as int, i as int, p);
        }
        done = n;
    }
    assert forall|p: Seq<char>|
        views(terms@).contains(p) <==> is_ngram_term(tv, sv, max_n as nat, p) by {
        lemma_covered_all(tv, sv, max_n as nat, m as int, p);
    }
    terms
}

// ── Extractor ─────────────────────────────────────────────────────────────────

/// Holds the stop-word list, built once and reused for every chunk of a corpus.
pub struct Extractor {
    stopwords: Vec<String>,
    config: NerConfig,
}

impl Extractor {
    /// The stop words that may not stand at the edge of a term.
    pub closed spec fn stop_words(&self) -> Seq<Seq<char>> {
        views(self.stopwords@)
    }

    /// The longest n-gram this extractor emits.
    pub closed spec fn max_n(&self) -> nat {
        self.config.max_n as nat
    }

    /// An extractor with the English stop words and the given config.
    pub fn new(config: NerConfig) -> (e: Self)
        ensures
            e.stop_words() == stop_words_of("en"@),
            e.max_n() == config.max_n,
    {
        Extractor { stopwords: build_stopword_set(), config }
    }
}

impl Default for Extractor {
    fn default() -> (e: Self)
        ensures
            e.stop_words() == stop_words_of("en"@),
            e.max_n() == 3,
    {
        Self::new(NerConfig::default())
    }
}

/// The candidate terms of a chunk of text: every n-gram of its tokens, up
/// to the extractor's `max_n`, whose edge tokens are content words and
/// which is longer than two bytes, each once.
pub fn extract_terms(text: &str, extractor: &Extractor) -> (terms: Vec<String>)
    ensures
        views(terms@).no_duplicates(),
        forall|p: Seq<char>|
            views(terms@).contains(p) <==> is_ngram_term(
                tokens(text@),
                extractor.stop_words(),
                extractor.max_n(),
                p,
            ),
{
    let toks = tokenize(text);
    ngram_terms(&toks, &extractor.stopwords, extractor.config.max_n)
}

/// The extractor with the default config (`max_n` of 3).
pub fn build_extractor() -> (e: Extractor)
    ensures
        e.stop_words() == stop_words_of("en"@),
        e.max_n() == 3,
{
    Extractor::default()
}

/// The extractor with an explicit config.
pub fn build_extractor_with_config(config: NerConfig) -> (e: Extractor)
    ensures
        e.stop_words() == stop_words_of("en"@),
        e.max_n() == config.max_n,
{
    Extractor::new(config)
}

// ── Laws ──────────────────────────────────────────────────────────────────────

/// A word yields a token exactly when it holds an alphanumeric character,
/// however short: the token is the word with its non-alphanumeric ends cut
/// off, lower-cased, and it comes right after the tokens of the words
/// before it. A word of punctuation alone yields nothing.
pub proof fn lemma_word_yields_token(ws: Seq<Seq<char>>, w: Seq<char>)
    ensures
        (exists|i: int| 0 <= i < w.len() && is_alphanumeric_char(#[trigger] w[i])) ==> tokens_of_words(ws.push(w))
            == tokens_of_words(ws).push(lowercase(strip(w, Strip::NonAlphanumeric))),
        !(exists|i: int| 0 <= i < w.len() && is_alphanumeric_char(#[trigger] w[i])) ==> tokens_of_words(ws.push(w))
            == tokens_of_words(ws),
        strip(w, Strip::NonAlphanumeric).len() > 0 ==> tokens_of_words(ws.push(w)) == tokens_of_words(ws).push(
            lowercase(strip(w, Strip::NonAlphanumeric)),
        ),
{
    lemma_strip_shape(w, Strip::NonAlphanumeric);
    assert(ws.push(w).drop_last() =~= ws);
    assert(ws.push(w).last() == w);
}

/// A text whose every token is a stop word yields no term: no window has a
/// content word at its edges.
pub proof fn lemma_stop_words_only_yield_nothing(
    tokens: Seq<Seq<char>>,
    stop: Seq<Seq<char>>,
    max_n: nat,
    p: Seq<char>,
)
    requires
        forall|i: int| 0 <= i < tokens.len() ==> stop.contains(#[trigger] tokens[i]),
    ensures
        !is_ngram_term(tokens, stop, max_n, p),
{
    if is_ngram_term(tokens, stop, max_n, p) {
        let (n, i) = choose|n: int, i: int|
            n <= max_n && #[trigger] window_kept(tokens, stop, i, n) && p == window_phrase(tokens, i, n);
        assert(stop.contains(tokens[i]));
    }
}

/// With `max_n` of 1 every term is a single token, and a content word.
pub proof fn lemma_unigram_terms_are_tokens(tokens: Seq<Seq<char>>, stop: Seq<Seq<char>>, p: Seq<char>)
    requires
        is_ngram_term(tokens, stop, 1, p),
    ensures
        tokens.contains(p),
        !stop.contains(p),
{
    let (n, i) = choose|n: int, i: int|
        n <= 1 && #[trigger] window_kept(tokens, stop, i, n) && p == window_phrase(tokens, i, n);
    assert(n == 1);
    assert(tokens.subrange(i, i + 1) =~= seq![tokens[i]]);
    assert(p == tokens[i]);
}

/// Raising `max_n` only adds terms: every term up to `a` tokens long is a
/// term for any larger bound.
pub proof fn lemma_ngram_terms_monotone(
    tokens: Seq<Seq<char>>,
    stop: Seq<Seq<char>>,
    a: nat,
    b: nat,
    p: Seq<char>,
)
    requires
        a <= b,
        is_ngram_term(tokens, stop, a, p),
    ensures
        is_ngram_term(tokens, stop, b, p),
{
    let (n, i) = choose|n: int, i: int|
        n <= a && #[trigger] window_kept(tokens, stop, i, n) && p == window_phrase(tokens, i, n);
    assert(window_kept(tokens, stop, i, n));
}

/// Every term is at most `max_n` tokens long, more than two bytes long, and
/// starts and ends on a content word.
pub proof fn lemma_ngram_term_shape(tokens: Seq<Seq<char>>, stop: Seq<Seq<char>>, max_n: nat, p: Seq<char>)
    requires
        is_ngram_term(tokens, stop, max_n, p),
    ensures
        utf8_len(p) > 2,
        exists|n: int, i: int|
            1 <= n <= max_n && 0 <= i && i + n <= tokens.len() && !stop.contains(tokens[i])
                && !stop.contains(tokens[i + n - 1]) && p == #[trigger] window_phrase(tokens, i, n),
{
    let (n, i) = choose|n: int, i: int|
        n <= max_n && #[trigger] window_kept(tokens, stop, i, n) && p == window_phrase(tokens, i, n);
    assert(window_kept(tokens, stop, i, n));
}

/// Every window of at most `max_n` tokens with content words at both edges
/// whose phrase takes more than two bytes in UTF-8 is a term.
pub proof fn lemma_kept_windows_are_terms(tokens: Seq<Seq<char>>, stop: Seq<Seq<char>>, max_n: nat, i: int, n: int)
    requires
        1 <= n <= max_n,
        0 <= i,
        i + n <= tokens.len(),
        !stop.contains(tokens[i]),
        !stop.contains(tokens[i + n - 1]),
        vstd::utf8::encode_utf8(window_phrase(tokens, i, n)).len() > 2,
    ensures
        is_ngram_term(tokens, stop, max_n, window_phrase(tokens, i, n)),
{
    lemma_utf8_len_is_encoding_len(window_phrase(tokens, i, n));
    assert(window_kept(tokens, stop, i, n));
}

/// A phrase is its tokens joined by single spaces: one token is itself,
/// and one token more adds a space and that token.
pub proof fn lemma_window_phrase_joins(tokens: Seq<Seq<char>>, i: int, n: int)
    requires
        1 <= n,
        0 <= i,
        i + n < tokens.len(),
    ensures
        window_phrase(tokens, i, 1) == tokens[i],
        window_phrase(tokens, i, n + 1) == window_phrase(tokens, i, n) + seq![' '] + tokens[i + n],
{
    assert(tokens.subrange(i, i + 1).len() == 1);
    assert(tokens.subrange(i, i + 1)[0] == tokens[i]);
    let w = tokens.subrange(i, i + n + 1);
    assert(w.drop_last() =~= tokens.subrange(i, i + n));
    assert(w.last() == tokens[i + n]);
}

proof fn lemma_tokens_of_words_concat(a: Seq<Seq<char>>, b: Seq<Seq<char>>)
    ensures
        tokens_of_words(a + b) == tokens_of_words(a) + tokens_of_words(b),
    decreases b.len(),
{
    if b.len() == 0 {
        assert(a + b =~= a);
        assert(tokens_of_words(a) + tokens_of_words(b) =~= tokens_of_words(a));
    } else {
        lemma_tokens_of_words_concat(a, b.drop_last());
        assert((a + b).drop_last() =~= a + b.drop_last());
        assert((a + b).last() == b.last());
        let t = strip(b.last(), Strip::NonAlphanumeric);
        if t.len() > 0 {
            assert(tokens_of_words(a) + tokens_of_words(b.drop_last()).push(lowercase(t)) =~= (tokens_of_words(a)
                + tokens_of_words(b.drop_last())).push(lowercase(t)));
        }
    }
}

/// White space separates tokens: the tokens of two texts joined by a
/// white-space character are the tokens of the first, then those of the
/// second.
pub proof fn lemma_tokens_split_at_white_space(s: Seq<char>, c: char, t: Seq<char>)
    requires
        is_white_space(c),
    ensures
        tokens(s + seq![c] + t) == tokens(s) + tokens(t),
{
    lemma_words_split_at_white_space(s, c, t);
    lemma_tokens_of_words_concat(words(s), words(t));
}

} // verus!
