//! The text-side of enrichment: the prompts sent to the models, the check
//! on a proposed name, and the choice of a concept's most signal-dense
//! chunks to summarize from.
use vstd::prelude::*;
use vstd::string::StringExecFns;
use crate::types::Chunk;
use crate::text::{views, join_range, join_with, 
    chars_of, lowercase, split_words, str_to_lowercase, trim_whitespace, trim_ws, utf8_len,
    utf8_len_exceeds, words, char_views, lemma_utf8_len_is_encoding_len,
};

verus! {

// ── Errors ────────────────────────────────────────────────────────────────────

/// What can go wrong talking to the chat model.
#[derive(Debug)]
pub enum EnrichError {
    /// The service could not be reached.
    Request(String),
    /// The service answered with something other than a chat response.
    UnexpectedResponse(String),
}

impl EnrichError {
    /// The human-readable description of the error.
    pub fn message(&self) -> (m: String)
        ensures
            m@ == match self {
                EnrichError::Request(msg) => "couldn't reach Ollama: "@ + msg@,
                EnrichError::UnexpectedResponse(msg) => "unexpected response from Ollama: "@ + msg@,
            },
    {
        match self {
            EnrichError::Request(msg) => {
                let mut m = String::from_str("couldn't reach Ollama: ");
                m.append(msg.as_str());
                m
            },
            EnrichError::UnexpectedResponse(msg) => {
                let mut m = String::from_str("unexpected response from Ollama: ");
                m.append(msg.as_str());
                m
            },
        }
    }
}

// ── Prompts ───────────────────────────────────────────────────────────────────

/// The summarizing prompt: one extractive sentence about `raw_term`, from `context` only.
pub open spec fn summarize_prompt_text(raw_term: Seq<char>, context: Seq<char>) -> Seq<char> {
    "You are summarizing a text document.\nWrite exactly one sentence describing what \""@ + raw_term
        + "\" refers to in the excerpts below.\nUse only information explicitly present in the text \u{2014} do not interpret, infer, or add outside knowledge.\nIf the excerpts do not clearly describe \""@
        + raw_term + "\", write: \"This text mentions "@ + raw_term
        + " without a clear description.\"\n\nTEXT EXCERPTS:\n"@ + context
        + "\n\nOne sentence description of \""@ + raw_term + "\" based only on the text above:"@
}

/// The naming prompt: a short name for the concept that `description` describes.
pub open spec fn name_prompt_text(description: Seq<char>) -> Seq<char> {
    "Based on this description, give a short 1-3 word name that captures what this concept is about.\nDo not use generic words like \"time\", \"one\", \"first\", \"number\".\nUse specific meaningful terms from the description.\n\nDescription: "@
        + description + "\n\nRespond with ONLY the name, nothing else. 2-3 words maximum:"@
}

/// Builds the prompt for the small summarizing model.
pub fn build_summarize_prompt(raw_term: &str, context: &str) -> (prompt: String)
    ensures
        prompt@ == summarize_prompt_text(raw_term@, context@),
{
    let mut p = String::from_str(
        "You are summarizing a text document.\nWrite exactly one sentence describing what \"",
    );
    p.append(raw_term);
    p.append(
        "\" refers to in the excerpts below.\nUse only information explicitly present in the text \u{2014} do not interpret, infer, or add outside knowledge.\nIf the excerpts do not clearly describe \"",
    );
    p.append(raw_term);
    p.append("\", write: \"This text mentions ");
    p.append(raw_term);
    p.append(" without a clear description.\"\n\nTEXT EXCERPTS:\n");
    p.append(context);
    p.append("\n\nOne sentence description of \"");
    p.append(raw_term);
    p.append("\" based only on the text above:");
    p
}

/// Builds the prompt for the larger naming model.
pub fn build_name_prompt(description: &str) -> (prompt: String)
    ensures
        prompt@ == name_prompt_text(description@),
{
    let mut p = String::from_str(
        "Based on this description, give a short 1-3 word name that captures what this concept is about.\nDo not use generic words like \"time\", \"one\", \"first\", \"number\".\nUse specific meaningful terms from the description.\n\nDescription: ",
    );
    p.append(description);
    p.append("\n\nRespond with ONLY the name, nothing else. 2-3 words maximum:");
    p
}

// ── Name validation ───────────────────────────────────────────────────────────

/// The label a proposed name yields: trimmed and lower-cased, unless it has
/// more than four words or more than forty bytes, in which case `raw_term`.
pub open spec fn validated_name(proposed: Seq<char>, raw_term: Seq<char>) -> Seq<char> {
    let name = lowercase(trim_ws(proposed));
    if words(name).len() > 4 || utf8_len(name) > 40 {
        raw_term
    } else {
        name
    }
}

/// Checks a model-proposed name and falls back to `raw_term` when it looks malformed.
pub fn validate_name(proposed: &str, raw_term: &str) -> (name: String)
    ensures
        name@ == validated_name(proposed@, raw_term@),
{
    let trimmed = trim_whitespace(proposed);
    let name = str_to_lowercase(trimmed.as_str());
    let cs = chars_of(name.as_str());
    let ws = split_words(&cs);
    assert(char_views(ws@).len() == ws@.len());
    if ws.len() > 4 || utf8_len_exceeds(name.as_str(), 40) {
        String::from_str(raw_term)
    } else {
        name
    }
}

// ── Chunk ranking ─────────────────────────────────────────────────────────────

/// Whether `t` occurs in `s` as a contiguous run of characters.
pub open spec fn contains_sub(s: Seq<char>, t: Seq<char>) -> bool {
    exists|i: int| 0 <= i && i + t.len() <= s.len() && #[trigger] s.subrange(i, i + t.len()) == t
}

/// How many of `terms` occur in the lower-cased `text`.
pub open spec fn signal_count(text: Seq<char>, terms: Seq<Seq<char>>) -> nat
    decreases terms.len(),
{
    if terms.len() == 0 {
        0
    } else {
        signal_count(text, terms.drop_last()) + (if contains_sub(lowercase(text), terms.last()) {
            1nat
        } else {
            0nat
        })
    }
}

/// The signal count of each of a concept's chunks, by position in `indices`.
pub open spec fn signal_keys(indices: Seq<usize>, chunks: Seq<Chunk>, terms: Seq<Seq<char>>) -> Seq<nat> {
    Seq::new(indices.len(), |q: int| signal_count(chunks[indices[q] as int].text@, terms))
}

/// Whether position `a` ranks before position `b`: a higher key, or the
/// same key and an earlier position.
pub open spec fn ranks_before(keys: Seq<nat>, a: int, b: int) -> bool {
    keys[a] > keys[b] || (keys[a] == keys[b] && a < b)
}

/// Whether `perm` lists every position of `keys` once, by descending key,
/// ties kept in their original order.
pub open spec fn is_ranking(perm: Seq<int>, keys: Seq<nat>) -> bool {
    &&& perm.len() == keys.len()
    &&& perm.no_duplicates()
    &&& forall|k: int| 0 <= k < perm.len() ==> 0 <= #[trigger] perm[k] < keys.len()
    &&& forall|k: int, l: int| 0 <= k < l < perm.len() ==> ranks_before(keys, #[trigger] perm[k], #[trigger] perm[l])
}

fn contains_chars(s: &Vec<char>, t: &Vec<char>) -> (b: bool)
    ensures
        b == contains_sub(s@, t@),
{
    if t.len() > s.len() {
        return false;
    }
    let last = s.len() - t.len();
    let mut i: usize = 0;
    while i <= last
        invariant
            last == s@.len() - t@.len(),
            t@.len() <= s@.len(),
            s@.len() <= usize::MAX,
            i <= last,
            forall|i2: int| 0 <= i2 < i ==> #[trigger] s@.subrange(i2, i2 + t@.len()) != t@,
        decreases last + 1 - i,
    {
        let mut j: usize = 0;
        let mut same = true;
        while j < t.len()
            invariant
                i <= last,
                last == s@.len() - t@.len(),
                t@.len() <= s@.len(),
                s@.len() <= usize::MAX,
                i + t@.len() <= s@.len(),
                j <= t@.len(),
                same == (forall|j2: int| 0 <= j2 < j ==> s@[i + j2] == t@[j2]),
            decreases t@.len() - j,
        {
            if s[i + j] != t[j] {
                same = false;
            }
            j += 1;
        }
        if same {
            assert(s@.subrange(i as int, i + t@.len()) =~= t@);
            return true;
        }
        assert(s@.subrange(i as int, i + t@.len()) != t@) by {
            let j2 = choose|j2: int| 0 <= j2 < t@.len() && s@[i + j2] != t@[j2];
            assert(s@.subrange(i as int, i + t@.len())[j2] != t@[j2]);
        }
        if i == last {
            return false;
        }
        i += 1;
    }
    false
}

/// How many of `terms` occur in the lower-cased `text`.
fn signal_count_of(text: &String, terms: &[String]) -> (count: usize)
    ensures
        count == signal_count(text@, views(terms@)),
{
    let lower = str_to_lowercase(text.as_str());
    let lower_chars = chars_of(lower.as_str());
    let ghost tv = views(terms@);
    let mut count: usize = 0;
    let mut k: usize = 0;
    while k < terms.len()
        invariant
            k <= terms@.len(),
            tv == views(terms@),
            lower_chars@ == lowercase(text@),
            count == signal_count(text@, tv.take(k as int)),
            count <= k,
        decreases terms@.len() - k,
    {
        assert(tv.take(k + 1).drop_last() =~= tv.take(k as int));
        assert(tv.take(k + 1).last() == terms@[k as int]@);
        let term_chars = chars_of(terms[k].as_str());
        if contains_chars(&lower_chars, &term_chars) {
            count = count + 1;
        }
        k += 1;
    }
    assert(tv.take(terms@.len() as int) =~= tv);
    count
}

/// Orders a concept's chunks by how many of the high-signal terms co-occur
/// in each, most first, ties in their original order. Returns the chunk
/// indices of `concept_chunk_indices`, reordered.
pub fn rank_chunks_by_signal_density(
    concept_chunk_indices: &[usize],
    all_chunks: &[Chunk],
    high_value_terms: &[String],
) -> (ranked: Vec<usize>)
    requires
        forall|q: int| 0 <= q < concept_chunk_indices@.len() ==> #[trigger] concept_chunk_indices@[q] < all_chunks@.len(),
    ensures
        ranked@.len() == concept_chunk_indices@.len(),
        exists|perm: Seq<int>|
            is_ranking(perm, signal_keys(concept_chunk_indices@, all_chunks@, views(high_value_terms@)))
                && forall|k: int| 0 <= k < ranked@.len() ==> #[trigger] ranked@[k] == concept_chunk_indices@[perm[k]],
{
    let m = concept_chunk_indices.len();
    let ghost keys = signal_keys(concept_chunk_indices@, all_chunks@, views(high_value_terms@));
    let mut counts: Vec<usize> = Vec::new();
    let mut q: usize = 0;
    while q < m
        invariant
            q <= m,
            m == concept_chunk_indices@.len(),
            keys == signal_keys(concept_chunk_indices@, all_chunks@, views(high_value_terms@)),
            forall|q2: int| 0 <= q2 < concept_chunk_indices@.len() ==> #[trigger] concept_chunk_indices@[q2] < all_chunks@.len(),
            counts@.len() == q,
            forall|q2: int| 0 <= q2 < q ==> counts@[q2] == keys[q2],
        decreases m - q,
    {
        let c = signal_count_of(&all_chunks[concept_chunk_indices[q]].text, high_value_terms);
        counts.push(c);
        q += 1;
    }
    // stable insertion of positions 0..m by descending count
    let mut order: Vec<usize> = Vec::new();
    let mut p: usize = 0;
    while p < m
        invariant
            p <= m,
            m == concept_chunk_indices@.len(),
            counts@.len() == m,
            keys.len() == m,
            forall|q2: int| 0 <= q2 < m ==> counts@[q2] == keys[q2],
            order@.len() == p,
            forall|k: int| 0 <= k < order@.len() ==> #[trigger] order@[k] < p,
            forall|k: int, l: int| 0 <= k < l < order@.len() ==> order@[k] != order@[l],
            forall|k: int, l: int|
                0 <= k < l < order@.len() ==> ranks_before(keys, #[trigger] order@[k] as int, #[trigger] order@[l] as int),
        decreases m - p,
    {
        let key = counts[p];
        let mut at: usize = 0;
        while at < order.len() && counts[order[at]] >= key
            invariant
                at <= order@.len(),
                order@.len() == p,
                p < m,
                counts@.len() == m,
                forall|k: int| 0 <= k < order@.len() ==> #[trigger] order@[k] < p,
                forall|k: int| 0 <= k < at ==> counts@[#[trigger] order@[k] as int] >= key,
            decreases order@.len() - at,
        {
            at += 1;
        }
        assert forall|k: int| at <= k < order@.len() implies counts@[#[trigger] order@[k] as int] < key by {
            if at < order@.len() && k > at {
                assert(ranks_before(keys, order@[at as int] as int, order@[k] as int));
            }
        }
        let ghost old_order = order@;
        order.insert(at, p);
        assert forall|k: int| 0 <= k < order@.len() implies #[trigger] order@[k] < p + 1 by {
            if k < at {
                assert(order@[k] == old_order[k]);
            } else if k > at {
                assert(order@[k] == old_order[k - 1]);
            }
        }
        assert forall|k: int, l: int| 0 <= k < l < order@.len() implies order@[k] != order@[l] by {
            if k < at {
                assert(order@[k] == old_order[k]);
            } else if k > at {
                assert(order@[k] == old_order[k - 1]);
            }
            if l < at {
                assert(order@[l] == old_order[l]);
            } else if l > at {
                assert(order@[l] == old_order[l - 1]);
            }
        }
        assert forall|k: int, l: int|
            0 <= k < l < order@.len() implies ranks_before(keys, #[trigger] order@[k] as int, #[trigger] order@[l] as int) by {
            if k < at {
                assert(order@[k] == old_order[k]);
            } else if k > at {
                assert(order@[k] == old_order[k - 1]);
            }
            if l < at {
                assert(order@[l] == old_order[l]);
            } else if l > at {
                assert(order@[l] == old_order[l - 1]);
            }
        }
        p += 1;
    }
    let mut ranked: Vec<usize> = Vec::new();
    let mut k: usize = 0;
    while k < m
        invariant
            k <= m,
            m == concept_chunk_indices@.len(),
            order@.len() == m,
            forall|k2: int| 0 <= k2 < order@.len() ==> #[trigger] order@[k2] < m,
            ranked@.len() == k,
            forall|k2: int| 0 <= k2 < k ==> #[trigger] ranked@[k2] == concept_chunk_indices@[order@[k2] as int],
        decreases m - k,
    {
        ranked.push(concept_chunk_indices[order[k]]);
        k += 1;
    }
    let ghost perm = order@.map_values(|x: usize| x as int);
    assert(is_ranking(perm, keys)) by {
        assert forall|k2: int, l: int| 0 <= k2 < l < perm.len() implies perm[k2] != perm[l] by {
            assert(order@[k2] != order@[l]);
        }
        assert forall|k2: int, l: int|
            0 <= k2 < l < perm.len() implies ranks_before(keys, #[trigger] perm[k2], #[trigger] perm[l]) by {
            assert(ranks_before(keys, order@[k2] as int, order@[l] as int));
        }
    }
    assert(forall|k2: int| 0 <= k2 < ranked@.len() ==> #[trigger] ranked@[k2] == concept_chunk_indices@[perm[k2]]);
    ranked
}

// ── Summarizing ───────────────────────────────────────────────────────────────

/// The texts of the first `max_chunks` chunks of `ranked`.
pub open spec fn excerpt_texts(ranked: Seq<usize>, chunks: Seq<Chunk>, max_chunks: nat) -> Seq<Seq<char>> {
    let k = if max_chunks < ranked.len() {
        max_chunks
    } else {
        ranked.len()
    };
    Seq::new(k, |q: int| chunks[ranked[q] as int].text@)
}

/// The excerpts handed to the summarizing model: the texts of the first
/// `max_chunks` chunks of `ranked`, separated by `\n---\n`.
pub open spec fn excerpt_context(ranked: Seq<usize>, chunks: Seq<Chunk>, max_chunks: nat) -> Seq<char> {
    join_with(excerpt_texts(ranked, chunks, max_chunks), "\n---\n"@)
}

/// The chunk indices of `indices` in the order that `perm` gives.
pub open spec fn permuted(indices: Seq<usize>, perm: Seq<int>) -> Seq<usize> {
    Seq::new(perm.len(), |k: int| indices[perm[k]])
}

/// Joins the texts of the first `max_chunks` ranked chunks with `\n---\n`.
pub fn summary_context(ranked: &[usize], all_chunks: &[Chunk], max_chunks: usize) -> (context: String)
    requires
        forall|q: int| 0 <= q < ranked@.len() ==> #[trigger] ranked@[q] < all_chunks@.len(),
    ensures
        context@ == excerpt_context(ranked@, all_chunks@, max_chunks as nat),
{
    let k = if max_chunks < ranked.len() { max_chunks } else { ranked.len() };
    let ghost want = excerpt_texts(ranked@, all_chunks@, max_chunks as nat);
    let mut texts: Vec<String> = Vec::new();
    let mut q: usize = 0;
    while q < k
        invariant
            q <= k,
            k <= ranked@.len(),
            want.len() == k,
            want == excerpt_texts(ranked@, all_chunks@, max_chunks as nat),
            forall|q2: int| 0 <= q2 < ranked@.len() ==> #[trigger] ranked@[q2] < all_chunks@.len(),
            views(texts@) == want.take(q as int),
        decreases k - q,
    {
        let ghost before = texts@;
        let t = all_chunks[ranked[q]].text.clone();
        texts.push(t);
        assert(views(texts@) =~= views(before).push(t@));
        assert(views(texts@) =~= want.take(q + 1));
        q += 1;
    }
    assert(want.take(k as int) =~= want);
    assert(views(texts@).subrange(0, k as int) =~= want);
    join_range(&texts, 0, k, "\n---\n")
}

/// The prompt for summarizing a concept: its chunks ranked by co-occurring
/// high-signal terms, the first `max_chunks` of them as excerpts.
pub fn summarize_prompt(
    raw_term: &str,
    concept_chunk_indices: &[usize],
    all_chunks: &[Chunk],
    high_value_terms: &[String],
    max_chunks: usize,
) -> (prompt: String)
    requires
        forall|q: int| 0 <= q < concept_chunk_indices@.len() ==> #[trigger] concept_chunk_indices@[q] < all_chunks@.len(),
    ensures
        exists|perm: Seq<int>|
            is_ranking(perm, signal_keys(concept_chunk_indices@, all_chunks@, views(high_value_terms@)))
                && prompt@ == summarize_prompt_text(
                raw_term@,
                excerpt_context(permuted(concept_chunk_indices@, perm), all_chunks@, max_chunks as nat),
            ),
{
    let ranked = rank_chunks_by_signal_density(concept_chunk_indices, all_chunks, high_value_terms);
    let ghost keys = signal_keys(concept_chunk_indices@, all_chunks@, views(high_value_terms@));
    let ghost perm = choose|perm: Seq<int>|
        is_ranking(perm, keys) && forall|k: int| 0 <= k < ranked@.len() ==> #[trigger] ranked@[k] == concept_chunk_indices@[perm[k]];
    assert(ranked@ =~= permuted(concept_chunk_indices@, perm));
    assert forall|q: int| 0 <= q < ranked@.len() implies #[trigger] ranked@[q] < all_chunks@.len() by {
        assert(0 <= perm[q] < keys.len());
    }
    let context = summary_context(&ranked, all_chunks, max_chunks);
    build_summarize_prompt(raw_term, context.as_str())
}

/// The URL that chat requests are posted to.
pub fn chat_url(base_url: &str) -> (url: String)
    ensures
        url@ == base_url@ + "/api/chat"@,
{
    let mut url = String::from_str(base_url);
    url.append("/api/chat");
    url
}

// ── Laws ──────────────────────────────────────────────────────────────────────

/// A proposed name is kept, trimmed and lower-cased, exactly when it has at
/// most four words and its UTF-8 encoding at most forty bytes; otherwise
/// the raw term stands in its place.
pub proof fn lemma_validated_name_limits(proposed: Seq<char>, raw_term: Seq<char>)
    ensures
        ({
            let name = lowercase(trim_ws(proposed));
            &&& words(name).len() <= 4 && vstd::utf8::encode_utf8(name).len() <= 40 ==> validated_name(
                proposed,
                raw_term,
            ) == name
            &&& words(name).len() > 4 || vstd::utf8::encode_utf8(name).len() > 40 ==> validated_name(
                proposed,
                raw_term,
            ) == raw_term
        }),
{
    lemma_utf8_len_is_encoding_len(lowercase(trim_ws(proposed)));
}

/// A ranking puts the chunks with more co-occurring terms first, and of
/// two chunks with as many, the one listed first stays first.
pub proof fn lemma_ranking_orders_by_count(perm: Seq<int>, keys: Seq<nat>, k: int, l: int)
    requires
        is_ranking(perm, keys),
        0 <= k < l < perm.len(),
    ensures
        keys[perm[k]] >= keys[perm[l]],
        keys[perm[k]] == keys[perm[l]] ==> perm[k] < perm[l],
{
    assert(ranks_before(keys, perm[k], perm[l]));
}

/// A text contains every piece of it: `t` is found in `a + t + b`, at
/// the start, the end or anywhere between, and is never found in a
/// shorter text; a single character is found exactly where it occurs.
pub proof fn lemma_contains_sub_finds_pieces(a: Seq<char>, t: Seq<char>, b: Seq<char>, s: Seq<char>, c: char)
    ensures
        contains_sub(a + t + b, t),
        contains_sub(s, t) ==> t.len() <= s.len(),
        contains_sub(s, seq![c]) <==> s.contains(c),
{
    let u = a + t + b;
    assert(u.subrange(a.len() as int, (a.len() + t.len()) as int) =~= t);
    if s.contains(c) {
        let i = choose|i: int| 0 <= i < s.len() && s[i] == c;
        assert(s.subrange(i, i + 1) =~= seq![c]);
    }
    if contains_sub(s, seq![c]) {
        let i = choose|i: int| 0 <= i && i + 1 <= s.len() && #[trigger] s.subrange(i, i + 1) == seq![c];
        assert(s.subrange(i, i + 1)[0] == s[i]);
    }
}

/// A chunk's signal count is the number of the terms that occur in its
/// lower-cased text, each term counted once per listing.
pub proof fn lemma_signal_count_counts_found_terms(text: Seq<char>, terms: Seq<Seq<char>>)
    ensures
        signal_count(text, terms) == terms.filter(|t: Seq<char>| contains_sub(lowercase(text), t)).len(),
        signal_count(text, terms) <= terms.len(),
    decreases terms.len(),
{
    reveal(Seq::filter);
    if terms.len() > 0 {
        lemma_signal_count_counts_found_terms(text, terms.drop_last());
    }
    terms.lemma_filter_len(|t: Seq<char>| contains_sub(lowercase(text), t));
}

/// The summarizing prompt sees exactly the first `max_chunks` ranked chunks
/// (all of them when there are fewer), in ranked order: allowing one more
/// excerpt appends the next ranked chunk after a `\n---\n` separator, and
/// a single allowed excerpt is the top-ranked chunk's text alone.
pub proof fn lemma_excerpts_are_leading_ranked(ranked: Seq<usize>, chunks: Seq<Chunk>, max_chunks: nat)
    ensures
        excerpt_texts(ranked, chunks, max_chunks).len() == (if max_chunks < ranked.len() {
            max_chunks
        } else {
            ranked.len()
        }),
        forall|q: int|
            0 <= q < excerpt_texts(ranked, chunks, max_chunks).len() ==> #[trigger] excerpt_texts(
                ranked,
                chunks,
                max_chunks,
            )[q] == chunks[ranked[q] as int].text@,
        1 <= max_chunks < ranked.len() ==> excerpt_context(ranked, chunks, max_chunks + 1) == excerpt_context(
            ranked,
            chunks,
            max_chunks,
        ) + "\n---\n"@ + chunks[ranked[max_chunks as int] as int].text@,
        max_chunks == 0 || ranked.len() == 0 ==> excerpt_context(ranked, chunks, max_chunks).len() == 0,
        1 <= ranked.len() ==> excerpt_context(ranked, chunks, 1) == chunks[ranked[0] as int].text@,
{
    if 1 <= max_chunks < ranked.len() {
        let longer = excerpt_texts(ranked, chunks, max_chunks + 1);
        assert(longer.drop_last() =~= excerpt_texts(ranked, chunks, max_chunks));
        assert(longer.last() == chunks[ranked[max_chunks as int] as int].text@);
    }
}

proof fn lemma_ranking_holds_every_position(perm: Seq<int>, keys: Seq<nat>, x: int)
    requires
        is_ranking(perm, keys),
        0 <= x < keys.len(),
    ensures
        perm.contains(x),
{
    let m = keys.len() as int;
    let s = perm.to_set();
    let r = vstd::set_lib::set_int_range(0, m);
    perm.unique_seq_to_set();
    vstd::set_lib::lemma_int_range(0, m);
    assert(s.subset_of(r)) by {
        assert forall|y: int| s.contains(y) implies r.contains(y) by {
            let k = choose|k: int| 0 <= k < perm.len() && perm[k] == y;
            assert(0 <= perm[k] < m);
        }
    }
    vstd::set_lib::lemma_subset_equality(s, r);
    assert(r.contains(x));
    assert(s.contains(x));
}

proof fn lemma_sorted_same_elements_equal(a: Seq<int>, b: Seq<int>, keys: Seq<nat>)
    requires
        a.len() == b.len(),
        a.no_duplicates(),
        b.no_duplicates(),
        forall|x: int| a.contains(x) <==> b.contains(x),
        forall|k: int, l: int| 0 <= k < l < a.len() ==> ranks_before(keys, #[trigger] a[k], #[trigger] a[l]),
        forall|k: int, l: int| 0 <= k < l < b.len() ==> ranks_before(keys, #[trigger] b[k], #[trigger] b[l]),
    ensures
        a == b,
    decreases a.len(),
{
    if a.len() == 0 {
        assert(a =~= b);
    } else {
        let a0 = a[0];
        let b0 = b[0];
        assert(a.contains(a0));
        let j = choose|j: int| 0 <= j < b.len() && b[j] == a0;
        if j != 0 {
            assert(ranks_before(keys, b[0], b[j]));
            assert(b.contains(b0));
            let i = choose|i: int| 0 <= i < a.len() && a[i] == b0;
            assert(i != 0);
            assert(ranks_before(keys, a[0], a[i]));
            assert(false);
        }
        let a1 = a.drop_first();
        let b1 = b.drop_first();
        assert forall|x: int| a1.contains(x) <==> b1.contains(x) by {
            if a1.contains(x) {
                let i = choose|i: int| 0 <= i < a1.len() && a1[i] == x;
                assert(a[i + 1] == x);
                assert(x != a0);
                assert(b.contains(x));
                let k = choose|k: int| 0 <= k < b.len() && b[k] == x;
                assert(k != 0);
                assert(b1[k - 1] == x);
            }
            if b1.contains(x) {
                let i = choose|i: int| 0 <= i < b1.len() && b1[i] == x;
                assert(b[i + 1] == x);
                assert(x != b0);
                assert(a.contains(x));
                let k = choose|k: int| 0 <= k < a.len() && a[k] == x;
                assert(k != 0);
                assert(a1[k - 1] == x);
            }
        }
        assert forall|k: int, l: int| 0 <= k < l < a1.len() implies ranks_before(keys, #[trigger] a1[k], #[trigger] a1[l]) by {
            assert(ranks_before(keys, a[k + 1], a[l + 1]));
        }
        assert forall|k: int, l: int| 0 <= k < l < b1.len() implies ranks_before(keys, #[trigger] b1[k], #[trigger] b1[l]) by {
            assert(ranks_before(keys, b[k + 1], b[l + 1]));
        }
        lemma_sorted_same_elements_equal(a1, b1, keys);
        assert(a =~= b) by {
            assert forall|k: int| 0 <= k < a.len() implies a[k] == b[k] by {
                if k > 0 {
                    assert(a1[k - 1] == b1[k - 1]);
                }
            }
        }
    }
}

/// The chunk ranking is determined by the signal counts: there is exactly
/// one ordering of the positions by descending count with ties in their
/// original order.
pub proof fn lemma_ranking_unique(p1: Seq<int>, p2: Seq<int>, keys: Seq<nat>)
    requires
        is_ranking(p1, keys),
        is_ranking(p2, keys),
    ensures
        p1 == p2,
{
    assert forall|x: int| p1.contains(x) <==> p2.contains(x) by {
        if p1.contains(x) {
            let k = choose|k: int| 0 <= k < p1.len() && p1[k] == x;
            assert(0 <= p1[k] < keys.len());
            lemma_ranking_holds_every_position(p2, keys, x);
        }
        if p2.contains(x) {
            let k = choose|k: int| 0 <= k < p2.len() && p2[k] == x;
            assert(0 <= p2[k] < keys.len());
            lemma_ranking_holds_every_position(p1, keys, x);
        }
    }
    lemma_sorted_same_elements_equal(p1, p2, keys);
}

/// Chunk selection stays within the concept's own chunks: every chunk a
/// ranking puts forward is one of the concept's chunk indices, and each of
/// them is put forward once.
pub proof fn lemma_ranking_selects_own_chunks(indices: Seq<usize>, perm: Seq<int>, keys: Seq<nat>, k: int)
    requires
        is_ranking(perm, keys),
        keys.len() == indices.len(),
        0 <= k < perm.len(),
    ensures
        indices.contains(permuted(indices, perm)[k]),
        forall|q: int| 0 <= q < indices.len() ==> #[trigger] perm.contains(q),
{
    assert(0 <= perm[k] < indices.len());
    assert(indices[perm[k]] == permuted(indices, perm)[k]);
    assert forall|q: int| 0 <= q < indices.len() implies #[trigger] perm.contains(q) by {
        lemma_ranking_holds_every_position(perm, keys, q);
    }
}

} // verus!
