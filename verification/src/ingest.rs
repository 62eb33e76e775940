//! Character-indexed sliding-window chunking of a source text.
use vstd::prelude::*;
use crate::text::{chars_of, string_of};
use crate::types::Chunk;

verus! {

// ── Config ────────────────────────────────────────────────────────────────────

/// Window size and overlap, both counted in characters.
pub struct IngestConfig {
    /// Characters per chunk.
    pub chunk_size: usize,
    /// Characters shared by two consecutive chunks.
    pub overlap: usize,
}

impl Default for IngestConfig {
    fn default() -> (c: Self)
        ensures
            c.chunk_size == 2000,
            c.overlap == 200,
    {
        IngestConfig { chunk_size: 2000, overlap: 200 }
    }
}

// ── Specification ─────────────────────────────────────────────────────────────

/// Number of newline characters in `s`.
pub open spec fn newline_count(s: Seq<char>) -> nat
    decreases s.len(),
{
    if s.len() == 0 {
        0
    } else {
        newline_count(s.drop_last()) + (if s.last() == '\n' { 1nat } else { 0nat })
    }
}

/// The 1-indexed line on which character `start` of `chars` lies: one more
/// than the newlines strictly before it.
pub open spec fn line_at(chars: Seq<char>, start: int) -> nat {
    1 + newline_count(chars.take(start))
}

/// How far each window advances.
pub open spec fn stride(size: nat, overlap: nat) -> nat {
    (size - overlap) as nat
}

/// Where window `k` starts.
pub open spec fn window_start(size: nat, overlap: nat, k: int) -> int {
    k * stride(size, overlap)
}

/// Where window `k` ends: `size` characters on, or the end of the text.
pub open spec fn window_end(n: nat, size: nat, overlap: nat, k: int) -> int {
    let s = window_start(size, overlap, k);
    if s + size <= n {
        s + size
    } else {
        n as int
    }
}

/// The characters of window `k`.
pub open spec fn window_chars(chars: Seq<char>, size: nat, overlap: nat, k: int) -> Seq<char> {
    chars.subrange(window_start(size, overlap, k), window_end(chars.len(), size, overlap, k))
}

/// Whether `chunks` is exactly the sliding-window chunking of `chars`:
/// one window per start `0, stride, 2·stride, …` below the text's length,
/// each carrying the source path and the line on which it starts.
pub open spec fn is_chunking(chunks: Seq<Chunk>, chars: Seq<char>, path: Seq<char>, size: nat, overlap: nat) -> bool {
    let n = chars.len();
    &&& (n == 0 ==> chunks.len() == 0)
    &&& (n > 0 ==> window_start(size, overlap, chunks.len() - 1) < n && n <= window_start(
        size,
        overlap,
        chunks.len() as int,
    ))
    &&& forall|k: int|
        0 <= k < chunks.len() ==> {
            &&& (#[trigger] chunks[k]).text@ == window_chars(chars, size, overlap, k)
            &&& chunks[k].source_path@ == path
            &&& chunks[k].source_line matches Some(line) && line == line_at(chars, window_start(size, overlap, k))
        }
}

proof fn lemma_newline_count_bound(s: Seq<char>)
    ensures
        newline_count(s) <= s.len(),
    decreases s.len(),
{
    if s.len() > 0 {
        lemma_newline_count_bound(s.drop_last());
    }
}

// ── Chunking ──────────────────────────────────────────────────────────────────

/// Sliding-window chunker over characters (not bytes): chunk `k` holds
/// characters `k·stride .. k·stride + chunk_size` (cut at the end of the
/// text), where `stride = chunk_size - overlap`, and records the path and
/// the line on which it starts. An overlap that is not smaller than the
/// chunk size leaves the window unable to advance and is refused.
pub fn chunk_text(text: &str, source_path: &str, config: &IngestConfig) -> (chunks: Vec<Chunk>)
    requires
        text@.len() > 0 ==> config.overlap < config.chunk_size,
    ensures
        is_chunking(chunks@, text@, source_path@, config.chunk_size as nat, config.overlap as nat),
{
    let chars = chars_of(text);
    let n = chars.len();
    let mut chunks: Vec<Chunk> = Vec::new();
    if n == 0 {
        return chunks;
    }
    let size = config.chunk_size;
    let step = config.chunk_size - config.overlap;
    let ghost sz = size as nat;
    let ghost ov = config.overlap as nat;
    let mut start: usize = 0;
    // newlines among chars[0..scanned]
    let mut scanned: usize = 0;
    let mut lines: usize = 0;
    loop
        invariant_except_break
            start < n,
            start as int == window_start(sz, ov, chunks@.len() as int),
        invariant
            n == chars@.len(),
            chars@ == text@,
            step == stride(sz, ov),
            step >= 1,
            sz == size,
            ov == config.overlap,
            scanned <= start,
            lines == newline_count(chars@.take(scanned as int)),
            forall|k: int|
                0 <= k < chunks@.len() ==> {
                    &&& (#[trigger] chunks@[k]).text@ == window_chars(chars@, sz, ov, k)
                    &&& chunks@[k].source_path@ == source_path@
                    &&& chunks@[k].source_line matches Some(line) && line == line_at(chars@, window_start(sz, ov, k))
                },
        ensures
            chunks@.len() > 0,
            window_start(sz, ov, chunks@.len() - 1) < n,
            n <= window_start(sz, ov, chunks@.len() as int),
        decreases n - start,
    {
        while scanned < start
            invariant
                scanned <= start,
                start < n,
                n == chars@.len(),
                lines == newline_count(chars@.take(scanned as int)),
            decreases start - scanned,
        {
            assert(chars@.take(scanned + 1).drop_last() =~= chars@.take(scanned as int));
            proof { lemma_newline_count_bound(chars@.take(scanned as int)); }
            if chars[scanned] == '\n' {
                lines = lines + 1;
            }
            scanned = scanned + 1;
        }
        let end = if size <= n - start { start + size } else { n };
        let piece = string_of(&chars, start, end);
        let path = source_path.to_owned();
        proof { lemma_newline_count_bound(chars@.take(scanned as int)); }
        let ghost k = chunks@.len() as int;
        chunks.push(Chunk { text: piece, source_path: path, source_line: Some(lines + 1) });
        assert(chunks@[k].text@ == window_chars(chars@, sz, ov, k));
        assert(window_start(sz, ov, k + 1) == start + step) by (nonlinear_arith)
            requires
                start as int == window_start(sz, ov, k),
                step == stride(sz, ov),
        ;
        if step >= n - start {
            break;
        }
        start = start + step;
    }
    chunks
}

// ── Laws ──────────────────────────────────────────────────────────────────────

/// Only line feeds break lines: `newline_count(s)` is the number of `'\n'`
/// characters in `s`, so a carriage return (as in CRLF text) never moves
/// the line on, and the line of position `start` is one more than the line
/// feeds before it.
pub proof fn lemma_newline_count_is_line_feeds(s: Seq<char>, start: int)
    requires
        0 <= start <= s.len(),
    ensures
        newline_count(s) == s.filter(|c: char| c == '\n').len(),
        newline_count(s.push('\r')) == newline_count(s),
        newline_count(s.push('\n')) == newline_count(s) + 1,
        line_at(s, start) == 1 + s.take(start).filter(|c: char| c == '\n').len(),
{
    reveal(Seq::filter);
    lemma_newline_count_filter(s);
    lemma_newline_count_filter(s.take(start));
    assert(s.push('\r').drop_last() =~= s);
    assert(s.push('\n').drop_last() =~= s);
}

proof fn lemma_newline_count_filter(s: Seq<char>)
    ensures
        newline_count(s) == s.filter(|c: char| c == '\n').len(),
    decreases s.len(),
{
    reveal(Seq::filter);
    if s.len() > 0 {
        lemma_newline_count_filter(s.drop_last());
    }
}

/// Windows start at the beginning of the text and `chunk_size - overlap`
/// characters apart, and each holds `chunk_size` characters, or what is
/// left of the text when fewer remain.
pub proof fn lemma_window_lengths(chars: Seq<char>, size: nat, overlap: nat, k: int)
    requires
        overlap < size,
        0 <= k,
        window_start(size, overlap, k) < chars.len(),
    ensures
        window_start(size, overlap, 0) == 0,
        window_start(size, overlap, k + 1) == window_start(size, overlap, k) + size - overlap,
        window_chars(chars, size, overlap, k).len() == (if window_start(size, overlap, k) + size <= chars.len() {
            size as int
        } else {
            chars.len() - window_start(size, overlap, k)
        }),
        window_chars(chars, size, overlap, k) == chars.subrange(
            window_start(size, overlap, k),
            window_start(size, overlap, k) + window_chars(chars, size, overlap, k).len(),
        ),
{
    let s = stride(size, overlap) as int;
    assert(window_start(size, overlap, k + 1) == window_start(size, overlap, k) + s) by (nonlinear_arith)
        requires
            s == stride(size, overlap),
    ;
    assert(window_start(size, overlap, k) >= 0) by (nonlinear_arith)
        requires
            0 <= k,
            s == stride(size, overlap),
            s >= 0,
    ;
}

/// Sliding windows overlap: when window `k` is full and window `k + 1`
/// exists, the last `overlap` characters of window `k` are the first
/// `overlap` characters of window `k + 1`.
pub proof fn lemma_consecutive_chunks_overlap(chars: Seq<char>, size: nat, overlap: nat, k: int)
    requires
        overlap < size,
        0 <= k,
        window_start(size, overlap, k) + size <= chars.len(),
        window_start(size, overlap, k + 1) < chars.len(),
    ensures
        window_chars(chars, size, overlap, k).skip(stride(size, overlap) as int) == window_chars(
            chars,
            size,
            overlap,
            k + 1,
        ).take(overlap as int),
{
    let s = stride(size, overlap) as int;
    let a = window_start(size, overlap, k);
    assert(window_start(size, overlap, k + 1) == a + s) by (nonlinear_arith)
        requires
            a == window_start(size, overlap, k),
            s == stride(size, overlap),
    ;
    let b = window_end(chars.len(), size, overlap, k + 1);
    assert(b >= a + s + overlap);
    assert(window_chars(chars, size, overlap, k).skip(s) =~= window_chars(chars, size, overlap, k + 1).take(
        overlap as int,
    ));
}

/// No character is left out: every character of a non-empty text lies in
/// some chunk of its chunking.
pub proof fn lemma_chunks_cover_text(
    chunks: Seq<Chunk>,
    chars: Seq<char>,
    path: Seq<char>,
    size: nat,
    overlap: nat,
    j: int,
)
    requires
        is_chunking(chunks, chars, path, size, overlap),
        overlap < size,
        0 <= j < chars.len(),
    ensures
        exists|k: int|
            0 <= k < chunks.len() && #[trigger] window_start(size, overlap, k) <= j < window_end(
                chars.len(),
                size,
                overlap,
                k,
            ),
{
    let s = stride(size, overlap) as int;
    let k = j / s;
    vstd::arithmetic::div_mod::lemma_fundamental_div_mod(j, s);
    assert(0 <= j % s < s) by {
        vstd::arithmetic::div_mod::lemma_mod_bound(j, s);
    }
    assert(k >= 0) by {
        vstd::arithmetic::div_mod::lemma_div_pos_is_pos(j, s);
    }
    let a = window_start(size, overlap, k);
    assert(a == s * k) by (nonlinear_arith)
        requires
            a == window_start(size, overlap, k),
            s == stride(size, overlap),
    ;
    assert(a <= j < a + s);
    let len = chunks.len() as int;
    let top = window_start(size, overlap, len);
    assert(top == s * len) by (nonlinear_arith)
        requires
            top == window_start(size, overlap, len),
            s == stride(size, overlap),
    ;
    assert(k < len) by (nonlinear_arith)
        requires
            s * k <= j,
            j < chars.len(),
            chars.len() <= s * len,
            s > 0,
    ;
    assert(window_start(size, overlap, k) <= j < window_end(chars.len(), size, overlap, k));
}

} // verus!
