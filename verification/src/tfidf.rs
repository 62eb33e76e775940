//! Corpus-wide term occurrence counting: which chunks each extracted term
//! occurs in, which terms recur often enough to be scored, and where each
//! term was first seen. The TF-IDF score itself is a function of these
//! counts and of the number of chunks.
use vstd::prelude::*;
use crate::text::views;
use crate::types::Chunk;

verus! {

// ── Config ────────────────────────────────────────────────────────────────────

/// Scoring configuration.
pub struct TfidfConfig {
    /// Minimum total occurrences across the corpus for a term to be scored at all.
    pub min_occurrences: usize,
}

impl Default for TfidfConfig {
    fn default() -> (c: Self)
        ensures
            c.min_occurrences == 10,
    {
        TfidfConfig { min_occurrences: 10 }
    }
}

// ── Specification ─────────────────────────────────────────────────────────────

/// The terms of each chunk, as character sequences.
pub open spec fn term_views(tpc: Seq<Vec<String>>) -> Seq<Seq<Seq<char>>> {
    tpc.map_values(|v: Vec<String>| views(v@))
}

/// Every term occurrence as a (chunk index, term) pair, chunk by chunk, in order.
pub open spec fn chunk_pairs(tpc: Seq<Seq<Seq<char>>>) -> Seq<(int, Seq<char>)>
    decreases tpc.len(),
{
    if tpc.len() == 0 {
        seq![]
    } else {
        let i = tpc.len() - 1;
        chunk_pairs(tpc.drop_last()) + tpc.last().map_values(|t: Seq<char>| (i, t))
    }
}

/// The chunk index of each occurrence of `t`, in order.
pub open spec fn occurrences(ps: Seq<(int, Seq<char>)>, t: Seq<char>) -> Seq<int>
    decreases ps.len(),
{
    if ps.len() == 0 {
        seq![]
    } else {
        let prev = occurrences(ps.drop_last(), t);
        if ps.last().1 == t {
            prev.push(ps.last().0)
        } else {
            prev
        }
    }
}

/// The distinct terms, in the order of their first occurrence.
pub open spec fn first_seen(ps: Seq<(int, Seq<char>)>) -> Seq<Seq<char>>
    decreases ps.len(),
{
    if ps.len() == 0 {
        seq![]
    } else {
        let d = first_seen(ps.drop_last());
        if d.contains(ps.last().1) {
            d
        } else {
            d.push(ps.last().1)
        }
    }
}

/// The terms of `ts` that occur at least `min` times, in the order of `ts`.
pub open spec fn frequent(ts: Seq<Seq<char>>, ps: Seq<(int, Seq<char>)>, min: nat) -> Seq<Seq<char>>
    decreases ts.len(),
{
    if ts.len() == 0 {
        seq![]
    } else {
        let f = frequent(ts.drop_last(), ps, min);
        if occurrences(ps, ts.last()).len() >= min {
            f.push(ts.last())
        } else {
            f
        }
    }
}

/// Whether `v` holds exactly the integers of `s`.
pub open spec fn same_indices(v: Seq<usize>, s: Seq<int>) -> bool {
    v.len() == s.len() && forall|q: int| 0 <= q < v.len() ==> v[q] == s[q]
}

// ── Types ─────────────────────────────────────────────────────────────────────

/// A term with every chunk it occurs in and the provenance of its first occurrence.
pub struct TermOccurrences {
    /// The term.
    pub term: String,
    /// Every chunk index the term appeared in, one per occurrence, in order.
    pub chunk_indices: Vec<usize>,
    /// Source path of the chunk of the first occurrence.
    pub source_path: String,
    /// Source line of the chunk of the first occurrence.
    pub source_line: Option<usize>,
}

/// Whether `res` is the occurrence table of the corpus: one entry per term
/// that occurs at least `min` times, in order of first occurrence, each
/// with all its occurrences and the provenance of the first one.
pub open spec fn is_occurrence_table(
    res: Seq<TermOccurrences>,
    chunks: Seq<Chunk>,
    tpc: Seq<Seq<Seq<char>>>,
    min: nat,
) -> bool {
    let ps = chunk_pairs(tpc);
    let kept = frequent(first_seen(ps), ps, min);
    &&& res.len() == kept.len()
    &&& forall|k: int|
        0 <= k < res.len() ==> {
            let e = #[trigger] res[k];
            &&& e.term@ == kept[k]
            &&& same_indices(e.chunk_indices@, occurrences(ps, kept[k]))
            &&& e.chunk_indices@.len() > 0
            &&& e.chunk_indices@[0] < chunks.len()
            &&& e.source_path@ == chunks[e.chunk_indices@[0] as int].source_path@
            &&& e.source_line == chunks[e.chunk_indices@[0] as int].source_line
        }
}

// ── Lemmas ────────────────────────────────────────────────────────────────────

proof fn lemma_first_seen_no_duplicates(ps: Seq<(int, Seq<char>)>)
    ensures
        first_seen(ps).no_duplicates(),
    decreases ps.len(),
{
    if ps.len() > 0 {
        lemma_first_seen_no_duplicates(ps.drop_last());
    }
}

proof fn lemma_occurrences_present(ps: Seq<(int, Seq<char>)>, t: Seq<char>)
    ensures
        first_seen(ps).contains(t) <==> occurrences(ps, t).len() > 0,
    decreases ps.len(),
{
    if ps.len() > 0 {
        lemma_occurrences_present(ps.drop_last(), t);
        let d = first_seen(ps.drop_last());
        if ps.last().1 == t {
            if !d.contains(t) {
                assert(first_seen(ps).last() == t);
            }
        } else {
            if d.contains(t) {
                let j = choose|j: int| 0 <= j < d.len() && d[j] == t;
                assert(first_seen(ps)[j] == t);
            }
            if first_seen(ps).contains(t) && !d.contains(ps.last().1) {
                let j = choose|j: int| 0 <= j < first_seen(ps).len() && first_seen(ps)[j] == t;
                assert(j < d.len());
                assert(d[j] == t);
            }
        }
    }
}

/// The terms kept are among the terms given.
proof fn lemma_frequent_subset(ts: Seq<Seq<char>>, ps: Seq<(int, Seq<char>)>, min: nat, x: Seq<char>)
    requires
        frequent(ts, ps, min).contains(x),
    ensures
        ts.contains(x),
    decreases ts.len(),
{
    if ts.len() > 0 {
        let f = frequent(ts.drop_last(), ps, min);
        if f.contains(x) {
            lemma_frequent_subset(ts.drop_last(), ps, min, x);
            let j = choose|j: int| 0 <= j < ts.drop_last().len() && ts.drop_last()[j] == x;
            assert(ts[j] == x);
        } else {
            let j = choose|j: int| 0 <= j < frequent(ts, ps, min).len() && frequent(ts, ps, min)[j] == x;
            assert(j == f.len());
            assert(x == ts.last());
        }
    }
}

proof fn lemma_frequent_no_duplicates(ts: Seq<Seq<char>>, ps: Seq<(int, Seq<char>)>, min: nat)
    requires
        ts.no_duplicates(),
    ensures
        frequent(ts, ps, min).no_duplicates(),
    decreases ts.len(),
{
    if ts.len() > 0 {
        let d = ts.drop_last();
        assert(d.no_duplicates());
        lemma_frequent_no_duplicates(d, ps, min);
        if frequent(d, ps, min).contains(ts.last()) {
            lemma_frequent_subset(d, ps, min, ts.last());
            let j = choose|j: int| 0 <= j < d.len() && d[j] == ts.last();
            assert(ts[j] == ts[ts.len() - 1]);
        }
    }
}

proof fn lemma_occurrences_concat(a: Seq<(int, Seq<char>)>, b: Seq<(int, Seq<char>)>, t: Seq<char>)
    ensures
        occurrences(a + b, t) == occurrences(a, t) + occurrences(b, t),
    decreases b.len(),
{
    if b.len() == 0 {
        assert(a + b =~= a);
        assert(occurrences(a, t) + occurrences(b, t) =~= occurrences(a, t));
    } else {
        lemma_occurrences_concat(a, b.drop_last(), t);
        assert((a + b).drop_last() =~= a + b.drop_last());
        assert((a + b).last() == b.last());
        if b.last().1 == t {
            assert(occurrences(a, t) + occurrences(b.drop_last(), t).push(b.last().0) =~= (occurrences(a, t)
                + occurrences(b.drop_last(), t)).push(b.last().0));
        }
    }
}

proof fn lemma_occurrences_of_row(row: Seq<Seq<char>>, i: int, t: Seq<char>)
    ensures
        occurrences(row.map_values(|x: Seq<char>| (i, x)), t) == row.filter(|x: Seq<char>| x == t).map_values(
            |x: Seq<char>| i,
        ),
    decreases row.len(),
{
    reveal(Seq::filter);
    let ps = row.map_values(|x: Seq<char>| (i, x));
    if row.len() > 0 {
        lemma_occurrences_of_row(row.drop_last(), i, t);
        assert(ps.drop_last() =~= row.drop_last().map_values(|x: Seq<char>| (i, x)));
        let f = row.drop_last().filter(|x: Seq<char>| x == t);
        if row.last() == t {
            assert(f.push(row.last()).map_values(|x: Seq<char>| i) =~= f.map_values(|x: Seq<char>| i).push(i));
        }
    } else {
        assert(row.filter(|x: Seq<char>| x == t).len() == 0);
        assert(row.filter(|x: Seq<char>| x == t).map_values(|x: Seq<char>| i) =~= Seq::<int>::empty());
    }
}

/// The occurrences of a term are the chunk indices of the pairs that hold
/// it, in order; and a chunk added at the end adds its own index once for
/// each time the term appears among its terms, after those of the chunks
/// before it.
pub proof fn lemma_occurrences_per_chunk(ps: Seq<(int, Seq<char>)>, tpc: Seq<Seq<Seq<char>>>, row: Seq<Seq<char>>, t: Seq<char>)
    ensures
        occurrences(ps, t) == ps.filter(|p: (int, Seq<char>)| p.1 == t).map_values(|p: (int, Seq<char>)| p.0),
        occurrences(chunk_pairs(tpc.push(row)), t) == occurrences(chunk_pairs(tpc), t) + row.filter(
            |x: Seq<char>| x == t,
        ).map_values(|x: Seq<char>| tpc.len() as int),
{
    lemma_occurrences_filter(ps, t);
    let n = tpc.len() as int;
    assert(tpc.push(row).drop_last() =~= tpc);
    assert(tpc.push(row).last() == row);
    lemma_occurrences_concat(chunk_pairs(tpc), row.map_values(|x: Seq<char>| (n, x)), t);
    lemma_occurrences_of_row(row, n, t);
}

proof fn lemma_occurrences_filter(ps: Seq<(int, Seq<char>)>, t: Seq<char>)
    ensures
        occurrences(ps, t) == ps.filter(|p: (int, Seq<char>)| p.1 == t).map_values(|p: (int, Seq<char>)| p.0),
    decreases ps.len(),
{
    reveal(Seq::filter);
    if ps.len() > 0 {
        lemma_occurrences_filter(ps.drop_last(), t);
        let f = ps.drop_last().filter(|p: (int, Seq<char>)| p.1 == t);
        if ps.last().1 == t {
            assert(f.push(ps.last()).map_values(|p: (int, Seq<char>)| p.0) =~= f.map_values(
                |p: (int, Seq<char>)| p.0,
            ).push(ps.last().0));
        }
    } else {
        assert(ps.filter(|p: (int, Seq<char>)| p.1 == t).len() == 0);
        assert(ps.filter(|p: (int, Seq<char>)| p.1 == t).map_values(|p: (int, Seq<char>)| p.0) =~= Seq::<int>::empty());
    }
}

/// The distinct terms are listed once each, and a term is listed exactly
/// when some pair holds it.
pub proof fn lemma_first_seen_lists_each_term_once(ps: Seq<(int, Seq<char>)>, t: Seq<char>)
    ensures
        first_seen(ps).no_duplicates(),
        first_seen(ps).contains(t) <==> exists|i: int| 0 <= i < ps.len() && (#[trigger] ps[i]).1 == t,
    decreases ps.len(),
{
    lemma_first_seen_no_duplicates(ps);
    lemma_occurrences_present(ps, t);
    if ps.len() > 0 {
        let q = ps.drop_last();
        lemma_first_seen_lists_each_term_once(q, t);
        if exists|i: int| 0 <= i < q.len() && (#[trigger] q[i]).1 == t {
            let i = choose|i: int| 0 <= i < q.len() && (#[trigger] q[i]).1 == t;
            assert(ps[i] == q[i]);
        }
        if exists|i: int| 0 <= i < ps.len() && (#[trigger] ps[i]).1 == t {
            let i = choose|i: int| 0 <= i < ps.len() && (#[trigger] ps[i]).1 == t;
            if i < q.len() {
                assert(q[i] == ps[i]);
            }
        }
        lemma_occurrences_present(q, t);
    }
}

/// Each term appears once in the occurrence table: its entries have
/// pairwise different terms.
pub proof fn lemma_occurrence_table_terms_distinct(
    res: Seq<TermOccurrences>,
    chunks: Seq<Chunk>,
    tpc: Seq<Seq<Seq<char>>>,
    min: nat,
    k: int,
    l: int,
)
    requires
        is_occurrence_table(res, chunks, tpc, min),
        0 <= k < l < res.len(),
    ensures
        res[k].term@ != res[l].term@,
{
    let ps = chunk_pairs(tpc);
    lemma_first_seen_no_duplicates(ps);
    lemma_frequent_no_duplicates(first_seen(ps), ps, min);
    assert(res[k].term@ == frequent(first_seen(ps), ps, min)[k]);
    assert(res[l].term@ == frequent(first_seen(ps), ps, min)[l]);
}

/// A term is in the occurrence table exactly when it occurs in the corpus
/// at least `min` times.
pub proof fn lemma_occurrence_table_membership(
    res: Seq<TermOccurrences>,
    chunks: Seq<Chunk>,
    tpc: Seq<Seq<Seq<char>>>,
    min: nat,
    t: Seq<char>,
)
    requires
        is_occurrence_table(res, chunks, tpc, min),
    ensures
        (exists|k: int| 0 <= k < res.len() && (#[trigger] res[k]).term@ == t) <==> (occurrences(
            chunk_pairs(tpc),
            t,
        ).len() >= min && occurrences(chunk_pairs(tpc), t).len() > 0),
{
    let ps = chunk_pairs(tpc);
    let ts = first_seen(ps);
    lemma_occurrences_present(ps, t);
    lemma_frequent_membership(ts, ps, min, t);
    if exists|k: int| 0 <= k < res.len() && (#[trigger] res[k]).term@ == t {
        let k = choose|k: int| 0 <= k < res.len() && (#[trigger] res[k]).term@ == t;
        assert(frequent(ts, ps, min)[k] == t);
    }
    if occurrences(ps, t).len() >= min && occurrences(ps, t).len() > 0 {
        let k = choose|k: int| 0 <= k < frequent(ts, ps, min).len() && frequent(ts, ps, min)[k] == t;
        assert(res[k].term@ == t);
    }
}

proof fn lemma_frequent_membership(ts: Seq<Seq<char>>, ps: Seq<(int, Seq<char>)>, min: nat, t: Seq<char>)
    ensures
        frequent(ts, ps, min).contains(t) <==> (ts.contains(t) && occurrences(ps, t).len() >= min),
    decreases ts.len(),
{
    if ts.len() > 0 {
        let d = ts.drop_last();
        lemma_frequent_membership(d, ps, min, t);
        let f = frequent(d, ps, min);
        if frequent(ts, ps, min).contains(t) {
            let j = choose|j: int| 0 <= j < frequent(ts, ps, min).len() && frequent(ts, ps, min)[j] == t;
            if j < f.len() {
                assert(f[j] == t);
                let i = choose|i: int| 0 <= i < d.len() && d[i] == t;
                assert(ts[i] == t);
            } else {
                assert(ts[ts.len() - 1] == t);
            }
        }
        if ts.contains(t) && occurrences(ps, t).len() >= min {
            let i = choose|i: int| 0 <= i < ts.len() && ts[i] == t;
            if i < d.len() {
                assert(d[i] == t);
                let j = choose|j: int| 0 <= j < f.len() && f[j] == t;
                if occurrences(ps, ts.last()).len() >= min {
                    assert(frequent(ts, ps, min)[j] == t);
                }
            } else {
                assert(frequent(ts, ps, min).last() == t);
            }
        }
    }
}

// ── Position search ───────────────────────────────────────────────────────────

fn position_of(list: &Vec<String>, s: &String) -> (r: Option<usize>)
    ensures
        r matches Some(p) ==> p < list@.len() && list@[p as int]@ == s@,
        r is None ==> !views(list@).contains(s@),
{
    let mut k: usize = 0;
    while k < list.len()
        invariant
            k <= list.len(),
            forall|j: int| 0 <= j < k ==> list@[j]@ != s@,
        decreases list.len() - k,
    {
        if list[k] == *s {
            return Some(k);
        }
        k += 1;
    }
    proof {
        if views(list@).contains(s@) {
            let j = choose|j: int| 0 <= j < views(list@).len() && views(list@)[j] == s@;
            assert(list@[j]@ == s@);
        }
    }
    None
}

fn copy_indices(v: &Vec<usize>) -> (res: Vec<usize>)
    ensures
        res@ == v@,
{
    let mut res: Vec<usize> = Vec::new();
    let mut q: usize = 0;
    while q < v.len()
        invariant
            q <= v.len(),
            res@ == v@.take(q as int),
        decreases v.len() - q,
    {
        res.push(v[q]);
        assert(v@.take(q + 1) =~= v@.take(q as int).push(v@[q as int]));
        q += 1;
    }
    assert(v@.take(v.len() as int) =~= v@);
    res
}

// ── Counting ──────────────────────────────────────────────────────────────────

/// Counts, over a corpus whose documents are its chunks, every chunk each
/// extracted term occurs in, and keeps the terms that occur at least
/// `min_occurrences` times, each with the source of its first occurrence.
/// `terms_per_chunk[i]` holds the terms extracted from `chunks[i]`.
pub fn count_occurrences(
    chunks: &[Chunk],
    terms_per_chunk: &[Vec<String>],
    config: &TfidfConfig,
) -> (res: Vec<TermOccurrences>)
    requires
        chunks@.len() == terms_per_chunk@.len(),
    ensures
        is_occurrence_table(res@, chunks@, term_views(terms_per_chunk@), config.min_occurrences as nat),
{
    let n = chunks.len();
    let ghost tv = term_views(terms_per_chunk@);
    let mut seen: Vec<String> = Vec::new();
    let mut found: Vec<Vec<usize>> = Vec::new();
    let mut i: usize = 0;
    assert(tv.take(0) =~= seq![]);
    while i < n
        invariant
            i <= n,
            n == chunks@.len(),
            n == terms_per_chunk@.len(),
            tv == term_views(terms_per_chunk@),
            seen@.len() == found@.len(),
            views(seen@) == first_seen(chunk_pairs(tv.take(i as int))),
            forall|p: int|
                0 <= p < found@.len() ==> {
                    &&& same_indices(
                        (#[trigger] found@[p])@,
                        occurrences(chunk_pairs(tv.take(i as int)), seen@[p]@),
                    )
                    &&& found@[p]@.len() > 0
                    &&& forall|q: int| 0 <= q < found@[p]@.len() ==> found@[p]@[q] < i
                },
        decreases n - i,
    {
        let terms = &terms_per_chunk[i];
        let ghost base = chunk_pairs(tv.take(i as int));
        let ghost row = tv[i as int];
        assert(row == views(terms@));
        let mut j: usize = 0;
        assert(base + row.take(0).map_values(|t: Seq<char>| (i as int, t)) =~= base);
        while j < terms.len()
            invariant
                i < n,
                j <= terms@.len(),
                row == views(terms@),
                seen@.len() == found@.len(),
                views(seen@) == first_seen(base + row.take(j as int).map_values(|t: Seq<char>| (i as int, t))),
                forall|p: int|
                    0 <= p < found@.len() ==> {
                        &&& same_indices(
                            (#[trigger] found@[p])@,
                            occurrences(
                                base + row.take(j as int).map_values(|t: Seq<char>| (i as int, t)),
                                seen@[p]@,
                            ),
                        )
                        &&& found@[p]@.len() > 0
                        &&& forall|q: int| 0 <= q < found@[p]@.len() ==> found@[p]@[q] <= i
                    },
            decreases terms@.len() - j,
        {
            let ghost ps = base + row.take(j as int).map_values(|t: Seq<char>| (i as int, t));
            let ghost ps2 = base + row.take(j + 1).map_values(|t: Seq<char>| (i as int, t));
            let t = &terms[j];
            assert(ps2 =~= ps.push((i as int, t@)));
            assert(ps2.drop_last() =~= ps);
            proof { lemma_first_seen_no_duplicates(ps); }
            match position_of(&seen, t) {
                Some(p) => {
                    let ghost old_found = found@;
                    found[p].push(i);
                    assert forall|p2: int| 0 <= p2 < found@.len() implies {
                        &&& same_indices((#[trigger] found@[p2])@, occurrences(ps2, seen@[p2]@))
                        &&& found@[p2]@.len() > 0
                        &&& forall|q: int| 0 <= q < found@[p2]@.len() ==> found@[p2]@[q] <= i
                    } by {
                        if p2 != p {
                            assert(views(seen@)[p2] != views(seen@)[p as int]);
                            assert(found@[p2] == old_found[p2]);
                        }
                    }
                    assert(views(seen@).contains(t@)) by {
                        assert(views(seen@)[p as int] == t@);
                    }
                },
                None => {
                    let ghost old_seen = views(seen@);
                    seen.push(t.clone());
                    let mut fresh: Vec<usize> = Vec::new();
                    fresh.push(i);
                    found.push(fresh);
                    assert(views(seen@) =~= old_seen.push(t@));
                    proof { lemma_occurrences_present(ps, t@); }
                    assert forall|p2: int| 0 <= p2 < found@.len() implies {
                        &&& same_indices((#[trigger] found@[p2])@, occurrences(ps2, seen@[p2]@))
                        &&& found@[p2]@.len() > 0
                        &&& forall|q: int| 0 <= q < found@[p2]@.len() ==> found@[p2]@[q] <= i
                    } by {
                        if p2 < old_seen.len() {
                            assert(old_seen[p2] != t@);
                        } else {
                            assert(occurrences(ps, t@).len() == 0);
                            assert(occurrences(ps, t@) =~= seq![]);
                        }
                    }
                },
            }
            j += 1;
        }
        assert(tv.take(i + 1).drop_last() =~= tv.take(i as int));
        assert(row.take(terms@.len() as int) =~= row);
        assert(chunk_pairs(tv.take(i + 1)) =~= base + row.take(j as int).map_values(
            |t: Seq<char>| (i as int, t),
        ));
        i += 1;
    }
    assert(tv.take(n as int) =~= tv);
    let ghost ps = chunk_pairs(tv);
    let ghost ts = first_seen(ps);
    let min = config.min_occurrences;
    let mut res: Vec<TermOccurrences> = Vec::new();
    let mut p: usize = 0;
    while p < seen.len()
        invariant
            p <= seen@.len(),
            seen@.len() == found@.len(),
            n == chunks@.len(),
            views(seen@) == ts,
            ts == first_seen(ps),
            min == config.min_occurrences,
            forall|p2: int|
                0 <= p2 < found@.len() ==> {
                    &&& same_indices((#[trigger] found@[p2])@, occurrences(ps, seen@[p2]@))
                    &&& found@[p2]@.len() > 0
                    &&& forall|q: int| 0 <= q < found@[p2]@.len() ==> found@[p2]@[q] < n
                },
            res@.len() == frequent(ts.take(p as int), ps, min as nat).len(),
            forall|k: int|
                0 <= k < res@.len() ==> {
                    let e = #[trigger] res@[k];
                    &&& e.term@ == frequent(ts.take(p as int), ps, min as nat)[k]
                    &&& same_indices(e.chunk_indices@, occurrences(ps, e.term@))
                    &&& e.chunk_indices@.len() > 0
                    &&& e.chunk_indices@[0] < chunks@.len()
                    &&& e.source_path@ == chunks@[e.chunk_indices@[0] as int].source_path@
                    &&& e.source_line == chunks@[e.chunk_indices@[0] as int].source_line
                },
        decreases seen@.len() - p,
    {
        assert(ts.take(p + 1).drop_last() =~= ts.take(p as int));
        assert(ts.take(p + 1).last() == seen@[p as int]@);
        let count = found[p].len();
        if count >= min {
            let indices = copy_indices(&found[p]);
            let first = indices[0];
            let entry = TermOccurrences {
                term: seen[p].clone(),
                chunk_indices: indices,
                source_path: chunks[first].source_path.clone(),
                source_line: chunks[first].source_line,
            };
            res.push(entry);
        }
        p += 1;
    }
    assert(ts.take(seen@.len() as int) =~= ts);
    res
}

proof fn lemma_chunk_pairs_shape(tpc: Seq<Seq<Seq<char>>>)
    ensures
        forall|m: int|
            0 <= m < chunk_pairs(tpc).len() ==> {
                let p = #[trigger] chunk_pairs(tpc)[m];
                &&& 0 <= p.0 < tpc.len()
                &&& tpc[p.0].contains(p.1)
            },
        forall|m1: int, m2: int|
            0 <= m1 <= m2 < chunk_pairs(tpc).len() ==> (#[trigger] chunk_pairs(tpc)[m1]).0 <= (
            #[trigger] chunk_pairs(tpc)[m2]).0,
        forall|i: int, x: int|
            0 <= i < tpc.len() && 0 <= x < tpc[i].len() ==> #[trigger] chunk_pairs(tpc).contains((i, tpc[i][x])),
    decreases tpc.len(),
{
    if tpc.len() > 0 {
        let prev = tpc.drop_last();
        lemma_chunk_pairs_shape(prev);
        let n = tpc.len() - 1;
        let row = tpc.last();
        let a = chunk_pairs(prev);
        let b = row.map_values(|t: Seq<char>| (n, t));
        let ps = chunk_pairs(tpc);
        assert(ps == a + b);
        assert forall|m: int| 0 <= m < ps.len() implies {
            let p = #[trigger] ps[m];
            &&& 0 <= p.0 < tpc.len()
            &&& tpc[p.0].contains(p.1)
        } by {
            if m < a.len() {
                assert(ps[m] == a[m]);
                assert(tpc[a[m].0] == prev[a[m].0]);
            } else {
                assert(ps[m] == b[m - a.len()]);
                assert(row[m - a.len()] == ps[m].1);
            }
        }
        assert forall|m1: int, m2: int| 0 <= m1 <= m2 < ps.len() implies (#[trigger] ps[m1]).0 <= (
        #[trigger] ps[m2]).0 by {
            if m2 < a.len() {
                assert(ps[m1] == a[m1]);
                assert(ps[m2] == a[m2]);
            } else if m1 < a.len() {
                assert(ps[m1] == a[m1]);
                assert(ps[m2] == b[m2 - a.len()]);
            } else {
                assert(ps[m1] == b[m1 - a.len()]);
                assert(ps[m2] == b[m2 - a.len()]);
            }
        }
        assert forall|i: int, x: int| 0 <= i < tpc.len() && 0 <= x < tpc[i].len() implies #[trigger] ps.contains(
            (i, tpc[i][x]),
        ) by {
            if i < n {
                assert(tpc[i] == prev[i]);
                assert(a.contains((i, prev[i][x])));
                let m = choose|m: int| 0 <= m < a.len() && a[m] == (i, prev[i][x]);
                assert(ps[m] == a[m]);
            } else {
                assert(ps[a.len() + x] == b[x]);
            }
        }
    }
}

proof fn lemma_occurrences_from_pairs(ps: Seq<(int, Seq<char>)>, t: Seq<char>)
    ensures
        forall|q: int| 0 <= q < occurrences(ps, t).len() ==> ps.contains((#[trigger] occurrences(ps, t)[q], t)),
        occurrences(ps, t).len() > 0 ==> exists|m0: int|
            0 <= m0 < ps.len() && #[trigger] ps[m0] == (occurrences(ps, t)[0], t) && forall|m: int|
                0 <= m < m0 ==> (#[trigger] ps[m]).1 != t,
        forall|m: int| 0 <= m < ps.len() && (#[trigger] ps[m]).1 == t ==> occurrences(ps, t).len() > 0,
    decreases ps.len(),
{
    if ps.len() > 0 {
        let q0 = ps.drop_last();
        lemma_occurrences_from_pairs(q0, t);
        let o = occurrences(ps, t);
        let o0 = occurrences(q0, t);
        assert forall|q: int| 0 <= q < o.len() implies ps.contains((#[trigger] o[q], t)) by {
            if q < o0.len() {
                assert(o[q] == o0[q]);
                let m = choose|m: int| 0 <= m < q0.len() && q0[m] == (o0[q], t);
                assert(ps[m] == q0[m]);
            } else {
                assert(ps[ps.len() - 1] == (o[q], t));
            }
        }
        if o.len() > 0 {
            if o0.len() > 0 {
                let m0 = choose|m0: int|
                    0 <= m0 < q0.len() && #[trigger] q0[m0] == (o0[0], t) && forall|m: int|
                        0 <= m < m0 ==> (#[trigger] q0[m]).1 != t;
                assert(ps[m0] == q0[m0]);
                assert(o[0] == o0[0]);
                assert forall|m: int| 0 <= m < m0 implies (#[trigger] ps[m]).1 != t by {
                    assert(ps[m] == q0[m]);
                }
            } else {
                assert forall|m: int| 0 <= m < ps.len() - 1 implies (#[trigger] ps[m]).1 != t by {
                    assert(ps[m] == q0[m]);
                }
                assert(ps.last().1 == t);
                assert(o[0] == ps.last().0);
                assert(ps[ps.len() - 1] == (o[0], t));
            }
        }
        assert forall|m: int| 0 <= m < ps.len() && (#[trigger] ps[m]).1 == t implies o.len() > 0 by {
            if m < ps.len() - 1 {
                assert(ps[m] == q0[m]);
            }
        }
    }
}

/// Each entry of the occurrence table lists only chunks that hold its term,
/// and its provenance is the first chunk that does: that chunk holds the
/// term and no chunk before it does.
pub proof fn lemma_occurrence_table_provenance(
    res: Seq<TermOccurrences>,
    chunks: Seq<Chunk>,
    tpc: Seq<Seq<Seq<char>>>,
    min: nat,
    k: int,
)
    requires
        is_occurrence_table(res, chunks, tpc, min),
        0 <= k < res.len(),
    ensures
        ({
            let e = res[k];
            let first = e.chunk_indices@[0] as int;
            &&& forall|q: int|
                0 <= q < e.chunk_indices@.len() ==> tpc[#[trigger] e.chunk_indices@[q] as int].contains(e.term@)
            &&& forall|j: int| 0 <= j < first ==> !(#[trigger] tpc[j]).contains(e.term@)
            &&& e.source_path@ == chunks[first].source_path@
            &&& e.source_line == chunks[first].source_line
        }),
{
    let e = res[k];
    let t = e.term@;
    let ps = chunk_pairs(tpc);
    let o = occurrences(ps, t);
    lemma_chunk_pairs_shape(tpc);
    lemma_occurrences_from_pairs(ps, t);
    assert(same_indices(e.chunk_indices@, o));
    assert forall|q: int| 0 <= q < e.chunk_indices@.len() implies tpc[#[trigger] e.chunk_indices@[q] as int].contains(t) by {
        assert(e.chunk_indices@[q] == o[q]);
        assert(ps.contains((o[q], t)));
        let m = choose|m: int| 0 <= m < ps.len() && ps[m] == (o[q], t);
        assert(tpc[ps[m].0].contains(ps[m].1));
    }
    let first = e.chunk_indices@[0] as int;
    assert(o.len() > 0);
    assert(first == o[0]);
    let m0 = choose|m0: int|
        0 <= m0 < ps.len() && #[trigger] ps[m0] == (o[0], t) && forall|m: int| 0 <= m < m0 ==> (#[trigger] ps[m]).1 != t;
    assert forall|j: int| 0 <= j < first implies !(#[trigger] tpc[j]).contains(t) by {
        if tpc[j].contains(t) {
            let x = choose|x: int| 0 <= x < tpc[j].len() && tpc[j][x] == t;
            assert(ps.contains((j, tpc[j][x])));
            let m = choose|m: int| 0 <= m < ps.len() && ps[m] == (j, t);
            if m < m0 {
                assert(ps[m].1 != t);
            } else {
                assert(ps[m0].0 <= ps[m].0);
            }
        }
    }
}

} // verus!
