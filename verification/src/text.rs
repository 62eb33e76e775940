//! Character-level text handling shared by the chunker, the term
//! extractor and the enrichment helpers: whitespace splitting, trimming,
//! lower-casing, joining and substring search, each stated over the
//! `Seq<char>` view of a string.
use vstd::prelude::*;
use vstd::string::StringExecFns;

verus! {

// ── Unicode properties ────────────────────────────────────────────────────────

/// Whether `c` has the Unicode `White_Space` property (what `char::is_whitespace` answers).
pub uninterp spec fn is_white_space(c: char) -> bool;

/// Whether `c` is alphabetic or numeric in the Unicode sense (what `char::is_alphanumeric` answers).
pub uninterp spec fn is_alphanumeric_char(c: char) -> bool;

/// The Unicode lower-case mapping of a whole string (what `str::to_lowercase` returns).
pub uninterp spec fn lowercase(s: Seq<char>) -> Seq<char>;

/// Calls `char::is_whitespace`; the contract claims only that the answer is
/// the `White_Space` property of `c`, named by `is_white_space`.
#[verifier::external_body]
pub(crate) fn char_is_whitespace(c: char) -> (b: bool)
    ensures
        b == is_white_space(c),
{
    c.is_whitespace()
}

/// Calls `char::is_alphanumeric`; the contract claims only that the answer is
/// a function of `c`, named by `is_alphanumeric_char`.
#[verifier::external_body]
pub(crate) fn char_is_alphanumeric(c: char) -> (b: bool)
    ensures
        b == is_alphanumeric_char(c),
{
    c.is_alphanumeric()
}

/// Calls `str::to_lowercase`; the contract claims only that the result is a
/// function of the characters of `s`, named by `lowercase`.
#[verifier::external_body]
pub(crate) fn str_to_lowercase(s: &str) -> (res: String)
    ensures
        res@ == lowercase(s@),
{
    s.to_lowercase()
}

/// Calls `String::push`; the contract claims that `c` is appended at the end.
#[verifier::external_body]
pub(crate) fn push_char(s: &mut String, c: char)
    ensures
        final(s)@ == old(s)@.push(c),
{
    s.push(c)
}

// ── Views ─────────────────────────────────────────────────────────────────────

/// The character sequences of a sequence of strings.
pub open spec fn views(v: Seq<String>) -> Seq<Seq<char>> {
    v.map_values(|s: String| s@)
}

/// Number of bytes that `c` takes in UTF-8 (what `char::len_utf8` reports).
pub open spec fn char_utf8_width(c: char) -> nat {
    let v = c as u32;
    if v <= 0x7f {
        1
    } else if v <= 0x7ff {
        2
    } else if v <= 0xffff {
        3
    } else {
        4
    }
}

/// Number of bytes in the UTF-8 encoding of `s` (what `str::len` reports).
pub open spec fn utf8_len(s: Seq<char>) -> nat
    decreases s.len(),
{
    if s.len() == 0 {
        0
    } else {
        utf8_len(s.drop_last()) + char_utf8_width(s.last())
    }
}

/// Whether the UTF-8 encoding of `s` takes more than `k` bytes.
pub(crate) fn utf8_len_exceeds(s: &str, k: usize) -> (b: bool)
    ensures
        b == (utf8_len(s@) > k),
{
    let cs = chars_of(s);
    let mut total: usize = 0;
    let mut j: usize = 0;
    while j < cs.len()
        invariant
            j <= cs.len(),
            cs@ == s@,
            total == utf8_len(cs@.take(j as int)),
            total <= k,
        decreases cs.len() - j,
    {
        let v = cs[j] as u32;
        let w: usize = if v <= 0x7f {
            1
        } else if v <= 0x7ff {
            2
        } else if v <= 0xffff {
            3
        } else {
            4
        };
        assert(cs@.take(j + 1).drop_last() =~= cs@.take(j as int));
        assert(w == char_utf8_width(cs@[j as int]));
        if w > k - total {
            proof { lemma_utf8_len_prefix(cs@, j + 1); }
            return true;
        }
        total = total + w;
        j += 1;
    }
    assert(cs@.take(cs.len() as int) =~= cs@);
    false
}

/// The byte length of a string is at least that of any of its prefixes.
pub proof fn lemma_utf8_len_prefix(s: Seq<char>, j: int)
    requires
        0 <= j <= s.len(),
    ensures
        utf8_len(s.take(j)) <= utf8_len(s),
    decreases s.len() - j,
{
    if j < s.len() {
        lemma_utf8_len_prefix(s, j + 1);
        assert(s.take(j + 1).drop_last() =~= s.take(j));
    } else {
        assert(s.take(j) =~= s);
    }
}

proof fn lemma_utf8_len_front(s: Seq<char>)
    requires
        s.len() > 0,
    ensures
        utf8_len(s) == char_utf8_width(s[0]) + utf8_len(s.drop_first()),
    decreases s.len(),
{
    if s.len() == 1 {
        assert(s.drop_last().len() == 0);
        assert(s.drop_first().len() == 0);
        assert(utf8_len(s.drop_last()) == 0);
        assert(utf8_len(s.drop_first()) == 0);
        assert(s.last() == s[0]);
    } else {
        lemma_utf8_len_front(s.drop_last());
        assert(s.drop_last().drop_first() =~= s.drop_first().drop_last());
        assert(s.drop_first().last() == s.last());
        assert(s.drop_last()[0] == s[0]);
        assert(utf8_len(s.drop_first()) == utf8_len(s.drop_first().drop_last()) + char_utf8_width(s.last()));
    }
}

/// `utf8_len` counts bytes exactly: it is the length of the UTF-8
/// encoding of the characters.
pub proof fn lemma_utf8_len_is_encoding_len(s: Seq<char>)
    ensures
        utf8_len(s) == vstd::utf8::encode_utf8(s).len(),
    decreases s.len(),
{
    if s.len() > 0 {
        lemma_utf8_len_front(s);
        lemma_utf8_len_is_encoding_len(s.drop_first());
        vstd::utf8::char_is_scalar(s[0]);
    }
}

// ── Trimming ──────────────────────────────────────────────────────────────────

/// Which characters a trim removes from the two ends of a string.
#[derive(Clone, Copy, PartialEq, Eq, Debug)]
pub enum Strip {
    /// Unicode white space (`str::trim`).
    Whitespace,
    /// Everything that is not alphanumeric (`trim_matches(|c| !c.is_alphanumeric())`).
    NonAlphanumeric,
}

/// Whether a trim of the given kind removes `c`.
pub open spec fn strips(kind: Strip, c: char) -> bool {
    match kind {
        Strip::Whitespace => is_white_space(c),
        Strip::NonAlphanumeric => !is_alphanumeric_char(c),
    }
}

/// `s` with every leading character that `kind` removes taken off.
pub open spec fn strip_start(s: Seq<char>, kind: Strip) -> Seq<char>
    decreases s.len(),
{
    if s.len() > 0 && strips(kind, s[0]) {
        strip_start(s.drop_first(), kind)
    } else {
        s
    }
}

/// `s` with every trailing character that `kind` removes taken off.
pub open spec fn strip_end(s: Seq<char>, kind: Strip) -> Seq<char>
    decreases s.len(),
{
    if s.len() > 0 && strips(kind, s.last()) {
        strip_end(s.drop_last(), kind)
    } else {
        s
    }
}

/// `s` with the characters that `kind` removes taken off both ends.
pub open spec fn strip(s: Seq<char>, kind: Strip) -> Seq<char> {
    strip_end(strip_start(s, kind), kind)
}

/// `str::trim`: white space removed from both ends.
pub open spec fn trim_ws(s: Seq<char>) -> Seq<char> {
    strip(s, Strip::Whitespace)
}

proof fn lemma_strip_start_skips(s: Seq<char>, kind: Strip) -> (a: int)
    ensures
        0 <= a <= s.len(),
        strip_start(s, kind) == s.skip(a),
        forall|i: int| 0 <= i < a ==> strips(kind, #[trigger] s[i]),
        a < s.len() ==> !strips(kind, s[a]),
    decreases s.len(),
{
    if s.len() > 0 && strips(kind, s[0]) {
        let t = s.drop_first();
        let a1 = lemma_strip_start_skips(t, kind);
        assert(t.skip(a1) =~= s.skip(a1 + 1));
        assert forall|i: int| 0 <= i < a1 + 1 implies strips(kind, #[trigger] s[i]) by {
            if i > 0 {
                assert(s[i] == t[i - 1]);
            }
        }
        if a1 + 1 < s.len() {
            assert(s[a1 + 1] == t[a1]);
        }
        a1 + 1
    } else {
        assert(s.skip(0) =~= s);
        0
    }
}

proof fn lemma_strip_end_takes(s: Seq<char>, kind: Strip) -> (b: int)
    ensures
        0 <= b <= s.len(),
        strip_end(s, kind) == s.take(b),
        forall|i: int| b <= i < s.len() ==> strips(kind, #[trigger] s[i]),
        b > 0 ==> !strips(kind, s[b - 1]),
    decreases s.len(),
{
    if s.len() > 0 && strips(kind, s.last()) {
        let t = s.drop_last();
        let b1 = lemma_strip_end_takes(t, kind);
        assert(t.take(b1) =~= s.take(b1));
        assert forall|i: int| b1 <= i < s.len() implies strips(kind, #[trigger] s[i]) by {
            if i < s.len() - 1 {
                assert(s[i] == t[i]);
            }
        }
        if b1 > 0 {
            assert(s[b1 - 1] == t[b1 - 1]);
        }
        b1
    } else {
        assert(s.take(s.len() as int) =~= s);
        s.len() as int
    }
}

/// What a trim leaves is a contiguous piece of the string: every character
/// before and after it is one that the trim removes, and the piece, when
/// not empty, begins and ends with characters that it keeps. So the trim
/// leaves something exactly when the string holds a character that it keeps.
pub proof fn lemma_strip_shape(s: Seq<char>, kind: Strip)
    ensures
        exists|a: int, b: int|
            {
                &&& 0 <= a <= b <= s.len()
                &&& strip(s, kind) == #[trigger] s.subrange(a, b)
                &&& forall|i: int| 0 <= i < a ==> strips(kind, #[trigger] s[i])
                &&& forall|i: int| b <= i < s.len() ==> strips(kind, #[trigger] s[i])
                &&& a < b ==> !strips(kind, s[a]) && !strips(kind, s[b - 1])
            },
        strip(s, kind).len() > 0 <==> exists|i: int| 0 <= i < s.len() && !strips(kind, #[trigger] s[i]),
{
    let a = lemma_strip_start_skips(s, kind);
    let t = s.skip(a);
    let b = lemma_strip_end_takes(t, kind);
    assert(t.take(b) =~= s.subrange(a, a + b));
    assert forall|i: int| a + b <= i < s.len() implies strips(kind, #[trigger] s[i]) by {
        assert(s[i] == t[i - a]);
    }
    if a < s.len() {
        assert(t[0] == s[a]);
        if b == 0 {
            assert(strips(kind, t[0]));
        }
        assert(t[b - 1] == s[a + b - 1]);
    }
    assert(0 <= a <= a + b <= s.len());
    assert(strip(s, kind) == s.subrange(a, a + b));
    if exists|i: int| 0 <= i < s.len() && !strips(kind, #[trigger] s[i]) {
        let i = choose|i: int| 0 <= i < s.len() && !strips(kind, #[trigger] s[i]);
        assert(a <= i < a + b);
    }
    if strip(s, kind).len() > 0 {
        assert(!strips(kind, s[a]));
    }
}

/// `str::trim` keeps the middle of a string: it removes exactly the white
/// space at both ends, so what is left neither starts nor ends with white
/// space, and it is empty only for a string of white space alone.
pub proof fn lemma_trim_ws_shape(s: Seq<char>)
    ensures
        exists|a: int, b: int|
            {
                &&& 0 <= a <= b <= s.len()
                &&& trim_ws(s) == #[trigger] s.subrange(a, b)
                &&& forall|i: int| 0 <= i < a ==> is_white_space(#[trigger] s[i])
                &&& forall|i: int| b <= i < s.len() ==> is_white_space(#[trigger] s[i])
                &&& a < b ==> !is_white_space(s[a]) && !is_white_space(s[b - 1])
            },
        trim_ws(s).len() > 0 <==> exists|i: int| 0 <= i < s.len() && !is_white_space(#[trigger] s[i]),
{
    lemma_strip_shape(s, Strip::Whitespace);
}

fn char_strips(kind: Strip, c: char) -> (b: bool)
    ensures
        b == strips(kind, c),
{
    match kind {
        Strip::Whitespace => char_is_whitespace(c),
        Strip::NonAlphanumeric => !char_is_alphanumeric(c),
    }
}

/// Bounds `(a, b)` such that `cs[a..b]` is `cs` stripped at both ends.
pub(crate) fn strip_bounds(cs: &Vec<char>, kind: Strip) -> (r: (usize, usize))
    ensures
        r.0 <= r.1 <= cs.len(),
        cs@.subrange(r.0 as int, r.1 as int) == strip(cs@, kind),
{
    let mut a: usize = 0;
    assert(cs@.skip(0) =~= cs@);
    while a < cs.len() && char_strips(kind, cs[a])
        invariant
            a <= cs.len(),
            strip_start(cs@, kind) == strip_start(cs@.skip(a as int), kind),
        decreases cs.len() - a,
    {
        assert(cs@.skip(a as int).drop_first() =~= cs@.skip(a + 1));
        a += 1;
    }
    proof {
        if a < cs.len() {
            assert(cs@.skip(a as int)[0] == cs@[a as int]);
        } else {
            assert(cs@.skip(a as int).len() == 0);
        }
    }
    assert(strip_start(cs@, kind) == cs@.skip(a as int));
    let mut b: usize = cs.len();
    assert(cs@.skip(a as int) =~= cs@.subrange(a as int, b as int));
    while b > a && char_strips(kind, cs[b - 1])
        invariant
            a <= b <= cs.len(),
            strip_end(cs@.skip(a as int), kind) == strip_end(cs@.subrange(a as int, b as int), kind),
        decreases b - a,
    {
        assert(cs@.subrange(a as int, b as int).drop_last() =~= cs@.subrange(a as int, b - 1));
        b -= 1;
    }
    proof {
        if b > a {
            assert(cs@.subrange(a as int, b as int).last() == cs@[b - 1]);
        }
    }
    (a, b)
}

// ── Splitting on white space ──────────────────────────────────────────────────

/// `str::split_whitespace`: the maximal runs of non-white-space characters, in order.
pub open spec fn words(s: Seq<char>) -> Seq<Seq<char>>
    decreases s.len(),
{
    if s.len() == 0 {
        seq![]
    } else {
        let w = words(s.drop_last());
        let c = s.last();
        if is_white_space(c) {
            w
        } else if s.len() >= 2 && !is_white_space(s[s.len() - 2]) {
            w.drop_last().push(w.last().push(c))
        } else {
            w.push(seq![c])
        }
    }
}

proof fn lemma_words_ends_in_word(t: Seq<char>)
    requires
        t.len() > 0,
        !is_white_space(t.last()),
    ensures
        words(t).len() > 0,
    decreases t.len(),
{
    if t.len() >= 2 && !is_white_space(t[t.len() - 2]) {
        lemma_words_ends_in_word(t.drop_last());
    }
}

/// A white-space character separates words: what stands before it and
/// what stands after it split on their own, one after the other.
pub proof fn lemma_words_split_at_white_space(s: Seq<char>, c: char, t: Seq<char>)
    requires
        is_white_space(c),
    ensures
        words(s + seq![c] + t) == words(s) + words(t),
    decreases t.len(),
{
    let u = s + seq![c] + t;
    if t.len() == 0 {
        assert(u.drop_last() =~= s);
        assert(words(s) + words(t) =~= words(s));
    } else {
        let t1 = t.drop_last();
        let d = t.last();
        lemma_words_split_at_white_space(s, c, t1);
        assert(u.drop_last() =~= s + seq![c] + t1);
        assert(u.last() == d);
        let w = words(s + seq![c] + t1);
        if is_white_space(d) {
            assert(words(s) + words(t) =~= words(s) + words(t1));
        } else if t1.len() > 0 && !is_white_space(t1.last()) {
            assert(u[u.len() - 2] == t1.last());
            assert(t[t.len() - 2] == t1.last());
            lemma_words_ends_in_word(t1);
            assert(words(t) == words(t1).drop_last().push(words(t1).last().push(d)));
            assert(w.drop_last().push(w.last().push(d)) =~= words(s) + words(t1).drop_last().push(
                words(t1).last().push(d),
            ));
        } else {
            assert(u[u.len() - 2] == (if t1.len() > 0 { t1.last() } else { c }));
            if t1.len() == 0 {
                assert(t =~= seq![d]);
                assert(words(t1) == Seq::<Seq<char>>::empty());
                assert(t.drop_last().len() == 0);
            } else {
                assert(t[t.len() - 2] == t1.last());
            }
            assert(words(t) == words(t1).push(seq![d]));
            assert(w.push(seq![d]) =~= words(s) + words(t1).push(seq![d]));
        }
    }
}

/// A non-empty run of characters without white space is one word.
pub proof fn lemma_words_of_run(r: Seq<char>)
    requires
        r.len() > 0,
        forall|i: int| 0 <= i < r.len() ==> !is_white_space(#[trigger] r[i]),
    ensures
        words(r) == seq![r],
    decreases r.len(),
{
    if r.len() == 1 {
        assert(r.drop_last().len() == 0);
        assert(words(r.drop_last()) == Seq::<Seq<char>>::empty());
        assert(seq![r.last()] =~= r);
    } else {
        let r1 = r.drop_last();
        lemma_words_of_run(r1);
        assert(r[r.len() - 2] == r1.last());
        assert(r1.push(r.last()) =~= r);
        assert(seq![r1].drop_last().push(r1.push(r.last())) =~= seq![r]);
    }
}

/// The sequence of character vectors' views.
pub open spec fn char_views(v: Seq<Vec<char>>) -> Seq<Seq<char>> {
    v.map_values(|w: Vec<char>| w@)
}

/// Splits `cs` into its white-space separated words.
pub(crate) fn split_words(cs: &Vec<char>) -> (res: Vec<Vec<char>>)
    ensures
        char_views(res@) == words(cs@),
{
    let mut done: Vec<Vec<char>> = Vec::new();
    let mut cur: Vec<char> = Vec::new();
    let mut i: usize = 0;
    while i < cs.len()
        invariant
            i <= cs.len(),
            cur@.len() > 0 <==> (i > 0 && !is_white_space(cs@[i - 1])),
            words(cs@.take(i as int)) == (if cur@.len() == 0 {
                char_views(done@)
            } else {
                char_views(done@).push(cur@)
            }),
        decreases cs.len() - i,
    {
        let c = cs[i];
        let ghost prev = cs@.take(i as int);
        assert(cs@.take(i + 1).drop_last() =~= prev);
        assert(cs@.take(i + 1).last() == c);
        assert(words(cs@.take(i + 1)) == {
            let w = words(prev);
            if is_white_space(c) {
                w
            } else if i >= 1 && !is_white_space(cs@[i - 1]) {
                w.drop_last().push(w.last().push(c))
            } else {
                w.push(seq![c])
            }
        });
        if char_is_whitespace(c) {
            if cur.len() > 0 {
                let ghost old_done = done@;
                done.push(cur);
                assert(char_views(done@) =~= char_views(old_done).push(cur@));
                cur = Vec::new();
            }
        } else {
            let ghost old_cur = cur@;
            cur.push(c);
            proof {
                if old_cur.len() == 0 {
                    assert(cur@ =~= seq![c]);
                } else {
                    assert(cs@.take(i + 1)[i - 1] == cs@[i - 1]);
                    assert(char_views(done@).push(old_cur).drop_last() =~= char_views(done@));
                }
            }
        }
        i += 1;
    }
    assert(cs@.take(cs.len() as int) =~= cs@);
    if cur.len() > 0 {
        let ghost old_done = done@;
        done.push(cur);
        assert(char_views(done@) =~= char_views(old_done).push(cur@));
    }
    done
}

// ── Building strings ──────────────────────────────────────────────────────────

/// The characters of `s`, in order.
pub(crate) fn chars_of(s: &str) -> (res: Vec<char>)
    ensures
        res@ == s@,
{
    broadcast use vstd::string::group_string_axioms;

    let mut res: Vec<char> = Vec::new();
    for c in iter: s.chars()
        invariant
            res@ == iter.seq().take(iter.index() as int),
            iter.seq() == s@,
    {
        res.push(c);
    }
    res
}

/// The string made of `cs[a..b]`.
pub(crate) fn string_of(cs: &Vec<char>, a: usize, b: usize) -> (res: String)
    requires
        a <= b <= cs.len(),
    ensures
        res@ == cs@.subrange(a as int, b as int),
{
    let mut res = String::new();
    let mut k: usize = a;
    while k < b
        invariant
            a <= k <= b <= cs.len(),
            res@ == cs@.subrange(a as int, k as int),
        decreases b - k,
    {
        push_char(&mut res, cs[k]);
        assert(cs@.subrange(a as int, k + 1) =~= cs@.subrange(a as int, k as int).push(cs@[k as int]));
        k += 1;
    }
    res
}

/// `s` with white space removed from both ends (`str::trim`).
pub fn trim_whitespace(s: &str) -> (res: String)
    ensures
        res@ == trim_ws(s@),
{
    let cs = chars_of(s);
    let (a, b) = strip_bounds(&cs, Strip::Whitespace);
    string_of(&cs, a, b)
}

// ── Joining and membership ────────────────────────────────────────────────────

/// `ws.join(sep)`: the pieces of `ws` with `sep` between each two neighbours.
pub open spec fn join_with(ws: Seq<Seq<char>>, sep: Seq<char>) -> Seq<char>
    decreases ws.len(),
{
    if ws.len() == 0 {
        seq![]
    } else if ws.len() == 1 {
        ws[0]
    } else {
        join_with(ws.drop_last(), sep) + sep + ws.last()
    }
}

/// Whether some string of `list` has the characters of `s`.
pub(crate) fn contains_string(list: &[String], s: &String) -> (b: bool)
    ensures
        b == views(list@).contains(s@),
{
    let mut k: usize = 0;
    while k < list.len()
        invariant
            k <= list.len(),
            forall|j: int| 0 <= j < k ==> list@[j]@ != s@,
        decreases list.len() - k,
    {
        if list[k] == *s {
            assert(views(list@)[k as int] == s@);
            return true;
        }
        k += 1;
    }
    proof {
        if views(list@).contains(s@) {
            let j = choose|j: int| 0 <= j < views(list@).len() && views(list@)[j] == s@;
            assert(list@[j]@ == s@);
        }
    }
    false
}

/// The pieces `parts[a..b]` joined with the single character `sep` between them.
pub(crate) fn join_range(parts: &[String], a: usize, b: usize, sep: &str) -> (res: String)
    requires
        a <= b <= parts.len(),
    ensures
        res@ == join_with(views(parts@).subrange(a as int, b as int), sep@),
{
    let ghost all = views(parts@);
    let mut res = String::new();
    let mut k: usize = a;
    while k < b
        invariant
            a <= k <= b <= parts.len(),
            all == views(parts@),
            res@ == join_with(all.subrange(a as int, k as int), sep@),
        decreases b - k,
    {
        let ghost prev = all.subrange(a as int, k as int);
        assert(all.subrange(a as int, k + 1).drop_last() =~= prev);
        assert(all.subrange(a as int, k + 1).last() == parts@[k as int]@);
        if k > a {
            res.append(sep);
        } else {
            assert(all.subrange(a as int, k + 1) =~= seq![parts@[k as int]@]);
            assert(res@ =~= seq![]);
        }
        res.append(parts[k].as_str());
        k += 1;
    }
    res
}

} // verus!
