//! Shard naming and the shard catalog: which shards exist, in registration
//! order, and which id the next new shard gets. A new shard's id is
//! `shard-<n>` for the catalog's running counter `n`, so a catalog resumed
//! from its persisted counter never hands out an id that is already taken.
use vstd::prelude::*;
use vstd::string::StringExecFns;
use crate::text::{push_char, views};

verus! {

// ── Decimal rendering ─────────────────────────────────────────────────────────

/// The ASCII digit for `d < 10`.
pub open spec fn digit_char(d: nat) -> char {
    if d == 0 {
        '0'
    } else if d == 1 {
        '1'
    } else if d == 2 {
        '2'
    } else if d == 3 {
        '3'
    } else if d == 4 {
        '4'
    } else if d == 5 {
        '5'
    } else if d == 6 {
        '6'
    } else if d == 7 {
        '7'
    } else if d == 8 {
        '8'
    } else {
        '9'
    }
}

/// The decimal digits of `n`, most significant first, without leading zeros.
pub open spec fn decimal(n: nat) -> Seq<char>
    decreases n,
{
    if n < 10 {
        seq![digit_char(n)]
    } else {
        decimal(n / 10).push(digit_char(n % 10))
    }
}

/// The id of the shard numbered `n`: `shard-<n>`.
pub open spec fn shard_id_spec(n: nat) -> Seq<char> {
    "shard-"@ + decimal(n)
}

proof fn lemma_digit_injective(a: nat, b: nat)
    requires
        a < 10,
        b < 10,
        digit_char(a) == digit_char(b),
    ensures
        a == b,
{
}

proof fn lemma_decimal_len(n: nat)
    ensures
        decimal(n).len() >= 1,
        n >= 10 ==> decimal(n).len() >= 2,
    decreases n,
{
    if n >= 10 {
        lemma_decimal_len(n / 10);
    }
}

/// Different numbers have different decimal renderings.
pub proof fn lemma_decimal_injective(a: nat, b: nat)
    requires
        decimal(a) == decimal(b),
    ensures
        a == b,
    decreases a,
{
    lemma_decimal_len(a);
    lemma_decimal_len(b);
    if a < 10 && b < 10 {
        assert(decimal(a)[0] == digit_char(a));
        assert(decimal(b)[0] == digit_char(b));
        lemma_digit_injective(a, b);
    } else if a >= 10 && b >= 10 {
        let da = decimal(a);
        let db = decimal(b);
        assert(da.last() == digit_char(a % 10));
        assert(db.last() == digit_char(b % 10));
        lemma_digit_injective(a % 10, b % 10);
        assert(da.drop_last() =~= decimal(a / 10));
        assert(db.drop_last() =~= decimal(b / 10));
        lemma_decimal_injective(a / 10, b / 10);
    } else {
        assert(decimal(a).len() != decimal(b).len());
    }
}

/// Shards numbered differently have different ids.
pub proof fn lemma_shard_id_injective(a: nat, b: nat)
    requires
        shard_id_spec(a) == shard_id_spec(b),
    ensures
        a == b,
{
    reveal_strlit("shard-");
    let p = "shard-"@;
    assert(shard_id_spec(a).skip(p.len() as int) =~= decimal(a));
    assert(shard_id_spec(b).skip(p.len() as int) =~= decimal(b));
    lemma_decimal_injective(a, b);
}

/// The number that a string of ASCII digits denotes in base ten, most
/// significant digit first.
pub open spec fn base_ten_value(s: Seq<char>) -> int
    decreases s.len(),
{
    if s.len() == 0 {
        0
    } else {
        base_ten_value(s.drop_last()) * 10 + (s.last() as u32 - '0' as u32)
    }
}

/// Each digit `d < 10` is the character `d` places after `'0'`.
pub proof fn lemma_digit_char_code(d: nat)
    requires
        d < 10,
    ensures
        digit_char(d) as u32 == '0' as u32 + d,
        '0' <= digit_char(d) <= '9',
{
}

/// `decimal(n)` is the base-ten rendering of `n`: ASCII digits only, no
/// leading zero (unless `n` is zero), denoting `n`. So a shard's id spells
/// its number, e.g. the shard numbered 5 is `shard-5`.
pub proof fn lemma_decimal_denotes(n: nat)
    ensures
        forall|i: int| 0 <= i < decimal(n).len() ==> '0' <= #[trigger] decimal(n)[i] <= '9',
        base_ten_value(decimal(n)) == n,
        decimal(n)[0] == '0' ==> n == 0,
        shard_id_spec(n) == "shard-"@ + decimal(n),
    decreases n,
{
    lemma_digit_char_code(n % 10);
    if n < 10 {
        assert(decimal(n).drop_last() =~= Seq::<char>::empty());
        assert(base_ten_value(decimal(n).drop_last()) == 0);
        assert(decimal(n).last() == digit_char(n));
        assert(base_ten_value(decimal(n)) == n);
    } else {
        lemma_decimal_denotes(n / 10);
        let d = decimal(n);
        assert(d.drop_last() =~= decimal(n / 10));
        assert forall|i: int| 0 <= i < d.len() implies '0' <= #[trigger] d[i] <= '9' by {
            if i < d.len() - 1 {
                assert(d[i] == decimal(n / 10)[i]);
            }
        }
        lemma_decimal_len(n / 10);
        assert(d[0] == decimal(n / 10)[0]);
        if n / 10 == 0 {
            assert(false);
        }
        vstd::arithmetic::div_mod::lemma_fundamental_div_mod(n as int, 10);
        assert(d.last() == digit_char(n % 10));
        assert(base_ten_value(d) == base_ten_value(decimal(n / 10)) * 10 + (n % 10));
        assert(base_ten_value(decimal(n / 10)) * 10 == (n / 10) * 10);
        assert((n / 10) * 10 + n % 10 == n) by (nonlinear_arith)
            requires
                n == 10 * (n / 10) + n % 10,
        ;
    }
}

fn digit_of(d: usize) -> (c: char)
    requires
        d < 10,
    ensures
        c == digit_char(d as nat),
{
    if d == 0 {
        '0'
    } else if d == 1 {
        '1'
    } else if d == 2 {
        '2'
    } else if d == 3 {
        '3'
    } else if d == 4 {
        '4'
    } else if d == 5 {
        '5'
    } else if d == 6 {
        '6'
    } else if d == 7 {
        '7'
    } else if d == 8 {
        '8'
    } else {
        '9'
    }
}

/// Appends the decimal digits of `n` to `s`.
fn push_decimal(s: &mut String, n: usize)
    ensures
        final(s)@ == old(s)@ + decimal(n as nat),
    decreases n,
{
    if n >= 10 {
        push_decimal(s, n / 10);
    }
    push_char(s, digit_of(n % 10));
    proof {
        if n >= 10 {
            assert(old(s)@ + decimal(n as nat) =~= old(s)@ + decimal((n / 10) as nat) + seq![digit_char((n % 10) as nat)]);
        } else {
            assert(decimal(n as nat) =~= seq![digit_char(n as nat)]);
        }
    }
}

/// The id of the shard numbered `n`: `shard-<n>`.
pub fn shard_id(n: usize) -> (id: String)
    ensures
        id@ == shard_id_spec(n as nat),
{
    let mut id = String::from_str("shard-");
    push_decimal(&mut id, n);
    id
}

// ── Catalog ───────────────────────────────────────────────────────────────────

/// What routing decided for a concept: join an existing shard, or found a new one.
#[derive(Debug)]
pub enum RouteDecision {
    /// The concept joins the shard with this id.
    Joined(String),
    /// The concept becomes the anchor of a new shard with this id.
    NewShard(String),
}

/// The registered shards, in registration order, and the number the next
/// new shard will get.
pub struct ShardCatalog {
    ids: Vec<String>,
    next_id: usize,
}

impl ShardCatalog {
    /// The ids of the registered shards, in registration order.
    pub closed spec fn ids(&self) -> Seq<Seq<char>> {
        views(self.ids@)
    }

    /// The number the next new shard gets.
    pub closed spec fn next_number(&self) -> nat {
        self.next_id as nat
    }

    /// Whether no shard id the catalog will still hand out is already taken:
    /// no registered id is `shard-<m>` for an `m` at or beyond the counter.
    pub open spec fn is_fresh(&self) -> bool {
        forall|m: nat| m >= self.next_number() ==> !self.ids().contains(#[trigger] shard_id_spec(m))
    }

    /// A catalog with `shard-0` registered, the next shard numbered 1.
    pub fn new() -> (c: Self)
        ensures
            c.ids() == seq![shard_id_spec(0)],
            c.next_number() == 1,
            c.is_fresh(),
            c.ids().no_duplicates(),
    {
        let mut ids: Vec<String> = Vec::new();
        ids.push(shard_id(0));
        let c = ShardCatalog { ids, next_id: 1 };
        assert(c.ids() =~= seq![shard_id_spec(0)]);
        assert forall|m: nat| m >= c.next_number() implies !c.ids().contains(#[trigger] shard_id_spec(m)) by {
            if c.ids().contains(shard_id_spec(m)) {
                assert(c.ids()[0] == shard_id_spec(m));
                lemma_shard_id_injective(0, m);
            }
        }
        c
    }

    /// A catalog resumed from persisted ids and counter.
    pub fn load(ids: Vec<String>, next_id: usize) -> (c: Self)
        ensures
            c.ids() == views(ids@),
            c.next_number() == next_id,
    {
        ShardCatalog { ids, next_id }
    }

    /// How many shards are registered.
    pub fn len(&self) -> (n: usize)
        ensures
            n == self.ids().len(),
    {
        self.ids.len()
    }

    /// The number the next new shard gets.
    pub fn next_id(&self) -> (n: usize)
        ensures
            n == self.next_number(),
    {
        self.next_id
    }

    /// The id of the `i`-th registered shard.
    pub fn id(&self, i: usize) -> (id: String)
        requires
            i < self.ids().len(),
        ensures
            id@ == self.ids()[i as int],
    {
        self.ids[i].clone()
    }

    /// The ids of the registered shards, in registration order.
    pub fn all_ids(&self) -> (ids: Vec<String>)
        ensures
            views(ids@) == self.ids(),
    {
        let mut out: Vec<String> = Vec::new();
        let mut k: usize = 0;
        while k < self.ids.len()
            invariant
                k <= self.ids@.len(),
                views(out@) == views(self.ids@).take(k as int),
            decreases self.ids@.len() - k,
        {
            let ghost before = out@;
            let c = self.ids[k].clone();
            out.push(c);
            assert(out@ == before.push(c));
            assert(views(out@) =~= views(before).push(c@));
            assert(views(out@) =~= views(self.ids@).take(k + 1));
            k += 1;
        }
        assert(views(self.ids@).take(self.ids@.len() as int) =~= views(self.ids@));
        out
    }

    /// Registers a new shard and returns its id, `shard-<counter>`; the
    /// counter moves on by one.
    pub fn register_new(&mut self) -> (id: String)
        requires
            old(self).next_number() < usize::MAX,
        ensures
            id@ == shard_id_spec(old(self).next_number()),
            final(self).ids() == old(self).ids().push(id@),
            final(self).next_number() == old(self).next_number() + 1,
            old(self).is_fresh() ==> !old(self).ids().contains(id@),
            old(self).is_fresh() ==> final(self).is_fresh(),
            old(self).is_fresh() && old(self).ids().no_duplicates() ==> final(self).ids().no_duplicates(),
    {
        let id = shard_id(self.next_id);
        let ghost before = self.ids();
        let ghost n0 = self.next_number();
        self.ids.push(id.clone());
        self.next_id = self.next_id + 1;
        assert(self.ids() =~= before.push(id@));
        proof {
            if forall|m: nat| m >= n0 ==> !before.contains(#[trigger] shard_id_spec(m)) {
                assert(!before.contains(shard_id_spec(n0)));
                assert forall|m: nat| m >= self.next_number() implies !self.ids().contains(
                    #[trigger] shard_id_spec(m),
                ) by {
                    assert(!before.contains(shard_id_spec(m)));
                    if self.ids().contains(shard_id_spec(m)) {
                        let j = choose|j: int| 0 <= j < self.ids().len() && self.ids()[j] == shard_id_spec(m);
                        if j < before.len() {
                            assert(before[j] == shard_id_spec(m));
                        } else {
                            lemma_shard_id_injective(n0, m);
                        }
                    }
                }
            }
        }
        id
    }

    /// Routes a concept once its nearest shard is known: `nearest_within`
    /// is the position of the nearest registered shard when it lies within
    /// the shard radius, and `None` when no shard is close enough. The
    /// concept joins that shard, or becomes the anchor of a new one.
    pub fn route(&mut self, nearest_within: Option<usize>) -> (d: RouteDecision)
        requires
            nearest_within matches Some(i) ==> i < old(self).ids().len(),
            nearest_within is None ==> old(self).next_number() < usize::MAX,
        ensures
            match nearest_within {
                Some(i) => {
                    &&& d matches RouteDecision::Joined(id) && id@ == old(self).ids()[i as int]
                    &&& *final(self) == *old(self)
                },
                None => {
                    &&& d matches RouteDecision::NewShard(id) && id@ == shard_id_spec(old(self).next_number())
                    &&& final(self).ids() == old(self).ids().push(shard_id_spec(old(self).next_number()))
                    &&& final(self).next_number() == old(self).next_number() + 1
                    &&& (old(self).is_fresh() ==> !old(self).ids().contains(shard_id_spec(old(self).next_number())))
                    &&& (old(self).is_fresh() ==> final(self).is_fresh())
                    &&& (old(self).is_fresh() && old(self).ids().no_duplicates() ==> final(self).ids().no_duplicates())
                },
            },
    {
        match nearest_within {
            Some(i) => RouteDecision::Joined(self.id(i)),
            None => RouteDecision::NewShard(self.register_new()),
        }
    }
}

} // verus!
