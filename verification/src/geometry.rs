//! The three-way geometry decision for a concept's neighbourhood, taken on
//! the signals that the eigenvalue analysis and the Gromov delta produce.
use vstd::prelude::*;

verus! {

/// The geometry a neighbourhood is classified as.
#[derive(Debug, PartialEq, Eq, Clone, Copy, Structural)]
pub enum GeometryClass {
    Hyperbolic,
    Spherical,
    Flat,
}

/// The eigenvalue decision: a dominant pair of eigenvalues means spherical;
/// otherwise more than a third of the eigenvalues significantly negative
/// means hyperbolic; otherwise one dominant eigenvalue means flat; anything
/// else is hyperbolic.
pub open spec fn signature_class(dominant_pair: bool, neg_count: nat, n: nat, dominant_first: bool) -> GeometryClass {
    if dominant_pair {
        GeometryClass::Spherical
    } else if neg_count > n / 3 {
        GeometryClass::Hyperbolic
    } else if dominant_first {
        GeometryClass::Flat
    } else {
        GeometryClass::Hyperbolic
    }
}

/// Classifies a neighbourhood of `n` points from its eigenvalue signals:
/// `dominant_pair` (the 2nd-to-1st normalized eigenvalue ratio is above
/// 0.6), `neg_count` (eigenvalues below -5% of the largest), and
/// `dominant_first` (the 1st normalized eigenvalue is above 0.7).
pub fn classify_signature(dominant_pair: bool, neg_count: usize, n: usize, dominant_first: bool) -> (c: GeometryClass)
    ensures
        c == signature_class(dominant_pair, neg_count as nat, n as nat, dominant_first),
{
    if dominant_pair {
        GeometryClass::Spherical
    } else if neg_count > n / 3 {
        GeometryClass::Hyperbolic
    } else if dominant_first {
        GeometryClass::Flat
    } else {
        GeometryClass::Hyperbolic
    }
}

/// The final class of a concept: the eigenvalue class, except that an
/// unambiguously tree-like neighbourhood (Gromov delta below 0.1) is
/// hyperbolic whatever the eigenvalues say.
pub fn resolve_class(eigen_class: GeometryClass, tree_like: bool) -> (c: GeometryClass)
    ensures
        c == (if tree_like { GeometryClass::Hyperbolic } else { eigen_class }),
{
    match eigen_class {
        GeometryClass::Hyperbolic => GeometryClass::Hyperbolic,
        other => if tree_like {
            GeometryClass::Hyperbolic
        } else {
            other
        },
    }
}

// ── Laws ──────────────────────────────────────────────────────────────────────

/// How the signals rank: a dominant eigenvalue pair means spherical whatever
/// the other signals say, and nothing else does; without it, flat needs both
/// a dominant first eigenvalue and at most a third of the eigenvalues
/// negative; every remaining neighbourhood is hyperbolic.
pub proof fn lemma_signal_precedence(
    dominant_pair: bool,
    neg_count: nat,
    n: nat,
    dominant_first: bool,
    other_neg_count: nat,
    other_n: nat,
    other_first: bool,
)
    ensures
        dominant_pair ==> signature_class(dominant_pair, neg_count, n, dominant_first) == GeometryClass::Spherical,
        signature_class(dominant_pair, neg_count, n, dominant_first) == GeometryClass::Spherical ==> dominant_pair,
        signature_class(true, neg_count, n, dominant_first) == signature_class(true, other_neg_count, other_n, other_first),
        signature_class(dominant_pair, neg_count, n, dominant_first) == GeometryClass::Flat <==> (!dominant_pair
            && 3 * neg_count < n + 3 - n % 3 && dominant_first),
        signature_class(dominant_pair, neg_count, n, dominant_first) == GeometryClass::Hyperbolic <==> (!dominant_pair
            && (3 * neg_count >= n + 3 - n % 3 || !dominant_first)),
{
    let q = n / 3;
    vstd::arithmetic::div_mod::lemma_fundamental_div_mod(n as int, 3);
    assert(n + 3 - n % 3 == 3 * (q + 1));
}

} // verus!
