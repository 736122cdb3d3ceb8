//! Trusted wrappers around rustc_hash's `FxHashSet`, the hash sets the solver
//! uses for duplicate detection: one keyed by grid renderings, one by cell
//! labels.

use vstd::prelude::*;

verus! {

/// A set of grid renderings, backed by rustc_hash's `FxHashSet`.
#[verifier::external_body]
pub struct GridSet {
    inner: rustc_hash::FxHashSet<[u8; 36]>,
}

/// The mathematical contents of a `GridSet`.
pub uninterp spec fn grid_set_view(s: GridSet) -> Set<Seq<u8>>;

/// Relies on `HashSet::default` (under rustc_hash's `FxHashSet` alias): a
/// fresh set is empty.
#[verifier::external_body]
pub(crate) fn grid_set_new() -> (r: GridSet)
    ensures
        grid_set_view(r) == Set::<Seq<u8>>::empty(),
{
    GridSet { inner: rustc_hash::FxHashSet::default() }
}

/// Relies on `HashSet::insert`: afterwards the set holds the given value and
/// everything it held before.
#[verifier::external_body]
pub(crate) fn grid_set_insert(s: &mut GridSet, g: &[u8; 36])
    ensures
        grid_set_view(*final(s)) == grid_set_view(*old(s)).insert(g@),
{
    s.inner.insert(*g);
}

/// Relies on `HashSet::contains`: answers whether an equal value is held.
#[verifier::external_body]
pub(crate) fn grid_set_contains(s: &GridSet, g: &[u8; 36]) -> (r: bool)
    ensures
        r == grid_set_view(*s).contains(g@),
{
    s.inner.contains(g)
}

/// A set of cell labels, backed by rustc_hash's `FxHashSet`.
#[verifier::external_body]
pub struct LabelSet {
    inner: rustc_hash::FxHashSet<u8>,
}

/// The mathematical contents of a `LabelSet`.
pub uninterp spec fn label_set_view(s: LabelSet) -> Set<u8>;

/// Relies on `HashSet::default` (under rustc_hash's `FxHashSet` alias): a
/// fresh set is empty.
#[verifier::external_body]
pub(crate) fn label_set_new() -> (r: LabelSet)
    ensures
        label_set_view(r) == Set::<u8>::empty(),
{
    LabelSet { inner: rustc_hash::FxHashSet::default() }
}

/// Relies on `HashSet::insert`: afterwards the set holds the given value and
/// everything it held before.
#[verifier::external_body]
pub(crate) fn label_set_insert(s: &mut LabelSet, b: u8)
    ensures
        label_set_view(*final(s)) == label_set_view(*old(s)).insert(b),
{
    s.inner.insert(b);
}

/// Relies on `HashSet::contains`: answers whether an equal value is held.
#[verifier::external_body]
pub(crate) fn label_set_contains(s: &LabelSet, b: u8) -> (r: bool)
    ensures
        r == label_set_view(*s).contains(b),
{
    s.inner.contains(&b)
}

} // verus!
