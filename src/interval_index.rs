use vstd::prelude::*;
use rust_lapper::{Interval, Lapper};
use vstd::multiset::Multiset;
use crate::by_start::{sort_by_start, starts_ascending};

verus! {

/// What an indexed span stands for: the definition of a symbol or a use of a
/// name, each by its arena index.
#[derive(Clone, Copy, Debug, PartialEq, Eq, Hash, Structural)]
pub enum IdentType {
    Binding(usize),
    Reference(usize),
}

/// The interval index: every identifier span of a compiled program, tagged
/// with what it stands for. It is built once after analysis and only read.
#[verifier::external_body]
pub struct IdentIndex {
    lapper: Lapper<usize, IdentType>,
}

/// The intervals held by an index, as `(start, stop, tag)` triples.
pub uninterp spec fn index_items(ix: IdentIndex) -> Multiset<(usize, usize, IdentType)>;

pub open spec fn covers_point(item: (usize, usize, IdentType), point: int) -> bool {
    item.0 <= point < item.1
}

/// Relies on `Lapper::new`: the lapper holds exactly the given intervals.
#[verifier::external_body]
fn lapper_build(items: Vec<(usize, usize, IdentType)>) -> (r: IdentIndex)
    ensures
        index_items(r) == items@.to_multiset(),
{
    IdentIndex {
        lapper: Lapper::new(items.into_iter().map(|(start, stop, val)| Interval { start, stop, val }).collect()),
    }
}

/// Relies on `Lapper::find`: it yields every held interval that overlaps
/// `[point, point + 1)`, that is whose start is at most `point` and whose stop
/// lies past it, each as often as it is held.
#[verifier::external_body]
fn lapper_find(ix: &IdentIndex, point: usize) -> (r: Vec<(usize, usize, IdentType)>)
    requires
        point < usize::MAX,
    ensures
        forall|t: (usize, usize, IdentType)|
            #[trigger] r@.to_multiset().count(t) == if covers_point(t, point as int) {
                index_items(*ix).count(t)
            } else {
                0
            },
{
    ix.lapper.find(point, point + 1).map(|iv| (iv.start, iv.stop, iv.val)).collect()
}

impl IdentIndex {
    /// Builds the index over the given `(start, stop, tag)` triples.
    pub fn build(items: Vec<(usize, usize, IdentType)>) -> (r: IdentIndex)
        ensures
            index_items(r) == items@.to_multiset(),
    {
        lapper_build(items)
    }

    /// Every held interval that contains `point`, smallest start first.
    pub fn query(&self, point: usize) -> (r: Vec<(usize, usize, IdentType)>)
        ensures
            starts_ascending(r@),
            forall|t: (usize, usize, IdentType)|
                #[trigger] r@.to_multiset().count(t) == if covers_point(t, point as int) {
                    index_items(*self).count(t)
                } else {
                    0
                },
    {
        if point == usize::MAX {
            let r: Vec<(usize, usize, IdentType)> = Vec::new();
            assert(r@.to_multiset() =~= Multiset::empty()) by {
                broadcast use vstd::seq_lib::group_to_multiset_ensures;
            }
            return r;
        }
        let hits = lapper_find(self, point);
        sort_by_start(&hits)
    }
}

} // verus!
