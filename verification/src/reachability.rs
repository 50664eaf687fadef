//! What a scope hands to the tracker of its pointstamps, and what the tracker tells of a node.

use vstd::prelude::*;

use crate::frontier::{Antichain, MutableAntichain};
use crate::location::{Source, Target};
use crate::order::{PartialOrder, Timestamp};

verus! {

/// What is tracked at a port.
pub struct PortInfo<T: Timestamp> {
    /// Times of events at the port itself.
    pub pointstamps: MutableAntichain<T>,
    /// Times that events elsewhere may bring to the port.
    pub implications: MutableAntichain<T>,
}

/// What is tracked at the ports of a node.
pub struct PerOperator<T: Timestamp> {
    /// The inputs.
    pub targets: Vec<PortInfo<T>>,
    /// The outputs.
    pub sources: Vec<PortInfo<T>>,
}

/// A node of the graph to track.
pub struct NodeShape<T: Timestamp> {
    /// Index of the node within its scope.
    pub index: usize,
    /// Number of inputs.
    pub inputs: usize,
    /// Number of outputs.
    pub outputs: usize,
    /// By input and output, what the paths between them do to times.
    pub summary: Vec<Vec<Antichain<T::Summary>>>,
}

/// The graph to track.
pub struct Topology<T: Timestamp> {
    /// Its nodes.
    pub nodes: Vec<NodeShape<T>>,
    /// Its edges.
    pub edges: Vec<(Source, Target)>,
}

/// The elements of each antichain of `v`.
pub open spec fn row_elements<S: PartialOrder>(v: Seq<Antichain<S>>) -> Seq<Seq<S>> {
    v.map_values(|a: Antichain<S>| a@)
}

/// The elements of each antichain of each row of `v`.
pub open spec fn summary_elements<S: PartialOrder>(v: Seq<Vec<Antichain<S>>>) -> Seq<Seq<Seq<S>>> {
    v.map_values(|r: Vec<Antichain<S>>| row_elements(r@))
}

/// As many rows as `rows`, each of as many empty antichains as `columns`.
pub open spec fn no_paths<S>(rows: nat, columns: nat) -> Seq<Seq<Seq<S>>> {
    Seq::new(rows, |i: int| Seq::new(columns, |j: int| Seq::<S>::empty()))
}

/// A copy of a row of antichains.
fn copy_row<S: PartialOrder>(row: &Vec<Antichain<S>>) -> (r: Vec<Antichain<S>>)
    ensures
        row_elements(r@) == row_elements(row@),
        r@.len() == row@.len(),
{
    let mut r: Vec<Antichain<S>> = Vec::new();
    let mut i: usize = 0;
    while i < row.len()
        invariant
            i <= row@.len(),
            r@.len() == i,
            forall|k: int| 0 <= k < i ==> (#[trigger] r@[k])@ == row@[k]@,
        decreases row@.len() - i,
    {
        r.push(row[i].duplicate());
        i += 1;
    }
    assert(row_elements(r@) =~= row_elements(row@));
    r
}

/// A copy of a summary.
pub fn copy_summary<S: PartialOrder>(summary: &Vec<Vec<Antichain<S>>>) -> (r: Vec<Vec<Antichain<S>>>)
    ensures
        summary_elements(r@) == summary_elements(summary@),
        r@.len() == summary@.len(),
        forall|k: int| 0 <= k < r@.len() ==> (#[trigger] r@[k])@.len() == summary@[k]@.len(),
{
    let mut r: Vec<Vec<Antichain<S>>> = Vec::new();
    let mut i: usize = 0;
    while i < summary.len()
        invariant
            i <= summary@.len(),
            r@.len() == i,
            forall|k: int|
                0 <= k < i ==> row_elements((#[trigger] r@[k])@) == row_elements(summary@[k]@),
            forall|k: int| 0 <= k < i ==> (#[trigger] r@[k])@.len() == summary@[k]@.len(),
        decreases summary@.len() - i,
    {
        r.push(copy_row(&summary[i]));
        i += 1;
    }
    assert(summary_elements(r@) =~= summary_elements(summary@));
    r
}

/// As many rows as `rows`, each of as many empty antichains as `columns`.
pub fn empty_summary<S: PartialOrder>(rows: usize, columns: usize) -> (r: Vec<Vec<Antichain<S>>>)
    ensures
        summary_elements(r@) == no_paths::<S>(rows as nat, columns as nat),
        r@.len() == rows,
        forall|k: int| 0 <= k < rows ==> (#[trigger] r@[k])@.len() == columns,
{
    let mut r: Vec<Vec<Antichain<S>>> = Vec::new();
    let ghost blank = Seq::new(columns as nat, |j: int| Seq::<S>::empty());
    let mut i: usize = 0;
    while i < rows
        invariant
            i <= rows,
            r@.len() == i,
            blank == Seq::new(columns as nat, |j: int| Seq::<S>::empty()),
            forall|k: int| 0 <= k < i ==> row_elements((#[trigger] r@[k])@) == blank,
            forall|k: int| 0 <= k < i ==> (#[trigger] r@[k])@.len() == columns,
        decreases rows - i,
    {
        let mut row: Vec<Antichain<S>> = Vec::new();
        let mut j: usize = 0;
        while j < columns
            invariant
                j <= columns,
                row@.len() == j,
                forall|k: int| 0 <= k < j ==> (#[trigger] row@[k])@ == Seq::<S>::empty(),
            decreases columns - j,
        {
            row.push(Antichain::new());
            j += 1;
        }
        assert(row_elements(row@) =~= blank);
        r.push(row);
        i += 1;
    }
    assert(summary_elements(r@) =~= no_paths::<S>(rows as nat, columns as nat));
    r
}

/// Paths by input and output are what the antichains hold, and there may be none.
pub proof fn law_paths_held<S: PartialOrder>(
    v: Seq<Vec<Antichain<S>>>,
    rows: nat,
    columns: nat,
    i: int,
    o: int,
)
    ensures
        summary_elements(v).len() == v.len(),
        0 <= i < v.len() ==> summary_elements(v)[i].len() == v[i]@.len(),
        0 <= i < v.len() && 0 <= o < v[i]@.len() ==> summary_elements(v)[i][o] == v[i]@[o]@,
        no_paths::<S>(rows, columns).len() == rows,
        0 <= i < rows ==> no_paths::<S>(rows, columns)[i].len() == columns,
        0 <= i < rows && 0 <= o < columns ==> no_paths::<S>(rows, columns)[i][o].len() == 0,
{
}

} // verus!
