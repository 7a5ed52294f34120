//! Link costs and routing policies.

use vstd::prelude::*;
use crate::topology::LinkCosts;
use crate::PeerId;

verus! {

/// Which route a next hop is chosen for.
#[derive(Debug, Clone, Copy, PartialEq, Eq, Structural)]
pub enum NextHopPolicy {
    /// Fewest hops; among routes of that length, the cheapest.
    LeastHop,
    /// Lowest total cost.
    LeastCost,
}

/// Tells what it costs to send from one peer to a neighbour of it.
///
/// Between `begin_update` and `end_update` the costs do not change:
/// `calculate_cost` answers from `cost`, which is a function of the
/// calculator's state. What the two markers may do to that state is the
/// implementation's to say, in `follows`. An implementation that is compiled
/// without being verified has to define the two spec functions too: `cost`
/// as what `calculate_cost` returns, `follows` as it pleases.
pub trait RouteCostCalculatorInterface {
    /// The cost of the link from `src` to `dst`.
    spec fn cost(&self, src: PeerId, dst: PeerId) -> i32;

    /// Reports the cost of the link from `src` to `dst`.
    fn calculate_cost(&self, src: PeerId, dst: PeerId) -> (c: i32)
        ensures
            c == self.cost(src, dst),
    ;

    /// Whether the costs changed since the tables were last built. Unless
    /// an implementation says otherwise, they did not.
    fn need_update(&self) -> (r: bool)
        default_ensures
            r == false,
    {
        false
    }

    /// Whether `begin_update` or `end_update` may leave the calculator as
    /// `self` when it found it as `before`.
    spec fn follows(&self, before: &Self) -> bool;

    /// Called before a rebuild of the route tables; the calculator may settle
    /// the costs that it reports during the rebuild.
    fn begin_update(&mut self)
        ensures
            final(self).follows(old(self)),
    ;

    /// Called after a rebuild of the route tables.
    fn end_update(&mut self)
        ensures
            final(self).follows(old(self)),
    ;
}

/// The calculator that is used unless another is installed: every link costs 1.
#[derive(Debug, Clone, Copy)]
pub struct DefaultRouteCostCalculator;

impl RouteCostCalculatorInterface for DefaultRouteCostCalculator {
    open spec fn cost(&self, src: PeerId, dst: PeerId) -> i32 {
        1
    }

    fn calculate_cost(&self, src: PeerId, dst: PeerId) -> (c: i32) {
        1
    }

    open spec fn follows(&self, before: &Self) -> bool {
        true
    }

    fn begin_update(&mut self) {
    }

    fn end_update(&mut self) {
    }
}

/// The costs that a calculator assigns.
pub open spec fn link_costs<C: RouteCostCalculatorInterface>(calc: &C) -> LinkCosts {
    |a: PeerId, b: PeerId| calc.cost(a, b) as int
}

} // verus!
