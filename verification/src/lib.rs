//! Balancing weighted items over groups with nothing but a budgeted
//! comparison oracle: the memory of comparisons, the rank of the groups and
//! the local search that moves items between them.
//!
//! - `mask`: item sets as bit masks
//! - `graph`: relations between masks and the bounded search through them
//! - `balancer`: the memory of comparisons and what follows from it
//! - `interactor`: the counted way to the oracle
//! - `groups`: what holds of groups and ranks
//! - `rank`: the first rank, and putting one group back in its place
//! - `action`: moving and exchanging items
//! - `search`: the whole run
//! - `weight`: why the findings of a memory fed with true answers are true
//! - `util`: the queue and the random number generator
//!
//! Nothing is known of what the oracle answers before it is asked, and
//! nothing of what the clock reads. The interactor keeps a record of the
//! comparisons sent and their answers, the timer a record of the readings.
//! A function that asks the oracle states what it does as a run: a function
//! of the memory, the groups, the rank, the budget and a record of answers.
//! For every record that continues the interactor's own, the run gives what
//! the function has returned and left behind. Where a function picks items
//! with the help of the order in which the memory lists its findings, the
//! run takes the items picked as given, and the contract says which items
//! they can be.

pub mod action;
pub mod balancer;
pub mod def;
pub mod graph;
pub mod groups;
pub mod interactor;
pub mod mask;
pub mod rank;
pub mod search;
pub mod util;
pub mod weight;
