//! The production-mix engine of a turn-based world simulation.
//!
//! The processes that produce one output compete for the demand for it. Once
//! a turn, [`production::processes::update_mixes`] moves the share of every
//! process towards what its cost earns it: processes that consume what is
//! scarce lose share, banned processes are driven out, promoted ones are
//! favoured, and the priority of the turn weighs in. The shares of the
//! processes of an output always come to one, and no process is given more
//! than its limit.
//!
//! All quantities are whole numbers of millionths (see [`units`]), so that
//! every result is exact and is the same on every machine.
//!
//! - [`kinds`]: the closed sets of resources, byproducts, feedstocks and
//!   outputs, and the maps over them.
//! - [`production::processes`]: the processes and the update of their mix.
//! - [`production::planner`]: cost, fitness, and the new shares of a group.
//! - [`production::apportion`]: sharing a budget by weight under caps.
//! - [`production::laws`]: what holds of every update.
//! - [`events::vars`]: the variables that events name.

pub mod events;
pub mod kinds;
pub mod production;
pub mod units;
