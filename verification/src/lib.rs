//! A sealed-bid double auction with one uniform clearing price.
//!
//! A round takes buyers and sellers, each with a limit price, a wanted quantity and balances
//! of coin and of energy, and settles them at a single price. The same input always gives
//! the same journal, and the round neither makes nor loses coin or energy.
//!
//! A round runs through five stages, one module each:
//!
//! - [`ranking`] splits the participants into the two sides and puts each side into its
//!   order of service;
//! - [`clearing`] finds the crossing price, where supply first covers demand, and from it
//!   the clearing price;
//! - [`allocation`] caps what each qualified participant can trade and hands out the traded
//!   total, the scarce side in full and the other in order of service;
//! - [`settlement`] turns the allocated quantities into balances;
//! - [`journal`] lays the balances out, buyers first, in the order of service.
//!
//! [`auction`] runs the stages in turn, [`admission`] tests an input before a round is run
//! on it, and [`laws`] states what holds of every round: conservation, balances that never
//! turn negative, the order of the journal, and that a round has one journal only.

pub mod admission;
pub mod allocation;
pub mod auction;
pub mod clearing;
pub mod journal;
pub mod laws;
pub mod participant;
pub mod ranking;
pub mod settlement;
pub mod sums;
