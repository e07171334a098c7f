//! Detection of validator identities that appear to be run by one operator.
//!
//! The crate correlates periodic snapshots of a gossip network with reference
//! data about staked validators. The analysis runs in four steps, each of
//! which is a module of its own:
//!
//! 1. [`registry`] joins the reference datasets into one record per staked
//!    identity.
//! 2. [`history`] folds the ordered snapshots into a compressed history per
//!    network address and marks the addresses whose identity changed.
//! 3. [`candidate`] keeps the marked addresses that hosted two or more
//!    distinct staked identities.
//! 4. [`cluster`] joins the candidates that share a staked identity into
//!    connected components ([`component`]) and merges each into one cluster.
//!
//! [`analysis`] runs the four steps in a row, and [`report`] puts the
//! clusters in the order in which they are written. [`names`] holds what all
//! of them use to search and deduplicate lists of strings.
//!
//! Two identities are linked only through a candidate address, never through
//! an address that hosted a single staked identity.
//!
//! Lists stand in for sets and maps throughout, each in the order in which
//! its items were first met, so that the same input always gives the same
//! output. Stakes are counted in lamports, and an amount in SOL is given as
//! whole SOL and the lamports left over: nothing is rounded.
//!
//! Every function is specified over mathematical views of its arguments
//! (strings as `Seq<char>`, vectors as `Seq`), and every contract is proved.

pub mod names;
pub mod registry;
pub mod history;
pub mod candidate;
pub mod component;
pub mod cluster;
pub mod analysis;
pub mod report;
