//! A dependency-graph engine that puts the topics of a document in order.
//!
//! Topics declare which topics they come after and before. The engine loads
//! them on demand into a [`graph::Graph`], links them while dropping edges
//! that would close a cycle on the path being explored, removes edges that a
//! longer path already implies, weighs every branch, and lists the topics so
//! that each one follows the topics that need it.
//!
//! The parts, in the order in which a run uses them:
//!
//! * [`node`], [`identity`] and [`graph`]: the nodes and the registry that
//!   owns them;
//! * [`loader`] and [`dag`]: nodes on demand, and edges from what the
//!   topics declare; [`ranks`] says that nothing declared is dropped where
//!   there is no cycle; [`builder`] holds the two passes that build with
//!   both paths kept along the way, and [`plan`] says on plain values
//!   what they make;
//! * [`reducer`], [`cost`], [`order`] and [`branches`]: implied edges taken
//!   out, branches weighed and put in order;
//! * [`pipeline`]: the four steps above in one;
//! * [`sequencer`], with what holds of it in [`walk`]: the list of topics;
//! * [`merger`]: the list when some topics have deadlines;
//! * [`headings`] and [`outline`]: the outline of the listed document;
//! * [`topic`], [`task`] and [`yaml`]: what nodes carry, and how a node is
//!   made from a record.

pub mod counting;
pub mod text;
pub mod paths;

pub mod node;
pub mod identity;
pub mod graph;
pub mod branch;

pub mod loader;
pub mod plan;
pub mod builder;
pub mod ranks;
pub mod dag;
pub mod reducer;
pub mod cost;
pub mod order;
pub mod branches;
pub mod pipeline;

pub mod sequencer;
pub mod walk;
pub mod merger;

pub mod headings;
pub mod outline;

pub mod options;
pub mod dates;
pub mod titles;
pub mod topic;
pub mod task;
pub mod yaml;
