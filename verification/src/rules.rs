//! The rules a form carries, and what they say about a filled instance.
//!
//! A form is not only a list of questions: it is a small program. `relevant`
//! decides what is asked, `calculate` derives values from other answers,
//! `constraint` and `required` decide what counts as a valid answer. Those
//! expressions reference each other, so the order they run in is a
//! dependency graph, and getting that order wrong does not crash anything:
//! it just produces a different form than the one that was designed.

pub mod addresses;
pub mod binding;
pub mod checking;
pub mod declaring;
pub mod form;
pub mod forms;
pub mod judging;
pub mod laws;
pub mod live;
pub mod lookups;
pub mod mirroring;
pub mod modelling;
pub mod order;
pub mod paths;
pub mod reading;
pub mod settling;
pub mod tables;

pub use crate::rules::binding::{Binding, Violation, ViolationKind};
pub use crate::rules::checking::{Relevance, Rules};
pub use crate::rules::form::{from_xform, secondary_instances, Clock, Form};
pub use crate::rules::paths::referenced_paths;
