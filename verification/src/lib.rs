//! Layout extraction for C record types.
//!
//! A tree of declarations, as a C front end reports it, is scanned for
//! struct, union and enum definitions. Each definition is stored once in a
//! [`registry::Registry`] under its canonical type name, together with every
//! source name it was met under. From the records whose names were asked
//! for, [`closure::dependency_order`] walks the field types and lists every
//! record they lead to, dependencies first. [`render`] turns a record into
//! one line of text, and [`report::extract`] goes the whole way.
//!
//! The modules, leaves first:
//! - [`text`] and [`names`]: the order on names, decimal numerals, and a set
//!   of names that is walked in ascending order;
//! - [`type_id`] and [`decl`]: the identity of a type, the declarations and
//!   types as plain values, and which declarations contribute a record;
//! - [`record`] and [`registry`]: records, their fields, and the store that
//!   holds one record per type;
//! - [`graph`], [`walk`] and [`closure`]: the dependencies among the
//!   records, the walk over them as a mathematical model with what is proved
//!   of it, and the walk itself;
//! - [`render`] and [`report`]: records as text, and the report.

pub mod closure;
pub mod decl;
pub mod graph;
pub mod names;
pub mod record;
pub mod registry;
pub mod render;
pub mod report;
pub mod text;
pub mod type_id;
pub mod walk;
