//! Logical query-planning core of a columnar data engine.
//!
//! A relational query is held as two arenas: one of logical-plan operators
//! and one of scalar/aggregate expressions, both referring to their children
//! through opaque node handles.  On top of that representation the crate
//! offers explicit-stack tree iterators, schema resolution, a fluent plan
//! builder, a scan-projection aggregation pass, and the projection-pushdown
//! optimizer that rewrites every scan to read only the columns its consumers
//! demand.

pub mod aexpr;
pub mod agg_scan;
pub mod alp;
pub mod arena;
pub mod builder;
pub mod chunked;
pub mod error;
pub mod expr;
pub mod infer;
pub mod iterator;
pub mod names;
pub mod pushdown;
pub mod schema;

pub use arena::Arena;
pub use arena::Node;
pub use error::PlanError;
pub use schema::DataType;
pub use schema::Field;
pub use schema::Schema;
