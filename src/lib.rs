//! A traversal engine for query-document syntax trees, with a tracker of
//! schema positions that follows the same enter/leave protocol.
pub mod ast;
pub mod type_info;
pub mod visitor;

pub use ast::{NodeKind, OperationType, QueryAstNode};
pub use type_info::TypeInfo;
pub use visitor::{visit, QueryVisitor, VisitorAction};
