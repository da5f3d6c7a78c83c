pub mod model;
pub mod statement;
pub mod collection;
pub mod operator_binary;
pub mod operator_unary;
pub mod frame;
pub mod operators;
pub mod add;
pub mod perm;
pub mod complement;
pub mod combinations;

pub use statement::{Statement, Float, Integer, Boolean, Atom, Variable};
pub use collection::{Collection, Sequence, List, UList, Object};
pub use operator_binary::BinaryOperator;
pub use operator_unary::UnaryOperator;
pub use frame::Frame;
