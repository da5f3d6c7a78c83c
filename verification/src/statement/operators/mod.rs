pub mod negate;

pub use negate::Negate;
