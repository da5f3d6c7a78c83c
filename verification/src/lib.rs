pub mod statement;
pub mod interpret;
