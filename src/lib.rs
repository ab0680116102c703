pub mod json;
pub mod canonical;
pub mod value;
pub mod frame;
pub mod ast;
pub mod unify;
pub mod generic_query;
pub mod split_by;
pub mod query;
pub mod parser;
pub mod grammar;
pub mod source;
