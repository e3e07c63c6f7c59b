pub mod display;
pub mod env;
pub mod keyword;
pub mod laws;
pub mod list;
pub mod namespace;
pub mod number;
pub mod ord;
pub mod ord_laws;
pub mod qualified_keyword;
pub mod qualified_symbol;
pub mod read;
pub mod rt;
pub mod symbol;
pub mod text;
pub mod unqualified_keyword;
pub mod unqualified_symbol;
pub mod utils;
pub mod value;
pub mod value_map;
pub mod value_set;
pub mod var;
pub mod vector;
