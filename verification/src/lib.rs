//! Host blocks of an SSH client configuration: reading them into a table keyed
//! by alias, and listing the aliases that match substring patterns.

pub mod text;
pub mod order;
pub mod entry;
pub mod table;
pub mod parser;
pub mod matcher;
