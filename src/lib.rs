//! A schema catalog: databases, tables, columns, views and the objects that
//! views read from, changed one DDL statement at a time.
pub mod catalog;
pub mod laws;
pub mod session;
pub mod statement;
