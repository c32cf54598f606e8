//! A small query language for columnar files, compiled to DuckDB SQL.
pub mod calendar;
pub mod cloud;
pub mod commands;
pub mod compile;
pub mod completion;
pub mod drill;
pub mod editor;
pub mod explain;
pub mod figures;
pub mod filter;
pub mod filters;
pub mod glob;
pub mod grid;
pub mod history;
pub mod json;
pub mod lineage;
pub mod number;
pub mod output;
pub mod panel;
pub mod path;
pub mod plan;
pub mod profile;
pub mod screen;
pub mod session;
pub mod shell;
pub mod source;
pub mod sql;
pub mod stage;
pub mod text;
pub mod unnest;
pub mod value;
