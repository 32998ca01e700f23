//! The rules of the Postgres store: paths, edits by line and by text, properties, sections,
//! links, searches, batches and accounts, as functions of what the database answered.

pub mod accounts;
pub mod bulk;
pub mod changes;
pub mod commits;
pub mod links;
pub mod moves;
pub mod property;
pub mod propertylaw;
pub mod ranges;
pub mod revert;
pub mod search;
pub mod sections;
pub mod sql;
pub mod store;
pub mod storelaw;
pub mod write;
