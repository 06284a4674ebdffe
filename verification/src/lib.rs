//! Verified logic of three course projects: an analytics engine with a query language
//! (datasets, filters, grouping, aggregation, and the parser of the query strings), the
//! decisions of a chat service, and the evaluation and search steps of a tic-tac-toe agent.

pub mod analytics;
pub mod chatbot;
pub mod dataset;
pub mod query;
pub mod query_parser;
pub mod server;
pub mod tic_tac_toe;
mod text;
