pub mod text;
pub mod number;
pub mod json;
pub mod resolver;
pub mod schema;
pub mod operators;
pub mod error;
pub mod expression;
pub mod expression_laws;
pub mod timeout;
pub mod trace;
pub mod evaluator;
pub mod call_rule_guard;
pub mod registry;
pub mod parser;
pub mod auth;
pub mod webhook;
pub mod config;
pub mod rate_limit;
pub mod server;
pub mod suite;
pub mod registry_laws;
pub mod evaluator_laws;
