pub mod model;
pub mod strs;
pub mod seqs;
pub mod lex;
pub mod rank;
pub mod index;
pub mod text;
pub mod query;
pub mod lines;
pub mod helpers;
pub mod split;
pub mod paths;
pub mod strset;
pub mod builder;
pub mod resolve;
pub mod dispatch;
pub mod namegraph;
pub mod tarjan;
pub mod plan_text;
pub mod refactor;
pub mod deps;
pub mod filter;
pub mod health;
pub mod ranking;
pub mod traversal;
pub mod items;
pub mod test_impact;
pub mod similar;
pub mod risk;
pub mod commands;
pub mod export;
pub mod ai;
pub mod textops;
pub mod mir;
pub mod laws;
pub mod project;
pub mod semantic;
pub mod facts;
pub mod web;
pub mod ask;
pub mod config;
pub mod retrieval;
pub mod repo_map;
