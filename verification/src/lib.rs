//! Moe: the logic of CPU inference for sparse mixture-of-experts language
//! models, with every item proved against its contract.

pub mod accept;
pub mod args;
pub mod automaton;
pub mod bind;
pub mod bind_laws;
pub mod block_laws;
pub mod chat;
pub mod chat_block;
pub mod chat_eval;
pub mod chat_expr;
pub mod chat_laws;
pub mod chat_lex;
pub mod chat_tree;
pub mod choice_laws;
pub mod document;
pub mod draft;
pub mod emit;
pub mod eval;
pub mod fetch;
pub mod float;
pub mod float_laws;
pub mod front_laws;
pub mod gate;
pub mod generate;
pub mod gguf;
pub mod gguf_laws;
pub mod grammar;
pub mod guided;
pub mod heads;
pub mod http;
pub mod index;
pub mod json;
pub mod model;
pub mod names;
pub mod pack;
pub mod pack_laws;
pub mod parse;
pub mod phrase_laws;
pub mod picture_laws;
pub mod progress;
pub mod prompt;
pub mod quant;
pub mod quant_laws;
pub mod rank;
pub mod reply;
pub mod report;
pub mod request;
pub mod route;
pub mod route_laws;
pub mod run_laws;
pub mod sample;
pub mod schema;
pub mod serve_laws;
pub mod shape_laws;
pub mod slots;
pub mod spec;
pub mod spec_laws;
pub mod split_laws;
pub mod store;
pub mod store_laws;
pub mod svg;
pub mod text;
pub mod tokenizer;
pub mod tokenizer_laws;
pub mod trace;
pub mod units;
pub mod vocabulary;

pub use chat::Template;
pub use draft::Lookup;
pub use generate::{Outcome, Plan, Stop};
pub use gguf::Gguf;
pub use grammar::{Grammar, Guide};
pub use model::{Model, Pool, Routing, State, Stats};
pub use pack::{Hot, Prune};
pub use prompt::{ChatFormat, Prompting};
pub use quant::{Dt, QT};
pub use route::Counts;
pub use sample::{Rng, Sampler};
pub use spec::Spec;
pub use store::Store;
pub use tokenizer::Tokenizer;
pub use units::{human, peak_rss};
