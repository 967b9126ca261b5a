pub mod text;
pub mod tokenizer;
pub mod casting;
pub mod archetypes;
pub mod clock;
pub mod http;
pub mod planner;
pub mod model;
pub mod memory;
pub mod ec_key;
pub mod inversion;
pub mod bitmap;
pub mod graph;
pub mod terms;
pub mod bb25;
pub mod sparse;
pub mod skg;
pub mod pali;
pub mod agent;
pub mod predicate;
pub mod repl;
pub mod prime_tree;
pub mod tag_index;
pub mod wal;
pub mod query;
pub mod transform;
pub mod identity;
pub mod sql;
