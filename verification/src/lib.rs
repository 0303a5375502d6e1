pub mod analyzer;
pub mod cli;
pub mod dispatch;
pub mod highlight;
pub mod indexer;
pub mod japanese;
pub mod matching;
pub mod meta;
pub mod order;
pub mod registry;
pub mod searcher;
pub mod text;
