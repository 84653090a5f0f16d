pub mod lowering;
pub mod collections;
pub mod reorder_statements;
pub mod text;
pub mod felt;
pub mod test_collector;
pub mod test_runner;
pub mod casm_generator;
pub mod cheatcodes;
pub mod input_path;
