pub mod blocks;
pub mod expand;
pub mod id_based_vec;
pub mod marked_text;
pub mod parse_rules;
pub mod paths;
pub mod resources;
pub mod scan;
