pub mod assoc;
pub mod graph;
pub mod guarantees;
pub mod layout;
pub mod progress;
pub mod reach;
pub mod rewrite;
pub mod rules;
pub mod source;
pub mod text;
pub mod toml_tree;
pub mod walk;
