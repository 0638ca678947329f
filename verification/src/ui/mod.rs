pub mod editor;
pub mod file_tree;
pub mod splitter;
pub mod toolbar;
