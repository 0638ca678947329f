pub mod app;
pub mod graph;
pub mod ui;
