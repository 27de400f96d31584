pub mod analyzer;
pub mod batch;
pub mod cycle;
pub mod detect;
pub mod graph;
pub mod live;
pub mod options;
pub mod order;
pub mod report;
pub mod text;
