pub mod flow_graph;
pub mod help_bar;
pub mod log_viewer;
pub mod task_list;



pub use log_viewer::LogViewer;

