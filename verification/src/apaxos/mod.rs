pub mod greater_equal;
pub mod ptime;
pub mod greater_equal_map;
pub mod errors;
pub mod history;
pub mod branch;
pub mod decided;
pub mod history_view;
pub mod focal_history;
pub mod acceptor;
pub mod id_set;
pub mod proposer;
