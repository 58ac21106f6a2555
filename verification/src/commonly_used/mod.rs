pub mod history;
pub mod history_view;
pub mod quorum_set;
pub mod transport;
pub mod value;
