//! What holds of the library as a whole.
pub mod bounds;
pub mod delivery;
pub mod format;
pub mod leaving;
pub mod packets;
pub mod pieces;
pub mod publishing;
pub mod qos;
pub mod queue;
pub mod returning;
pub mod rounds;
pub mod store;
pub mod subscriptions;
pub mod sys;
pub mod threaded;
pub mod topic;
pub mod wire;
