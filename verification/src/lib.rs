//! An MQTT 3.1.1 broker whose protocol logic is verified.
pub mod broker;
pub mod bytes;
pub mod client;
pub mod frame;
pub mod laws;
pub mod model;
pub mod order;
pub mod packet;
pub mod requests;
pub mod sweep;
pub mod sys;
pub mod text;
pub mod threaded;
pub mod topic;
pub mod views;
pub mod writer;
