pub mod example;
pub mod justification;
pub mod lemmas;
pub mod message;
pub mod senders_weight;
pub mod traits;
pub mod weight_unit;
