pub mod client;
pub mod lovelace;
pub mod protocol;
