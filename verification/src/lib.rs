pub mod disk;
pub mod health;
pub mod load;
pub mod monitor;
pub mod network;
pub mod notify;
pub mod text;
