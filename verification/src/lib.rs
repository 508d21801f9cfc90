pub mod browse;
pub mod display;
pub mod mailbox;
pub mod player;
pub mod register;
pub mod remote;
pub mod text;
