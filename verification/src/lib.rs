pub mod equip;
pub mod libs;
pub mod penguin;
pub mod structs;
pub mod utils;
