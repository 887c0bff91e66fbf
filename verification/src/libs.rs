pub mod customize;
pub mod endpoint;
pub mod equippable_minter;
pub mod equippable_uris;
pub mod parser;
pub mod storage;
pub mod url_builder;
