pub mod attribute_spec;
pub mod equippable_attributes;
pub mod equippable_nft_attributes;
pub mod image_to_render;
pub mod item;
pub mod penguin_attributes;
pub mod slot;
pub mod token;
pub mod utils;
