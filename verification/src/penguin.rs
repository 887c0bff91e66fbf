pub mod equip;
pub mod item;
pub mod item_slot;
pub mod penguin_attributes;
