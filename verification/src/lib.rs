pub mod hash_map;
pub mod hasher_trait;
pub mod queue;
pub mod singly_lined_list;
pub mod singly_linked_list;
pub mod stack;
