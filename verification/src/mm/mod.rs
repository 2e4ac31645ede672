//! Memory management: addresses, physical memory and its frames, page
//! tables and address spaces.
pub mod address;
pub mod frame_allocator;
pub mod image;
pub mod map_area;
pub mod memory;
pub mod memory_set;
pub mod page_table;
pub mod space;
