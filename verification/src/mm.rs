pub mod address;
pub mod frame_allocator;
pub mod memory_area;
pub mod memory_set;
pub mod page_table;
pub mod phys_mem;
