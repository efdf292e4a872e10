use vstd::prelude::*;

pub mod bitmap_chunk_allocator;
pub mod bits;
pub mod chunk_allocator;
pub mod chunk_tracker;
pub mod cpu;
pub mod elf;
pub mod file_arena;
pub mod file_manager;
pub mod free_list_allocator;
pub mod future;
pub mod kernel_cell;
pub mod messaging;
pub mod once;
pub mod pipe;
pub mod circular_queue;
pub mod generic_arena;
pub mod growing_circular_queue;
pub mod ipc;
pub mod ipc_manager;
pub mod keyboard;
pub mod main_thread;
pub mod memory;
pub mod messages;
pub mod mlfq_scheduler;
pub mod random_service;
pub mod task;
pub mod task_fifo_queue;
pub mod task_manager;
pub mod task_queue;
pub mod task_scheduler;
pub mod task_scheduler_round_robin;
pub mod tiered_allocator;
pub mod ring;
pub mod scheduler;
pub mod state;
pub mod syscall;

verus! {


} // verus!
