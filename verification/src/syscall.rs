use vstd::prelude::*;

use crate::task::{FutureHandle, TaskHandle};

verus! {

/// What a system call that starts a task returns when the task could not
/// be scheduled.
pub const SPAWN_FAILED: u64 = 0xffff_ffff_ffff_ffff;

/// A task handle as a system call returns it: the index in the upper 32
/// bits, the generation in the lower ones.
pub open spec fn spec_encode_task_handle(handle: TaskHandle) -> int {
    handle.index * 0x1_0000_0000 + handle.generation
}

/// Encodes a task handle for a system call's result.
pub fn encode_task_handle(handle: TaskHandle) -> (code: u64)
    ensures
        code == spec_encode_task_handle(handle),
{
    let index = handle.index as u64;
    let generation = handle.generation as u64;
    assert((index << 32u64) | generation == index * 0x1_0000_0000 + generation) by (bit_vector)
        requires
            index < 256,
            generation < 256,
    ;
    (index << 32u64) | generation
}

/// The future handle that a system call's argument names: the index in the
/// upper 32 bits, the generation in the lower ones.
pub fn decode_future_handle(arg: u64) -> (handle: FutureHandle)
    ensures
        handle.index == arg / 0x1_0000_0000,
        handle.generation == arg % 0x1_0000_0000,
{
    let index = (arg >> 32u64) as u32;
    let generation = arg as u32;
    assert(index == arg / 0x1_0000_0000) by (bit_vector)
        requires
            index == (arg >> 32u64) as u32,
    ;
    assert(generation == arg % 0x1_0000_0000) by (bit_vector)
        requires
            generation == arg as u32,
    ;
    FutureHandle { index, generation }
}

/// Whether `size` and `align` make a memory layout: the alignment is a
/// power of two and the size rounded up to it does not pass `isize::MAX`.
pub fn layout_is_valid(size: usize, align: usize) -> (valid: bool)
    ensures
        valid == (align > 0 && align & ((align - 1) as usize) == 0 && size + align - 1 <= isize::MAX),
{
    align > 0 && align & (align - 1) == 0 && align - 1 <= isize::MAX as usize && size <= isize::MAX as usize - (align - 1)
}

/// What a system call that asks a yes-or-no question returns.
pub fn bool_code(answer: bool) -> (code: usize)
    ensures
        code == if answer { 1usize } else { 0usize },
{
    if answer {
        1
    } else {
        0
    }
}

/// What a system call that reads a character returns: its code, or 0 when
/// there is none.
pub fn char_code(c: Option<char>) -> (code: usize)
    ensures
        code == match c {
            Some(ch) => ch as usize,
            None => 0usize,
        },
{
    match c {
        Some(ch) => ch as usize,
        None => 0,
    }
}

/// What a system call that starts a task returns: the task's handle, or
/// `SPAWN_FAILED` when it could not be scheduled.
pub fn spawn_code(handle: Option<TaskHandle>) -> (code: usize)
    ensures
        code == match handle {
            Some(h) => spec_encode_task_handle(h) as usize,
            None => SPAWN_FAILED as usize,
        },
{
    match handle {
        Some(h) => encode_task_handle(h) as usize,
        None => SPAWN_FAILED as usize,
    }
}

/// The system calls, numbered from 0 in this order.
#[derive(Copy, Clone, Debug, PartialEq, Eq, Structural)]
pub enum SyscallNum {
    Print,
    Sleep,
    Exec,
    Yield,
    ReadChar,
    WaitFuture,
    IsFutureCompleted,
    Alloc,
    Dealloc,
    TryReadChar,
    LoadElf,
    IpcFind,
    IpcSend,
}

/// The system call with number `num`, if any.
pub open spec fn spec_syscall_num(num: usize) -> Option<SyscallNum> {
    if num == 0 {
        Some(SyscallNum::Print)
    } else if num == 1 {
        Some(SyscallNum::Sleep)
    } else if num == 2 {
        Some(SyscallNum::Exec)
    } else if num == 3 {
        Some(SyscallNum::Yield)
    } else if num == 4 {
        Some(SyscallNum::ReadChar)
    } else if num == 5 {
        Some(SyscallNum::WaitFuture)
    } else if num == 6 {
        Some(SyscallNum::IsFutureCompleted)
    } else if num == 7 {
        Some(SyscallNum::Alloc)
    } else if num == 8 {
        Some(SyscallNum::Dealloc)
    } else if num == 9 {
        Some(SyscallNum::TryReadChar)
    } else if num == 10 {
        Some(SyscallNum::LoadElf)
    } else if num == 11 {
        Some(SyscallNum::IpcFind)
    } else if num == 12 {
        Some(SyscallNum::IpcSend)
    } else {
        None
    }
}

impl SyscallNum {
    /// The system call with number `num`; `None` for an unknown number.
    pub fn from_number(num: usize) -> (call: Option<SyscallNum>)
        ensures
            call == spec_syscall_num(num),
    {
        match num {
            0 => Some(SyscallNum::Print),
            1 => Some(SyscallNum::Sleep),
            2 => Some(SyscallNum::Exec),
            3 => Some(SyscallNum::Yield),
            4 => Some(SyscallNum::ReadChar),
            5 => Some(SyscallNum::WaitFuture),
            6 => Some(SyscallNum::IsFutureCompleted),
            7 => Some(SyscallNum::Alloc),
            8 => Some(SyscallNum::Dealloc),
            9 => Some(SyscallNum::TryReadChar),
            10 => Some(SyscallNum::LoadElf),
            11 => Some(SyscallNum::IpcFind),
            12 => Some(SyscallNum::IpcSend),
            _ => None,
        }
    }
}

/// A server of the IPC manager: its slot and the slot's generation.
#[derive(Copy, Clone, Debug, PartialEq, Eq, Structural)]
pub struct IpcServerHandle {
    pub index: u8,
    pub generation: u8,
}

/// What the kernel does for a system call: the work it hands to the
/// processor, the memory or the scheduler, or the value it returns at once.
#[derive(Copy, Clone, Debug, PartialEq, Eq)]
pub enum SyscallAction {
    /// Prints the `len` bytes at `ptr`, then returns 0.
    Print { ptr: usize, len: usize },
    /// Waits `ms` milliseconds, then returns 0.
    Sleep { ms: u64 },
    /// Starts a task at `entrypoint`; returns its spawn code.
    Exec { entrypoint: usize },
    /// Gives the processor to another task, then returns 0.
    Yield,
    /// Returns a typed character, waiting for one when there is none.
    ReadChar,
    /// Waits for the future.
    WaitFuture(FutureHandle),
    /// Returns whether the future completed.
    IsFutureCompleted(FutureHandle),
    /// Allocates `size` bytes aligned to `align`; returns the address.
    Alloc { size: usize, align: usize },
    /// Frees the `size` bytes aligned to `align` at `ptr`, then returns 0.
    Dealloc { ptr: usize, size: usize, align: usize },
    /// Returns a typed character, or 0 when there is none.
    TryReadChar,
    /// Starts a task from the ELF file that `elf_ref` points to; returns
    /// its spawn code.
    LoadElf { elf_ref: usize },
    /// Looks up the service that `service_ref` points to.
    IpcFind { service_ref: usize },
    /// Sends `value` to `server` and waits for the reply.
    IpcSend { server: IpcServerHandle, value: u32 },
    /// Returns the value at once.
    Return(usize),
}

/// The action for system call `num` with its arguments. An unknown call, or
/// a memory call whose size and alignment make no layout, returns 0.
pub open spec fn spec_plan_syscall(num: usize, arg1: usize, arg2: usize, arg3: usize) -> SyscallAction {
    match spec_syscall_num(num) {
        None => SyscallAction::Return(0),
        Some(SyscallNum::Print) => SyscallAction::Print { ptr: arg1, len: arg2 },
        Some(SyscallNum::Sleep) => SyscallAction::Sleep { ms: arg1 as u64 },
        Some(SyscallNum::Exec) => SyscallAction::Exec { entrypoint: arg1 },
        Some(SyscallNum::Yield) => SyscallAction::Yield,
        Some(SyscallNum::ReadChar) => SyscallAction::ReadChar,
        Some(SyscallNum::WaitFuture) => SyscallAction::WaitFuture(
            FutureHandle { index: (arg1 as u64 / 0x1_0000_0000) as u32, generation: (arg1 as u64 % 0x1_0000_0000) as u32 },
        ),
        Some(SyscallNum::IsFutureCompleted) => SyscallAction::IsFutureCompleted(
            FutureHandle { index: (arg1 as u64 / 0x1_0000_0000) as u32, generation: (arg1 as u64 % 0x1_0000_0000) as u32 },
        ),
        Some(SyscallNum::Alloc) => if arg2 > 0 && arg2 & ((arg2 - 1) as usize) == 0 && arg1 + arg2 - 1 <= isize::MAX {
            SyscallAction::Alloc { size: arg1, align: arg2 }
        } else {
            SyscallAction::Return(0)
        },
        Some(SyscallNum::Dealloc) => if arg3 > 0 && arg3 & ((arg3 - 1) as usize) == 0 && arg2 + arg3 - 1 <= isize::MAX {
            SyscallAction::Dealloc { ptr: arg1, size: arg2, align: arg3 }
        } else {
            SyscallAction::Return(0)
        },
        Some(SyscallNum::TryReadChar) => SyscallAction::TryReadChar,
        Some(SyscallNum::LoadElf) => SyscallAction::LoadElf { elf_ref: arg1 },
        Some(SyscallNum::IpcFind) => SyscallAction::IpcFind { service_ref: arg1 },
        Some(SyscallNum::IpcSend) => SyscallAction::IpcSend {
            server: IpcServerHandle { index: arg1 as u8, generation: arg2 as u8 },
            value: arg3 as u32,
        },
    }
}

/// Decides what the kernel does for system call `num` with its arguments.
pub fn plan_syscall(num: usize, arg1: usize, arg2: usize, arg3: usize) -> (action: SyscallAction)
    ensures
        action == spec_plan_syscall(num, arg1, arg2, arg3),
{
    match SyscallNum::from_number(num) {
        None => SyscallAction::Return(0),
        Some(SyscallNum::Print) => SyscallAction::Print { ptr: arg1, len: arg2 },
        Some(SyscallNum::Sleep) => SyscallAction::Sleep { ms: arg1 as u64 },
        Some(SyscallNum::Exec) => SyscallAction::Exec { entrypoint: arg1 },
        Some(SyscallNum::Yield) => SyscallAction::Yield,
        Some(SyscallNum::ReadChar) => SyscallAction::ReadChar,
        Some(SyscallNum::WaitFuture) => SyscallAction::WaitFuture(decode_future_handle(arg1 as u64)),
        Some(SyscallNum::IsFutureCompleted) => SyscallAction::IsFutureCompleted(decode_future_handle(arg1 as u64)),
        Some(SyscallNum::Alloc) => if layout_is_valid(arg1, arg2) {
            SyscallAction::Alloc { size: arg1, align: arg2 }
        } else {
            SyscallAction::Return(0)
        },
        Some(SyscallNum::Dealloc) => if layout_is_valid(arg2, arg3) {
            SyscallAction::Dealloc { ptr: arg1, size: arg2, align: arg3 }
        } else {
            SyscallAction::Return(0)
        },
        Some(SyscallNum::TryReadChar) => SyscallAction::TryReadChar,
        Some(SyscallNum::LoadElf) => SyscallAction::LoadElf { elf_ref: arg1 },
        Some(SyscallNum::IpcFind) => SyscallAction::IpcFind { service_ref: arg1 },
        Some(SyscallNum::IpcSend) => SyscallAction::IpcSend {
            server: IpcServerHandle { index: arg1 as u8, generation: arg2 as u8 },
            value: arg3 as u32,
        },
    }
}

} // verus!
