use kernel::generic_arena::Handle;
use kernel::ipc_manager::{IpcError, IpcManager, IpcReceiveMessage};
use kernel::random_service::RandomGeneratorServer;
use kernel::syscall::{char_code, plan_syscall, spawn_code, IpcServerHandle, SyscallAction, SyscallNum, SPAWN_FAILED};

fn message(value: u32, future: u32) -> IpcReceiveMessage {
    IpcReceiveMessage { value, sender: Handle::new(1u8, 0u8), future: Handle::new(future, 0u32) }
}

#[test]
fn syscall_numbers_follow_their_order() {
    assert_eq!(SyscallNum::from_number(0), Some(SyscallNum::Print));
    assert_eq!(SyscallNum::from_number(7), Some(SyscallNum::Alloc));
    assert_eq!(SyscallNum::from_number(12), Some(SyscallNum::IpcSend));
    assert_eq!(SyscallNum::from_number(13), None);
}

#[test]
fn unknown_syscall_returns_zero() {
    assert_eq!(plan_syscall(99, 1, 2, 3), SyscallAction::Return(0));
}

#[test]
fn syscall_arguments_are_decoded() {
    assert_eq!(plan_syscall(0, 0x1000, 5, 0), SyscallAction::Print { ptr: 0x1000, len: 5 });
    assert_eq!(plan_syscall(1, 250, 0, 0), SyscallAction::Sleep { ms: 250 });
    assert_eq!(plan_syscall(2, 0x4000, 0, 0), SyscallAction::Exec { entrypoint: 0x4000 });
    assert_eq!(plan_syscall(3, 0, 0, 0), SyscallAction::Yield);
    assert_eq!(plan_syscall(4, 0, 0, 0), SyscallAction::ReadChar);
    assert_eq!(plan_syscall(5, (7 << 32) | 2, 0, 0), SyscallAction::WaitFuture(Handle::new(7u32, 2u32)));
    assert_eq!(plan_syscall(6, (1 << 32) | 9, 0, 0), SyscallAction::IsFutureCompleted(Handle::new(1u32, 9u32)));
    assert_eq!(plan_syscall(9, 0, 0, 0), SyscallAction::TryReadChar);
    assert_eq!(plan_syscall(10, 0x77, 0, 0), SyscallAction::LoadElf { elf_ref: 0x77 });
    assert_eq!(plan_syscall(11, 0x88, 0, 0), SyscallAction::IpcFind { service_ref: 0x88 });
    assert_eq!(
        plan_syscall(12, 0x103, 0x201, 0x1_0000_0005),
        SyscallAction::IpcSend { server: IpcServerHandle { index: 3, generation: 1 }, value: 5 }
    );
}

#[test]
fn memory_syscalls_check_the_layout() {
    assert_eq!(plan_syscall(7, 64, 8, 0), SyscallAction::Alloc { size: 64, align: 8 });
    assert_eq!(plan_syscall(7, 64, 3, 0), SyscallAction::Return(0));
    assert_eq!(plan_syscall(8, 0x5000, 64, 8), SyscallAction::Dealloc { ptr: 0x5000, size: 64, align: 8 });
    assert_eq!(plan_syscall(8, 0x5000, 64, 0), SyscallAction::Return(0));
}

#[test]
fn syscall_results_are_encoded() {
    assert_eq!(char_code(Some('a')), 97);
    assert_eq!(char_code(None), 0);
    assert_eq!(spawn_code(Some(Handle::new(2u8, 1u8))), (2usize << 32) | 1);
    assert_eq!(spawn_code(None), SPAWN_FAILED as usize);
}

#[test]
fn services_are_registered_once_and_found() {
    let mut ipc = IpcManager::new();
    assert_eq!(ipc.find("RANDOM"), Err(IpcError::ServerNotFound));
    let h = ipc.register("RANDOM").unwrap();
    assert_eq!(h, IpcServerHandle { index: 0, generation: 0 });
    assert_eq!(ipc.register("RANDOM"), Err(IpcError::ServerCannotBeAdded));
    let g = ipc.register("FS").unwrap();
    assert_eq!(g, IpcServerHandle { index: 1, generation: 0 });
    assert_eq!(ipc.find("RANDOM"), Ok(h));
    assert_eq!(ipc.find("FS"), Ok(g));
}

#[test]
fn messages_wait_in_the_mailbox_in_order() {
    let mut ipc = IpcManager::new();
    let h = ipc.register("S").unwrap();
    assert_eq!(ipc.send(h, message(1, 10)), None);
    assert_eq!(ipc.send(h, message(2, 11)), None);
    assert_eq!(ipc.receive(h), Some(message(1, 10)));
    assert_eq!(ipc.receive(h), Some(message(2, 11)));
    assert_eq!(ipc.receive(h), None);
}

#[test]
fn waiting_server_gets_the_message_directly() {
    let mut ipc = IpcManager::new();
    let h = ipc.register("S").unwrap();
    let receive_future = Handle::new(5u32, 0u32);
    ipc.add_receiver(h, receive_future);
    assert_eq!(ipc.send(h, message(3, 12)), Some(receive_future));
    assert_eq!(ipc.receive(h), None);
    // The wait ended with that message: the next one is queued.
    assert_eq!(ipc.send(h, message(4, 13)), None);
    assert_eq!(ipc.receive(h), Some(message(4, 13)));
}

#[test]
fn random_server_answers_on_the_senders_future() {
    let mut server = RandomGeneratorServer::new(0xFACADA);
    let mut twin = RandomGeneratorServer::new(0xFACADA);
    let reply = server.answer(message(0, 42));
    assert_eq!(reply.future, Handle::new(42u32, 0u32));
    assert_eq!(reply.value, twin.next());
}
