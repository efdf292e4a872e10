# kernel

The core of a small hobby operating-system kernel, verified with Verus:

- memory: a bitmap chunk allocator, free-list allocators, a user-space block
  allocator, a tiered region allocator and the kernel's memory manager;
- tasks: tasks and their manager (a generational arena), FIFO, round-robin
  and multi-level feedback queue schedulers behind a `Scheduler` trait whose
  factory the kernel picks at boot, the execution state of a context
  switch, a timer for sleeping futures;
- futures, IPC endpoints and the IPC manager, in-memory files, keyboard
  scan codes, ELF loading and the decoding of system calls.

`src/` is the library, verified by Verus: its functions carry contracts
that Verus proves. Where a trait is left to its users or to the hardware
layer (the architecture's relocations, the processor, the block provider,
input subscribers), its contract goes through a spec function that each
implementation defines. The scheduler factories return a boxed trait object,
of which Verus takes no contract. `tests/` exercises it. `app/` is the glue that Verus does not see:
the heap the hardware provides, console output, context switches, the
system-call entry point and the x86_64 relocations.
