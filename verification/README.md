# lantern_hal

The hardware abstraction layer of LanternOS, with its logic verified by Verus.

- `src/trap.rs`: `MessageTag` packing into one machine word and the `TrapFrame`
  accessors (`mr0..mr3`, tag, syscall number, raw save area).
- `src/riscv64_paging.rs`: Sv39 page tables over a model of physical memory
  (`PhysMemory`): `map`, `map_megapage`, `translate`, and the laws that a mapped
  address translates back to its page.
- `src/riscv64.rs`, `src/x86_64.rs`: each target's register conventions: the frame a
  trap handler sees, the registers written back after it, the initial frame of a new
  thread, the `satp` encoding, the IDT gate descriptor.
- `app/`: what is machine instructions: trap vectors, CSR and `lidt` writes, thread
  entry, copying built tables into physical memory.
