# openion

The core of a small operating-system kernel, written in Verus: every
function in `src/` carries a contract that Verus proves.

- `src/` — the verified library: the RAM file system and its mount table,
  the exFAT reader, the device-tree walker, the driver registry, the
  scheduler with its wait queues, semaphores, events and per-CPU data, the
  async executor, the frame and slab allocators, the ELF loader (its plan and the copy of
  its segments into a memory window),
  the system-call dispatcher, the hypervisor's VM table, the interrupt
  table and the shell's parsing, line editing and file-name completion.
- `tests/` — tests of the library on concrete values.
- `app/` — the parts that touch hardware and global state: the locked
  kernel singleton and boot sequence, the TLSF heap (`rlsf`), the console,
  the driver objects, the UDP stack (`smoltcp`), the flag types
  (`bitflags`) and the shell's command loop.

Laws that relate several operations are public proof functions, such as
`fs::lemma_create_then_lookup`, `fs::lemma_write_then_read`,
`fs::mount::lemma_mount_then_unmount`, `hv::lemma_create_then_find`,
`driver::manager::lemma_register_then_find`,
`mm::frame::lemma_allocate_then_free` and `shell::lemma_push_then_pop`.

Traits that drivers and hosts implement (`BlockDev`, `ProbeHost`,
`IrqDispatch`, `ServiceStarter`, `DeviceConfig`, `GpioController`) carry
spec functions with defaults that state nothing. An implementation that
describes itself through them, for example a block device that states its
sector contents and that its reads succeed, gets exact contracts from the
functions that use it. Plain Rust implementations keep the defaults.
