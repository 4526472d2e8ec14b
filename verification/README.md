# frontier

The logic of the FrontierOS RISC-V kernel as a verified library: every function in
`src/` carries a `requires`/`ensures` contract that Verus proves.

- `bitmap`, `bits`: bit maps over bytes; bit fields of 64-bit words.
- `buffer`: byte buffers spread over pages and their byte iterator; ring buffers.
- `allocator`, `frame`: the page-range allocator of an address space and the
  physical frame allocator; frame trackers.
- `page_table`: Sv39 page table entries, mappers and three-level page tables.
- `area`, `space`: memory areas and address spaces (kernel space, user spaces,
  task stacks, trap contexts, user memory access).
- `loader`: loading an ELF program into a new user space.
- `pipe`, `sync`: the decisions of pipes, the console, mutexes, semaphores and
  condition variables.
- `board`, `sbi`, `timer`, `feature`, `context`, `batch`, `path`, `stack`,
  `configs`, `error`: the machine, its firmware calls, and small pieces of kernel
  bookkeeping.

`app/` runs the library on a host: it carries out the firmware calls and the
exit device, builds the kernel space and loads the programs named on its command
line. `tests/` holds the scenarios.
