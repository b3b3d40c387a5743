# preon

The core of a small AArch64 microkernel, written in Verus: the register
decoders, address arithmetic, page-table descriptors and walks, the physical
memory allocators and the bring-up decisions, each with a contract that
Verus proves.

## Layout

- `src/arch/` — the ISA as types: addresses and translation levels, ESR/SPSR
  decoding, exception classes and fault status codes.
- `src/builtin/` — MMIO access modes and the PL011 UART register map.
- `src/dtb.rs` — device-tree queries through the `fdt` crate (three
  trusted wrappers, each stated over a named result) and the decoding of
  property values; `src/dtb_format.rs` — the blob shape under which those
  queries cannot panic, with a verified checker.
- `src/cpu/` — CPU identities, the PSCI client's request/response logic, and
  the SMP bring-up state machine.
- `src/exceptions/` — the saved trap frame, synchronous-exception routing and
  page-fault classification.
- `src/mm/` — the memory manager:
  - `bootmem` — the boot-time interval allocator (free gaps, top-down carve);
  - `handoff` — moving every free boot-time frame into the buddy allocator;
  - `buddy` — the buddy page allocator over an abstract frame-state model;
  - `slab` — size classes and per-class free stacks;
  - `page_table`, `identity`, `kernel_map` — descriptors, the table pool with
    its walk, and the identity and kernel maps built with them;
  - `layout`, `attrs`, `tcr`, `types`, `ram`, `frame` — the address-space
    layout, MAIR/TCR values and the small types they are built from.
- `app/` — the hardware side: system registers, MMIO, locating the device-tree blob,
  the boot path, locks and the global allocator. It calls the library and is
  not verified.
- `tests/` — executable tests of the library.

## Checking

Every function in `src/` is verified with Verus, except the three
`external_body` wrappers in `src/dtb.rs` that call the `fdt` crate; their
contracts say only that their answers are the ones the named spec functions
stand for. The public proof functions (`lemma_*`) state the laws that
tie the operations together, such as freeing undoing an allocation in the
buddy allocator or a page-table write reading back.
