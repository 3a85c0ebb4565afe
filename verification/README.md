# A verified core for a small RISC-V Sv48 kernel

The library in `src/` holds the decisions of a small RISC-V kernel that
boots under Limine, proved with Verus:

- `mem`: a free-list page allocator, a first-fit bitmap chunk allocator
  for the kernel heap, and the bump arena the kernel allocates from before
  its heap exists;
- `sv48`: Sv48 page-table entries, flags and a page-table root with map,
  unmap, translate, access, free, and reading tables in and out;
- `limine`, `config`, `riscv`: boot-time address conversions, memory-map
  filtering, request IDs and register layouts;
- `acpi`, `memory_image`: readers of the RSDP, XSDT, MADT, MCFG, SPCR and
  RHCT over an image of the memory that holds them;
- `sbi`: SBI requests and the decoding of the firmware's replies;
- `sync`, `data`: the sequential rules of the kernel's locks and the
  kernel's shared state;
- `startup`: building the page allocator, the heap and the BSS at boot;
- `print`, `symbols`: console byte streams and linker sections.

`tests/` exercises the library on concrete values. `app/` is the kernel
around it: the entry point, the Limine request records, the RISC-V
instructions (SBI calls, CSRs, TLB flushes), the atomic locks shared between
harts, the global allocator, and console output. The library's page
allocator, page-table store and heap bitmap keep their state in `Vec`s;
while the memory services are being built, the global allocator serves
them from an early arena set aside from usable memory, and afterwards from
the kernel heap, whose lock is separate from the page-table and
page-allocator locks.
