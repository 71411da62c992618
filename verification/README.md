# reikura

Tools and runtime pieces for a visual-novel engine's file formats, written in Verus.

- `src/util`: byte readers and writers, LZSS decompression, pixel blending, bit sets,
  registers, stacks and Shift-JIS text.
- `src/gdl`: scenario files (`.isf`): header, ciphers, the subroutine table, the bytecode
  parser with its call stacks, the filter-based deobfuscation of game files, and the
  instructions that only touch the machine's variables.
- `src/gfx`: rectangles, RGBA surfaces with copy, blend and scaled blits, the canvas of
  numbered images that the renderer shows, and how the screen fits a window.
- `src/tools`: the scenario assembler (parameters, labels, encoding, `.isf` images), the
  disassembler (bytecode back to assembly text, with the instruction names given by
  opcode), and the header of `SM2MPX10` archives.
- `app`: the command-line tools, the window renderer, and the memory-mapped save files.
  There is no archive unpacker among the tools: reading the entry tables of the archive
  formats is not part of this library, only writing the `SM2MPX10` header is.

Every function in `src` carries a contract that Verus proves; `tests` exercise the library
on concrete values.
