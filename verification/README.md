# mono_scanner

Reads a player's card collection, the card database and the inventory out of the
memory of a game that runs on a 64-bit Mono runtime.

- `src/` is the library. It works on a memory image (`memory::MonoReader`): a
  partial map from addresses to bytes. Every function states over that map what
  it returns, and Verus proves it.
  - `memory`, `strings`, `class`, `dictionary`: what stands in the image.
  - `heap`: walking the heap and keeping the first of the best finds.
  - `cards`, `printings`, `inventory`: the three things to read.
  - `text`, `regions`, `process`: what `vmmap` and `pgrep` print.
- `app/` finds the process, captures its memory and calls the library.
- `tests/` runs the library on images built by hand.

Address arithmetic is modulo 2^64. The progress of the vault is a floating-point
number; the library hands on its 64 bits.
