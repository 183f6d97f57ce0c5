# bits

Bit-level operations over machine integers (`u8` to `u128`, `usize`, and the signed
`i8` to `i128`, `isize`) and over containers of them (slices, arrays, `Vec`, `Box`, `Cow`,
references, and `[bool]`), verified with Verus.

Every container is modelled as a `Seq<bool>` (`Bits::bit_seq`), lowest bit first; a
container of blocks holds the bits of its blocks one after another.

- `spec`: the models (`count_ones`, `and_not`, `lowest_one_only`, `flatten`, ...).
- `ops`: reading and setting bits, `count_1`/`count_0`, `rank_1`/`rank_0`, `select_1`,
  `any`, `excess_1`/`excess_0`.
- `block`: fixed-width blocks, the stream of the non-empty blocks of a container
  (`IntoBlocks`, `Blocks`, `BlockIter`).
- `word`: the `Word` trait (`lsb`, `msb`, `count_t0`, ...) and the word impls; the
  conversion from `u64` goes through `num::cast`.
- `varint`: reading (`varint`) and writing (`put_varint`) a run of bits as an integer.
- `not`: bitwise difference, in place (`NotAssign`) and lazily over block streams
  (`Not`, `BitwiseNot`, `Difference`).
- `wide`: `u128` and `usize` as blocks of bits.
- `signed`: the signed integers as blocks of bits, through their two's-complement bits.
- `arrays`: arrays of 1 to 4, 8, 16 and 32 words as blocks of bits.
- `laws`: properties that relate the operations to one another.
