# turboselect

Selection of the `n`-th smallest element of a slice in the style of Floyd and Rivest's SELECT:
`select_nth_unstable`, `select_nth_unstable_by`, `select_nth_unstable_by_key` and
`select_nth_unstable_by_cached_key` reorder a slice so that the element at a given index is at its
sorted place, the elements before it are not greater and those after it not less.

The library in `src/` is verified with Verus. Its guarantees are stated for every strict weak
order that explains the answers of the comparison closure, so the code stays in bounds and
terminates for any closure.

- `order`, `perm`: orders explained by a closure, and rearrangements of ranges.
- `blocks`, `partition`: block partitioning around a pivot, and the partitions built on it.
- `network`, `zero_one`, `bitonic`, `sort`: sorting networks for up to 16 elements (proved with
  the 0-1 principle), and a bitonic merge that sorts longer ranges.
- `select`: pivot selection from a random sample and the selection loop.
- `permute`: applying a permutation of positions in place.
- `wyrand`, `bounded`, `rand`: the WyRand and PCG generators, with bounded draws.
- `lib.rs`: the public selection functions and the laws of a selection.

`app/` holds what computes with floating point (float draws, the hidden-shuffle sampler,
`libm` helpers), iterator adapters for the generators, and a printable copy of `Dbg`.
