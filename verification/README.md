# erasure-coding

Erasure coding of data into chunks, with contracts that Verus proves.

- `src/` is the library. `chunks` splits data into shards and codes them,
  `reconstruct` and `systematic` put the data together again, `round_trip` proves
  that what comes back is what was coded. `parallel` makes the shards on a thread
  pool. `segment`, `subshard_encoder` and `subshard_decoder` code segments of 4096
  bytes in batches; `selection` says which subshards are decoded together, and
  `selection_laws` which segments come out.
- `codec` and `parallel` hold what is trusted: the calls into `reed-solomon-simd`
  and `rayon`, with what is claimed of each.
- `tests/` runs the library.
- `app/` holds what surrounds it: the thread pool of the process and the types with
  their SCALE encoding.
