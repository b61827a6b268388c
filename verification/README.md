# bzip2_pipeline

A parallel bzip2 pipeline. The input is cut into blocks, worker threads
compress or decompress each block with libbzip2, and the results are written
back in stream order however late each block comes back.

- `src/` is the verified library (Verus):
  - `block.rs`: a block of the stream and its result buffer;
  - `split.rs`: cutting the input into compression blocks (fixed size) and
    decompression blocks (one bzip2 stream each, found by its header), with
    the proofs that the cuts lose nothing and that cutting joined streams
    gives back each stream;
  - `reorder.rs`: the reorder buffer, keyed by block order, which keeps
    every block under its own order;
  - `stage.rs`: the streaming write stage and the proof that it hands out
    blocks in stream order for any arrival order;
  - `assemble.rs`: the collect-then-write variant (stable sort by order,
    then the results one after the other) and the proof that it writes the
    same bytes as the streaming stage;
  - `names.rs`: the names of the files written.
- `app/` runs it: threads, channels (crossbeam-channel), file I/O and the
  calls into libbzip2 (bzip2-sys).
