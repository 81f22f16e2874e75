# vid_fp

Finds videos that share footage, groups the ones that are copies of each other, and
decides which copies to keep. The library is written in Verus: what each function
returns is stated in its contract and proved.

## Layout

- `src/` is the verified library.
  - Fingerprints: `container` (what a header says), `media` (what is not a video),
    `demux` (walking through a file), `picture` and `profile` (from frames to hashes),
    `sampling` (when each hash was seen), `fingerprint`.
  - Matching: `hash_index` and `candidates` (which pairs are worth measuring),
    `evidence`, `matching`, `augment`, `witness`, `frames` and `corroborate` (which frame
    matches count), `overlap`, `compare` and `figures` (how much is shared, and where),
    `knobs` (what changing a setting does to the answer).
  - Grouping: `cliques`, `enumeration`, `clustering`.
  - Deciding and reporting: `fates`, `disposal`, `confirm`, `rows`, `document`,
    `report`, `errno`, `stats`.
  - Foundations: `quantity`, `big`, `bits`, `display`, `text`, `paths`, `ordering`,
    `seqs`, `sets`.
- `tests/` runs the library on concrete values.
- `app/` is the ordinary Rust around it: the disk, the terminal, threads, FFmpeg, JSON.

## What is trusted

Only the calls into other crates and into parts of the standard library that Verus has
no contract for: one CSV record (`rows`), the error numbers of the operating system
(`errno`) and the number of ones in a word (`bits`).

## Conventions

- Lengths of time and frame rates are exact fractions. Shares of a runtime are too.
- A figure that is not known is never reported as zero.
- A run that is asked to stop says so through a function it is handed, and its contract
  tells apart what holds then from what holds when it was left alone.
- Which of two copies is the better one is a ranking that the caller supplies. What
  follows from it is proved for every ranking.
