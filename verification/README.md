# disk_carver

A disk-image carving library with its command-line tool. It finds files in
raw (`.dd`, `.img`, …) and EnCase (`.E01`) images by their signatures,
rebuilds them from NTFS/FAT metadata where it can, recovers them with MD5 and
SHA-256 digests, and writes reports.

The library under `src/` is verified with Verus: every function carries a
contract, and the laws that relate functions are proof functions.

- `file_types` — the 30 supported types and their signatures.
- `simd_search` — exact substring search over bytes.
- `binary` — little-endian fields.
- `disk_reader` — the reader interface and its model (the image's bytes,
  which every successful read gives back), image metadata, choosing a reader
  from a file extension, copying out of a mapped image. The parsers state
  their results over that model.
- `e01` — evidence-file sections and chunks, logical reads with zlib.
- `fs_parser` — MBR, NTFS (boot sector, MFT records, runlists), FAT16/32
  (boot sector, allocation chains), cluster/offset conversions.
- `carver` — chunk planning, scanning a chunk for candidates, merging
  findings, counts, and the decisions of a recovery.
- `naming` — names of recovered files.
- `recovery` — block-by-block copies and their digests.
- `cli` — arguments and their interpretation, size and time text.

`app/` holds the program around it: argument parsing, opening files, the
worker threads, progress output, writing recovered files and reports.
`tests/` exercises the library on built images.
