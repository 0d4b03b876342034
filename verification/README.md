# solana_program_fingerprint

Bytecode similarity engine for Solana programs. It extracts SBF opcode
n-grams from the executable text section of ELF program binaries, computes
MinHash and SimHash fingerprints, compares and clusters programs, keeps a
catalog of fingerprints, and indexes the catalog for similarity search with
locality sensitive hashing.

The library under `src/` is verified with Verus: each public function states
in its contract what it returns, and the proof functions state the laws the
library keeps (register renaming does not change normalized bytecode, a
record stored in the catalog is the one found under its id, clusters are the
connected groups of linked programs and partition them, and more).

Scores are exact fractions (`ratio::Ratio`, and `ratio::WideRatio` for the
mean similarity of a cluster); the command line front end under
`app/` reads files and directories, turns thresholds given as decimals into
fractions, and renders scores as decimals for the report layouts of the
library.

Modules:

- `elf_loader`: the first allocated, executable `SHT_PROGBITS` section of an ELF image
- `opcode_ngram`: instruction tokens and packed n-gram keys
- `bytecode_normalize`: no-op stripping, wide-load collapsing, register remapping
- `minhash`, `simhash`, `digest`: the fingerprints and the SHA-256 feature hashes
- `fingerprint_db`: the catalog of stored fingerprints
- `lsh_index`: banded MinHash index
- `similarity_report`: comparison reports, tiers, batch comparison and their text layout
- `cluster`: union-find clustering by estimated similarity
- `paths`: file names and component equality of `/`-separated paths
- `text`, `ratio`: decimal and hexadecimal renderings, exact scores
