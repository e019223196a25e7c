# mlkem_selkie

A module-lattice key encapsulation mechanism, verified with Verus.

- `src/algebraic/` is the arithmetic: the field, the two rings with the
  transform between them, vectors and matrices, and their laws.
- `src/encoding/` packs and compresses ring elements.
- `src/functions.rs` and `src/sampling/` are the symmetric primitives and the
  samplers that read them.
- `src/PKE/` is the public-key encryption scheme: `scheme.rs` says what it
  computes, and `laws.rs` when decryption recovers the message.
- `src/kem/` is the key encapsulation mechanism, with its laws.
- `src/drbg/` is a deterministic random bit generator.
- `src/tools/` decides what the performance tools run.
- `app/` is what is left for ordinary Rust: fatal errors, the traits of other
  crates, and processes.

Values that hold secrets are overwritten with zeros when they are dropped.

Every contract is stated over residues and lists of bytes. A ring element has
the list of its 256 residues as its view; a contract about a representative
speaks of `rep()` and `bounded(..)`.
