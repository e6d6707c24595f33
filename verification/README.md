# pmm2vmd

Reads the models of a Polygon Movie Maker project file (`.pmm`) as motions
and writes motions as Vocaloid Motion Data files (`.vmd`); also reads the
bones of a Vocaloid Pose Data file (`.vpd`). The library is verified with
Verus: every reader states, over a specification of the file format, what
it returns for every input. The readers of the formats' parts come in two
forms: `read_x` requires a well-formed input and returns the value, and
`try_read_x` takes any input and returns the value or, exactly when the
input is short or malformed, the error. Every writer
states the exact bytes it appends.

Binary32 values (positions, rotations, weights) are carried as their
IEEE-754 bit patterns, and interpolation control points as their coordinate
times 127, as the project file stores them.

Layout:

- `src/common.rs`: the byte cursor, little-endian words, runs of items, errors.
- `src/text.rs`: Windows-31J text (through the `encoding` crate) and text fields.
- `src/motion.rs`: motions and keyframes.
- `src/pmm.rs`: project files: headers, models, keyframe chains.
- `src/skipped_bytes.rs`: which bytes of a model the reader reads past, and
  the law that they do not change the model read.
- `src/vmd_writer.rs`: motion files.
- `src/vpd_reader.rs`: pose files (splitting, trimming, tokens).
- `app/`: the command that converts `crack.pmm` into `00.vmd`, `01.vmd`, ...,
  and the parsing of a pose file's decimal numbers.
