# Data Matrix (ECC 200), verified

A library that reads Data Matrix symbols from their modules and writes
messages of data and control segments (data, ECI, FNC1, Reader Programming)
into symbols, with its behaviour stated in contracts and proved by Verus.

Layout:

- `src/symbol_size.rs`: the symbol sizes and their table (rows, columns, data
  regions, codewords, error correction blocks); first-fit size selection.
- `src/errorcode/`: arithmetic in GF(256), Reed-Solomon error correction
  codewords (interleaved blocks) and the syndrome-based decoder.
- `src/encodation/`, `src/data.rs`: control codewords, ECI assignment numbers,
  the segment encoder (ASCII encodation with digit pairs and upper shift) and
  padding; Latin-1 helpers; the building blocks of the C40 (values of a
  byte, value triples), EDIFACT (groups of four values) and Base256 (length
  field, randomization) encodations, with their buffers held in
  `arrayvec::ArrayVec`.
- `src/decodation/`: decoding of the data codewords in all six encodation
  modes, ECI spans, macros, the FNC1 position and the transmission format.
- `src/placement/`: the mapping matrix, the placement walk of the codewords
  (stated as a spec function), its bitmap with finder and alignment
  patterns, reading a bitmap back, the outline path of the dark modules.
- `src/gpui.rs`: data prepared for rendering (dark runs, quiet zone, colours).
- `src/lib.rs`: `DataMatrix`, the builder, decoding from modules in all four
  quarter turns and reflectance reversal.
- `app/`: error messages (`Display`, `std::error::Error`), the floating point
  layout of a rendered symbol and SVG output.

Among the proved properties: decoding the data codewords of an encoded
message gives back its bytes, ECI spans and field separators; reading the
bitmap of a mapping matrix gives back its size and modules; quarter turns and
reflectance reversal compose; the placement walk is given as a spec
function, and writing codewords, reading them and drawing the bitmap of a
symbol are stated over it; pixels that show a clean symbol in any of the
eight orientations pass reading and error correction, and unturned ones
decode to the data its modules hold; the bitmap has the finder pattern;
the ECI assignment number read back is the one
written; C40 values, EDIFACT groups and Base256 fields decode to what was
encoded; the outline graph has an edge exactly where a dark module borders a
light one or the outside.
