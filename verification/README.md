# fluosubtraction_rust

Fluorescence correction of cakes (2D azimuthally integrated diffraction
images) read from EDF files, and the command line program `cakefluosub`.

- `src/` is the verified library: the tokenizers of the `Bubble_pattern` and
  `Bubble_cake` header fields (`text`, `functions`), the row-major layout of a
  cake and the cell selections and counts that the correction uses (`grid`),
  and the decisions of the program (`program`). The cell functions are generic
  over the cell type; the values are `f64` in use.
- `app/` holds the program, the file I/O (EDF through `cryiorust`), the
  least-squares fit (`rmpfit`) and all floating-point arithmetic.
- `tests/` runs the library on concrete inputs.
