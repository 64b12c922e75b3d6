# crabmagick_core

An image processing core: decoding, cutting, resizing, rotating and encoding of pictures, with the
codecs that it is bundled with. The library under `src/` is verified with Verus; every function has
a contract, and what the library promises as a whole is stated in public proof functions.

## Layout

- `src/request.rs`, `src/processor.rs`, `src/text.rs`: requests, encoder options, errors, and the
  steps of processing one image.
- `src/pipeline/`: source formats, the decoders and encoders of outside crates, the image cache,
  cutting, rotating and resizing.
- `src/webp/`: the lossless WebP encoder, its container, and conversion of YUV planes.
- `src/vp8/`: the lossy WebP encoder.
- `src/jxl/`: parts of JPEG XL: coefficient decoding, rendering of groups and its stages, the block transform of
  the encoder, and lossless recoding of JPEG files.
- `src/jpeg/`, `src/jp2.rs`: JPEG color conversion, and the JPEG 2000 signature.
- `src/parallel.rs`: maps and folds over a thread pool.
- `tests/`: tests on concrete values.
- `app/`: files, the shared cache, rasterizers and floating-point kernels around the library.

Floating-point samples are carried through the library as their bits. Where arithmetic on them is
needed, a function takes it as a kernel: its contract says which values the kernel gets and where
what it returns is put.
