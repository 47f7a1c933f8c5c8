# FrameVault

Arbitrary files as video frames of black and white blocks, bound together by
Reed-Solomon codes, and back. The library is written in Verus: what its functions
return is stated in their contracts and proved.

- `src/` is the verified library.
  - `frame`, `bits`, `raster`: the layout of a frame, blocks as pixels and back.
  - `rs`, `chunks`, `cells`: Reed-Solomon coding, errors, erasures and gaps.
  - `stream`, `encode`: coding in batches, the plan of the frames, the frames.
  - `window`, `decode`: the sliding window over the ECC stream, the decoding session.
  - `reassembly`: a payload from collected frames, where no QR metadata was found.
  - `metadata`, `qr`: payload framing, digests, QR frames.
  - `budget`, `binary`, `bignum`: sizes written by hand, taken as the nearest floating
    point number.
  - `double`: whole numbers, their products and quotients in floating point.
  - `audio`, `media`: placement of side-channel bytes, picture planes.
  - `laws`: what holds of encoding and decoding together.
- `tests/` runs the library on values.
- `app/` is the command line program: files, JSON, libav.
