//! FrameVault: arbitrary files as frames of black and white blocks, bound
//! together by Reed-Solomon codes.

pub mod constants;
pub mod bits;
pub mod frame;
pub mod raster;
pub mod chunks;
pub mod rs;
pub mod cells;
pub mod metadata;
pub mod window;
pub mod decode;
pub mod reassembly;
pub mod stream;
pub mod encode;
pub mod laws;
pub mod qr;
pub mod bignum;
pub mod binary;
pub mod double;
pub mod budget;
pub mod audio;
pub mod media;
