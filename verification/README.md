# oxideav_mpeg12video

MPEG-1 and MPEG-2 video coding in Rust, verified with Verus.

`src/` is the library. It reads and writes the syntax of both standards (headers,
slices, macroblocks, vectors, blocks), turns it into coefficients, vectors and
samples, decodes and encodes pictures, and orders the pictures of a sequence. Every
function states what it returns, and when it fails and how, for every input that its
`requires` admits. Most have none; where there is one, it says that a buffer or a
frame can be addressed, that a sum can be held, or that a macroblock has a column to
lie in.

The transforms are not part of it: where a block is transformed, the function takes
the transform as an argument, and its contract holds for whatever function that is.
`app/` has transforms in floating point.

Bits are read and written with `BitReader` and `BitWriter` of `oxideav-core`.
`src/bits.rs` states what is relied on of them.

Beyond the contracts, proof functions whose names start with `law_` state what holds
of several functions together. The chief ones are the round trips: decoding a picture
that was encoded gives back the frame that the encoder reconstructed
(`mpeg1_intra_round_trip.rs`, `mpeg1_p_round_trip.rs`, `mpeg1_b_round_trip.rs`,
`mpeg2_p_round_trip.rs`); a sequence is coded in an order in which every picture
follows the pictures that it is predicted from (`coding_order.rs`); and a decoder of
its pictures holds the anchors of the encoder (`mpeg1_sequence_round_trip.rs`). What
the bytes of a whole stream hold, piece by piece and start code by start code, is in
`mpeg1_stream_layout.rs`.
