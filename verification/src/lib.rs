//! MPEG-1 and MPEG-2 video coding on plain values: bitstream syntax, the
//! arithmetic that turns it into coefficients, vectors and samples, and the
//! encoders that write it back.

// Bits, numbers and errors.
pub mod arith;
pub mod bits;
pub mod error;
pub mod vlc;

// Headers and extensions.
pub mod gop_header;
pub mod mpeg1_stream_writer;
pub mod picture_display_extension;
pub mod picture_header;
pub mod picture_spatial_scalable_extension;
pub mod picture_temporal_scalable_extension;
pub mod sequence_extension;
pub mod sequence_header;
pub mod slice_header;
pub mod stream_writer;

// The elements of a macroblock.
pub mod coded_block_pattern;
pub mod macroblock_modes;
pub mod macroblock_type;
pub mod mb_address_increment;
pub mod motion_vector;
pub mod mpeg1_motion_vector;

// Vectors.
pub mod motion_vector_selection;
pub mod mpeg1_reconstruct;
pub mod pmv;
pub mod slice_motion;

// Blocks.
pub mod block;
pub mod d_picture_laws;
pub mod dct_coeff;
pub mod dequantize;
pub mod mpeg1_block_decoder;
pub mod mpeg2_block_dc;
pub mod mpeg2_block_decoder;
pub mod mpeg2_dct_coeff;
pub mod mpeg2_dequantize;
pub mod mpeg2_inverse_scan;
pub mod mpeg2_macroblock_blocks;

// Pictures and frames.
pub mod frame_assembly;
pub mod header_laws;
pub mod inter_reconstruction;
pub mod picture;

// Decoders.
pub mod mpeg1_picture;
pub mod picture_reconstruction;
pub mod picture_slices;
pub mod slice_macroblock_walk;

// Encoders.
pub mod forward_quant;
pub mod macroblock_source;
pub mod motion_estimation;
pub mod mpeg1_encoder;
pub mod p_picture_encoder;

// What the pictures of an encoder look like, and what a decoder makes of them.
pub mod block_writes;
pub mod block_zero_runs;
pub mod coding_order;
pub mod encoded_bits;
pub mod encoder_choices;
pub mod mpeg1_b_round_trip;
pub mod mpeg1_coding_error;
pub mod mpeg1_inter_round_trip;
pub mod mpeg1_intra_round_trip;
pub mod mpeg1_p_round_trip;
pub mod mpeg1_sequence_round_trip;
pub mod mpeg1_stream_layout;
pub mod mpeg2_block_round_trip;
pub mod mpeg2_coding_error;
pub mod mpeg2_macroblock_round_trip;
pub mod mpeg2_p_macroblocks;
pub mod mpeg2_p_round_trip;
pub mod picture_round_trip;
pub mod predicted_samples;
pub mod quantisation_error;
pub mod skipped_macroblocks;
pub mod slice_laws;
pub mod slice_layout;
pub mod source_blocks;
pub mod start_codes;
pub mod zero_runs;
