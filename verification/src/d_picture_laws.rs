//! Which samples the macroblocks of a D-picture have a say in.

use crate::arith::blocks_of_16;
use crate::block_writes::lemma_plane_with_block;
use crate::dequantize::IntraDcPredictors;
use crate::frame_assembly::{
    component_extent, frame_with_block, in_block, locatable, placement_of,
    saturated_samples, FrameContents,
};
use crate::mpeg1_block_decoder::mpeg1_intra_at;
use crate::mpeg1_picture::{
    d_blocks_from, d_macroblock_at, d_slice, d_slice_from, d_start_at,
    lemma_d_macroblock_advances, Mpeg1PictureParams,
};
use crate::mpeg2_block_dc::ColourComponent;
use crate::picture::ChromaFormat;
use crate::predicted_samples::{in_macroblock, lemma_placed};
use crate::slice_header::SliceHeader;
use crate::slice_macroblock_walk::slice_ends;
use vstd::prelude::*;

verus! {

/// Whether two frames are of one shape and have the same sample in one place.
pub open spec fn same_there(
    a: FrameContents,
    b: FrameContents,
    k: ColourComponent,
    x: int,
    y: int,
) -> bool {
    &&& a.wf()
    &&& a.plane(k).has(x, y)
    &&& a.plane(k).at(x, y) == b.plane(k).at(x, y)
}

/// The blocks of a D-picture macroblock leave every sample of other macroblocks alone.
proof fn lemma_blocks_stay<F: Fn([[i32; 8]; 8]) -> [[i16; 8]; 8]>(
    s: Seq<bool>,
    at: int,
    i: int,
    params: Mpeg1PictureParams,
    scale: u8,
    predictors: IntraDcPredictors,
    address: int,
    frame: FrameContents,
    idct: F,
    k: ColourComponent,
    x: int,
    y: int,
)
    requires
        1 <= params.width,
        0 <= i,
        frame.wf(),
        frame.plane(k).has(x, y),
        locatable(address, blocks_of_16(params.width as int)),
        !in_macroblock(
            k,
            ChromaFormat::Yuv420,
            address % blocks_of_16(params.width as int),
            address / blocks_of_16(params.width as int),
            x,
            y,
        ),
    ensures
        d_blocks_from(
            s,
            at,
            i,
            params,
            scale,
            predictors,
            address,
            frame,
            idct,
        ).0 matches Ok(after) ==> same_there(after, frame, k, x, y),
    decreases 6 - i,
{
    if i < 6 {
        let w = blocks_of_16(params.width as int);
        let (block, p, last) = mpeg1_intra_at(
            s,
            at,
            i as u8,
            false,
            scale,
            params.intra_quant,
            predictors,
            address as i32,
            idct,
        );
        if let Ok(block) = block {
            let place = placement_of(i, ChromaFormat::Yuv420, address % w, address / w, false);
            let v = saturated_samples(block.f_pel);
            lemma_placed(i, ChromaFormat::Yuv420, address % w, address / w);
            lemma_plane_with_block(frame.plane(place.component), place, v);
            let next = frame_with_block(frame, place, v);
            assert(k == place.component ==> !in_block(place, x, y));
            assert(same_there(next, frame, k, x, y));
            lemma_blocks_stay(
                s,
                p,
                i + 1,
                params,
                scale,
                last,
                address,
                next,
                idct,
                k,
                x,
                y,
            );
        }
    }
}

/// A sample belongs to one macroblock.
proof fn lemma_one_macroblock(
    k: ColourComponent,
    address: int,
    mb_width: int,
    mb_col: int,
    mb_row: int,
    x: int,
    y: int,
)
    requires
        0 <= mb_col < mb_width,
        in_macroblock(k, ChromaFormat::Yuv420, mb_col, mb_row, x, y),
        address != mb_row * mb_width + mb_col,
    ensures
        !in_macroblock(
            k,
            ChromaFormat::Yuv420,
            address % mb_width,
            address / mb_width,
            x,
            y,
        ),
{
    vstd::arithmetic::div_mod::lemma_fundamental_div_mod(address, mb_width);
    let c = address % mb_width;
    let r = address / mb_width;
    let (w, h) = component_extent(k, ChromaFormat::Yuv420);
    if in_macroblock(k, ChromaFormat::Yuv420, c, r, x, y) {
        assert(c == mb_col) by (nonlinear_arith)
            requires
                c * w <= x < c * w + w,
                mb_col * w <= x < mb_col * w + w,
                w > 0,
        ;
        assert(r == mb_row) by (nonlinear_arith)
            requires
                r * h <= y < r * h + h,
                mb_row * h <= y < mb_row * h + h,
                h > 0,
        ;
        assert(mb_width * mb_row == mb_row * mb_width) by (nonlinear_arith);
    }
}

/// The macroblocks of a D-picture slice follow each other without a gap: where the ones
/// from `at` on are so many, they change the samples of as many macroblocks from
/// `address` on, and no others.
#[verifier::spinoff_prover]
pub proof fn law_d_macroblocks_follow_each_other<F: Fn([[i32; 8]; 8]) -> [[i16; 8]; 8]>(
    s: Seq<bool>,
    at: int,
    params: Mpeg1PictureParams,
    scale: u8,
    predictors: IntraDcPredictors,
    address: int,
    frame: FrameContents,
    count: int,
    idct: F,
    mb_col: int,
    mb_row: int,
    k: ColourComponent,
    x: int,
    y: int,
)
    requires
        1 <= params.width,
        frame.wf(),
        frame.plane(k).has(x, y),
        0 <= mb_col < blocks_of_16(params.width as int),
        in_macroblock(k, ChromaFormat::Yuv420, mb_col, mb_row, x, y),
    ensures
        d_slice_from(
            s,
            at,
            params,
            scale,
            predictors,
            address,
            frame,
            count,
            idct,
        ) matches Ok((after, total)) ==> {
            let place = mb_row * blocks_of_16(params.width as int) + mb_col;
            &&& total >= count
            &&& !(address <= place < address + (total - count)) ==> same_there(
                after,
                frame,
                k,
                x,
                y,
            )
        },
    decreases
            (if at < s.len() {
                s.len() - at
            } else {
                0
            }),
{
    lemma_d_macroblock_advances(s, at, params, scale, predictors, address, frame, idct);
    if !slice_ends(s, at) {
        let w = blocks_of_16(params.width as int);
        let place = mb_row * w + mb_col;
        let (m, p) = d_macroblock_at(s, at, params, scale, predictors, address, frame, idct);
        if let Ok((after, last)) = m {
            lemma_d_macroblock_keeps_shape(
                s,
                at,
                params,
                scale,
                predictors,
                address,
                frame,
                idct,
                k,
                x,
                y,
            );
            if address != place {
                lemma_one_macroblock(k, address, w, mb_col, mb_row, x, y);
                reveal(d_macroblock_at);
                lemma_blocks_stay(
                    s,
                    d_start_at(s, at).1,
                    0,
                    params,
                    scale,
                    predictors,
                    address,
                    frame,
                    idct,
                    k,
                    x,
                    y,
                );
            }
            law_d_macroblocks_follow_each_other(
                s,
                p,
                params,
                scale,
                last,
                address + 1,
                after,
                count + 1,
                idct,
                mb_col,
                mb_row,
                k,
                x,
                y,
            );
        }
    }
}

proof fn lemma_d_blocks_keep_shape<F: Fn([[i32; 8]; 8]) -> [[i16; 8]; 8]>(
    s: Seq<bool>,
    at: int,
    i: int,
    params: Mpeg1PictureParams,
    scale: u8,
    predictors: IntraDcPredictors,
    address: int,
    frame: FrameContents,
    idct: F,
    k: ColourComponent,
    x: int,
    y: int,
)
    requires
        0 <= i,
        frame.wf(),
        frame.plane(k).has(x, y),
    ensures
        d_blocks_from(
            s,
            at,
            i,
            params,
            scale,
            predictors,
            address,
            frame,
            idct,
        ).0 matches Ok(after) ==> after.wf() && after.plane(k).has(x, y),
    decreases 6 - i,
{
    if i < 6 {
        let w = blocks_of_16(params.width as int);
        let (block, p, last) = mpeg1_intra_at(
            s,
            at,
            i as u8,
            false,
            scale,
            params.intra_quant,
            predictors,
            address as i32,
            idct,
        );
        if let Ok(block) = block {
            let place = placement_of(i, ChromaFormat::Yuv420, address % w, address / w, false);
            let v = saturated_samples(block.f_pel);
            lemma_plane_with_block(frame.plane(place.component), place, v);
            lemma_d_blocks_keep_shape(
                s,
                p,
                i + 1,
                params,
                scale,
                last,
                address,
                frame_with_block(frame, place, v),
                idct,
                k,
                x,
                y,
            );
        }
    }
}

proof fn lemma_d_macroblock_keeps_shape<F: Fn([[i32; 8]; 8]) -> [[i16; 8]; 8]>(
    s: Seq<bool>,
    at: int,
    params: Mpeg1PictureParams,
    scale: u8,
    predictors: IntraDcPredictors,
    address: int,
    frame: FrameContents,
    idct: F,
    k: ColourComponent,
    x: int,
    y: int,
)
    requires
        frame.wf(),
        frame.plane(k).has(x, y),
    ensures
        d_macroblock_at(
            s,
            at,
            params,
            scale,
            predictors,
            address,
            frame,
            idct,
        ).0 matches Ok((after, last)) ==> {
            &&& after.wf()
            &&& after.plane(k).has(x, y)
            &&& locatable(address, blocks_of_16(params.width as int))
        },
{
    reveal(d_macroblock_at);
    lemma_d_blocks_keep_shape(
        s,
        d_start_at(s, at).1,
        0,
        params,
        scale,
        predictors,
        address,
        frame,
        idct,
        k,
        x,
        y,
    );
}

/// A D-picture slice starts at the left of the row that its header names: it changes as
/// many macroblocks from there on as it has, and no others.
pub proof fn law_d_slice_starts_its_row<F: Fn([[i32; 8]; 8]) -> [[i16; 8]; 8]>(
    buf: Seq<u8>,
    header: SliceHeader,
    params: Mpeg1PictureParams,
    frame: FrameContents,
    idct: F,
    mb_col: int,
    mb_row: int,
    k: ColourComponent,
    x: int,
    y: int,
)
    requires
        1 <= params.width,
        frame.wf(),
        frame.plane(k).has(x, y),
        0 <= mb_col < blocks_of_16(params.width as int),
        in_macroblock(k, ChromaFormat::Yuv420, mb_col, mb_row, x, y),
    ensures
        (d_slice(params, idct))(buf, header, frame) matches Ok((after, count)) ==> {
            let passed = (mb_row - (header.slice_vertical_position - 1)) * blocks_of_16(
                params.width as int,
            ) + mb_col;
            !(0 <= passed < count) ==> same_there(after, frame, k, x, y)
        },
{
    let w = blocks_of_16(params.width as int);
    let row = header.slice_vertical_position - 1;
    assert((mb_row - row) * w + mb_col == (mb_row * w + mb_col) - row * w) by (nonlinear_arith);
    law_d_macroblocks_follow_each_other(
        crate::bits::bits_of(buf),
        header.body_bit_position as int,
        params,
        header.quantiser_scale_code,
        IntraDcPredictors::spec_at_slice_start(),
        row * w,
        frame,
        0,
        idct,
        mb_col,
        mb_row,
        k,
        x,
        y,
    );
}

} // verus!
