//! The zero bits in written blocks.

use crate::bits::{lemma_value_bits_len, value_bits};
use crate::coded_block_pattern::{cbp_bits, TABLE_B9};
use crate::dct_coeff::{escape_level_bits, mpeg1_coeff_bits};
use crate::motion_vector::{
    component_bits, delta_codable, delta_code, delta_residual, lemma_delta_code, TABLE_B10,
};
use crate::mpeg1_block_decoder::{
    dc_component_of, first_level, intra_bits, mpeg1_levels, next_levels_bits, non_intra_bits,
};
use crate::mpeg1_encoder::{coded_blocks_bits, has_level, pattern_of, residual_bits};
use crate::mpeg2_block_dc::{
    bit_length, dc_bits, dc_row, diff_field, diff_size, lemma_bit_length, lemma_diff_field,
    DcComponent,
};
use crate::mpeg2_block_round_trip::{order_bits, order_fits, position_of};
use crate::mpeg2_dct_coeff::{
    coeff_bits, coeff_rows, eob_symbol_bits, row_codes, CoefficientPosition, TableSelection, ESCAPE_CODE,
};
use crate::zero_runs::{
    broken_up, lemma_field_broken_up, lemma_joined, lemma_loosened, lemma_low_field_broken_up,
    lemma_odd_field_broken_up, lemma_prefixed, lemma_suffixed,
};
use vstd::arithmetic::power2::{lemma2_to64, pow2};
use vstd::prelude::*;

verus! {

/// The codewords of Table B-14 are small numbers.
proof fn lemma_b14_small(i: int)
    requires
        0 <= i < 112,
    ensures
        ({
            let row = coeff_rows(TableSelection::TableZero)[i];
            &&& 1 <= row.0 < 64
            &&& 1 <= row.1 <= 16
            &&& row.1 > 12 ==> row.0 >= 16
            &&& row.1 < 6 ==> row.0 < pow2(row.1 as nat)
        }),
{
    lemma2_to64();
}

/// How many bits a small number has.
proof fn lemma_small_bit_length(v: int)
    requires
        1 <= v < 64,
    ensures
        1 <= bit_length(v) <= 6,
        v >= 16 ==> bit_length(v) >= 5,
{
    reveal_with_fuel(bit_length, 8);
}

proof fn lemma_b14_symbol(i: int, sign: bool)
    requires
        0 <= i < 112,
    ensures
        ({
            let row = coeff_rows(TableSelection::TableZero)[i];
            broken_up(value_bits(row.0 as int, row.1 as int).push(sign), 11, 6)
        }),
{
    let row = coeff_rows(TableSelection::TableZero)[i];
    let v = row.0 as int;
    let n = row.1 as int;
    lemma2_to64();
    lemma_b14_small(i);
    lemma_small_bit_length(v);
    assert(v < pow2(n as nat)) by {
        if n >= 6 {
            if n > 6 {
                vstd::arithmetic::power2::lemma_pow2_strictly_increases(6, n as nat);
            }
        }
    }
    lemma_field_broken_up(v, n);
    let code = value_bits(v, n);
    lemma_loosened(code, n - bit_length(v), bit_length(v) - 1, 11, 5);
    lemma_suffixed(code, 11, 5, seq![sign]);
    assert(code + seq![sign] =~= code.push(sign));
}

proof fn lemma_byte_bit_length(v: int)
    requires
        1 <= v < 256,
    ensures
        1 <= bit_length(v) <= 8,
        v >= 128 ==> bit_length(v) == 8,
{
    reveal_with_fuel(bit_length, 10);
}

proof fn lemma_byte_broken_up(v: int)
    requires
        1 <= v < 256,
    ensures
        broken_up(value_bits(v, 8), 7, 7),
        v >= 128 ==> broken_up(value_bits(v, 8), 0, 7),
{
    lemma2_to64();
    lemma_byte_bit_length(v);
    lemma_field_broken_up(v, 8);
    lemma_loosened(value_bits(v, 8), 8 - bit_length(v), bit_length(v) - 1, 7, 7);
    if v >= 128 {
        lemma_loosened(value_bits(v, 8), 8 - bit_length(v), bit_length(v) - 1, 0, 7);
    }
}

/// A symbol of an MPEG-1 block.
pub proof fn lemma_mpeg1_coeff_broken_up(position: CoefficientPosition, run: int, level: int)
    requires
        -255 <= level <= 255,
        level != 0,
    ensures
        broken_up(mpeg1_coeff_bits(position, run, level), 11, 7),
{
    let table = TableSelection::TableZero;
    let bits = mpeg1_coeff_bits(position, run, level);
    lemma2_to64();
    if exists|i: int| row_codes(table, position, run, level, i) {
        let i = choose|i: int| row_codes(table, position, run, level, i);
        lemma_b14_symbol(i, level < 0);
        lemma_loosened(bits, 11, 6, 11, 7);
    } else {
        let code = value_bits(ESCAPE_CODE as int, 6);
        let run_bits = value_bits(run, 6);
        lemma_value_bits_len(run, 6);
        lemma_small_bit_length(1);
        lemma_field_broken_up(1, 6);
        assert(bit_length(1) == 1) by {
            reveal_with_fuel(bit_length, 3);
        }
        lemma_suffixed(code, 5, 0, run_bits);
        let head = code + run_bits;
        let tail = escape_level_bits(level);
        if level >= 128 {
            let zeros = value_bits(0, 8);
            lemma_value_bits_len(0, 8);
            lemma_suffixed(head, 5, 6, zeros);
            lemma_byte_broken_up(level);
            lemma_joined(head + zeros, 5, 14, value_bits(level, 8), 0, 7);
            assert(head + zeros + value_bits(level, 8) =~= bits);
        } else if level > 0 {
            lemma_byte_broken_up(level);
            lemma_joined(head, 5, 6, tail, 7, 7);
        } else if level > -128 {
            lemma_byte_broken_up(level + 0x100);
            lemma_joined(head, 5, 6, tail, 7, 7);
        } else {
            lemma_byte_broken_up(0x80);
            lemma_byte_broken_up(level + 0x100);
            lemma_joined(value_bits(0x80, 8), 0, 7, value_bits(level + 0x100, 8), 7, 7);
            lemma_joined(head, 5, 6, tail, 0, 7);
        }
        lemma_loosened(bits, 5, 7, 11, 7);
    }
}

/// An end of block.
proof fn lemma_end_broken_up()
    ensures
        broken_up(eob_symbol_bits(TableSelection::TableZero), 0, 1),
{
    lemma2_to64();
    assert(bit_length(2) == 2) by {
        reveal_with_fuel(bit_length, 4);
    }
    lemma_field_broken_up(2, 2);
}

/// The levels of an MPEG-1 block from some entry on.
pub proof fn lemma_next_levels_broken_up(dct_zz: Seq<i32>, last: int, j: int)
    requires
        mpeg1_levels(dct_zz),
        0 <= j <= 64,
    ensures
        broken_up(next_levels_bits(dct_zz, last, j), 11, 1),
    decreases 64 - j,
{
    if j >= 64 {
        lemma_end_broken_up();
        lemma_loosened(eob_symbol_bits(TableSelection::TableZero), 0, 1, 11, 1);
    } else if dct_zz[j] == 0 {
        lemma_next_levels_broken_up(dct_zz, last, j + 1);
    } else {
        lemma_mpeg1_coeff_broken_up(CoefficientPosition::Next, j - last - 1, dct_zz[j] as int);
        lemma_next_levels_broken_up(dct_zz, j, j + 1);
        lemma_joined(
            mpeg1_coeff_bits(CoefficientPosition::Next, j - last - 1, dct_zz[j] as int),
            11,
            7,
            next_levels_bits(dct_zz, j, j + 1),
            11,
            1,
        );
    }
}

/// A non-intra MPEG-1 block.
pub proof fn lemma_non_intra_broken_up(dct_zz: Seq<i32>)
    requires
        mpeg1_levels(dct_zz),
    ensures
        broken_up(non_intra_bits(dct_zz), 11, 1),
{
    crate::mpeg1_block_decoder::lemma_first_level(dct_zz, 0);
    let j = first_level(dct_zz, 0);
    if j >= 64 {
        lemma_end_broken_up();
        lemma_loosened(eob_symbol_bits(TableSelection::TableZero), 0, 1, 11, 1);
    } else {
        lemma_mpeg1_coeff_broken_up(CoefficientPosition::First, j, dct_zz[j] as int);
        lemma_next_levels_broken_up(dct_zz, j, j + 1);
        lemma_joined(
            mpeg1_coeff_bits(CoefficientPosition::First, j, dct_zz[j] as int),
            11,
            7,
            next_levels_bits(dct_zz, j, j + 1),
            11,
            1,
        );
    }
}

/// An intra MPEG-1 block.
pub proof fn lemma_intra_broken_up(block_index: int, dct_zz: Seq<i32>)
    requires
        mpeg1_levels(dct_zz),
    ensures
        broken_up(intra_bits(block_index, dct_zz), 19, 1),
{
    lemma_next_levels_broken_up(dct_zz, 0, 1);
    lemma_dc_then_broken_up(
        dc_component_of(block_index),
        dct_zz[0] as int,
        next_levels_bits(dct_zz, 0, 1),
    );
}

/// The codewords of Table B-10.
proof fn lemma_b10_small(i: int)
    requires
        0 <= i < 33,
    ensures
        ({
            let row = TABLE_B10[i];
            &&& 1 <= row.0 < 64
            &&& 1 <= row.1 <= 11
            &&& row.1 > 7 ==> row.0 >= pow2((row.1 - 7) as nat)
            &&& row.0 < pow2(row.1 as nat)
        }),
{
    lemma2_to64();
}

/// A component of a vector.
pub proof fn lemma_component_broken_up(delta: int, f_code: u8)
    requires
        delta_codable(delta, f_code),
    ensures
        broken_up(component_bits(delta, f_code), 6, 4 + f_code),
{
    lemma2_to64();
    lemma_delta_code(delta, f_code);
    let i = delta_code(delta, f_code) + 16;
    let row = TABLE_B10[i];
    let v = row.0 as int;
    let n = row.1 as int;
    lemma_b10_small(i);
    lemma_bit_length(v);
    lemma_small_bit_length(v);
    lemma_field_broken_up(v, n);
    if n > 7 {
        lemma_bit_length_at_least(v, n - 7);
    }
    let code = value_bits(v, n);
    lemma_loosened(code, n - bit_length(v), bit_length(v) - 1, 6, 5);
    let all = component_bits(delta, f_code);
    if f_code != 1 && delta != 0 {
        let rest = value_bits(delta_residual(delta, f_code), f_code - 1);
        lemma_value_bits_len(delta_residual(delta, f_code), f_code - 1);
        lemma_suffixed(code, 6, 5, rest);
    } else {
        assert(all =~= code);
        lemma_loosened(all, 6, 5, 6, 4 + f_code);
    }
}

/// A number of a size has as many bits.
proof fn lemma_bit_length_at_least(v: int, k: int)
    requires
        0 <= k,
        pow2(k as nat) <= v,
    ensures
        bit_length(v) > k,
{
    lemma_bit_length(v);
    if bit_length(v) <= k {
        if bit_length(v) < k {
            vstd::arithmetic::power2::lemma_pow2_strictly_increases(
                bit_length(v) as nat,
                k as nat,
            );
        }
    }
}

/// The codewords of Table B-9.
proof fn lemma_b9_small(cbp: int)
    requires
        0 <= cbp < 64,
    ensures
        1 <= TABLE_B9[cbp].0 < 64,
        1 <= TABLE_B9[cbp].1 <= 9,
        TABLE_B9[cbp].0 < pow2(TABLE_B9[cbp].1 as nat),
{
    lemma2_to64();
}

/// A pattern.
pub proof fn lemma_cbp_broken_up(cbp: int)
    requires
        0 <= cbp < 64,
    ensures
        broken_up(cbp_bits(cbp), 8, 5),
{
    lemma_b9_small(cbp);
    let v = TABLE_B9[cbp].0 as int;
    let n = TABLE_B9[cbp].1 as int;
    lemma_small_bit_length(v);
    lemma_field_broken_up(v, n);
    lemma_loosened(value_bits(v, n), n - bit_length(v), bit_length(v) - 1, 8, 5);
}

/// The coded blocks of a macroblock.
proof fn lemma_coded_blocks_broken_up(levels: Seq<Seq<i32>>, n: int)
    requires
        levels.len() == 6,
        0 <= n <= 6,
        forall|k: int| 0 <= k < 6 ==> mpeg1_levels(#[trigger] levels[k]),
    ensures
        coded_blocks_bits(levels, n).len() == 0 || broken_up(coded_blocks_bits(levels, n), 11, 1),
        forall|k: int|
            0 <= k < n && has_level(#[trigger] levels[k]) ==> coded_blocks_bits(levels, n).len() > 0,
    decreases n,
{
    if n > 0 {
        lemma_coded_blocks_broken_up(levels, n - 1);
        let before = coded_blocks_bits(levels, n - 1);
        if has_level(levels[n - 1]) {
            let bits = non_intra_bits(levels[n - 1]);
            assert(mpeg1_levels(levels[n - 1]));
            lemma_non_intra_broken_up(levels[n - 1]);
            if before.len() == 0 {
                assert(coded_blocks_bits(levels, n) =~= bits);
            } else {
                lemma_joined(before, 11, 1, bits, 11, 1);
            }
        } else {
            assert(coded_blocks_bits(levels, n) =~= before);
        }
    }
}

/// Bits and the residuals of a macroblock after them.
pub proof fn lemma_residual_bits_broken_up(head: Seq<bool>, lead: int, levels: Seq<Seq<i32>>)
    requires
        broken_up(head, lead, 13),
        levels.len() == 6,
        forall|k: int| 0 <= k < 6 ==> mpeg1_levels(#[trigger] levels[k]),
    ensures
        broken_up(head + residual_bits(levels), lead, 13),
{
    let cbp = pattern_of(levels, 6);
    if cbp == 0 {
        assert(head + residual_bits(levels) =~= head);
    } else {
        let code = cbp_bits(cbp);
        let blocks = coded_blocks_bits(levels, 6);
        assert(0 <= cbp < 64 && exists|k: int| 0 <= k < 6 && has_level(#[trigger] levels[k])) by {
            reveal_with_fuel(pattern_of, 7);
        }
        lemma_cbp_broken_up(cbp);
        lemma_coded_blocks_broken_up(levels, 6);
        lemma_joined(head, lead, 13, code, 8, 5);
        lemma_joined(head + code, lead, 5, blocks, 11, 1);
        assert(head + residual_bits(levels) =~= head + code + blocks);
        lemma_loosened(head + residual_bits(levels), lead, 1, lead, 13);
    }
}

/// The codewords of both coefficient tables.
proof fn lemma_coeff_rows_small(table: TableSelection, i: int)
    requires
        0 <= i < coeff_rows(table).len(),
    ensures
        ({
            let row = coeff_rows(table)[i];
            &&& 1 <= row.0 < 256
            &&& 1 <= row.1 <= 16
            &&& row.1 > 12 ==> row.0 >= 16
            &&& row.1 < 8 ==> row.0 < pow2(row.1 as nat)
        }),
{
    lemma2_to64();
    match table {
        TableSelection::TableZero => {
            lemma_b14_small(i);
            lemma_b14_fits(i);
        },
        TableSelection::TableOne => {
            lemma_b15_small(i);
        },
    }
}

proof fn lemma_b14_fits(i: int)
    requires
        0 <= i < 112,
    ensures
        ({
            let row = coeff_rows(TableSelection::TableZero)[i];
            row.1 < 8 ==> row.0 < pow2(row.1 as nat)
        }),
{
    lemma2_to64();
}

proof fn lemma_b15_small(i: int)
    requires
        0 <= i < 111,
    ensures
        ({
            let row = coeff_rows(TableSelection::TableOne)[i];
            &&& 1 <= row.0 < 256
            &&& 1 <= row.1 <= 16
            &&& row.1 > 12 ==> row.0 >= 16
            &&& row.1 < 8 ==> row.0 < pow2(row.1 as nat)
        }),
{
    lemma2_to64();
}

/// A symbol of an MPEG-2 block.
pub proof fn lemma_coeff_broken_up(
    table: TableSelection,
    position: CoefficientPosition,
    run: int,
    level: int,
)
    requires
        -2047 <= level <= 2047,
        level != 0,
    ensures
        broken_up(coeff_bits(table, position, run, level), 11, 11),
{
    let bits = coeff_bits(table, position, run, level);
    lemma2_to64();
    if exists|i: int| row_codes(table, position, run, level, i) {
        let i = choose|i: int| row_codes(table, position, run, level, i);
        let row = coeff_rows(table)[i];
        let v = row.0 as int;
        let n = row.1 as int;
        lemma_coeff_rows_small(table, i);
        lemma_byte_bit_length(v);
        lemma_bit_length(v);
        if v >= 16 {
            lemma_bit_length_at_least(v, 4);
        }
        assert(v < pow2(n as nat)) by {
            if n > 8 {
                vstd::arithmetic::power2::lemma_pow2_strictly_increases(8, n as nat);
            }
        }
        lemma_field_broken_up(v, n);
        let code = value_bits(v, n);
        lemma_loosened(code, n - bit_length(v), bit_length(v) - 1, 11, 7);
        lemma_suffixed(code, 11, 7, seq![level < 0]);
        assert(code + seq![level < 0] =~= bits);
        lemma_loosened(bits, 11, 8, 11, 11);
    } else {
        let code = value_bits(ESCAPE_CODE as int, 6);
        let run_bits = value_bits(run, 6);
        let word = if level < 0 {
            level + 0x1000
        } else {
            level
        };
        assert(bit_length(1) == 1) by {
            reveal_with_fuel(bit_length, 3);
        }
        lemma_value_bits_len(run, 6);
        lemma_field_broken_up(1, 6);
        lemma_suffixed(code, 5, 0, run_bits);
        lemma_field_broken_up(word, 12);
        let last = value_bits(word, 12);
        lemma_loosened(last, 12 - bit_length(word), bit_length(word) - 1, 11, 11);
        lemma_joined(code + run_bits, 5, 6, last, 11, 11);
        lemma_loosened(bits, 5, 11, 11, 11);
    }
}

/// An end of block of either table.
proof fn lemma_any_end_broken_up(table: TableSelection)
    ensures
        broken_up(eob_symbol_bits(table), 1, 1),
{
    lemma2_to64();
    match table {
        TableSelection::TableZero => {
            lemma_end_broken_up();
            lemma_loosened(eob_symbol_bits(table), 0, 1, 1, 1);
        },
        TableSelection::TableOne => {
            assert(bit_length(6) == 3) by {
                reveal_with_fuel(bit_length, 5);
            }
            lemma_low_field_broken_up(6, 4);
        },
    }
}

/// The levels of an MPEG-2 block from some entry on.
pub proof fn lemma_order_broken_up(
    qfs: Seq<i32>,
    table: TableSelection,
    first: bool,
    run: int,
    j: int,
)
    requires
        order_fits(qfs),
        0 <= j <= 64,
    ensures
        broken_up(order_bits(qfs, table, first, run, j), 11, 1),
    decreases 64 - j,
{
    if j >= 64 {
        lemma_any_end_broken_up(table);
        lemma_loosened(eob_symbol_bits(table), 1, 1, 11, 1);
    } else if qfs[j] == 0 {
        lemma_order_broken_up(qfs, table, first, run + 1, j + 1);
    } else {
        lemma_coeff_broken_up(table, position_of(first), run, qfs[j] as int);
        lemma_order_broken_up(qfs, table, false, 0, j + 1);
        lemma_joined(
            coeff_bits(table, position_of(first), run, qfs[j] as int),
            11,
            11,
            order_bits(qfs, table, false, 0, j + 1),
            11,
            1,
        );
    }
}

/// The codewords of all DC sizes.
proof fn lemma_dc_rows_all(component: DcComponent, size: int)
    requires
        0 <= size <= 11,
    ensures
        ({
            let row = dc_row(component, size);
            &&& 2 <= row.1 <= 10
            &&& size <= 4 ==> row.1 + size <= 8
            &&& size > 4 ==> row.0 % 4 != 0 && pow2((row.1 - 1) as nat) <= row.0 < pow2(
                row.1 as nat,
            )
            &&& size == 11 ==> row.0 % 2 == 1
        }),
{
    lemma2_to64();
}

/// A DC difference and the levels after it.
pub proof fn lemma_dc_then_broken_up(component: DcComponent, diff: int, rest: Seq<bool>)
    requires
        -2047 <= diff <= 2047,
        broken_up(rest, 11, 1),
    ensures
        broken_up(dc_bits(component, diff) + rest, 19, 1),
{
    let size = diff_size(diff);
    let row = dc_row(component, size);
    let v = row.0 as int;
    let n = row.1 as int;
    let code = value_bits(v, n);
    let field = value_bits(diff_field(diff), size);
    let all = dc_bits(component, diff) + rest;
    lemma_diff_field(diff);
    lemma_dc_rows_all(component, size);
    lemma_value_bits_len(v, n);
    lemma_value_bits_len(diff_field(diff), size);
    if size <= 4 {
        lemma_prefixed(code + field, rest, 11, 1);
        lemma_loosened(all, n + size + 11, 1, 19, 1);
    } else {
        let trail = if size == 11 {
            0int
        } else {
            1int
        };
        lemma_field_broken_up(v, n);
        if size == 11 {
            lemma_odd_field_broken_up(v, n);
        } else {
            lemma_low_field_broken_up(v, n);
        }
        lemma_loosened(code, n - bit_length(v), trail, 10, trail);
        lemma_suffixed(code, 10, trail, field);
        lemma_joined(code + field, 10, trail + size, rest, 11, 1);
        lemma_loosened(all, 10, 1, 19, 1);
    }
}

} // verus!
