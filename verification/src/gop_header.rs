//! The group of pictures header and its time code.

use crate::bits::{
    be_value, holds_at, lemma_holds_field, lemma_holds_flag, lemma_value_bits_len, value_bits,
    writer_bits, zero_padded,
};
use crate::error::{Error, Result};
use oxideav_core::bits::BitWriter;
use vstd::prelude::*;

verus! {

/// The start code of a group of pictures header.
pub const GROUP_START_CODE: u32 = 0x0000_01B8;

pub const ERR_PICTURE_RATE: &'static str =
    "picture_rate: only the codes 1..=8 are defined (§2.4.3.2)";

/// The picture rate of a code, rounded to whole pictures per second.
pub open spec fn nominal_rate(picture_rate_code: u8) -> Option<int> {
    if picture_rate_code == 1 || picture_rate_code == 2 {
        Some(24)
    } else if picture_rate_code == 3 {
        Some(25)
    } else if picture_rate_code == 4 || picture_rate_code == 5 {
        Some(30)
    } else if picture_rate_code == 6 {
        Some(50)
    } else if picture_rate_code == 7 || picture_rate_code == 8 {
        Some(60)
    } else {
        None
    }
}

/// The picture rate of a code, rounded to whole pictures per second.
pub fn nominal_pictures_per_second(picture_rate_code: u8) -> (res: Result<u32>)
    ensures
        match nominal_rate(picture_rate_code) {
            Some(r) => res == Ok::<u32, Error>(r as u32) && 24 <= r <= 60,
            None => res == Err::<u32, Error>(Error::InvalidBitstream(ERR_PICTURE_RATE)),
        },
{
    match picture_rate_code {
        1 | 2 => Ok(24),
        3 => Ok(25),
        4 | 5 => Ok(30),
        6 => Ok(50),
        7 | 8 => Ok(60),
        _ => Err(Error::InvalidBitstream(ERR_PICTURE_RATE)),
    }
}

/// A time of day, counted in pictures.
#[derive(Debug, Clone, Copy, PartialEq, Eq)]
pub struct TimeCode {
    pub drop_frame_flag: bool,
    pub hours: u8,
    pub minutes: u8,
    pub seconds: u8,
    pub pictures: u8,
}

/// The time at which picture `index` is shown, `rate` pictures a second, without
/// dropped pictures and modulo a day.
pub open spec fn time_of(index: int, rate: int) -> TimeCode {
    let t = index / rate;
    TimeCode {
        drop_frame_flag: false,
        hours: ((t / 3600) % 24) as u8,
        minutes: ((t / 60) % 60) as u8,
        seconds: (t % 60) as u8,
        pictures: (index % rate) as u8,
    }
}

impl TimeCode {
    /// The time at which picture `index` in display order is shown.
    pub fn from_display_index(index: u64, picture_rate_code: u8) -> (res: Result<Self>)
        ensures
            match nominal_rate(picture_rate_code) {
                Some(r) => res == Ok::<Self, Error>(time_of(index as int, r)),
                None => res == Err::<Self, Error>(Error::InvalidBitstream(ERR_PICTURE_RATE)),
            },
    {
        let rate: u64 = nominal_pictures_per_second(picture_rate_code)? as u64;
        let t: u64 = index / rate;
        Ok(
            TimeCode {
                drop_frame_flag: false,
                hours: ((t / 3600) % 24) as u8,
                minutes: ((t / 60) % 60) as u8,
                seconds: (t % 60) as u8,
                pictures: (index % rate) as u8,
            },
        )
    }
}

/// A group of pictures header.
#[derive(Debug, Clone, Copy, PartialEq, Eq)]
pub struct Mpeg2Gop {
    pub time_code: TimeCode,
    pub closed_gop: bool,
    pub broken_link: bool,
}

/// The bits of a group of pictures header.
pub open spec fn gop_bits(gop: Mpeg2Gop) -> Seq<bool> {
    (value_bits(GROUP_START_CODE as int, 32).push(gop.time_code.drop_frame_flag) + value_bits(
        gop.time_code.hours as int,
        5,
    ) + value_bits(gop.time_code.minutes as int, 6)).push(true) + value_bits(
        gop.time_code.seconds as int,
        6,
    ) + value_bits(gop.time_code.pictures as int, 6).push(gop.closed_gop).push(gop.broken_link)
}

/// Writes a group of pictures header, padded to a byte boundary.
pub fn write_gop_header(bw: &mut BitWriter, gop: &Mpeg2Gop)
    ensures
        writer_bits(*final(bw)) == zero_padded(writer_bits(*old(bw)) + gop_bits(*gop)),
{
    let ghost before = writer_bits(*bw);
    bw.write_u32(GROUP_START_CODE, 32);
    bw.write_bit(gop.time_code.drop_frame_flag);
    bw.write_u32(gop.time_code.hours as u32, 5);
    bw.write_u32(gop.time_code.minutes as u32, 6);
    bw.write_bit(true);
    bw.write_u32(gop.time_code.seconds as u32, 6);
    bw.write_u32(gop.time_code.pictures as u32, 6);
    bw.write_bit(gop.closed_gop);
    bw.write_bit(gop.broken_link);
    assert(writer_bits(*bw) =~= before + gop_bits(*gop));
    bw.align_to_byte_zero();
}

/// A later picture of the same day is never given an earlier time.
#[verifier::rlimit(40)]
pub proof fn law_time_code_is_monotone(a: int, b: int, rate: int)
    requires
        24 <= rate <= 60,
        0 <= a <= b,
        b / rate < 86400,
    ensures
        ({
            let x = time_of(a, rate);
            let y = time_of(b, rate);
            x.hours * 3600 + x.minutes * 60 + x.seconds < y.hours * 3600 + y.minutes * 60 + y.seconds
                || x.hours * 3600 + x.minutes * 60 + x.seconds == y.hours * 3600 + y.minutes * 60
                + y.seconds && x.pictures <= y.pictures
        }),
        time_of(a, rate).pictures < rate,
        time_of(a, rate).seconds < 60,
        time_of(a, rate).minutes < 60,
        time_of(a, rate).hours < 24,
{
    let ta = a / rate;
    let tb = b / rate;
    vstd::arithmetic::div_mod::lemma_div_is_ordered(a, b, rate);
    vstd::arithmetic::div_mod::lemma_fundamental_div_mod(a, rate);
    vstd::arithmetic::div_mod::lemma_fundamental_div_mod(b, rate);
    vstd::arithmetic::div_mod::lemma_mod_bound(a, rate);
    vstd::arithmetic::div_mod::lemma_mod_bound(b, rate);
    vstd::arithmetic::div_mod::lemma_div_pos_is_pos(a, rate);
}

/// A time code tells which picture of the day it belongs to: hours, minutes, seconds and
/// pictures add up to the number of the picture.
pub proof fn law_time_code_counts_pictures(index: int, rate: int)
    requires
        24 <= rate <= 60,
        0 <= index,
        index / rate < 86400,
    ensures
        ({
            let t = time_of(index, rate);
            &&& ((t.hours * 60 + t.minutes) * 60 + t.seconds) * rate + t.pictures == index
            &&& t.pictures < rate
            &&& t.seconds < 60
            &&& t.minutes < 60
            &&& t.hours < 24
            &&& !t.drop_frame_flag
        }),
{
    let t = index / rate;
    vstd::arithmetic::div_mod::lemma_fundamental_div_mod(index, rate);
    vstd::arithmetic::div_mod::lemma_mod_bound(index, rate);
    vstd::arithmetic::div_mod::lemma_div_pos_is_pos(index, rate);
    let c = time_of(index, rate);
    assert((c.hours * 60 + c.minutes) * 60 + c.seconds == t);
    assert(rate * t == t * rate) by (nonlinear_arith);
}

/// A group header holds its fields one after the other: the start code, the flag for
/// dropped pictures, five bits of hours, six of minutes, a marker, six of seconds, six of
/// pictures, and whether the group is closed or its link broken.
pub proof fn law_group_header_fields(s: Seq<bool>, at: int, gop: Mpeg2Gop)
    requires
        gop.time_code.hours < 32,
        gop.time_code.minutes < 64,
        gop.time_code.seconds < 64,
        gop.time_code.pictures < 64,
        holds_at(s, at, gop_bits(gop)),
    ensures
        gop_bits(gop).len() == 59,
        be_value(s, at, 32) == 0x1B8,
        s[at + 32] == gop.time_code.drop_frame_flag,
        be_value(s, at + 33, 5) == gop.time_code.hours,
        be_value(s, at + 38, 6) == gop.time_code.minutes,
        s[at + 44],
        be_value(s, at + 45, 6) == gop.time_code.seconds,
        be_value(s, at + 51, 6) == gop.time_code.pictures,
        s[at + 57] == gop.closed_gop,
        s[at + 58] == gop.broken_link,
{
    vstd::arithmetic::power2::lemma2_to64();
    let t = gop.time_code;
    let none = Seq::<bool>::empty();
    let t8 = seq![gop.broken_link] + none;
    let t7 = seq![gop.closed_gop] + t8;
    let t6 = value_bits(t.pictures as int, 6) + t7;
    let t5 = value_bits(t.seconds as int, 6) + t6;
    let t4 = seq![true] + t5;
    let t3 = value_bits(t.minutes as int, 6) + t4;
    let t2 = value_bits(t.hours as int, 5) + t3;
    let t1 = seq![t.drop_frame_flag] + t2;
    lemma_value_bits_len(GROUP_START_CODE as int, 32);
    lemma_value_bits_len(t.hours as int, 5);
    lemma_value_bits_len(t.minutes as int, 6);
    lemma_value_bits_len(t.seconds as int, 6);
    lemma_value_bits_len(t.pictures as int, 6);
    assert(gop_bits(gop) =~= value_bits(GROUP_START_CODE as int, 32) + t1);
    lemma_holds_field(s, at, GROUP_START_CODE as int, 32, t1);
    lemma_holds_flag(s, at + 32, t.drop_frame_flag, t2);
    lemma_holds_field(s, at + 33, t.hours as int, 5, t3);
    lemma_holds_field(s, at + 38, t.minutes as int, 6, t4);
    lemma_holds_flag(s, at + 44, true, t5);
    lemma_holds_field(s, at + 45, t.seconds as int, 6, t6);
    lemma_holds_field(s, at + 51, t.pictures as int, 6, t7);
    lemma_holds_flag(s, at + 57, gop.closed_gop, t8);
    lemma_holds_flag(s, at + 58, gop.broken_link, none);
}

/// The exact rate of a code: so many pictures in so many seconds.
pub open spec fn exact_rate(picture_rate_code: u8) -> (int, int) {
    if picture_rate_code == 1 {
        (24000, 1001)
    } else if picture_rate_code == 2 {
        (24, 1)
    } else if picture_rate_code == 3 {
        (25, 1)
    } else if picture_rate_code == 4 {
        (30000, 1001)
    } else if picture_rate_code == 5 {
        (30, 1)
    } else if picture_rate_code == 6 {
        (50, 1)
    } else if picture_rate_code == 7 {
        (60000, 1001)
    } else {
        (60, 1)
    }
}

/// The nominal rate is the least whole number of pictures a second that is not below the
/// exact rate; it is there for the codes from 1 to 8.
pub proof fn law_nominal_rate_is_rounded_up(picture_rate_code: u8)
    ensures
        nominal_rate(picture_rate_code) is Some <==> 1 <= picture_rate_code <= 8,
        1 <= picture_rate_code <= 8 ==> {
            let (n, d) = exact_rate(picture_rate_code);
            let rate = nominal_rate(picture_rate_code)->0;
            n <= rate * d && (rate - 1) * d < n
        },
{
    if 1 <= picture_rate_code <= 8 {
        let (n, d) = exact_rate(picture_rate_code);
        let rate = nominal_rate(picture_rate_code)->0;
        assert(n <= rate * d && (rate - 1) * d < n) by (nonlinear_arith)
            requires
                (d == 1 && n == rate) || (d == 1001 && n == 1000 * rate && 0 < rate <= 60),
        ;
    }
}

} // verus!
