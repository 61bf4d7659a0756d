//! The ROM image that the engine uses when none is given: the default dictionary
//! compiled by `compiler::compile_rom` (verbs first, then nouns).
//!
//! Verbs: 打開 and 解鎖 (0x01), 拿, 送 and get (0x20), 查 (0x10), REFUND_ORDER_LAST (0x15).
//! Nouns: 箱子 and 櫃子 (0x0000), 咖啡 and coffee (0x0A42), 茶 (0x0A43),
//! REFUND_ORDER_LAST (0x00FF).
use vstd::prelude::*;

verus! {

/// The compiled default dictionary.
pub const DEFAULT_ROM_MATRIX: [u8; 471] = [
    0, 0, 0, 8, 82, 182, 0, 99, 161, 1, 103, 151, 0, 229, 120, 1,
    230, 28, 0, 231, 45, 1, 232, 77, 0, 233, 132, 0, 0, 0, 0, 4,
    137, 44, 0, 139, 120, 0, 159, 170, 0, 171, 86, 1, 0, 0, 0, 1,
    147, 51, 0, 0, 0, 0, 1, 233, 58, 0, 0, 132, 0, 1, 150, 65,
    0, 0, 0, 0, 1, 139, 72, 0, 1, 1, 0, 0, 0, 0, 0, 0,
    2, 140, 202, 1, 167, 87, 0, 0, 0, 0, 1, 163, 94, 0, 0, 0,
    0, 1, 233, 101, 0, 0, 132, 0, 1, 142, 108, 0, 0, 0, 0, 1,
    150, 115, 0, 1, 1, 0, 0, 0, 0, 0, 0, 1, 191, 127, 0, 1,
    32, 0, 0, 0, 0, 0, 0, 1, 128, 139, 0, 0, 0, 0, 1, 129,
    146, 0, 1, 32, 0, 0, 0, 0, 0, 0, 1, 101, 158, 0, 0, 0,
    0, 1, 116, 165, 0, 1, 32, 0, 0, 0, 0, 0, 0, 1, 165, 177,
    0, 1, 16, 0, 0, 0, 0, 0, 0, 1, 69, 189, 0, 0, 0, 0,
    1, 70, 196, 0, 0, 0, 0, 1, 85, 203, 0, 0, 0, 0, 1, 78,
    210, 0, 0, 0, 0, 1, 68, 217, 0, 0, 0, 0, 1, 95, 224, 0,
    0, 0, 0, 1, 79, 231, 0, 0, 0, 0, 1, 82, 238, 0, 0, 182,
    0, 1, 68, 245, 0, 0, 0, 0, 1, 69, 252, 0, 0, 0, 0, 1,
    82, 3, 1, 0, 182, 0, 1, 95, 10, 1, 0, 0, 0, 1, 76, 17,
    1, 0, 0, 0, 1, 65, 24, 1, 0, 0, 0, 1, 83, 31, 1, 0,
    0, 0, 1, 84, 38, 1, 3, 21, 255, 0, 0, 0, 0, 0, 0, 0,
    1, 174, 52, 1, 0, 0, 0, 1, 177, 59, 1, 0, 0, 0, 1, 229,
    66, 1, 0, 120, 1, 1, 173, 73, 1, 0, 0, 0, 1, 144, 80, 1,
    2, 0, 0, 0, 0, 0, 0, 0, 0, 1, 131, 93, 1, 0, 0, 0,
    1, 229, 100, 1, 0, 120, 1, 1, 173, 107, 1, 0, 0, 0, 1, 144,
    114, 1, 2, 0, 0, 0, 0, 0, 0, 0, 0, 1, 146, 127, 1, 0,
    0, 0, 1, 150, 134, 1, 0, 0, 0, 1, 229, 141, 1, 0, 120, 1,
    1, 149, 148, 1, 0, 0, 0, 1, 161, 155, 1, 2, 66, 10, 0, 0,
    0, 0, 0, 0, 1, 111, 168, 1, 0, 0, 0, 1, 102, 175, 1, 0,
    0, 0, 1, 102, 182, 1, 0, 0, 0, 1, 101, 189, 1, 0, 0, 0,
    1, 101, 196, 1, 2, 66, 10, 0, 0, 0, 0, 0, 0, 1, 182, 209,
    1, 2, 67, 10, 0, 0, 0,
];

} // verus!
