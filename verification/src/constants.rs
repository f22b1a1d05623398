//! Byte values with special meaning in the yEnc wire format.

use vstd::prelude::*;

verus! {

/// NUL byte; never emitted unescaped, skipped by the decoder.
pub const NUL: u8 = 0;
/// Horizontal tab.
pub const TAB: u8 = 9;
/// Line feed; ends every wire line, skipped by the body decoder.
pub const LF: u8 = 10;
/// Carriage return; precedes the line feed, skipped by the body decoder.
pub const CR: u8 = 13;
/// Space; separates `key=value` pairs on control lines.
pub const SPACE: u8 = 32;
/// The `=` byte; starts an escape pair and every control line.
pub const ESCAPE: u8 = 61;
/// The `.` byte; doubled at column 0 to satisfy dot-stuffing transports.
pub const DOT: u8 = 46;
/// Default maximum number of encoded bytes per output line.
pub const DEFAULT_LINE_SIZE: u8 = 128;

/// The tag bytes `=ybegin ` that open a begin line.
pub open spec fn prefix_ybegin() -> Seq<u8> {
    seq![61u8, 121u8, 98u8, 101u8, 103u8, 105u8, 110u8, 32u8]
}

/// The tag bytes `=ypart ` that open a part line.
pub open spec fn prefix_ypart() -> Seq<u8> {
    seq![61u8, 121u8, 112u8, 97u8, 114u8, 116u8, 32u8]
}

/// The tag bytes `=yend ` that open a footer line.
pub open spec fn prefix_yend() -> Seq<u8> {
    seq![61u8, 121u8, 101u8, 110u8, 100u8, 32u8]
}

/// Does `s` start with the bytes of `p`?
pub open spec fn has_prefix(s: Seq<u8>, p: Seq<u8>) -> bool {
    s.len() >= p.len() && s.subrange(0, p.len() as int) == p
}

/// The bytes of `part=`.
pub open spec fn lit_part_eq() -> Seq<u8> {
    seq![112u8, 97u8, 114u8, 116u8, 61u8]
}

/// The bytes of `line=`.
pub open spec fn lit_line_eq() -> Seq<u8> {
    seq![108u8, 105u8, 110u8, 101u8, 61u8]
}

/// The bytes of `size=`.
pub open spec fn lit_size_eq() -> Seq<u8> {
    seq![115u8, 105u8, 122u8, 101u8, 61u8]
}

/// The bytes of `name=`.
pub open spec fn lit_name_eq() -> Seq<u8> {
    seq![110u8, 97u8, 109u8, 101u8, 61u8]
}

/// The bytes of `begin=`.
pub open spec fn lit_begin_eq() -> Seq<u8> {
    seq![98u8, 101u8, 103u8, 105u8, 110u8, 61u8]
}

/// The bytes of `end=`.
pub open spec fn lit_end_eq() -> Seq<u8> {
    seq![101u8, 110u8, 100u8, 61u8]
}

/// The bytes of `crc32=`.
pub open spec fn lit_crc32_eq() -> Seq<u8> {
    seq![99u8, 114u8, 99u8, 51u8, 50u8, 61u8]
}

/// The bytes of `pcrc32=`.
pub open spec fn lit_pcrc32_eq() -> Seq<u8> {
    seq![112u8, 99u8, 114u8, 99u8, 51u8, 50u8, 61u8]
}

} // verus!
