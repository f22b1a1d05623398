//! The yEnc decoder: byte-level buffer decoder, control-line parser, and the
//! stream decoder that scans a message for control lines, decodes the body
//! and validates the declared size and checksum.

use vstd::prelude::*;

use crate::constants::{has_prefix, prefix_ybegin, prefix_yend, prefix_ypart, CR, DOT, ESCAPE, LF, NUL, SPACE};
use crate::encode::{
    encode_bytes, encode_emit, encode_step_col, encode_step_out, encoded_byte_of, needs_escape,
    wrap_add, wrap_sub,
};
use crate::crc32::{crc32_of, Crc32};
use crate::errors::DecodeError;
use crate::numfmt::{all_dec_digits, all_hex_digits, dec_val, hex_val, parse_dec_u64, parse_hex_u32};

verus! {

/// The bytes decoded from the wire sequence `s`.
///
/// NUL, CR and LF are skipped; `=` undoes the escape shift of the following
/// byte; a `.` as the very first byte (`at_start`) undoes dot-stuffing: a
/// doubled dot collapses, while a dot followed by any other byte decodes both
/// bytes plainly.  A trailing lone `=` is tolerated and ignored.
pub open spec fn decode_bytes(s: Seq<u8>, at_start: bool) -> Seq<u8>
    decreases s.len(),
{
    if s.len() == 0 {
        Seq::empty()
    } else {
        let b = s[0];
        if b == NUL || b == CR || b == LF {
            decode_bytes(s.drop_first(), false)
        } else if b == ESCAPE {
            if s.len() >= 2 {
                seq![wrap_sub(wrap_sub(s[1], 64), 42)] + decode_bytes(s.skip(2), false)
            } else {
                Seq::empty()
            }
        } else if b == DOT && at_start {
            if s.len() >= 2 {
                if s[1] == DOT {
                    seq![wrap_sub(DOT, 42)] + decode_bytes(s.skip(2), false)
                } else {
                    seq![wrap_sub(DOT, 42), wrap_sub(s[1], 42)] + decode_bytes(s.skip(2), false)
                }
            } else {
                seq![wrap_sub(DOT, 42)]
            }
        } else {
            seq![wrap_sub(b, 42)] + decode_bytes(s.drop_first(), false)
        }
    }
}

/// Decoding never produces more bytes than it consumes.
pub proof fn lemma_decode_len(s: Seq<u8>, at_start: bool)
    ensures
        decode_bytes(s, at_start).len() <= s.len(),
    decreases s.len(),
{
    if s.len() > 0 {
        lemma_decode_len(s.drop_first(), false);
        if s.len() >= 2 {
            lemma_decode_len(s.skip(2), false);
        }
    }
}

/// Decode the encoded byte slice into a vector of bytes, as given by
/// [`decode_bytes`].  Never fails: NUL, CR and LF bytes are skipped, not
/// rejected.
pub fn decode_buffer(input: &[u8]) -> (r: Result<Vec<u8>, DecodeError>)
    ensures
        r is Ok,
        r matches Ok(v) ==> v@ == decode_bytes(input@, true),
{
    let mut out: Vec<u8> = Vec::new();
    let mut i: usize = 0;
    proof {
        assert(input@.skip(0) =~= input@);
    }
    while i < input.len()
        invariant
            i <= input@.len(),
            decode_bytes(input@, true) == out@ + decode_bytes(input@.skip(i as int), i == 0),
        decreases input@.len() - i,
    {
        let ghost rest = input@.skip(i as int);
        let ghost out_before = out@;
        proof {
            assert(rest[0] == input@[i as int]);
            assert(rest.drop_first() =~= input@.skip(i + 1));
            if i + 2 <= input@.len() {
                assert(rest.skip(2) =~= input@.skip(i + 2));
            }
        }
        let b = input[i];
        if b == NUL || b == CR || b == LF {
            i = i + 1;
        } else if b == ESCAPE {
            if i + 1 < input.len() {
                let x = input[i + 1];
                out.push(x.wrapping_sub(64).wrapping_sub(42));
                proof {
                    assert(out@ =~= out_before + seq![wrap_sub(wrap_sub(x, 64), 42)]);
                    assert(out_before + decode_bytes(rest, i == 0) =~= out@ + decode_bytes(
                        input@.skip(i + 2),
                        false,
                    ));
                }
                i = i + 2;
            } else {
                proof {
                    assert(decode_bytes(rest, i == 0) =~= Seq::<u8>::empty());
                }
                i = i + 1;
            }
        } else if b == DOT && i == 0 {
            if input.len() >= 2 {
                let x = input[1];
                if x == DOT {
                    out.push(DOT.wrapping_sub(42));
                    proof {
                        assert(out@ =~= out_before + seq![wrap_sub(DOT, 42)]);
                    }
                } else {
                    out.push(DOT.wrapping_sub(42));
                    out.push(x.wrapping_sub(42));
                    proof {
                        assert(out@ =~= out_before + seq![wrap_sub(DOT, 42), wrap_sub(x, 42)]);
                    }
                }
                proof {
                    assert(out_before + decode_bytes(rest, i == 0) =~= out@ + decode_bytes(
                        input@.skip(i + 2),
                        false,
                    ));
                }
                i = 2;
            } else {
                out.push(DOT.wrapping_sub(42));
                proof {
                    assert(out_before + decode_bytes(rest, i == 0) =~= out@ + decode_bytes(
                        input@.skip(i + 1),
                        false,
                    ));
                }
                i = i + 1;
            }
        } else {
            out.push(b.wrapping_sub(42));
            proof {
                assert(out_before + decode_bytes(rest, i == 0) =~= out@ + decode_bytes(
                    input@.skip(i + 1),
                    false,
                ));
            }
            i = i + 1;
        }
    }
    proof {
        assert(input@.skip(input@.len() as int) =~= Seq::<u8>::empty());
        assert(decode_bytes(input@, true) =~= out@);
    }
    Ok(out)
}

/// Encoding `s` from column `col` never doubles a dot after the first output
/// byte.  Dot-stuffing applies whenever the shifted byte equals `.` at column
/// 0; a buffer-level decode can only undo it at the very start of the buffer,
/// so the buffer round trip needs this side condition.
pub open spec fn dot_stuff_free(s: Seq<u8>, col: int, ll: int, at_start: bool) -> bool
    decreases s.len(),
{
    if s.len() == 0 {
        true
    } else {
        let e = encoded_byte_of(s[0]);
        if !needs_escape(e) && e == DOT && col == 0 && !at_start {
            false
        } else {
            dot_stuff_free(s.drop_first(), encode_step_col(s[0], col, ll), ll, false)
        }
    }
}

/// A CR LF pair in front of a stream decodes to nothing.
pub proof fn lemma_decode_crlf(r: Seq<u8>)
    ensures
        decode_bytes(seq![CR, LF] + r, false) == decode_bytes(r, false),
{
    let s = seq![CR, LF] + r;
    assert(s[0] == CR);
    assert(s.drop_first() =~= seq![LF] + r);
    assert(decode_bytes(s, false) == decode_bytes(seq![LF] + r, false));
    assert((seq![LF] + r)[0] == LF);
    assert((seq![LF] + r).drop_first() =~= r);
    assert(decode_bytes(seq![LF] + r, false) == decode_bytes(r, false));
}

/// Decoding the bytes emitted for one input byte recovers that byte and
/// leaves the rest of the stream to be decoded off line-start.
pub proof fn lemma_decode_one_step(b: u8, col: int, ll: int, at_start: bool, r: Seq<u8>)
    requires
        at_start ==> col == 0,
        !(!needs_escape(encoded_byte_of(b)) && encoded_byte_of(b) == DOT && col == 0 && !at_start),
    ensures
        decode_bytes(encode_step_out(b, col, ll) + r, at_start) == seq![b] + decode_bytes(r, false),
{
    let e = encoded_byte_of(b);
    let emit = encode_emit(b, col);
    let out = encode_step_out(b, col, ll);
    let s = out + r;
    if needs_escape(e) {
        let x = wrap_add(e, 64);
        assert(s[0] == ESCAPE && s[1] == x);
        assert(wrap_sub(wrap_sub(x, 64), 42) == b);
        if col + emit.len() >= ll {
            assert(s.skip(2) =~= seq![CR, LF] + r);
            lemma_decode_crlf(r);
            assert(decode_bytes(s, at_start) =~= seq![b] + decode_bytes(r, false));
        } else {
            assert(s.skip(2) =~= r);
            assert(decode_bytes(s, at_start) =~= seq![b] + decode_bytes(r, false));
        }
    } else if e == DOT && col == 0 {
        assert(at_start);
        assert(s[0] == DOT && s[1] == DOT);
        assert(wrap_sub(DOT, 42) == b);
        if col + emit.len() >= ll {
            assert(s.skip(2) =~= seq![CR, LF] + r);
            lemma_decode_crlf(r);
            assert(decode_bytes(s, at_start) =~= seq![b] + decode_bytes(r, false));
        } else {
            assert(s.skip(2) =~= r);
            assert(decode_bytes(s, at_start) =~= seq![b] + decode_bytes(r, false));
        }
    } else {
        assert(s[0] == e);
        assert(e != NUL && e != CR && e != LF && e != ESCAPE);
        assert(!(e == DOT && at_start));
        assert(wrap_sub(e, 42) == b);
        if col + emit.len() >= ll {
            assert(s.drop_first() =~= seq![CR, LF] + r);
            lemma_decode_crlf(r);
            assert(decode_bytes(s, at_start) =~= seq![b] + decode_bytes(r, false));
        } else {
            assert(s.drop_first() =~= r);
            assert(decode_bytes(s, at_start) =~= seq![b] + decode_bytes(r, false));
        }
    }
}

/// Law: decoding an encoded buffer returns the original bytes, for every
/// input whose encoding does not dot-stuff past the first output byte
/// ([`dot_stuff_free`]).  The buffer-level decoder undoes dot-stuffing only
/// at the start of the buffer; the stream decoder decodes line by line, so
/// for it the condition holds at every line start.
pub proof fn lemma_decode_inverts_encode(s: Seq<u8>, col: int, ll: int, at_start: bool)
    requires
        dot_stuff_free(s, col, ll, at_start),
        at_start ==> col == 0,
    ensures
        decode_bytes(encode_bytes(s, col, ll), at_start) == s,
    decreases s.len(),
{
    if s.len() == 0 {
    } else {
        let b = s[0];
        let col2 = encode_step_col(b, col, ll);
        lemma_decode_inverts_encode(s.drop_first(), col2, ll, false);
        lemma_decode_one_step(b, col, ll, at_start, encode_bytes(s.drop_first(), col2, ll));
        assert(seq![b] + s.drop_first() =~= s);
    }
}

/// A keyword accepted on a control line.
#[derive(Clone, Copy, PartialEq, Eq, Structural, Debug)]
pub enum Keyword {
    /// `begin`: one-based start offset of a part.
    Begin,
    /// `crc32`: whole-file checksum.
    Crc32,
    /// `end`: one-based final offset of a part.
    End,
    /// `line`: maximum encoded line length.
    Line,
    /// `name`: output file name.
    Name,
    /// `part`: one-based part number.
    Part,
    /// `pcrc32`: part checksum.
    Pcrc32,
    /// `size`: decoded byte count.
    Size,
    /// `total`: total part count.
    Total,
}

/// The keyword named by a byte sequence, if it is one of the known set.
pub open spec fn keyword_of(s: Seq<u8>) -> Option<Keyword> {
    if s.len() == 5 && s == seq![98u8, 101u8, 103u8, 105u8, 110u8] {
        Some(Keyword::Begin)
    } else if s.len() == 5 && s == seq![99u8, 114u8, 99u8, 51u8, 50u8] {
        Some(Keyword::Crc32)
    } else if s.len() == 3 && s == seq![101u8, 110u8, 100u8] {
        Some(Keyword::End)
    } else if s.len() == 4 && s == seq![108u8, 105u8, 110u8, 101u8] {
        Some(Keyword::Line)
    } else if s.len() == 4 && s == seq![110u8, 97u8, 109u8, 101u8] {
        Some(Keyword::Name)
    } else if s.len() == 4 && s == seq![112u8, 97u8, 114u8, 116u8] {
        Some(Keyword::Part)
    } else if s.len() == 6 && s == seq![112u8, 99u8, 114u8, 99u8, 51u8, 50u8] {
        Some(Keyword::Pcrc32)
    } else if s.len() == 4 && s == seq![115u8, 105u8, 122u8, 101u8] {
        Some(Keyword::Size)
    } else if s.len() == 5 && s == seq![116u8, 111u8, 116u8, 97u8, 108u8] {
        Some(Keyword::Total)
    } else {
        None
    }
}

/// The fields collected from one control line, with the name as raw bytes.
pub ghost struct MetaSpec {
    /// value of `name`
    pub name: Option<Seq<u8>>,
    /// value of `line`
    pub line_length: Option<u16>,
    /// value of `size`
    pub size: Option<usize>,
    /// value of `crc32`
    pub crc32: Option<u32>,
    /// value of `pcrc32`
    pub pcrc32: Option<u32>,
    /// value of `part`
    pub part: Option<u32>,
    /// value of `total`
    pub total: Option<u32>,
    /// value of `begin`
    pub begin: Option<usize>,
    /// value of `end`
    pub end: Option<usize>,
}

/// The record with no field set.
pub open spec fn meta_none() -> MetaSpec {
    MetaSpec {
        name: None,
        line_length: None,
        size: None,
        crc32: None,
        pcrc32: None,
        part: None,
        total: None,
        begin: None,
        end: None,
    }
}

/// Where the control-line parser stands: reading a keyword, reading the value
/// of a keyword, or finished after a terminating line feed.
pub ghost enum PState {
    /// Accumulating keyword bytes over the span `[kw_start, kw_end)`.
    InKeyword { kw_start: Option<int>, kw_end: int },
    /// Accumulating value bytes for `kw` over the span `[val_start, val_end)`.
    InValue { kw: Keyword, val_start: Option<int>, val_end: int },
    /// A value was closed by the terminating line feed.
    Done,
}

/// The bytes of an accumulation span: empty while no byte was included.
pub open spec fn span_bytes(s: Seq<u8>, start: Option<int>, end: int) -> Seq<u8> {
    match start {
        Some(st) => s.subrange(st, end),
        None => Seq::empty(),
    }
}

/// A span extended by the byte at position `i`.
pub open spec fn span_extend(start: Option<int>, i: int) -> PStateSpan {
    match start {
        Some(st) => PStateSpan { start: Some(st), end: i + 1 },
        None => PStateSpan { start: Some(i), end: i + 1 },
    }
}

/// A pair of span bounds.
pub ghost struct PStateSpan {
    /// index of the first included byte
    pub start: Option<int>,
    /// one past the last included byte
    pub end: int,
}

/// The decimal value of a committed span, when the span is non-empty, all
/// digits, and fits below `max`.
pub open spec fn dec_commit(v: Seq<u8>, max: nat) -> Option<nat> {
    if v.len() > 0 && all_dec_digits(v) && dec_val(v) <= max {
        Some(dec_val(v))
    } else {
        None
    }
}

/// The hexadecimal value of a committed span, when the span is non-empty,
/// all hexadecimal digits, and fits in 32 bits.
pub open spec fn hex_commit(v: Seq<u8>) -> Option<u32> {
    if v.len() > 0 && all_hex_digits(v) && hex_val(v) <= u32::MAX {
        Some(hex_val(v) as u32)
    } else {
        None
    }
}

/// The `key=value` grammar of a control line after its tag, as a linear state
/// machine over the byte at position `i`.  `Err(p)` is the zero-based offset
/// of the first rejected byte.  Reaching the end of the line with a keyword
/// still open and no `=` after it is rejected at the keyword's start; a value
/// still open is dropped uncommitted.
pub open spec fn parse_kv(s: Seq<u8>, i: int, meta: MetaSpec, st: PState) -> Result<MetaSpec, int>
    decreases s.len() - i,
{
    if i < 0 || i >= s.len() {
        match st {
            PState::InKeyword { kw_start: Some(ks), .. } => Err(ks),
            _ => Ok(meta),
        }
    } else {
        let c = s[i];
        match st {
            PState::InKeyword { kw_start, kw_end } => {
                if (97 <= c <= 122) || (48 <= c <= 57) {
                    let sp = span_extend(kw_start, i);
                    parse_kv(s, i + 1, meta, PState::InKeyword { kw_start: sp.start, kw_end: sp.end })
                } else if c == ESCAPE {
                    match keyword_of(span_bytes(s, kw_start, kw_end)) {
                        Some(kw) => parse_kv(
                            s,
                            i + 1,
                            meta,
                            PState::InValue { kw, val_start: None, val_end: 0 },
                        ),
                        None => Err(i),
                    }
                } else if c == CR || c == LF {
                    parse_kv(s, i + 1, meta, st)
                } else {
                    Err(i)
                }
            },
            PState::InValue { kw, val_start, val_end } => {
                let v = span_bytes(s, val_start, val_end);
                let sp = span_extend(val_start, i);
                let extended = PState::InValue { kw, val_start: sp.start, val_end: sp.end };
                match kw {
                    Keyword::Name => {
                        if c == CR {
                            parse_kv(s, i + 1, meta, st)
                        } else if c == LF {
                            parse_kv(s, i + 1, MetaSpec { name: Some(v), ..meta }, PState::Done)
                        } else {
                            parse_kv(s, i + 1, meta, extended)
                        }
                    },
                    Keyword::Size => {
                        if 48 <= c <= 57 {
                            parse_kv(s, i + 1, meta, extended)
                        } else if c == SPACE {
                            match dec_commit(v, usize::MAX as nat) {
                                Some(n) => parse_kv(
                                    s,
                                    i + 1,
                                    MetaSpec { size: Some(n as usize), ..meta },
                                    PState::InKeyword { kw_start: None, kw_end: 0 },
                                ),
                                None => Err(i),
                            }
                        } else {
                            Err(i)
                        }
                    },
                    Keyword::Begin | Keyword::End => {
                        if 48 <= c <= 57 {
                            parse_kv(s, i + 1, meta, extended)
                        } else if c == SPACE || c == LF || c == CR {
                            match dec_commit(v, usize::MAX as nat) {
                                Some(n) => {
                                    let meta2 = if kw is Begin {
                                        MetaSpec { begin: Some(n as usize), ..meta }
                                    } else {
                                        MetaSpec { end: Some(n as usize), ..meta }
                                    };
                                    parse_kv(
                                        s,
                                        i + 1,
                                        meta2,
                                        PState::InKeyword { kw_start: None, kw_end: 0 },
                                    )
                                },
                                None => Err(i),
                            }
                        } else {
                            Err(i)
                        }
                    },
                    Keyword::Line => {
                        if 48 <= c <= 57 {
                            parse_kv(s, i + 1, meta, extended)
                        } else if c == SPACE {
                            match dec_commit(v, u16::MAX as nat) {
                                Some(n) => parse_kv(
                                    s,
                                    i + 1,
                                    MetaSpec { line_length: Some(n as u16), ..meta },
                                    PState::InKeyword { kw_start: None, kw_end: 0 },
                                ),
                                None => Err(i),
                            }
                        } else {
                            Err(i)
                        }
                    },
                    Keyword::Part | Keyword::Total => {
                        if 48 <= c <= 57 {
                            parse_kv(s, i + 1, meta, extended)
                        } else if c == SPACE {
                            match dec_commit(v, u32::MAX as nat) {
                                Some(n) => {
                                    let meta2 = if kw is Part {
                                        MetaSpec { part: Some(n as u32), ..meta }
                                    } else {
                                        MetaSpec { total: Some(n as u32), ..meta }
                                    };
                                    parse_kv(
                                        s,
                                        i + 1,
                                        meta2,
                                        PState::InKeyword { kw_start: None, kw_end: 0 },
                                    )
                                },
                                None => Err(i),
                            }
                        } else {
                            Err(i)
                        }
                    },
                    Keyword::Crc32 | Keyword::Pcrc32 => {
                        if (48 <= c <= 57) || (97 <= c <= 102) || (65 <= c <= 70) {
                            parse_kv(s, i + 1, meta, extended)
                        } else if c == SPACE || c == LF {
                            match hex_commit(v) {
                                Some(n) => {
                                    let meta2 = if kw is Crc32 {
                                        MetaSpec { crc32: Some(n), ..meta }
                                    } else {
                                        MetaSpec { pcrc32: Some(n), ..meta }
                                    };
                                    let st2 = if c == SPACE {
                                        PState::InKeyword { kw_start: None, kw_end: 0 }
                                    } else {
                                        PState::Done
                                    };
                                    parse_kv(s, i + 1, meta2, st2)
                                },
                                None => Err(i),
                            }
                        } else if c == CR {
                            parse_kv(s, i + 1, meta, st)
                        } else {
                            Err(i)
                        }
                    },
                }
            },
            PState::Done => Ok(meta),
        }
    }
}

/// The offset of the first `key=value` pair: one past the known tag.
pub open spec fn header_offset(s: Seq<u8>) -> Option<int> {
    if has_prefix(s, prefix_ybegin()) {
        Some(8)
    } else if has_prefix(s, prefix_yend()) {
        Some(6)
    } else if has_prefix(s, prefix_ypart()) {
        Some(7)
    } else {
        None
    }
}

/// The metadata parsed from one raw control line, or the byte offset of the
/// first rejected byte.  A line must open with one of the three known tags;
/// its `key=value` pairs are then read by [`parse_kv`].
pub open spec fn spec_parse_header(s: Seq<u8>) -> Result<MetaSpec, int> {
    match header_offset(s) {
        Some(off) => parse_kv(s, off, meta_none(), PState::InKeyword { kw_start: None, kw_end: 0 }),
        None => Err(0),
    }
}

/// What `String::from_utf8_lossy` makes of a byte sequence.
pub uninterp spec fn lossy_of(b: Seq<u8>) -> Seq<char>;

/// Relies on `String::from_utf8_lossy` (and `to_string` on the result): the
/// text depends on the bytes alone, and valid UTF-8 is decoded unchanged.
#[verifier::external_body]
fn bytes_to_string_lossy(b: &[u8]) -> (r: String)
    ensures
        r@ == lossy_of(b@),
        vstd::utf8::valid_utf8(b@) ==> r@ == vstd::utf8::decode_utf8(b@),
{
    String::from_utf8_lossy(b).to_string()
}

/// The metadata record filled in from the control lines of one decode pass.
#[derive(Debug)]
pub struct MetaData {
    /// output file name, from `=ybegin`
    pub name: Option<String>,
    /// maximum encoded line length, from `=ybegin`
    pub line_length: Option<u16>,
    /// expected decoded byte count, from `=ybegin` or `=yend`
    pub size: Option<usize>,
    /// whole-file checksum, from `=yend`
    pub crc32: Option<u32>,
    /// part checksum, from `=yend`
    pub pcrc32: Option<u32>,
    /// part number, from `=ybegin` or `=yend`
    pub part: Option<u32>,
    /// total part count, from `=ybegin`
    pub total: Option<u32>,
    /// one-based part start offset, from `=ypart`
    pub begin: Option<usize>,
    /// one-based part final offset, from `=ypart`
    pub end: Option<usize>,
}

impl MetaData {
    /// This record holds exactly the fields of `m`, with the name decoded as
    /// lossy UTF-8 text.
    pub open spec fn matches(self, m: MetaSpec) -> bool {
        &&& (self.name is Some <==> m.name is Some)
        &&& (m.name matches Some(b) ==> self.name matches Some(n) && n@ == lossy_of(b))
        &&& self.line_length == m.line_length
        &&& self.size == m.size
        &&& self.crc32 == m.crc32
        &&& self.pcrc32 == m.pcrc32
        &&& self.part == m.part
        &&& self.total == m.total
        &&& self.begin == m.begin
        &&& self.end == m.end
    }
}

impl Default for MetaData {
    /// The record with no field set.
    fn default() -> (r: MetaData)
        ensures
            r.matches(meta_none()),
    {
        MetaData {
            name: None,
            line_length: None,
            size: None,
            crc32: None,
            pcrc32: None,
            part: None,
            total: None,
            begin: None,
            end: None,
        }
    }
}

/// The keyword named by a byte slice, if it is one of the known set.
fn match_keyword(kw: &[u8]) -> (r: Option<Keyword>)
    ensures
        r == keyword_of(kw@),
{
    let n = kw.len();
    if n == 3 && kw[0] == 101 && kw[1] == 110 && kw[2] == 100 {
        proof {
            assert(kw@ =~= seq![101u8, 110u8, 100u8]);
        }
        Some(Keyword::End)
    } else if n == 4 && kw[0] == 108 && kw[1] == 105 && kw[2] == 110 && kw[3] == 101 {
        proof {
            assert(kw@ =~= seq![108u8, 105u8, 110u8, 101u8]);
        }
        Some(Keyword::Line)
    } else if n == 4 && kw[0] == 110 && kw[1] == 97 && kw[2] == 109 && kw[3] == 101 {
        proof {
            assert(kw@ =~= seq![110u8, 97u8, 109u8, 101u8]);
        }
        Some(Keyword::Name)
    } else if n == 4 && kw[0] == 112 && kw[1] == 97 && kw[2] == 114 && kw[3] == 116 {
        proof {
            assert(kw@ =~= seq![112u8, 97u8, 114u8, 116u8]);
        }
        Some(Keyword::Part)
    } else if n == 4 && kw[0] == 115 && kw[1] == 105 && kw[2] == 122 && kw[3] == 101 {
        proof {
            assert(kw@ =~= seq![115u8, 105u8, 122u8, 101u8]);
        }
        Some(Keyword::Size)
    } else if n == 5 && kw[0] == 98 && kw[1] == 101 && kw[2] == 103 && kw[3] == 105 && kw[4]
        == 110 {
        proof {
            assert(kw@ =~= seq![98u8, 101u8, 103u8, 105u8, 110u8]);
        }
        Some(Keyword::Begin)
    } else if n == 5 && kw[0] == 99 && kw[1] == 114 && kw[2] == 99 && kw[3] == 51 && kw[4] == 50 {
        proof {
            assert(kw@ =~= seq![99u8, 114u8, 99u8, 51u8, 50u8]);
        }
        Some(Keyword::Crc32)
    } else if n == 5 && kw[0] == 116 && kw[1] == 111 && kw[2] == 116 && kw[3] == 97 && kw[4]
        == 108 {
        proof {
            assert(kw@ =~= seq![116u8, 111u8, 116u8, 97u8, 108u8]);
        }
        Some(Keyword::Total)
    } else if n == 6 && kw[0] == 112 && kw[1] == 99 && kw[2] == 114 && kw[3] == 99 && kw[4] == 51
        && kw[5] == 50 {
        proof {
            assert(kw@ =~= seq![112u8, 99u8, 114u8, 99u8, 51u8, 50u8]);
        }
        Some(Keyword::Pcrc32)
    } else {
        None
    }
}

/// Is the byte slice one of the keywords accepted on a control line?
pub fn is_known_keyword(keyword_slice: &[u8]) -> (r: bool)
    ensures
        r == (keyword_of(keyword_slice@) is Some),
{
    match_keyword(keyword_slice).is_some()
}

/// An accumulation span as an optional start index.
pub open spec fn opt_span(has: bool, start: usize) -> Option<int> {
    if has {
        Some(start as int)
    } else {
        None
    }
}

/// The exec parser position, mirrored into [`PState`] by [`gstate_of`].
enum EState {
    Kw,
    Val,
    Done,
}

/// The [`PState`] that the exec parser variables stand for.
spec fn gstate_of(
    state: EState,
    kw: Keyword,
    kw_has: bool,
    kw_start: usize,
    kw_end: usize,
    val_has: bool,
    val_start: usize,
    val_end: usize,
) -> PState {
    match state {
        EState::Kw => PState::InKeyword {
            kw_start: opt_span(kw_has, kw_start),
            kw_end: kw_end as int,
        },
        EState::Val => PState::InValue {
            kw,
            val_start: opt_span(val_has, val_start),
            val_end: val_end as int,
        },
        EState::Done => PState::Done,
    }
}

/// The bytes of an accumulation span, as a slice.
fn span_slice<'a>(line_buf: &'a [u8], has: bool, start: usize, end: usize) -> (r: &'a [u8])
    requires
        has ==> start <= end && end <= line_buf@.len(),
    ensures
        r@ == span_bytes(line_buf@, opt_span(has, start), end as int),
{
    if has {
        &line_buf[start..end]
    } else {
        let r = &line_buf[0..0];
        proof {
            assert(r@ =~= Seq::<u8>::empty());
        }
        r
    }
}

/// The offset after the control-line tag, or `None` when no tag matches.
fn header_offset_of(line_buf: &[u8]) -> (r: Option<usize>)
    ensures
        r matches Some(off) ==> header_offset(line_buf@) == Some(off as int),
        r is None ==> header_offset(line_buf@) is None,
{
    let n = line_buf.len();
    if n >= 8 && line_buf[0] == 61 && line_buf[1] == 121 && line_buf[2] == 98 && line_buf[3] == 101
        && line_buf[4] == 103 && line_buf[5] == 105 && line_buf[6] == 110 && line_buf[7] == 32 {
        proof {
            assert(line_buf@.subrange(0, 8) =~= prefix_ybegin());
        }
        Some(8)
    } else if n >= 6 && line_buf[0] == 61 && line_buf[1] == 121 && line_buf[2] == 101 && line_buf[3]
        == 110 && line_buf[4] == 100 && line_buf[5] == 32 {
        proof {
            assert(line_buf@.subrange(0, 6) =~= prefix_yend());
            assert(!has_prefix(line_buf@, prefix_ybegin()));
        }
        Some(6)
    } else if n >= 7 && line_buf[0] == 61 && line_buf[1] == 121 && line_buf[2] == 112 && line_buf[3]
        == 97 && line_buf[4] == 114 && line_buf[5] == 116 && line_buf[6] == 32 {
        proof {
            assert(line_buf@.subrange(0, 7) =~= prefix_ypart());
            assert(!has_prefix(line_buf@, prefix_ybegin()));
            assert(!has_prefix(line_buf@, prefix_yend()));
        }
        Some(7)
    } else {
        proof {
            if has_prefix(line_buf@, prefix_ybegin()) {
                assert(line_buf@[2] == prefix_ybegin()[2]);
                assert(false);
            }
            if has_prefix(line_buf@, prefix_yend()) {
                assert(line_buf@[2] == prefix_yend()[2]);
                assert(false);
            }
            if has_prefix(line_buf@, prefix_ypart()) {
                assert(line_buf@[2] == prefix_ypart()[2]);
                assert(false);
            }
        }
        None
    }
}

/// The length of the first line of `s`: everything up to and including the
/// first line feed, or all of `s` when it has none.
pub open spec fn first_line_len(s: Seq<u8>) -> int
    decreases s.len(),
{
    if s.len() == 0 {
        0
    } else if s[0] == LF {
        1
    } else {
        1 + first_line_len(s.drop_first())
    }
}

/// A non-empty stream has a non-empty first line, and it lies inside the
/// stream.
pub proof fn lemma_first_line_len_bounds(s: Seq<u8>)
    ensures
        s.len() > 0 ==> 1 <= first_line_len(s) <= s.len(),
        s.len() == 0 ==> first_line_len(s) == 0,
    decreases s.len(),
{
    if s.len() > 0 && s[0] != LF {
        lemma_first_line_len_bounds(s.drop_first());
    }
}

/// The line that starts at byte `i` of `s`.
pub open spec fn line_at(s: Seq<u8>, i: int) -> Seq<u8> {
    s.subrange(i, i + first_line_len(s.skip(i)))
}

/// The start of the first line at or after byte `i` that opens with
/// `=ybegin `, or `None` when the stream ends first.
pub open spec fn spec_scan_begin(s: Seq<u8>, i: int) -> Option<int>
    decreases s.len() - i,
    via spec_scan_begin_dec
{
    if i < 0 || i >= s.len() {
        None
    } else if has_prefix(line_at(s, i), prefix_ybegin()) {
        Some(i)
    } else {
        spec_scan_begin(s, i + first_line_len(s.skip(i)))
    }
}

#[via_fn]
proof fn spec_scan_begin_dec(s: Seq<u8>, i: int) {
    if 0 <= i < s.len() {
        lemma_first_line_len_bounds(s.skip(i));
    }
}

/// A contiguous run of decoded bytes placed at an absolute output offset.
pub ghost struct SegmentV {
    /// zero-based byte offset in the output file
    pub offset: u64,
    /// the bytes of the run
    pub data: Seq<u8>,
}

/// The state of the body loop: closed runs, the open run, everything decoded
/// so far (for the checksum), the metadata record, and whether the footer was
/// seen.
pub ghost struct BodyV {
    /// closed runs, in order
    pub done: Seq<SegmentV>,
    /// output offset of the open run
    pub cur_off: u64,
    /// decoded bytes of the open run
    pub cur: Seq<u8>,
    /// all decoded bytes, in decode order
    pub fed: Seq<u8>,
    /// the metadata record collected so far
    pub meta: MetaSpec,
    /// whether a `=yend` line was seen
    pub footer: bool,
}

/// How a decode pass fails.
pub ghost enum DecodeFail {
    /// the declared size does not match the decoded byte count
    Incomplete { expected: usize, actual: nat },
    /// a control line was rejected at a byte offset
    BadHeader { line: Seq<u8>, position: int },
    /// the declared checksum does not match the decoded bytes
    BadChecksum,
}

/// The body loop from byte `i`: each line is either a `=ypart` line (parsed;
/// a set `begin` closes the open run and starts a new one at `begin - 1`), a
/// `=yend` line (parsed; its `size`, `crc32` and `pcrc32` replace the record's
/// and the loop stops), or a body line (decoded and appended to the open run).
/// A `=ypart` line declaring `begin=0` is rejected: offsets are one-based.
pub open spec fn spec_body(s: Seq<u8>, i: int, st: BodyV) -> Result<BodyV, DecodeFail>
    decreases s.len() - i,
    via spec_body_dec
{
    if i < 0 || i >= s.len() {
        Ok(st)
    } else {
        let l = line_at(s, i);
        let next = i + first_line_len(s.skip(i));
        if has_prefix(l, prefix_ypart()) {
            match spec_parse_header(l) {
                Err(p) => Err(DecodeFail::BadHeader { line: l, position: p }),
                Ok(m) => {
                    let st2 = BodyV {
                        meta: MetaSpec { begin: m.begin, end: m.end, ..st.meta },
                        ..st
                    };
                    match m.begin {
                        Some(b) => if b == 0 {
                            Err(DecodeFail::BadHeader { line: l, position: 0 })
                        } else {
                            spec_body(
                                s,
                                next,
                                BodyV {
                                    done: st2.done.push(
                                        SegmentV { offset: st2.cur_off, data: st2.cur },
                                    ),
                                    cur_off: (b - 1) as u64,
                                    cur: Seq::empty(),
                                    ..st2
                                },
                            )
                        },
                        None => spec_body(s, next, st2),
                    }
                },
            }
        } else if has_prefix(l, prefix_yend()) {
            match spec_parse_header(l) {
                Err(p) => Err(DecodeFail::BadHeader { line: l, position: p }),
                Ok(m) => Ok(
                    BodyV {
                        meta: MetaSpec {
                            size: m.size,
                            crc32: m.crc32,
                            pcrc32: m.pcrc32,
                            ..st.meta
                        },
                        footer: true,
                        ..st
                    },
                ),
            }
        } else {
            let d = decode_bytes(l, true);
            spec_body(
                s,
                next,
                BodyV { cur: st.cur + d, fed: st.fed + d, ..st },
            )
        }
    }
}

#[via_fn]
proof fn spec_body_dec(s: Seq<u8>, i: int, st: BodyV) {
    if 0 <= i < s.len() {
        lemma_first_line_len_bounds(s.skip(i));
    }
}

/// What one decode pass hands back: whether a begin line was found, the
/// declared output name, and the decoded runs with their output offsets.
pub ghost struct OutcomeV {
    /// whether a `=ybegin` line was found
    pub found: bool,
    /// the declared output file name, raw
    pub name: Option<Seq<u8>>,
    /// the decoded runs, in order
    pub segments: Seq<SegmentV>,
}

/// The validation after the body loop: with a footer, a declared `pcrc32`
/// (else a declared `crc32`) must equal the checksum of all decoded bytes;
/// independently a declared `size` must equal the decoded byte count.
pub open spec fn spec_validate(st: BodyV) -> Result<OutcomeV, DecodeFail> {
    let segs = st.done.push(SegmentV { offset: st.cur_off, data: st.cur });
    let crc = crc32_of(st.fed);
    if st.footer && st.meta.pcrc32 is Some && st.meta.pcrc32 != Some(crc) {
        Err(DecodeFail::BadChecksum)
    } else if st.footer && st.meta.pcrc32 is None && st.meta.crc32 is Some && st.meta.crc32
        != Some(crc) {
        Err(DecodeFail::BadChecksum)
    } else if st.meta.size matches Some(sz) && sz != st.fed.len() {
        Err(DecodeFail::Incomplete { expected: st.meta.size->0, actual: st.fed.len() })
    } else {
        Ok(OutcomeV { found: true, name: st.meta.name, segments: segs })
    }
}

/// Law: when the footer declared a part checksum (else a whole-file
/// checksum) and it differs from the checksum of the decoded bytes, the
/// decode pass fails with the checksum error.
pub proof fn lemma_checksum_mismatch_rejected(st: BodyV)
    requires
        st.footer,
        ({
            ||| (st.meta.pcrc32 matches Some(c) && c != crc32_of(st.fed))
            ||| (st.meta.pcrc32 is None && (st.meta.crc32 matches Some(c) && c != crc32_of(
                st.fed,
            )))
        }),
    ensures
        spec_validate(st) == Err::<OutcomeV, DecodeFail>(DecodeFail::BadChecksum),
{
}

/// Law: when a size was declared and it differs from the decoded byte count,
/// the decode pass fails; when the checksum also agrees (or none applies),
/// the failure reports the declared and the actual size.
pub proof fn lemma_size_mismatch_rejected(st: BodyV)
    requires
        st.meta.size matches Some(sz) && sz != st.fed.len(),
    ensures
        spec_validate(st) is Err,
        (st.footer ==> ({
            &&& (st.meta.pcrc32 matches Some(c) ==> c == crc32_of(st.fed))
            &&& (st.meta.pcrc32 is None ==> (st.meta.crc32 matches Some(c) ==> c == crc32_of(
                st.fed,
            )))
        })) ==> spec_validate(st) == Err::<OutcomeV, DecodeFail>(
            DecodeFail::Incomplete { expected: st.meta.size->0, actual: st.fed.len() },
        ),
{
}

/// The fresh body state after the begin line parsed to `m0`.
pub open spec fn body_init(m0: MetaSpec) -> BodyV {
    BodyV {
        done: Seq::empty(),
        cur_off: 0u64,
        cur: Seq::empty(),
        fed: Seq::empty(),
        meta: m0,
        footer: false,
    }
}

/// One whole decode pass over `input`: scan for a `=ybegin` line (none found
/// is a successful no-op), parse it, run the body loop on the following
/// lines, then validate size and checksum.
pub open spec fn spec_decode_stream(input: Seq<u8>) -> Result<OutcomeV, DecodeFail> {
    match spec_scan_begin(input, 0) {
        None => Ok(OutcomeV { found: false, name: None, segments: Seq::empty() }),
        Some(bi) => {
            let l = line_at(input, bi);
            match spec_parse_header(l) {
                Err(p) => Err(DecodeFail::BadHeader { line: l, position: p }),
                Ok(m0) => match spec_body(
                    input,
                    bi + first_line_len(input.skip(bi)),
                    body_init(m0),
                ) {
                    Err(f) => Err(f),
                    Ok(st) => spec_validate(st),
                },
            }
        },
    }
}

/// Parse one raw control line into its metadata record, as given by
/// [`spec_parse_header`].  A rejected byte yields
/// [`DecodeError::InvalidHeader`] carrying the whole line as text and the
/// zero-based offset of that byte; a keyword left open at the end of the
/// line (no `=` follows it) is rejected at the keyword's start.
///
/// The line may hold a line feed only as its last byte; lines read up to and
/// including a line feed satisfy this.
#[verifier::rlimit(60)]
pub fn parse_header_line(line_buf: &[u8]) -> (r: Result<MetaData, DecodeError>)
    requires
        forall|j: int| 0 <= j < line_buf@.len() - 1 ==> line_buf@[j] != LF,
    ensures
        r is Ok <==> spec_parse_header(line_buf@) is Ok,
        spec_parse_header(line_buf@) matches Ok(m) ==> (r matches Ok(md) && md.matches(m)),
        r matches Err(e) ==> ({
            &&& e matches DecodeError::InvalidHeader { line, position }
            &&& line@ == lossy_of(line_buf@)
            &&& spec_parse_header(line_buf@) matches Err(p) && position == p
        }),
{
    let ghost s = line_buf@;
    let n = line_buf.len();
    let off = match header_offset_of(line_buf) {
        Some(o) => o,
        None => {
            return Err(
                DecodeError::InvalidHeader { line: bytes_to_string_lossy(line_buf), position: 0 },
            );
        },
    };
    let mut md = MetaData::default();
    let ghost mut gmeta = meta_none();
    let mut state = EState::Kw;
    let mut kw = Keyword::Name;
    let mut kw_has = false;
    let mut kw_start: usize = 0;
    let mut kw_end: usize = 0;
    let mut val_has = false;
    let mut val_start: usize = 0;
    let mut val_end: usize = 0;
    let mut i: usize = off;
    while i < n
        invariant
            s == line_buf@,
            n == line_buf@.len(),
            i <= n,
            forall|j: int| 0 <= j < line_buf@.len() - 1 ==> line_buf@[j] != LF,
            state matches EState::Done ==> i == n,
            state matches EState::Val ==> !kw_has,
            kw_has ==> kw_start < kw_end && kw_end <= i,
            !kw_has ==> kw_end == 0,
            val_has ==> val_start < val_end && val_end <= i,
            !val_has ==> val_end == 0,
            md.matches(gmeta),
            spec_parse_header(s) == parse_kv(
                s,
                i as int,
                gmeta,
                gstate_of(state, kw, kw_has, kw_start, kw_end, val_has, val_start, val_end),
            ),
        decreases n - i,
    {
        let ghost gmeta0 = gmeta;
        let ghost gst0 = gstate_of(state, kw, kw_has, kw_start, kw_end, val_has, val_start, val_end);
        let c = line_buf[i];
        match state {
            EState::Done => {
                proof {
                    assert(false);
                }
            },
            EState::Kw => {
                if (97 <= c && c <= 122) || (48 <= c && c <= 57) {
                    if !kw_has {
                        kw_has = true;
                        kw_start = i;
                    }
                    kw_end = i + 1;
                } else if c == ESCAPE {
                    let kwo = if kw_has {
                        match_keyword(&line_buf[kw_start..kw_end])
                    } else {
                        None
                    };
                    proof {
                        assert(kwo == keyword_of(
                            span_bytes(s, opt_span(kw_has, kw_start), kw_end as int),
                        ));
                    }
                    match kwo {
                        Some(k) => {
                            kw = k;
                            state = EState::Val;
                            kw_has = false;
                            kw_start = 0;
                            kw_end = 0;
                            val_has = false;
                            val_start = 0;
                            val_end = 0;
                        },
                        None => {
                            proof {
                                assert(parse_kv(s, i as int, gmeta0, gst0) == Err::<
                                    MetaSpec,
                                    int,
                                >(i as int));
                            }
                            return Err(
                                DecodeError::InvalidHeader {
                                    line: bytes_to_string_lossy(line_buf),
                                    position: i,
                                },
                            );
                        },
                    }
                } else if c == CR || c == LF {
                } else {
                    proof {
                        assert(parse_kv(s, i as int, gmeta0, gst0) == Err::<MetaSpec, int>(
                            i as int,
                        ));
                    }
                    return Err(
                        DecodeError::InvalidHeader {
                            line: bytes_to_string_lossy(line_buf),
                            position: i,
                        },
                    );
                }
            },
            EState::Val => {
                let is_dec = 48 <= c && c <= 57;
                let is_hex = is_dec || (97 <= c && c <= 102) || (65 <= c && c <= 70);
                let ghost vs0 = opt_span(val_has, val_start);
                let ghost ve0 = val_end as int;
                let ghost v = span_bytes(s, vs0, ve0);
                match kw {
                    Keyword::Name => {
                        if c == CR {
                        } else if c == LF {
                            let nm = bytes_to_string_lossy(
                                span_slice(line_buf, val_has, val_start, val_end),
                            );
                            md.name = Some(nm);
                            proof {
                                gmeta = MetaSpec { name: Some(v), ..gmeta };
                            }
                            state = EState::Done;
                            val_has = false;
                            val_start = 0;
                            val_end = 0;
                        } else {
                            if !val_has {
                                val_has = true;
                                val_start = i;
                            }
                            val_end = i + 1;
                        }
                    },
                    Keyword::Size => {
                        if is_dec {
                            if !val_has {
                                val_has = true;
                                val_start = i;
                            }
                            val_end = i + 1;
                            proof {
                                assert(parse_kv(s, i as int, gmeta0, gst0) == parse_kv(
                                    s,
                                    i + 1,
                                    gmeta,
                                    gstate_of(state, kw, kw_has, kw_start, kw_end, val_has, val_start, val_end),
                                ));
                            }
                        } else if c == SPACE {
                            let parsed = parse_dec_u64(
                                span_slice(line_buf, val_has, val_start, val_end),
                            );
                            let committed: Option<usize> = match parsed {
                                Some(x) => if x <= usize::MAX as u64 {
                                    Some(x as usize)
                                } else {
                                    None
                                },
                                None => None,
                            };
                            match committed {
                                Some(u) => {
                                    proof {
                                        assert(dec_commit(v, usize::MAX as nat) == Some(u as nat));
                                    }
                                    md.size = Some(u);
                                    proof {
                                        gmeta = MetaSpec { size: Some(u), ..gmeta };
                                    }
                                    state = EState::Kw;
                                    val_has = false;
                                    val_start = 0;
                                    val_end = 0;
                                    proof {
                                        lemma_step_size(s, i as int, gmeta0, vs0, ve0, u);
                                        assert(parse_kv(s, i as int, gmeta0, gst0) == parse_kv(
                                            s,
                                            i + 1,
                                            gmeta,
                                            gstate_of(state, kw, kw_has, kw_start, kw_end, val_has, val_start, val_end),
                                        ));
                                    }
                                },
                                None => {
                                    proof {
                                        assert(dec_commit(v, usize::MAX as nat) is None);
                                        assert(parse_kv(s, i as int, gmeta0, gst0) == Err::<
                                            MetaSpec,
                                            int,
                                        >(i as int));
                                    }
                                    return Err(
                                        DecodeError::InvalidHeader {
                                            line: bytes_to_string_lossy(line_buf),
                                            position: i,
                                        },
                                    );
                                },
                            }
                        } else {
                            proof {
                                assert(parse_kv(s, i as int, gmeta0, gst0) == Err::<MetaSpec, int>(
                                    i as int,
                                ));
                            }
                            return Err(
                                DecodeError::InvalidHeader {
                                    line: bytes_to_string_lossy(line_buf),
                                    position: i,
                                },
                            );
                        }
                    },
                    Keyword::Begin | Keyword::End => {
                        if is_dec {
                            if !val_has {
                                val_has = true;
                                val_start = i;
                            }
                            val_end = i + 1;
                            proof {
                                assert(parse_kv(s, i as int, gmeta0, gst0) == parse_kv(
                                    s,
                                    i + 1,
                                    gmeta,
                                    gstate_of(state, kw, kw_has, kw_start, kw_end, val_has, val_start, val_end),
                                ));
                            }
                        } else if c == SPACE || c == LF || c == CR {
                            let parsed = parse_dec_u64(
                                span_slice(line_buf, val_has, val_start, val_end),
                            );
                            let committed: Option<usize> = match parsed {
                                Some(x) => if x <= usize::MAX as u64 {
                                    Some(x as usize)
                                } else {
                                    None
                                },
                                None => None,
                            };
                            match committed {
                                Some(u) => {
                                    proof {
                                        assert(dec_commit(v, usize::MAX as nat) == Some(u as nat));
                                    }
                                    if kw == Keyword::Begin {
                                        md.begin = Some(u);
                                        proof {
                                            gmeta = MetaSpec { begin: Some(u), ..gmeta };
                                        }
                                    } else {
                                        md.end = Some(u);
                                        proof {
                                            gmeta = MetaSpec { end: Some(u), ..gmeta };
                                        }
                                    }
                                    state = EState::Kw;
                                    val_has = false;
                                    val_start = 0;
                                    val_end = 0;
                                    proof {
                                        lemma_step_begin_end(s, i as int, gmeta0, kw, vs0, ve0, u);
                                        assert(parse_kv(s, i as int, gmeta0, gst0) == parse_kv(
                                            s,
                                            i + 1,
                                            gmeta,
                                            gstate_of(state, kw, kw_has, kw_start, kw_end, val_has, val_start, val_end),
                                        ));
                                    }
                                },
                                None => {
                                    proof {
                                        assert(dec_commit(v, usize::MAX as nat) is None);
                                        assert(parse_kv(s, i as int, gmeta0, gst0) == Err::<
                                            MetaSpec,
                                            int,
                                        >(i as int));
                                    }
                                    return Err(
                                        DecodeError::InvalidHeader {
                                            line: bytes_to_string_lossy(line_buf),
                                            position: i,
                                        },
                                    );
                                },
                            }
                        } else {
                            proof {
                                assert(parse_kv(s, i as int, gmeta0, gst0) == Err::<MetaSpec, int>(
                                    i as int,
                                ));
                            }
                            return Err(
                                DecodeError::InvalidHeader {
                                    line: bytes_to_string_lossy(line_buf),
                                    position: i,
                                },
                            );
                        }
                    },
                    Keyword::Line => {
                        if is_dec {
                            if !val_has {
                                val_has = true;
                                val_start = i;
                            }
                            val_end = i + 1;
                            proof {
                                assert(parse_kv(s, i as int, gmeta0, gst0) == parse_kv(
                                    s,
                                    i + 1,
                                    gmeta,
                                    gstate_of(state, kw, kw_has, kw_start, kw_end, val_has, val_start, val_end),
                                ));
                            }
                        } else if c == SPACE {
                            let parsed = parse_dec_u64(
                                span_slice(line_buf, val_has, val_start, val_end),
                            );
                            let committed: Option<u16> = match parsed {
                                Some(x) => if x <= u16::MAX as u64 {
                                    Some(x as u16)
                                } else {
                                    None
                                },
                                None => None,
                            };
                            match committed {
                                Some(u) => {
                                    proof {
                                        assert(dec_commit(v, u16::MAX as nat) == Some(u as nat));
                                    }
                                    md.line_length = Some(u);
                                    proof {
                                        gmeta = MetaSpec { line_length: Some(u), ..gmeta };
                                    }
                                    state = EState::Kw;
                                    val_has = false;
                                    val_start = 0;
                                    val_end = 0;
                                    proof {
                                        lemma_step_line(s, i as int, gmeta0, vs0, ve0, u);
                                        assert(parse_kv(s, i as int, gmeta0, gst0) == parse_kv(
                                            s,
                                            i + 1,
                                            gmeta,
                                            gstate_of(state, kw, kw_has, kw_start, kw_end, val_has, val_start, val_end),
                                        ));
                                    }
                                },
                                None => {
                                    proof {
                                        assert(dec_commit(v, u16::MAX as nat) is None);
                                        assert(parse_kv(s, i as int, gmeta0, gst0) == Err::<
                                            MetaSpec,
                                            int,
                                        >(i as int));
                                    }
                                    return Err(
                                        DecodeError::InvalidHeader {
                                            line: bytes_to_string_lossy(line_buf),
                                            position: i,
                                        },
                                    );
                                },
                            }
                        } else {
                            proof {
                                assert(parse_kv(s, i as int, gmeta0, gst0) == Err::<MetaSpec, int>(
                                    i as int,
                                ));
                            }
                            return Err(
                                DecodeError::InvalidHeader {
                                    line: bytes_to_string_lossy(line_buf),
                                    position: i,
                                },
                            );
                        }
                    },
                    Keyword::Part | Keyword::Total => {
                        if is_dec {
                            if !val_has {
                                val_has = true;
                                val_start = i;
                            }
                            val_end = i + 1;
                            proof {
                                assert(parse_kv(s, i as int, gmeta0, gst0) == parse_kv(
                                    s,
                                    i + 1,
                                    gmeta,
                                    gstate_of(state, kw, kw_has, kw_start, kw_end, val_has, val_start, val_end),
                                ));
                            }
                        } else if c == SPACE {
                            let parsed = parse_dec_u64(
                                span_slice(line_buf, val_has, val_start, val_end),
                            );
                            let committed: Option<u32> = match parsed {
                                Some(x) => if x <= u32::MAX as u64 {
                                    Some(x as u32)
                                } else {
                                    None
                                },
                                None => None,
                            };
                            match committed {
                                Some(u) => {
                                    proof {
                                        assert(dec_commit(v, u32::MAX as nat) == Some(u as nat));
                                    }
                                    if kw == Keyword::Part {
                                        md.part = Some(u);
                                        proof {
                                            gmeta = MetaSpec { part: Some(u), ..gmeta };
                                        }
                                    } else {
                                        md.total = Some(u);
                                        proof {
                                            gmeta = MetaSpec { total: Some(u), ..gmeta };
                                        }
                                    }
                                    state = EState::Kw;
                                    val_has = false;
                                    val_start = 0;
                                    val_end = 0;
                                    proof {
                                        lemma_step_part_total(s, i as int, gmeta0, kw, vs0, ve0, u);
                                        assert(parse_kv(s, i as int, gmeta0, gst0) == parse_kv(
                                            s,
                                            i + 1,
                                            gmeta,
                                            gstate_of(state, kw, kw_has, kw_start, kw_end, val_has, val_start, val_end),
                                        ));
                                    }
                                },
                                None => {
                                    proof {
                                        assert(dec_commit(v, u32::MAX as nat) is None);
                                        assert(parse_kv(s, i as int, gmeta0, gst0) == Err::<
                                            MetaSpec,
                                            int,
                                        >(i as int));
                                    }
                                    return Err(
                                        DecodeError::InvalidHeader {
                                            line: bytes_to_string_lossy(line_buf),
                                            position: i,
                                        },
                                    );
                                },
                            }
                        } else {
                            proof {
                                assert(parse_kv(s, i as int, gmeta0, gst0) == Err::<MetaSpec, int>(
                                    i as int,
                                ));
                            }
                            return Err(
                                DecodeError::InvalidHeader {
                                    line: bytes_to_string_lossy(line_buf),
                                    position: i,
                                },
                            );
                        }
                    },
                    Keyword::Crc32 | Keyword::Pcrc32 => {
                        if is_hex {
                            if !val_has {
                                val_has = true;
                                val_start = i;
                            }
                            val_end = i + 1;
                            proof {
                                assert(parse_kv(s, i as int, gmeta0, gst0) == parse_kv(
                                    s,
                                    i + 1,
                                    gmeta,
                                    gstate_of(state, kw, kw_has, kw_start, kw_end, val_has, val_start, val_end),
                                ));
                            }
                        } else if c == SPACE || c == LF {
                            let parsed = parse_hex_u32(
                                span_slice(line_buf, val_has, val_start, val_end),
                            );
                            match parsed {
                                Some(u) => {
                                    proof {
                                        assert(hex_commit(v) == Some(u));
                                    }
                                    if kw == Keyword::Crc32 {
                                        md.crc32 = Some(u);
                                        proof {
                                            gmeta = MetaSpec { crc32: Some(u), ..gmeta };
                                        }
                                    } else {
                                        md.pcrc32 = Some(u);
                                        proof {
                                            gmeta = MetaSpec { pcrc32: Some(u), ..gmeta };
                                        }
                                    }
                                    if c == SPACE {
                                        state = EState::Kw;
                                    } else {
                                        state = EState::Done;
                                    }
                                    val_has = false;
                                    val_start = 0;
                                    val_end = 0;
                                    proof {
                                        lemma_step_crc(s, i as int, gmeta0, kw, vs0, ve0, u);
                                        assert(parse_kv(s, i as int, gmeta0, gst0) == parse_kv(
                                            s,
                                            i + 1,
                                            gmeta,
                                            gstate_of(state, kw, kw_has, kw_start, kw_end, val_has, val_start, val_end),
                                        ));
                                    }
                                },
                                None => {
                                    proof {
                                        assert(hex_commit(v) is None);
                                        assert(parse_kv(s, i as int, gmeta0, gst0) == Err::<
                                            MetaSpec,
                                            int,
                                        >(i as int));
                                    }
                                    return Err(
                                        DecodeError::InvalidHeader {
                                            line: bytes_to_string_lossy(line_buf),
                                            position: i,
                                        },
                                    );
                                },
                            }
                        } else if c == CR {
                        } else {
                            proof {
                                assert(parse_kv(s, i as int, gmeta0, gst0) == Err::<MetaSpec, int>(
                                    i as int,
                                ));
                            }
                            return Err(
                                DecodeError::InvalidHeader {
                                    line: bytes_to_string_lossy(line_buf),
                                    position: i,
                                },
                            );
                        }
                    },
                }
            },
        }
        proof {
            assert(parse_kv(s, i as int, gmeta0, gst0) == parse_kv(
                s,
                i + 1,
                gmeta,
                gstate_of(state, kw, kw_has, kw_start, kw_end, val_has, val_start, val_end),
            ));
        }
        i = i + 1;
    }
    let open_keyword = match state {
        EState::Kw => kw_has,
        _ => false,
    };
    if open_keyword {
        proof {
            assert(spec_parse_header(s) == Err::<MetaSpec, int>(kw_start as int));
        }
        return Err(
            DecodeError::InvalidHeader {
                line: bytes_to_string_lossy(line_buf),
                position: kw_start,
            },
        );
    }
    proof {
        assert(spec_parse_header(s) == Ok::<MetaSpec, int>(gmeta));
    }
    Ok(md)
}

/// One parser step that closes a `size` value at a space.
proof fn lemma_step_size(s: Seq<u8>, i: int, m: MetaSpec, vs: Option<int>, ve: int, u: usize)
    requires
        0 <= i < s.len(),
        s[i] == SPACE,
        dec_commit(span_bytes(s, vs, ve), usize::MAX as nat) == Some(u as nat),
    ensures
        parse_kv(s, i, m, PState::InValue { kw: Keyword::Size, val_start: vs, val_end: ve })
            == parse_kv(
            s,
            i + 1,
            MetaSpec { size: Some(u), ..m },
            PState::InKeyword { kw_start: None, kw_end: 0 },
        ),
{
}

/// One parser step that closes a `begin` or `end` value at a terminator.
proof fn lemma_step_begin_end(
    s: Seq<u8>,
    i: int,
    m: MetaSpec,
    kw: Keyword,
    vs: Option<int>,
    ve: int,
    u: usize,
)
    requires
        0 <= i < s.len(),
        s[i] == SPACE || s[i] == LF || s[i] == CR,
        kw is Begin || kw is End,
        dec_commit(span_bytes(s, vs, ve), usize::MAX as nat) == Some(u as nat),
    ensures
        parse_kv(s, i, m, PState::InValue { kw, val_start: vs, val_end: ve }) == parse_kv(
            s,
            i + 1,
            if kw is Begin {
                MetaSpec { begin: Some(u), ..m }
            } else {
                MetaSpec { end: Some(u), ..m }
            },
            PState::InKeyword { kw_start: None, kw_end: 0 },
        ),
{
}

/// One parser step that closes a `line` value at a space.
proof fn lemma_step_line(s: Seq<u8>, i: int, m: MetaSpec, vs: Option<int>, ve: int, u: u16)
    requires
        0 <= i < s.len(),
        s[i] == SPACE,
        dec_commit(span_bytes(s, vs, ve), u16::MAX as nat) == Some(u as nat),
    ensures
        parse_kv(s, i, m, PState::InValue { kw: Keyword::Line, val_start: vs, val_end: ve })
            == parse_kv(
            s,
            i + 1,
            MetaSpec { line_length: Some(u), ..m },
            PState::InKeyword { kw_start: None, kw_end: 0 },
        ),
{
}

/// One parser step that closes a `part` or `total` value at a space.
proof fn lemma_step_part_total(
    s: Seq<u8>,
    i: int,
    m: MetaSpec,
    kw: Keyword,
    vs: Option<int>,
    ve: int,
    u: u32,
)
    requires
        0 <= i < s.len(),
        s[i] == SPACE,
        kw is Part || kw is Total,
        dec_commit(span_bytes(s, vs, ve), u32::MAX as nat) == Some(u as nat),
    ensures
        parse_kv(s, i, m, PState::InValue { kw, val_start: vs, val_end: ve }) == parse_kv(
            s,
            i + 1,
            if kw is Part {
                MetaSpec { part: Some(u), ..m }
            } else {
                MetaSpec { total: Some(u), ..m }
            },
            PState::InKeyword { kw_start: None, kw_end: 0 },
        ),
{
}

/// One parser step that closes a `crc32` or `pcrc32` value at a space or the
/// final line feed.
proof fn lemma_step_crc(
    s: Seq<u8>,
    i: int,
    m: MetaSpec,
    kw: Keyword,
    vs: Option<int>,
    ve: int,
    u: u32,
)
    requires
        0 <= i < s.len(),
        s[i] == SPACE || s[i] == LF,
        kw is Crc32 || kw is Pcrc32,
        hex_commit(span_bytes(s, vs, ve)) == Some(u),
    ensures
        parse_kv(s, i, m, PState::InValue { kw, val_start: vs, val_end: ve }) == parse_kv(
            s,
            i + 1,
            if kw is Crc32 {
                MetaSpec { crc32: Some(u), ..m }
            } else {
                MetaSpec { pcrc32: Some(u), ..m }
            },
            if s[i] == SPACE {
                PState::InKeyword { kw_start: None, kw_end: 0 }
            } else {
                PState::Done
            },
        ),
{
}

/// One past the line feed that ends the line starting at `start`, or the end
/// of the input when no line feed follows.
fn next_line_end(input: &[u8], start: usize) -> (e: usize)
    requires
        start < input@.len(),
    ensures
        start < e <= input@.len(),
        e - start == first_line_len(input@.skip(start as int)),
        forall|k: int| start <= k < e - 1 ==> input@[k] != LF,
{
    let n = input.len();
    let mut j = start;
    while j < n
        invariant
            start <= j <= n,
            n == input@.len(),
            forall|k: int| start <= k < j ==> input@[k] != LF,
        decreases n - j,
    {
        if input[j] == LF {
            proof {
                let t = input@.skip(start as int);
                assert forall|x: int| 0 <= x < j - start implies t[x] != LF by {
                    assert(t[x] == input@[start + x]);
                }
                assert(t[j - start] == input@[j as int]);
                lemma_fll_lf(t, j - start);
            }
            return j + 1;
        }
        j = j + 1;
    }
    proof {
        let t = input@.skip(start as int);
        assert forall|x: int| 0 <= x < t.len() implies t[x] != LF by {
            assert(t[x] == input@[start + x]);
        }
        lemma_fll_none(t);
    }
    n
}

/// The first line runs up to the line feed at position `k`.
pub proof fn lemma_fll_lf(s: Seq<u8>, k: int)
    requires
        0 <= k < s.len(),
        s[k] == LF,
        forall|j: int| 0 <= j < k ==> s[j] != LF,
    ensures
        first_line_len(s) == k + 1,
    decreases k,
{
    if k > 0 {
        lemma_fll_lf(s.drop_first(), k - 1);
    }
}

/// With no line feed the first line is the whole stream.
pub proof fn lemma_fll_none(s: Seq<u8>)
    requires
        forall|j: int| 0 <= j < s.len() ==> s[j] != LF,
    ensures
        first_line_len(s) == s.len(),
    decreases s.len(),
{
    if s.len() > 0 {
        lemma_fll_none(s.drop_first());
    }
}

/// Does the line `input[start .. e]` open with `=ybegin `?
fn line_is_ybegin(input: &[u8], start: usize, e: usize) -> (r: bool)
    requires
        start <= e <= input@.len(),
    ensures
        r == has_prefix(input@.subrange(start as int, e as int), prefix_ybegin()),
{
    let r = e - start >= 8 && input[start] == 61 && input[start + 1] == 121 && input[start + 2]
        == 98 && input[start + 3] == 101 && input[start + 4] == 103 && input[start + 5] == 105
        && input[start + 6] == 110 && input[start + 7] == 32;
    proof {
        let l = input@.subrange(start as int, e as int);
        if r {
            assert(l.subrange(0, 8) =~= prefix_ybegin());
        } else if has_prefix(l, prefix_ybegin()) {
            assert forall|x: int| 0 <= x < 8 implies l[x] == prefix_ybegin()[x] by {
                assert(l.subrange(0, 8)[x] == l[x]);
            }
            assert(false);
        }
    }
    r
}

/// Does the line `input[start .. e]` open with `=ypart `?
fn line_is_ypart(input: &[u8], start: usize, e: usize) -> (r: bool)
    requires
        start <= e <= input@.len(),
    ensures
        r == has_prefix(input@.subrange(start as int, e as int), prefix_ypart()),
{
    let r = e - start >= 7 && input[start] == 61 && input[start + 1] == 121 && input[start + 2]
        == 112 && input[start + 3] == 97 && input[start + 4] == 114 && input[start + 5] == 116
        && input[start + 6] == 32;
    proof {
        let l = input@.subrange(start as int, e as int);
        if r {
            assert(l.subrange(0, 7) =~= prefix_ypart());
        } else if has_prefix(l, prefix_ypart()) {
            assert forall|x: int| 0 <= x < 7 implies l[x] == prefix_ypart()[x] by {
                assert(l.subrange(0, 7)[x] == l[x]);
            }
            assert(false);
        }
    }
    r
}

/// Does the line `input[start .. e]` open with `=yend `?
fn line_is_yend(input: &[u8], start: usize, e: usize) -> (r: bool)
    requires
        start <= e <= input@.len(),
    ensures
        r == has_prefix(input@.subrange(start as int, e as int), prefix_yend()),
{
    let r = e - start >= 6 && input[start] == 61 && input[start + 1] == 121 && input[start + 2]
        == 101 && input[start + 3] == 110 && input[start + 4] == 100 && input[start + 5] == 32;
    proof {
        let l = input@.subrange(start as int, e as int);
        if r {
            assert(l.subrange(0, 6) =~= prefix_yend());
        } else if has_prefix(l, prefix_yend()) {
            assert forall|x: int| 0 <= x < 6 implies l[x] == prefix_yend()[x] by {
                assert(l.subrange(0, 6)[x] == l[x]);
            }
            assert(false);
        }
    }
    r
}

/// A contiguous run of decoded bytes to be written at an absolute offset of
/// the output file.
#[derive(Debug)]
pub struct Segment {
    /// zero-based byte offset in the output file
    pub offset: u64,
    /// the decoded bytes of the run
    pub data: Vec<u8>,
}

/// The runs a vector of segments stands for.
pub open spec fn segs_view(s: Seq<Segment>) -> Seq<SegmentV> {
    s.map_values(|seg: Segment| SegmentV { offset: seg.offset, data: seg.data@ })
}

/// What one decode pass hands back: whether a `=ybegin` line was found, the
/// declared output name, and the decoded runs with their output offsets.
/// The caller places each run at its offset in the output file.
#[derive(Debug)]
pub struct DecodeOutcome {
    /// whether a `=ybegin` line was found; when false, nothing was decoded
    pub found: bool,
    /// the declared output file name, untrimmed, as lossy UTF-8 text
    pub name: Option<String>,
    /// the decoded runs, in order
    pub segments: Vec<Segment>,
}

impl DecodeOutcome {
    /// This outcome holds exactly the runs and name of `o`.
    pub open spec fn matches(self, o: OutcomeV) -> bool {
        &&& self.found == o.found
        &&& (self.name is Some <==> o.name is Some)
        &&& (o.name matches Some(b) ==> self.name matches Some(nm) && nm@ == lossy_of(b))
        &&& segs_view(self.segments@) == o.segments
    }
}

/// The error `e` reports the failure `f`, with control lines as lossy UTF-8
/// text.
pub open spec fn fail_matches(e: DecodeError, f: DecodeFail) -> bool {
    match f {
        DecodeFail::Incomplete { expected, actual } => e matches DecodeError::IncompleteData {
            expected_size,
            actual_size,
        } && expected_size == expected && actual_size == actual,
        DecodeFail::BadHeader { line, position } => e matches DecodeError::InvalidHeader {
            line: l,
            position: p,
        } && l@ == lossy_of(line) && p == position,
        DecodeFail::BadChecksum => e is InvalidChecksum,
    }
}

/// Options for decoding: the directory where the decoded file is placed.
#[derive(Debug)]
pub struct DecodeOptions {
    output_dir: String,
}

impl View for DecodeOptions {
    type V = Seq<char>;

    closed spec fn view(&self) -> Seq<char> {
        self.output_dir@
    }
}

impl DecodeOptions {
    /// Construct new options using `output_dir` as the output directory.
    pub fn new(output_dir: String) -> (r: DecodeOptions)
        ensures
            r@ == output_dir@,
    {
        DecodeOptions { output_dir }
    }

    /// The output directory these options were built with.
    pub fn output_dir(&self) -> (r: &String)
        ensures
            r@ == self@,
    {
        &self.output_dir
    }

    /// Decode one whole message, as given by [`spec_decode_stream`]: scan for
    /// a `=ybegin` line (a stream without one decodes to a no-op outcome),
    /// parse it, decode the body line by line while honouring `=ypart` seeks
    /// and the `=yend` footer, and validate the declared size and checksum.
    ///
    /// The options carry only the output directory, which the caller combines
    /// with the outcome's name; the decoding itself does not read it.
    pub fn decode_stream(&self, input: &[u8]) -> (r: Result<DecodeOutcome, DecodeError>)
        ensures
            r is Ok <==> spec_decode_stream(input@) is Ok,
            spec_decode_stream(input@) matches Ok(o) ==> (r matches Ok(oc) && oc.matches(o)),
            r matches Err(e) ==> (spec_decode_stream(input@) matches Err(f) && fail_matches(e, f)),
    {
        let n = input.len();
        let mut li: usize = 0;
        let mut found = false;
        while !found && li < n
            invariant
                n == input@.len(),
                li <= n,
                spec_scan_begin(input@, 0) == if found {
                    Some(li as int)
                } else {
                    spec_scan_begin(input@, li as int)
                },
                found ==> li < n,
            decreases n - li + (if found { 0int } else { 1int }),
        {
            let le = next_line_end(input, li);
            proof {
                assert(input@.subrange(li as int, le as int) == line_at(input@, li as int));
            }
            if line_is_ybegin(input, li, le) {
                found = true;
            } else {
                proof {
                    assert(spec_scan_begin(input@, li as int) == spec_scan_begin(
                        input@,
                        le as int,
                    ));
                }
                li = le;
            }
        }
        if !found {
            let segs: Vec<Segment> = Vec::new();
            proof {
                assert(spec_scan_begin(input@, 0) is None);
                assert(segs_view(segs@) =~= Seq::<SegmentV>::empty());
            }
            return Ok(DecodeOutcome { found: false, name: None, segments: segs });
        }
        let ghost bi = li as int;
        let le = next_line_end(input, li);
        let bl = &input[li..le];
        proof {
            assert(bl@ == line_at(input@, bi));
        }
        let md0 = match parse_header_line(bl) {
            Ok(m) => m,
            Err(e) => {
                return Err(e);
            },
        };
        let ghost m0 = spec_parse_header(line_at(input@, bi))->Ok_0;
        li = le;
        let mut md = md0;
        let ghost mut gmeta = m0;
        let mut segments: Vec<Segment> = Vec::new();
        let mut cur_off: u64 = 0;
        let mut cur: Vec<u8> = Vec::new();
        let mut checksum = Crc32::new();
        let mut footer_found = false;
        let ghost fres = spec_body(input@, li as int, body_init(m0));
        proof {
            assert(segs_view(segments@) =~= Seq::<SegmentV>::empty());
            assert(body_init(m0) == (BodyV {
                done: segs_view(segments@),
                cur_off: cur_off,
                cur: cur@,
                fed: checksum.bytes(),
                meta: gmeta,
                footer: false,
            }));
        }
        while !footer_found && li < n
            invariant
                n == input@.len(),
                li <= n,
                checksum.wf(),
                checksum.bytes().len() <= li,
                md.matches(gmeta),
                fres == if footer_found {
                    Result::<BodyV, DecodeFail>::Ok(
                        BodyV {
                            done: segs_view(segments@),
                            cur_off,
                            cur: cur@,
                            fed: checksum.bytes(),
                            meta: gmeta,
                            footer: true,
                        },
                    )
                } else {
                    spec_body(
                        input@,
                        li as int,
                        BodyV {
                            done: segs_view(segments@),
                            cur_off,
                            cur: cur@,
                            fed: checksum.bytes(),
                            meta: gmeta,
                            footer: false,
                        },
                    )
                },
                spec_decode_stream(input@) == match fres {
                    Ok(st) => spec_validate(st),
                    Err(f) => Err::<OutcomeV, DecodeFail>(f),
                },
            decreases n - li + (if footer_found { 0int } else { 1int }),
        {
            let ghost gst = BodyV {
                done: segs_view(segments@),
                cur_off,
                cur: cur@,
                fed: checksum.bytes(),
                meta: gmeta,
                footer: false,
            };
            let le = next_line_end(input, li);
            let lb = &input[li..le];
            let ghost l = line_at(input@, li as int);
            proof {
                assert(lb@ == l);
            }
            if line_is_ypart(input, li, le) {
                let pm = match parse_header_line(lb) {
                    Ok(m) => m,
                    Err(e) => {
                        proof {
                            assert(fres == spec_body(input@, li as int, gst));
                        }
                        return Err(e);
                    },
                };
                let ghost gm = spec_parse_header(l)->Ok_0;
                md.begin = pm.begin;
                md.end = pm.end;
                proof {
                    gmeta = MetaSpec { begin: gm.begin, end: gm.end, ..gmeta };
                }
                match pm.begin {
                    Some(b) => {
                        if b == 0 {
                            return Err(
                                DecodeError::InvalidHeader {
                                    line: bytes_to_string_lossy(lb),
                                    position: 0,
                                },
                            );
                        }
                        segments.push(Segment { offset: cur_off, data: cur });
                        cur = Vec::new();
                        cur_off = (b - 1) as u64;
                        proof {
                            assert(segs_view(segments@) =~= gst.done.push(
                                SegmentV { offset: gst.cur_off, data: gst.cur },
                            ));
                            assert(spec_body(input@, li as int, gst) == spec_body(
                                input@,
                                le as int,
                                BodyV {
                                    done: segs_view(segments@),
                                    cur_off,
                                    cur: cur@,
                                    fed: checksum.bytes(),
                                    meta: gmeta,
                                    footer: false,
                                },
                            ));
                        }
                    },
                    None => {
                        proof {
                            assert(spec_body(input@, li as int, gst) == spec_body(
                                input@,
                                le as int,
                                BodyV {
                                    done: segs_view(segments@),
                                    cur_off,
                                    cur: cur@,
                                    fed: checksum.bytes(),
                                    meta: gmeta,
                                    footer: false,
                                },
                            ));
                        }
                    },
                }
            } else if line_is_yend(input, li, le) {
                let mm = match parse_header_line(lb) {
                    Ok(m) => m,
                    Err(e) => {
                        proof {
                            assert(fres == spec_body(input@, li as int, gst));
                        }
                        return Err(e);
                    },
                };
                let ghost gm = spec_parse_header(l)->Ok_0;
                md.size = mm.size;
                md.crc32 = mm.crc32;
                md.pcrc32 = mm.pcrc32;
                proof {
                    gmeta = MetaSpec { size: gm.size, crc32: gm.crc32, pcrc32: gm.pcrc32, ..gmeta };
                }
                footer_found = true;
                proof {
                    assert(spec_body(input@, li as int, gst) == Result::<BodyV, DecodeFail>::Ok(
                        BodyV {
                            done: segs_view(segments@),
                            cur_off,
                            cur: cur@,
                            fed: checksum.bytes(),
                            meta: gmeta,
                            footer: true,
                        },
                    ));
                }
            } else {
                let decoded = match decode_buffer(lb) {
                    Ok(d) => d,
                    Err(e) => {
                        proof {
                            assert(false);
                        }
                        return Err(e);
                    },
                };
                proof {
                    lemma_decode_len(l, true);
                }
                checksum.update_with_slice(decoded.as_slice());
                cur.extend_from_slice(decoded.as_slice());
                proof {
                    assert(cur@ =~= gst.cur + decoded@);
                    assert(spec_body(input@, li as int, gst) == spec_body(
                        input@,
                        le as int,
                        BodyV {
                            done: segs_view(segments@),
                            cur_off,
                            cur: cur@,
                            fed: checksum.bytes(),
                            meta: gmeta,
                            footer: false,
                        },
                    ));
                }
            }
            li = le;
        }
        segments.push(Segment { offset: cur_off, data: cur });
        let ghost stf = fres->Ok_0;
        proof {
            assert(fres == Result::<BodyV, DecodeFail>::Ok(
                BodyV {
                    done: stf.done,
                    cur_off: stf.cur_off,
                    cur: stf.cur,
                    fed: checksum.bytes(),
                    meta: gmeta,
                    footer: footer_found,
                },
            ));
            assert(segs_view(segments@) =~= stf.done.push(
                SegmentV { offset: stf.cur_off, data: stf.cur },
            ));
        }
        if footer_found {
            match md.pcrc32 {
                Some(pc) => {
                    let c = checksum.crc();
                    if pc != c {
                        return Err(DecodeError::InvalidChecksum);
                    }
                },
                None => {
                    match md.crc32 {
                        Some(cc) => {
                            let c = checksum.crc();
                            if cc != c {
                                return Err(DecodeError::InvalidChecksum);
                            }
                        },
                        None => {},
                    }
                },
            }
        }
        match md.size {
            Some(sz) => {
                let nb = checksum.num_bytes();
                if sz != nb {
                    return Err(
                        DecodeError::IncompleteData { expected_size: sz, actual_size: nb },
                    );
                }
            },
            None => {},
        }
        Ok(DecodeOutcome { found: true, name: md.name, segments })
    }
}

} // verus!
