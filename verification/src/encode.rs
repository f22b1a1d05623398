//! The yEnc encoder: per-byte transform, line-wrapping buffer encoder, and
//! the stream encoder that frames a body with `=ybegin`/`=ypart`/`=yend`
//! control lines.

use vstd::prelude::*;

use crate::constants::{
    lit_begin_eq, lit_crc32_eq, lit_end_eq, lit_line_eq, lit_name_eq, lit_part_eq, lit_pcrc32_eq,
    lit_size_eq, prefix_ybegin, prefix_yend, prefix_ypart, CR, DEFAULT_LINE_SIZE, DOT, ESCAPE, LF,
    NUL, SPACE,
};
use crate::crc32::{crc32_of, Crc32};
use crate::errors::EncodeError;
use crate::numfmt::{dec_digits, hex8_of, push_dec_u64, push_hex8_u32};

verus! {

/// Addition modulo 256.
pub open spec fn wrap_add(b: u8, k: u8) -> u8 {
    if b + k > 255 {
        (b + k - 256) as u8
    } else {
        (b + k) as u8
    }
}

/// Subtraction modulo 256.
pub open spec fn wrap_sub(b: u8, k: u8) -> u8 {
    if b - k < 0 {
        (b - k + 256) as u8
    } else {
        (b - k) as u8
    }
}

/// The shifted form of an input byte: the input plus 42, modulo 256.
pub open spec fn encoded_byte_of(b: u8) -> u8 {
    wrap_add(b, 42)
}

/// Shifted bytes that collide with the wire format and must be escaped.
pub open spec fn needs_escape(e: u8) -> bool {
    e == NUL || e == CR || e == LF || e == ESCAPE
}

/// The bytes emitted for one input byte at column `col`, without wrapping:
/// an escape pair, a doubled dot at column 0, or the shifted byte alone.
pub open spec fn encode_emit(b: u8, col: int) -> Seq<u8> {
    let e = encoded_byte_of(b);
    if needs_escape(e) {
        seq![ESCAPE, wrap_add(e, 64)]
    } else if e == DOT && col == 0 {
        seq![DOT, DOT]
    } else {
        seq![e]
    }
}

/// The bytes emitted for one input byte, with the CR LF pair appended when
/// the column reaches the line length.
pub open spec fn encode_step_out(b: u8, col: int, ll: int) -> Seq<u8> {
    let e = encode_emit(b, col);
    if col + e.len() >= ll {
        e + seq![CR, LF]
    } else {
        e
    }
}

/// The column after encoding one input byte at column `col`.
pub open spec fn encode_step_col(b: u8, col: int, ll: int) -> int {
    let e = encode_emit(b, col);
    if col + e.len() >= ll {
        0
    } else {
        col + e.len()
    }
}

/// All bytes emitted for the input sequence `s`, starting at column `col`
/// with maximum line length `ll`.
pub open spec fn encode_bytes(s: Seq<u8>, col: int, ll: int) -> Seq<u8>
    decreases s.len(),
{
    if s.len() == 0 {
        Seq::empty()
    } else {
        encode_step_out(s[0], col, ll) + encode_bytes(
            s.drop_first(),
            encode_step_col(s[0], col, ll),
            ll,
        )
    }
}

/// The column after encoding the whole input sequence `s`.
pub open spec fn encode_end_col(s: Seq<u8>, col: int, ll: int) -> int
    decreases s.len(),
{
    if s.len() == 0 {
        col
    } else {
        encode_end_col(s.drop_first(), encode_step_col(s[0], col, ll), ll)
    }
}

/// Encode a single byte: returns the escape pair `(ESCAPE, shifted + 64)`
/// when the shifted byte collides with the wire format, and otherwise the
/// shifted byte alone with 0 in the second slot.
#[inline(always)]
pub fn encode_byte(input_byte: u8) -> (output: (u8, u8))
    ensures
        needs_escape(encoded_byte_of(input_byte)) ==> output == (
            ESCAPE,
            wrap_add(encoded_byte_of(input_byte), 64),
        ),
        !needs_escape(encoded_byte_of(input_byte)) ==> output == (encoded_byte_of(input_byte), 0u8),
{
    let out = input_byte.wrapping_add(42);
    if out == NUL || out == CR || out == LF || out == ESCAPE {
        (ESCAPE, out.wrapping_add(64))
    } else {
        (out, 0)
    }
}

/// Encode the input buffer, starting at column `col` and wrapping lines at
/// `line_length` encoded bytes.  Returns the encoded bytes together with the
/// column after the final byte, so a caller can chain successive buffers into
/// one continuous line-wrapped output.
///
/// Does not produce the header and footer lines; only
/// [`EncodeOptions::encode_stream`] frames the output.
pub fn encode_buffer(input: &[u8], col: u8, line_length: u8) -> (r: (Vec<u8>, u8))
    ensures
        r.0@ == encode_bytes(input@, col as int, line_length as int),
        r.1 == encode_end_col(input@, col as int, line_length as int),
{
    let ghost ll = line_length as int;
    let ghost col0 = col as int;
    let mut v: Vec<u8> = Vec::new();
    let mut c: u16 = col as u16;
    let mut i: usize = 0;
    proof {
        assert(input@.skip(0) =~= input@);
    }
    while i < input.len()
        invariant
            ll == line_length as int,
            i <= input@.len(),
            c <= 255,
            encode_bytes(input@, col0, ll) == v@ + encode_bytes(
                input@.skip(i as int),
                c as int,
                ll,
            ),
            encode_end_col(input@, col0, ll) == encode_end_col(input@.skip(i as int), c as int, ll),
        decreases input@.len() - i,
    {
        let ghost c_in = c as int;
        let ghost rest = input@.skip(i as int);
        let ghost v_before = v@;
        proof {
            assert(rest.len() == input@.len() - i);
            assert(rest[0] == input@[i as int]);
            assert(rest.drop_first() =~= input@.skip(i + 1));
        }
        let b = input[i];
        let enc = encode_byte(b);
        v.push(enc.0);
        if enc.0 == ESCAPE {
            v.push(enc.1);
            c = c + 2;
            proof {
                assert(needs_escape(encoded_byte_of(b)));
                assert(v@ =~= v_before + encode_emit(b, c_in));
            }
        } else if enc.0 == DOT && c == 0 {
            v.push(DOT);
            c = c + 2;
            proof {
                assert(!needs_escape(encoded_byte_of(b)) && encoded_byte_of(b) == DOT && c_in
                    == 0);
                assert(v@ =~= v_before + encode_emit(b, c_in));
            }
        } else {
            c = c + 1;
            proof {
                assert(!needs_escape(encoded_byte_of(b)));
                assert(!(encoded_byte_of(b) == DOT && c_in == 0));
                assert(v@ =~= v_before + encode_emit(b, c_in));
            }
        }
        proof {
            assert(c as int == c_in + encode_emit(b, c_in).len());
        }
        if c >= line_length as u16 {
            v.push(CR);
            v.push(LF);
            c = 0;
            proof {
                assert(encode_step_out(b, c_in, ll) == encode_emit(b, c_in) + seq![CR, LF]);
                assert(v@ =~= v_before + (encode_emit(b, c_in) + seq![CR, LF]));
            }
        } else {
            proof {
                assert(encode_step_out(b, c_in, ll) == encode_emit(b, c_in));
            }
        }
        proof {
            assert(v@ =~= v_before + encode_step_out(b, c_in, ll));
            assert(c as int == encode_step_col(b, c_in, ll));
            assert(encode_bytes(rest, c_in, ll) == encode_step_out(b, c_in, ll) + encode_bytes(
                input@.skip(i + 1),
                c as int,
                ll,
            ));
            assert(encode_end_col(rest, c_in, ll) == encode_end_col(
                input@.skip(i + 1),
                c as int,
                ll,
            ));
            assert(v_before + (encode_step_out(b, c_in, ll) + encode_bytes(
                input@.skip(i + 1),
                c as int,
                ll,
            )) =~= v@ + encode_bytes(input@.skip(i + 1), c as int, ll));
        }
        i = i + 1;
    }
    proof {
        assert(input@.skip(input@.len() as int) =~= Seq::<u8>::empty());
        assert(encode_bytes(input@, col0, ll) =~= v@);
    }
    (v, c as u8)
}

/// The configuration that a set of encode options stands for.
pub ghost struct EncodeOptionsV {
    /// maximum encoded bytes per output line
    pub line_length: u8,
    /// total number of parts
    pub parts: u32,
    /// one-based number of the part being encoded
    pub part: u32,
    /// one-based offset of the first source byte of this part
    pub begin: u64,
    /// one-based offset of the last source byte of this part
    pub end: u64,
}

/// Options for encoding: line length, part count, and for multi-part output
/// the part number and its one-based inclusive source range.
#[derive(Debug)]
pub struct EncodeOptions {
    line_length: u8,
    parts: u32,
    part: u32,
    begin: u64,
    end: u64,
}

impl View for EncodeOptions {
    type V = EncodeOptionsV;

    closed spec fn view(&self) -> EncodeOptionsV {
        EncodeOptionsV {
            line_length: self.line_length,
            parts: self.parts,
            part: self.part,
            begin: self.begin,
            end: self.end,
        }
    }
}

/// The default configuration: line length 128, one part, part number and
/// offsets unset.
pub open spec fn default_options() -> EncodeOptionsV {
    EncodeOptionsV { line_length: DEFAULT_LINE_SIZE, parts: 1u32, part: 0u32, begin: 0u64, end: 0u64 }
}

/// With multiple parts the part number and both offsets must be set and the
/// range must not be inverted; with one part nothing is checked.
pub open spec fn options_valid(o: EncodeOptionsV) -> bool {
    o.parts > 1 ==> (o.part != 0 && o.begin != 0 && o.end != 0 && o.begin <= o.end)
}

/// The error that [`EncodeOptions::check_options`] reports for an invalid
/// configuration: the first rule violated, in a fixed order.
pub open spec fn options_error_is(o: EncodeOptionsV, e: EncodeError) -> bool {
    if o.part == 0 {
        e is PartNumberMissing
    } else if o.begin == 0 {
        e is PartBeginOffsetMissing
    } else if o.end == 0 {
        e is PartEndOffsetMissing
    } else {
        e is PartOffsetsInvalidRange
    }
}

impl Default for EncodeOptions {
    /// The default options, as given by [`default_options`].
    fn default() -> (r: EncodeOptions)
        ensures
            r@ == default_options(),
    {
        EncodeOptions {
            line_length: DEFAULT_LINE_SIZE,
            parts: 1,
            part: 0,
            begin: 0,
            end: 0,
        }
    }
}

impl EncodeOptions {
    /// Construct the default options, as given by [`default_options`].
    pub fn new() -> (r: EncodeOptions)
        ensures
            r@ == default_options(),
    {
        Default::default()
    }

    /// Set the maximum line length.
    pub fn line_length(self, line_length: u8) -> (r: EncodeOptions)
        ensures
            r@ == (EncodeOptionsV { line_length, ..self@ }),
    {
        EncodeOptions { line_length, ..self }
    }

    /// Set the number of parts (default 1).  With one part no `=ypart` line
    /// is written.
    pub fn parts(self, parts: u32) -> (r: EncodeOptions)
        ensures
            r@ == (EncodeOptionsV { parts, ..self@ }),
    {
        EncodeOptions { parts, ..self }
    }

    /// Set the one-based part number.  Only used when `parts > 1`.
    pub fn part(self, part: u32) -> (r: EncodeOptions)
        ensures
            r@ == (EncodeOptionsV { part, ..self@ }),
    {
        EncodeOptions { part, ..self }
    }

    /// Set the one-based offset of the first source byte of this part.
    /// The size of the part is `end - begin + 1`.
    pub fn begin(self, begin: u64) -> (r: EncodeOptions)
        ensures
            r@ == (EncodeOptionsV { begin, ..self@ }),
    {
        EncodeOptions { begin, ..self }
    }

    /// Set the one-based offset of the last source byte of this part.
    /// The size of the part is `end - begin + 1`.
    pub fn end(self, end: u64) -> (r: EncodeOptions)
        ensures
            r@ == (EncodeOptionsV { end, ..self@ }),
    {
        EncodeOptions { end, ..self }
    }

    /// Check the options: `Ok` exactly when [`options_valid`] holds, and
    /// otherwise the first violated rule as given by [`options_error_is`].
    pub fn check_options(&self) -> (r: Result<(), EncodeError>)
        ensures
            r is Ok <==> options_valid(self@),
            r matches Err(e) ==> !options_valid(self@) && options_error_is(self@, e),
    {
        if self.parts > 1 && self.part == 0 {
            return Err(EncodeError::PartNumberMissing);
        }
        if self.parts > 1 && self.begin == 0 {
            return Err(EncodeError::PartBeginOffsetMissing);
        }
        if self.parts > 1 && self.end == 0 {
            return Err(EncodeError::PartEndOffsetMissing);
        }
        if self.parts > 1 && self.begin > self.end {
            return Err(EncodeError::PartOffsetsInvalidRange);
        }
        Ok(())
    }

    /// Encode the source range `begin ..= end` of `input` into one complete
    /// message, as given by [`spec_encode_stream`]: begin line (declaring
    /// `length` as the size and `input_filename` as the name), part line for
    /// multi-part output, line-wrapped body, and a footer carrying the byte
    /// count and CRC-32 checksum of the bytes actually encoded.
    ///
    /// Fails exactly on options that [`check_options`] rejects, with the same
    /// error.  The source range must lie inside `input`.
    pub fn encode_stream(&self, input: &[u8], length: u64, input_filename: &[u8]) -> (r: Result<
        Vec<u8>,
        EncodeError,
    >)
        requires
            options_valid(self@) ==> 1 <= self@.begin && self@.begin <= self@.end && self@.end
                <= input@.len(),
        ensures
            r is Ok <==> options_valid(self@),
            r matches Err(e) ==> !options_valid(self@) && options_error_is(self@, e),
            r matches Ok(v) ==> v@ == spec_encode_stream(self@, input@, length, input_filename@),
    {
        match self.check_options() {
            Ok(_) => {},
            Err(e) => {
                return Err(e);
            },
        }
        let mut out: Vec<u8> = Vec::new();
        self.emit_header(length, input_filename, &mut out);
        self.emit_part_line(&mut out);
        let ghost framed = spec_header_line(self@, length, input_filename@) + spec_part_line(
            self@,
        );
        let ilen = input.len();
        proof {
            assert(self@.end <= ilen);
        }
        let b0 = (self.begin - 1) as usize;
        let e0 = self.end as usize;
        let data = &input[b0..e0];
        proof {
            assert(data@ == input@.subrange(self@.begin - 1, self@.end as int));
        }
        let mut checksum = Crc32::new();
        checksum.update_with_slice(data);
        let enc = encode_buffer(data, 0, self.line_length);
        let body = enc.0;
        out.extend_from_slice(body.as_slice());
        out.push(CR);
        out.push(LF);
        proof {
            assert(out@ =~= framed + encode_bytes(data@, 0, self@.line_length as int) + seq![
                CR,
                LF,
            ]);
        }
        let ghost with_body = out@;
        let nb = checksum.num_bytes();
        let crc = checksum.crc();
        self.emit_footer(nb as u64, crc, &mut out);
        proof {
            assert(out@ == with_body + spec_footer_line(self@, nb as nat, crc));
            assert(out@ =~= spec_encode_stream(self@, input@, length, input_filename@));
        }
        Ok(out)
    }

    /// Append the `=ybegin` line, as given by [`spec_header_line`].
    #[verifier::rlimit(100)]
    fn emit_header(&self, length: u64, input_filename: &[u8], out: &mut Vec<u8>)
        ensures
            final(out)@ == old(out)@ + spec_header_line(self@, length, input_filename@),
    {
        let ghost out0 = old(out)@;
        out.push(ESCAPE);
        out.push(121);
        out.push(98);
        out.push(101);
        out.push(103);
        out.push(105);
        out.push(110);
        out.push(SPACE);
        proof {
            assert(out@ =~= out0 + prefix_ybegin());
        }
        let ghost part_field = if self@.parts == 1 {
            Seq::<u8>::empty()
        } else {
            lit_part_eq() + dec_digits(self@.part as nat) + seq![SPACE]
        };
        if self.parts != 1 {
            out.push(112);
            out.push(97);
            out.push(114);
            out.push(116);
            out.push(61);
            push_dec_u64(self.part as u64, out);
            out.push(SPACE);
        }
        proof {
            assert(out@ =~= out0 + (prefix_ybegin() + part_field));
        }
        let ghost opened = out@;
        out.push(108);
        out.push(105);
        out.push(110);
        out.push(101);
        out.push(61);
        push_dec_u64(self.line_length as u64, out);
        out.push(SPACE);
        proof {
            assert(out@ =~= opened + (lit_line_eq() + dec_digits(self@.line_length as nat) + seq![
                SPACE,
            ]));
        }
        let ghost lined = out@;
        out.push(115);
        out.push(105);
        out.push(122);
        out.push(101);
        out.push(61);
        push_dec_u64(length, out);
        out.push(SPACE);
        proof {
            assert(out@ =~= lined + (lit_size_eq() + dec_digits(length as nat) + seq![SPACE]));
        }
        let ghost sized = out@;
        out.push(110);
        out.push(97);
        out.push(109);
        out.push(101);
        out.push(61);
        out.extend_from_slice(input_filename);
        out.push(CR);
        out.push(LF);
        proof {
            assert(out@ =~= sized + (lit_name_eq() + input_filename@ + seq![CR, LF]));
            assert(out@ =~= out0 + spec_header_line(self@, length, input_filename@));
        }
    }

    /// Append the `=ypart` line for multi-part output, as given by
    /// [`spec_part_line`]; nothing with one part.
    fn emit_part_line(&self, out: &mut Vec<u8>)
        ensures
            final(out)@ == old(out)@ + spec_part_line(self@),
    {
        let ghost out0 = old(out)@;
        if self.parts > 1 {
            out.push(ESCAPE);
            out.push(121);
            out.push(112);
            out.push(97);
            out.push(114);
            out.push(116);
            out.push(SPACE);
            out.push(98);
            out.push(101);
            out.push(103);
            out.push(105);
            out.push(110);
            out.push(61);
            push_dec_u64(self.begin, out);
            out.push(SPACE);
            out.push(101);
            out.push(110);
            out.push(100);
            out.push(61);
            push_dec_u64(self.end, out);
            out.push(CR);
            out.push(LF);
            proof {
                assert(out@ =~= out0 + spec_part_line(self@));
            }
        } else {
            proof {
                assert(out@ =~= out0 + spec_part_line(self@));
            }
        }
    }

    /// Append the `=yend` line, as given by [`spec_footer_line`].
    #[verifier::rlimit(100)]
    fn emit_footer(&self, size: u64, crc: u32, out: &mut Vec<u8>)
        ensures
            final(out)@ == old(out)@ + spec_footer_line(self@, size as nat, crc),
    {
        let ghost out0 = old(out)@;
        out.push(ESCAPE);
        out.push(121);
        out.push(101);
        out.push(110);
        out.push(100);
        out.push(SPACE);
        out.push(115);
        out.push(105);
        out.push(122);
        out.push(101);
        out.push(61);
        push_dec_u64(size, out);
        proof {
            assert(out@ =~= out0 + prefix_yend() + lit_size_eq() + dec_digits(size as nat));
        }
        let ghost sized = out@;
        out.push(SPACE);
        if self.parts > 1 {
            out.push(112);
            out.push(97);
            out.push(114);
            out.push(116);
            out.push(61);
            push_dec_u64(self.part as u64, out);
            out.push(SPACE);
            out.push(112);
            out.push(99);
            out.push(114);
            out.push(99);
            out.push(51);
            out.push(50);
            out.push(61);
            push_hex8_u32(crc, out);
            proof {
                assert(out@ =~= sized + (seq![SPACE] + lit_part_eq() + dec_digits(self@.part as nat)
                    + seq![SPACE] + lit_pcrc32_eq() + hex8_of(crc)));
            }
        } else {
            out.push(99);
            out.push(114);
            out.push(99);
            out.push(51);
            out.push(50);
            out.push(61);
            push_hex8_u32(crc, out);
            proof {
                assert(out@ =~= sized + (seq![SPACE] + lit_crc32_eq() + hex8_of(crc)));
            }
        }
        out.push(CR);
        out.push(LF);
        proof {
            assert(out@ =~= out0 + spec_footer_line(self@, size as nat, crc));
        }
    }
}

/// The `=ybegin` line: the part number is included only when the
/// configuration has more than one part.
pub open spec fn spec_header_line(o: EncodeOptionsV, length: u64, name: Seq<u8>) -> Seq<u8> {
    let part_field = if o.parts == 1 {
        Seq::<u8>::empty()
    } else {
        lit_part_eq() + dec_digits(o.part as nat) + seq![SPACE]
    };
    (prefix_ybegin() + part_field) + (lit_line_eq() + dec_digits(o.line_length as nat) + seq![
        SPACE,
    ]) + (lit_size_eq() + dec_digits(length as nat) + seq![SPACE]) + (lit_name_eq() + name + seq![
        CR,
        LF,
    ])
}

/// The `=ypart` line, present only with more than one part.
pub open spec fn spec_part_line(o: EncodeOptionsV) -> Seq<u8> {
    if o.parts > 1 {
        prefix_ypart() + lit_begin_eq() + dec_digits(o.begin as nat) + seq![SPACE] + lit_end_eq()
            + dec_digits(o.end as nat) + seq![CR, LF]
    } else {
        Seq::<u8>::empty()
    }
}

/// The `=yend` line: the byte count actually encoded, then either the part
/// number and its part checksum, or the whole-file checksum.
pub open spec fn spec_footer_line(o: EncodeOptionsV, size: nat, crc: u32) -> Seq<u8> {
    let tail = if o.parts > 1 {
        seq![SPACE] + lit_part_eq() + dec_digits(o.part as nat) + seq![SPACE] + lit_pcrc32_eq()
            + hex8_of(crc)
    } else {
        seq![SPACE] + lit_crc32_eq() + hex8_of(crc)
    };
    prefix_yend() + lit_size_eq() + dec_digits(size) + tail + seq![CR, LF]
}

/// The whole encoded message for the source range `begin ..= end` of
/// `input`: begin line, part line for multi-part output, line-wrapped body,
/// and the footer after one closing CR LF.
pub open spec fn spec_encode_stream(
    o: EncodeOptionsV,
    input: Seq<u8>,
    length: u64,
    name: Seq<u8>,
) -> Seq<u8> {
    let data = input.subrange(o.begin - 1, o.end as int);
    spec_header_line(o, length, name) + spec_part_line(o) + encode_bytes(
        data,
        0,
        o.line_length as int,
    ) + seq![CR, LF] + spec_footer_line(o, data.len(), crc32_of(data))
}

} // verus!
