//! Round-trip laws: the line-wrapped output of the encoder, decoded line by
//! line the way the stream decoder works, reproduces the source bytes — for
//! every input, with no side condition.  (The buffer-level round trip, which
//! decodes the whole buffer in one call and therefore needs the dot-stuffing
//! side condition, is [`crate::decode::lemma_decode_inverts_encode`].)

use vstd::prelude::*;

use crate::constants::{CR, ESCAPE, LF, SPACE};
use crate::decode::{
    dec_commit, decode_bytes, dot_stuff_free, first_line_len, hex_commit, keyword_of,
    lemma_decode_inverts_encode, line_at, parse_kv, span_bytes, spec_body, BodyV, Keyword,
    MetaSpec, PState,
};
use crate::numfmt::{all_dec_digits, all_hex_digits, dec_val, hex_val};
use crate::encode::{
    encode_bytes, encode_emit, encode_end_col, encode_step_col, encode_step_out, spec_footer_line,
    spec_header_line, spec_part_line, EncodeOptionsV,
};
use crate::numfmt::{dec_digits, lemma_dec_digits_val};

verus! {

/// Decoding the bytes emitted for the whole of `s` recovers `s` and leaves a
/// trailing stream to be decoded off line-start.
proof fn lemma_decode_encode_tail(s: Seq<u8>, col: int, ll: int, at_start: bool, tail: Seq<u8>)
    requires
        dot_stuff_free(s, col, ll, at_start),
        at_start ==> col == 0,
        s.len() > 0,
    ensures
        decode_bytes(encode_bytes(s, col, ll) + tail, at_start) == s + decode_bytes(tail, false),
    decreases s.len(),
{
    let b = s[0];
    let col2 = encode_step_col(b, col, ll);
    let erest = encode_bytes(s.drop_first(), col2, ll);
    assert(encode_step_out(b, col, ll) + erest + tail =~= encode_step_out(b, col, ll) + (erest
        + tail));
    if s.len() == 1 {
        assert(erest + tail =~= tail);
        crate::decode::lemma_decode_one_step(b, col, ll, at_start, tail);
        assert(seq![b] + decode_bytes(tail, false) =~= s + decode_bytes(tail, false));
    } else {
        lemma_decode_encode_tail(s.drop_first(), col2, ll, false, tail);
        crate::decode::lemma_decode_one_step(b, col, ll, at_start, erest + tail);
        assert(seq![b] + (s.drop_first() + decode_bytes(tail, false)) =~= s + decode_bytes(
            tail,
            false,
        ));
    }
}

/// Encoding splits at any point: the tail continues at the column where the
/// head ended.
proof fn lemma_encode_concat(s: Seq<u8>, i: int, col: int, ll: int)
    requires
        0 <= i <= s.len(),
    ensures
        encode_bytes(s, col, ll) == encode_bytes(s.take(i), col, ll) + encode_bytes(
            s.skip(i),
            encode_end_col(s.take(i), col, ll),
            ll,
        ),
        encode_end_col(s, col, ll) == encode_end_col(
            s.skip(i),
            encode_end_col(s.take(i), col, ll),
            ll,
        ),
    decreases i,
{
    if i == 0 {
        assert(s.take(0) =~= Seq::<u8>::empty());
        assert(s.skip(0) =~= s);
        assert(encode_bytes(s.take(0), col, ll) + encode_bytes(s, col, ll) =~= encode_bytes(
            s,
            col,
            ll,
        ));
    } else {
        let b = s[0];
        let c2 = encode_step_col(b, col, ll);
        lemma_encode_concat(s.drop_first(), i - 1, c2, ll);
        assert(s.take(i).drop_first() =~= s.drop_first().take(i - 1));
        assert(s.skip(i) =~= s.drop_first().skip(i - 1));
        assert(s.take(i)[0] == b);
        let mid = encode_end_col(s.take(i), col, ll);
        assert(mid == encode_end_col(s.drop_first().take(i - 1), c2, ll));
        assert(encode_step_out(b, col, ll) + (encode_bytes(s.drop_first().take(i - 1), c2, ll)
            + encode_bytes(s.skip(i), mid, ll)) =~= (encode_step_out(b, col, ll) + encode_bytes(
            s.drop_first().take(i - 1),
            c2,
            ll,
        )) + encode_bytes(s.skip(i), mid, ll));
    }
}

/// How many input bytes the first output line covers: up to and including
/// the first byte whose emission wraps, or all of them when none wraps.
pub open spec fn first_wrap_split(s: Seq<u8>, col: int, ll: int) -> int
    decreases s.len(),
{
    if s.len() == 0 {
        0
    } else if encode_step_col(s[0], col, ll) == 0 {
        1
    } else {
        1 + first_wrap_split(s.drop_first(), encode_step_col(s[0], col, ll), ll)
    }
}

/// The split point lies inside the input, and a split strictly inside means
/// the line ended with a wrap.
proof fn lemma_split_bounds(s: Seq<u8>, col: int, ll: int)
    requires
        s.len() > 0,
    ensures
        1 <= first_wrap_split(s, col, ll) <= s.len(),
        first_wrap_split(s, col, ll) < s.len() ==> encode_end_col(
            s.take(first_wrap_split(s, col, ll)),
            col,
            ll,
        ) == 0,
        first_wrap_split(s, col, ll) == s.len() ==> encode_end_col(s, col, ll) == encode_end_col(
            s.take(first_wrap_split(s, col, ll)),
            col,
            ll,
        ),
    decreases s.len(),
{
    let k = first_wrap_split(s, col, ll);
    let c2 = encode_step_col(s[0], col, ll);
    if c2 == 0 || s.len() == 1 {
        assert(k == 1) by {
            if c2 != 0 {
                assert(first_wrap_split(s.drop_first(), c2, ll) == 0);
            }
        }
        assert(s.take(1).drop_first() =~= Seq::<u8>::empty());
        assert(s.take(1)[0] == s[0]);
        assert(encode_end_col(Seq::<u8>::empty(), c2, ll) == c2);
        assert(encode_end_col(s.take(1), col, ll) == c2);
        if s.len() == 1 {
            assert(s.drop_first() =~= Seq::<u8>::empty());
            assert(encode_end_col(s, col, ll) == c2);
        }
    } else {
        lemma_split_bounds(s.drop_first(), c2, ll);
        let k2 = first_wrap_split(s.drop_first(), c2, ll);
        assert(k == 1 + k2);
        assert(s.take(k).drop_first() =~= s.drop_first().take(k2));
        assert(s.take(k)[0] == s[0]);
        assert(encode_end_col(s.take(k), col, ll) == encode_end_col(
            s.drop_first().take(k2),
            c2,
            ll,
        ));
    }
}

/// Within one output line the column returns to 0 only at a wrap, so the
/// input bytes of the first line never dot-stuff past its first byte.
proof fn lemma_split_dot_free(s: Seq<u8>, col: int, ll: int, at_start: bool)
    requires
        at_start ==> col == 0,
        !at_start ==> col != 0,
    ensures
        dot_stuff_free(s.take(first_wrap_split(s, col, ll)), col, ll, at_start),
    decreases s.len(),
{
    if s.len() == 0 {
        assert(s.take(0) =~= Seq::<u8>::empty());
    } else {
        let k = first_wrap_split(s, col, ll);
        let c2 = encode_step_col(s[0], col, ll);
        lemma_split_bounds(s, col, ll);
        assert(s.take(k)[0] == s[0]);
        if c2 == 0 {
            assert(k == 1);
            assert(s.take(1).drop_first() =~= Seq::<u8>::empty());
            assert(dot_stuff_free(Seq::<u8>::empty(), c2, ll, false));
        } else {
            lemma_split_dot_free(s.drop_first(), c2, ll, false);
            assert(s.take(k).drop_first() =~= s.drop_first().take(k - 1));
        }
    }
}

/// The shape of the first output line: its first byte is no line feed and no
/// carriage return, an opening escape is never followed by the letter `y`,
/// and a line feed appears exactly at a wrap.
proof fn lemma_line_bytes(s: Seq<u8>, col: int, ll: int)
    requires
        s.len() > 0,
        col >= 0,
    ensures
        ({
            let k = first_wrap_split(s, col, ll);
            let e = encode_bytes(s.take(k), col, ll);
            &&& e.len() >= 1
            &&& e[0] != LF && e[0] != CR
            &&& (e[0] == ESCAPE ==> e.len() >= 2 && e[1] != 121)
            &&& if encode_end_col(s.take(k), col, ll) == 0 {
                e.len() >= 2 && e[e.len() - 1] == LF && (forall|i: int|
                    0 <= i < e.len() - 1 ==> e[i] != LF)
            } else {
                forall|i: int| 0 <= i < e.len() ==> e[i] != LF
            }
        }),
    decreases s.len(),
{
    let k = first_wrap_split(s, col, ll);
    let b = s[0];
    let c2 = encode_step_col(b, col, ll);
    let em = encode_emit(b, col);
    let so = encode_step_out(b, col, ll);
    lemma_split_bounds(s, col, ll);
    assert(s.take(k)[0] == b);
    assert(em.len() >= 1 && em[0] != LF && em[0] != CR && em[em.len() - 1] != LF && em[em.len() - 1]
        != CR);
    assert(em[0] == ESCAPE ==> em.len() >= 2 && em[1] != 121);
    assert(forall|i: int| 0 <= i < em.len() ==> em[i] != LF);
    if c2 == 0 || s.len() == 1 {
        assert(k == 1) by {
            if c2 != 0 {
                assert(first_wrap_split(s.drop_first(), c2, ll) == 0);
            }
        }
        assert(s.take(1).drop_first() =~= Seq::<u8>::empty());
        let e = encode_bytes(s.take(1), col, ll);
        assert(encode_bytes(Seq::<u8>::empty(), c2, ll) =~= Seq::<u8>::empty());
        assert(e =~= so);
        assert(encode_end_col(Seq::<u8>::empty(), c2, ll) == c2);
        assert(encode_end_col(s.take(1), col, ll) == c2);
        if c2 == 0 {
            assert(col + em.len() >= ll);
            assert(so =~= em + seq![CR, LF]);
        } else {
            assert(so == em);
        }
    } else {
        lemma_line_bytes(s.drop_first(), c2, ll);
        let k2 = first_wrap_split(s.drop_first(), c2, ll);
        assert(k == 1 + k2);
        assert(s.take(k).drop_first() =~= s.drop_first().take(k2));
        let e2 = encode_bytes(s.drop_first().take(k2), c2, ll);
        let e = encode_bytes(s.take(k), col, ll);
        assert(so == em);
        assert(e == em + e2);
        assert(encode_end_col(s.take(k), col, ll) == encode_end_col(
            s.drop_first().take(k2),
            c2,
            ll,
        ));
        assert(e.len() == em.len() + e2.len());
        assert(forall|i: int| 0 <= i < em.len() ==> e[i] == em[i]);
        assert(forall|i: int| em.len() <= i < e.len() ==> e[i] == e2[i - em.len()]);
    }
}

/// One wrapped output line, fed to the body loop, appends exactly the input
/// bytes of that line to the open run and the checksummed bytes.
#[verifier::rlimit(100)]
proof fn lemma_body_one_line(wire: Seq<u8>, i: int, s: Seq<u8>, ll: int, st: BodyV, rest: Seq<u8>)
    requires
        0 <= i <= wire.len(),
        s.len() > 0,
        encode_end_col(s.take(first_wrap_split(s, 0, ll)), 0, ll) == 0,
        wire.skip(i) == encode_bytes(s.take(first_wrap_split(s, 0, ll)), 0, ll) + rest,
    ensures
        spec_body(wire, i, st) == spec_body(
            wire,
            i + encode_bytes(s.take(first_wrap_split(s, 0, ll)), 0, ll).len(),
            BodyV {
                cur: st.cur + s.take(first_wrap_split(s, 0, ll)),
                fed: st.fed + s.take(first_wrap_split(s, 0, ll)),
                ..st
            },
        ),
{
    let suffix = wire.skip(i);
    let k = first_wrap_split(s, 0, ll);
    lemma_split_bounds(s, 0, ll);
    lemma_split_dot_free(s, 0, ll, true);
    lemma_line_bytes(s, 0, ll);
    let head = s.take(k);
    let e1 = encode_bytes(head, 0, ll);
    assert(suffix.len() == e1.len() + rest.len());
    assert(i < wire.len());
    assert forall|x: int| 0 <= x < e1.len() implies suffix[x] == e1[x] by {}
    assert(first_line_len(suffix) == e1.len()) by {
        assert(suffix[e1.len() - 1] == e1[e1.len() - 1]);
        crate::decode::lemma_fll_lf(suffix, e1.len() - 1);
    }
    let l = line_at(wire, i);
    assert(l =~= e1);
    assert(!crate::constants::has_prefix(l, crate::constants::prefix_ypart())) by {
        if crate::constants::has_prefix(l, crate::constants::prefix_ypart()) {
            assert(l.subrange(0, 7)[0] == l[0] && l.subrange(0, 7)[1] == l[1]);
            assert(l[0] == 61 && l[1] == 121);
        }
    }
    assert(!crate::constants::has_prefix(l, crate::constants::prefix_yend())) by {
        if crate::constants::has_prefix(l, crate::constants::prefix_yend()) {
            assert(l.subrange(0, 6)[0] == l[0] && l.subrange(0, 6)[1] == l[1]);
            assert(l[0] == 61 && l[1] == 121);
        }
    }
    lemma_decode_inverts_encode(head, 0, ll, true);
    assert(decode_bytes(l, true) == head);
}

/// An unwrapped final stretch of output, closed by the explicit CR LF pair,
/// is one line of the body loop and appends exactly its input bytes.
#[verifier::rlimit(100)]
proof fn lemma_body_last_line(wire: Seq<u8>, i: int, s: Seq<u8>, ll: int, st: BodyV, ftr: Seq<u8>)
    requires
        0 <= i <= wire.len(),
        s.len() > 0,
        first_wrap_split(s, 0, ll) == s.len(),
        encode_end_col(s.take(first_wrap_split(s, 0, ll)), 0, ll) != 0,
        wire.skip(i) == encode_bytes(s, 0, ll) + seq![CR, LF] + ftr,
    ensures
        spec_body(wire, i, st) == spec_body(
            wire,
            i + encode_bytes(s, 0, ll).len() + 2,
            BodyV { cur: st.cur + s, fed: st.fed + s, ..st },
        ),
{
    let suffix = wire.skip(i);
    let k = first_wrap_split(s, 0, ll);
    lemma_split_bounds(s, 0, ll);
    lemma_split_dot_free(s, 0, ll, true);
    lemma_line_bytes(s, 0, ll);
    let head = s.take(k);
    assert(head =~= s);
    let e = encode_bytes(s, 0, ll);
    assert(suffix.len() == e.len() + 2 + ftr.len());
    assert(i < wire.len());
    assert forall|x: int| 0 <= x < e.len() implies suffix[x] == e[x] by {}
    assert(suffix[e.len() as int] == CR && suffix[e.len() + 1int] == LF);
    assert(first_line_len(suffix) == e.len() + 2) by {
        crate::decode::lemma_fll_lf(suffix, e.len() + 1 as int);
    }
    let l = line_at(wire, i);
    assert(l =~= e + seq![CR, LF]);
    assert(e.len() >= 1);
    assert(l[0] == e[0]);
    assert(l[0] == ESCAPE ==> l[1] != 121) by {
        if e[0] == ESCAPE {
            assert(l[1] == e[1]);
        }
    }
    assert(!crate::constants::has_prefix(l, crate::constants::prefix_ypart())) by {
        if crate::constants::has_prefix(l, crate::constants::prefix_ypart()) {
            assert(l.subrange(0, 7)[0] == l[0] && l.subrange(0, 7)[1] == l[1]);
            assert(l[0] == 61 && l[1] == 121);
        }
    }
    assert(!crate::constants::has_prefix(l, crate::constants::prefix_yend())) by {
        if crate::constants::has_prefix(l, crate::constants::prefix_yend()) {
            assert(l.subrange(0, 6)[0] == l[0] && l.subrange(0, 6)[1] == l[1]);
            assert(l[0] == 61 && l[1] == 121);
        }
    }
    lemma_decode_encode_tail(s, 0, ll, true, seq![CR, LF]);
    crate::decode::lemma_decode_crlf(Seq::<u8>::empty());
    assert(seq![CR, LF] + Seq::<u8>::empty() =~= seq![CR, LF]);
    assert(decode_bytes(Seq::<u8>::empty(), false) =~= Seq::<u8>::empty());
    assert(decode_bytes(l, true) =~= s);
}

/// The empty body region: one CR LF line that decodes to nothing.
proof fn lemma_body_empty(wire: Seq<u8>, i: int, st: BodyV, ftr: Seq<u8>)
    requires
        0 <= i <= wire.len(),
        wire.skip(i) == seq![CR, LF] + ftr,
    ensures
        spec_body(wire, i, st) == spec_body(wire, i + 2, st),
{
    let suffix = wire.skip(i);
    assert(suffix[0] == CR && suffix[1] == LF);
    assert(suffix.len() >= 2);
    assert(i < wire.len());
    assert(first_line_len(suffix) == 2) by {
        assert(suffix.drop_first() =~= seq![LF] + ftr);
        assert((seq![LF] + ftr)[0] == LF);
        assert(first_line_len(seq![LF] + ftr) == 1);
    }
    let l = line_at(wire, i);
    assert(l =~= seq![CR, LF]);
    assert(!crate::constants::has_prefix(l, crate::constants::prefix_ypart()));
    assert(!crate::constants::has_prefix(l, crate::constants::prefix_yend()));
    let d = decode_bytes(l, true);
    assert(l[0] == CR);
    assert(l.drop_first() =~= seq![LF]);
    assert(d == decode_bytes(seq![LF], false));
    assert(seq![LF][0] == LF);
    assert(seq![LF].drop_first() =~= Seq::<u8>::empty());
    assert(decode_bytes(seq![LF], false) == decode_bytes(Seq::<u8>::empty(), false));
    assert(d =~= Seq::<u8>::empty());
    assert(BodyV { cur: st.cur + d, fed: st.fed + d, ..st } == st) by {
        assert(st.cur + d =~= st.cur);
        assert(st.fed + d =~= st.fed);
    }
}

/// Law: the stream decoder's body loop, fed the line-wrapped encoding of `s`
/// followed by the closing CR LF pair, appends exactly `s` to the open run
/// and to the checksummed bytes and stops right at what follows — for every
/// byte sequence `s`, with no side condition.  Together with the contracts of
/// [`crate::encode::EncodeOptions::encode_stream`] and
/// [`crate::decode::DecodeOptions::decode_stream`] this says that a decode of
/// an encoded message reproduces the encoded source range, whether the
/// message is the whole file or one part placed by a `=ypart` line.
pub proof fn lemma_body_region(wire: Seq<u8>, i: int, s: Seq<u8>, ll: int, st: BodyV, ftr: Seq<u8>)
    requires
        0 <= i <= wire.len(),
        wire.skip(i) == encode_bytes(s, 0, ll) + seq![CR, LF] + ftr,
    ensures
        spec_body(wire, i, st) == spec_body(
            wire,
            i + encode_bytes(s, 0, ll).len() + 2,
            BodyV { cur: st.cur + s, fed: st.fed + s, ..st },
        ),
    decreases s.len(),
{
    if s.len() == 0 {
        assert(encode_bytes(s, 0, ll) =~= Seq::<u8>::empty());
        assert(wire.skip(i) =~= seq![CR, LF] + ftr);
        lemma_body_empty(wire, i, BodyV { cur: st.cur + s, fed: st.fed + s, ..st }, ftr);
        assert(BodyV { cur: st.cur + s, fed: st.fed + s, ..st } == st) by {
            assert(st.cur + s =~= st.cur);
            assert(st.fed + s =~= st.fed);
        }
    } else {
        let k = first_wrap_split(s, 0, ll);
        lemma_split_bounds(s, 0, ll);
        let head = s.take(k);
        let e1 = encode_bytes(head, 0, ll);
        lemma_encode_concat(s, k, 0, ll);
        if encode_end_col(head, 0, ll) == 0 {
            let e2 = encode_bytes(s.skip(k), 0, ll);
            assert(encode_bytes(s, 0, ll) == e1 + e2);
            assert(wire.skip(i) =~= e1 + (e2 + seq![CR, LF] + ftr));
            lemma_body_one_line(wire, i, s, ll, st, e2 + seq![CR, LF] + ftr);
            let st2 = BodyV { cur: st.cur + head, fed: st.fed + head, ..st };
            let suffix = wire.skip(i);
            assert(suffix.len() == e1.len() + e2.len() + 2 + ftr.len());
            assert forall|x: int| 0 <= x < suffix.len() - e1.len() implies #[trigger] wire.skip(
                i + e1.len(),
            )[x] == suffix[x + e1.len()] by {
                assert(wire.skip(i + e1.len())[x] == wire[i + e1.len() + x]);
                assert(suffix[x + e1.len()] == wire[i + (x + e1.len())]);
            }
            assert(wire.skip(i + e1.len()) =~= encode_bytes(s.skip(k), 0, ll) + seq![CR, LF]
                + ftr);
            lemma_body_region(wire, i + e1.len(), s.skip(k), ll, st2, ftr);
            assert(st2.cur + s.skip(k) =~= st.cur + s);
            assert(st2.fed + s.skip(k) =~= st.fed + s);
            assert(BodyV { cur: st2.cur + s.skip(k), fed: st2.fed + s.skip(k), ..st2 } == (BodyV {
                cur: st.cur + s,
                fed: st.fed + s,
                ..st
            }));
        } else {
            assert(k == s.len());
            lemma_body_last_line(wire, i, s, ll, st, ftr);
        }
    }
}

/// The largest value each numeric keyword accepts.
pub open spec fn keyword_max(kwt: Keyword) -> nat {
    match kwt {
        Keyword::Line => u16::MAX as nat,
        Keyword::Part | Keyword::Total => u32::MAX as nat,
        _ => usize::MAX as nat,
    }
}

/// The record after committing the value `n` under the numeric keyword `kwt`.
pub open spec fn dec_commit_meta(kwt: Keyword, meta: MetaSpec, n: nat) -> MetaSpec {
    match kwt {
        Keyword::Size => MetaSpec { size: Some(n as usize), ..meta },
        Keyword::Line => MetaSpec { line_length: Some(n as u16), ..meta },
        Keyword::Part => MetaSpec { part: Some(n as u32), ..meta },
        Keyword::Total => MetaSpec { total: Some(n as u32), ..meta },
        Keyword::Begin => MetaSpec { begin: Some(n as usize), ..meta },
        _ => MetaSpec { end: Some(n as usize), ..meta },
    }
}

/// Reading the known keyword spelled at `start` moves the parser from a fresh
/// keyword into the value of that keyword, past the `=`.
proof fn lemma_parse_keyword_bytes(
    s: Seq<u8>,
    start: int,
    j: int,
    kw: Seq<u8>,
    kwt: Keyword,
    meta: MetaSpec,
)
    requires
        0 <= start,
        start + kw.len() < s.len(),
        1 <= j <= kw.len(),
        forall|x: int| 0 <= x < kw.len() ==> s[start + x] == kw[x],
        forall|x: int| 0 <= x < kw.len() ==> (97 <= #[trigger] kw[x] <= 122 || 48 <= kw[x] <= 57),
        s[start + kw.len()] == 61,
        keyword_of(kw) == Some(kwt),
    ensures
        parse_kv(
            s,
            start + j,
            meta,
            PState::InKeyword { kw_start: Some(start), kw_end: start + j },
        ) == parse_kv(
            s,
            start + kw.len() + 1,
            meta,
            PState::InValue { kw: kwt, val_start: None, val_end: 0 },
        ),
    decreases kw.len() - j,
{
    if j == kw.len() {
        assert(s[start + j] == 61);
        assert(span_bytes(s, Some(start), start + j) =~= kw);
    } else {
        assert(s[start + j] == kw[j]);
        lemma_parse_keyword_bytes(s, start, j + 1, kw, kwt, meta);
    }
}

/// Reading a known keyword from the fresh keyword state.
proof fn lemma_parse_keyword(s: Seq<u8>, start: int, kw: Seq<u8>, kwt: Keyword, meta: MetaSpec)
    requires
        0 <= start,
        start + kw.len() < s.len(),
        kw.len() >= 1,
        forall|x: int| 0 <= x < kw.len() ==> s[start + x] == kw[x],
        forall|x: int| 0 <= x < kw.len() ==> (97 <= #[trigger] kw[x] <= 122 || 48 <= kw[x] <= 57),
        s[start + kw.len()] == 61,
        keyword_of(kw) == Some(kwt),
    ensures
        parse_kv(s, start, meta, PState::InKeyword { kw_start: None, kw_end: 0 }) == parse_kv(
            s,
            start + kw.len() + 1,
            meta,
            PState::InValue { kw: kwt, val_start: None, val_end: 0 },
        ),
{
    assert(s[start + 0] == kw[0]);
    lemma_parse_keyword_bytes(s, start, 1, kw, kwt, meta);
}

/// Reading the decimal digits spelled at `start`, closed by the terminator
/// after them, commits their value under the numeric keyword and returns to
/// a fresh keyword.
proof fn lemma_parse_dec_value(
    s: Seq<u8>,
    start: int,
    j: int,
    digits: Seq<u8>,
    kwt: Keyword,
    meta: MetaSpec,
)
    requires
        0 <= start,
        start + digits.len() < s.len(),
        0 <= j <= digits.len(),
        digits.len() >= 1,
        forall|x: int| 0 <= x < digits.len() ==> s[start + x] == digits[x],
        all_dec_digits(digits),
        dec_val(digits) <= keyword_max(kwt),
        kwt is Size || kwt is Line || kwt is Part || kwt is Total || kwt is Begin || kwt is End,
        (kwt is Begin || kwt is End) ==> (s[start + digits.len()] == SPACE || s[start
            + digits.len()] == CR || s[start + digits.len()] == LF),
        !(kwt is Begin || kwt is End) ==> s[start + digits.len()] == SPACE,
    ensures
        parse_kv(
            s,
            start + j,
            meta,
            PState::InValue {
                kw: kwt,
                val_start: if j == 0 {
                    None
                } else {
                    Some(start)
                },
                val_end: if j == 0 {
                    0
                } else {
                    start + j
                },
            },
        ) == parse_kv(
            s,
            start + digits.len() + 1,
            dec_commit_meta(kwt, meta, dec_val(digits)),
            PState::InKeyword { kw_start: None, kw_end: 0 },
        ),
    decreases digits.len() - j,
{
    if j == digits.len() {
        let v = span_bytes(s, Some(start), start + j);
        assert(v =~= digits);
        assert(dec_commit(v, keyword_max(kwt)) == Some(dec_val(digits)));
    } else {
        assert(s[start + j] == digits[j]);
        assert(48 <= digits[j] <= 57);
        lemma_parse_dec_value(s, start, j + 1, digits, kwt, meta);
    }
}


/// Reading the name bytes spelled at `start`, closed by the CR LF pair after
/// them, commits them as the name and finishes the line.
proof fn lemma_parse_name_value(s: Seq<u8>, start: int, j: int, name: Seq<u8>, meta: MetaSpec)
    requires
        0 <= start,
        start + name.len() + 1 < s.len(),
        0 <= j <= name.len(),
        forall|x: int| 0 <= x < name.len() ==> s[start + x] == name[x],
        forall|x: int| 0 <= x < name.len() ==> #[trigger] name[x] != CR && name[x] != LF,
        s[start + name.len()] == CR,
        s[start + name.len() + 1] == LF,
    ensures
        parse_kv(
            s,
            start + j,
            meta,
            PState::InValue {
                kw: Keyword::Name,
                val_start: if j == 0 {
                    None
                } else {
                    Some(start)
                },
                val_end: if j == 0 {
                    0
                } else {
                    start + j
                },
            },
        ) == parse_kv(
            s,
            start + name.len() + 2,
            MetaSpec { name: Some(name), ..meta },
            PState::Done,
        ),
    decreases name.len() - j,
{
    if j == name.len() {
        let vs = if j == 0 {
            None
        } else {
            Some(start)
        };
        let ve = if j == 0 {
            0
        } else {
            start + j
        };
        let v = span_bytes(s, vs, ve);
        assert(v =~= name);
        assert(s[start + j] == CR);
        assert(s[start + j + 1] == LF);
        let stv = PState::InValue { kw: Keyword::Name, val_start: vs, val_end: ve };
        assert(parse_kv(s, start + j, meta, stv) == parse_kv(s, start + j + 1, meta, stv));
        assert(parse_kv(s, start + j + 1, meta, stv) == parse_kv(
            s,
            start + j + 2,
            MetaSpec { name: Some(v), ..meta },
            PState::Done,
        ));
    } else {
        assert(s[start + j] == name[j]);
        lemma_parse_name_value(s, start, j + 1, name, meta);
    }
}

/// The record after committing the checksum `n` under `kwt`.
pub open spec fn hex_commit_meta(kwt: Keyword, meta: MetaSpec, n: u32) -> MetaSpec {
    if kwt is Crc32 {
        MetaSpec { crc32: Some(n), ..meta }
    } else {
        MetaSpec { pcrc32: Some(n), ..meta }
    }
}

/// Reading the hexadecimal digits spelled at `start`, closed by the CR LF
/// pair after them, commits their value as a checksum and finishes the line.
proof fn lemma_parse_hex_value(
    s: Seq<u8>,
    start: int,
    j: int,
    digits: Seq<u8>,
    kwt: Keyword,
    meta: MetaSpec,
)
    requires
        0 <= start,
        start + digits.len() + 1 < s.len(),
        0 <= j <= digits.len(),
        digits.len() >= 1,
        forall|x: int| 0 <= x < digits.len() ==> s[start + x] == digits[x],
        all_hex_digits(digits),
        hex_val(digits) <= u32::MAX,
        kwt is Crc32 || kwt is Pcrc32,
        s[start + digits.len()] == CR,
        s[start + digits.len() + 1] == LF,
    ensures
        parse_kv(
            s,
            start + j,
            meta,
            PState::InValue {
                kw: kwt,
                val_start: if j == 0 {
                    None
                } else {
                    Some(start)
                },
                val_end: if j == 0 {
                    0
                } else {
                    start + j
                },
            },
        ) == parse_kv(
            s,
            start + digits.len() + 2,
            hex_commit_meta(kwt, meta, hex_val(digits) as u32),
            PState::Done,
        ),
    decreases digits.len() - j,
{
    if j == digits.len() {
        let v = span_bytes(s, Some(start), start + j);
        assert(v =~= digits);
        assert(s[start + j] == CR);
        assert(s[start + j + 1] == LF);
        assert(hex_commit(v) == Some(hex_val(digits) as u32));
        let stv = PState::InValue { kw: kwt, val_start: Some(start), val_end: start + j };
        assert(parse_kv(s, start + j, meta, stv) == parse_kv(s, start + j + 1, meta, stv));
        assert(parse_kv(s, start + j + 1, meta, stv) == parse_kv(
            s,
            start + j + 2,
            hex_commit_meta(kwt, meta, hex_val(digits) as u32),
            PState::Done,
        ));
    } else {
        assert(s[start + j] == digits[j]);
        assert(crate::numfmt::is_hex_digit(digits[j]));
        lemma_parse_hex_value(s, start, j + 1, digits, kwt, meta);
    }
}

/// Sixteen to the power `k`.
pub open spec fn pow16(k: nat) -> nat
    decreases k,
{
    if k == 0 {
        1
    } else {
        16 * pow16((k - 1) as nat)
    }
}

/// Powers of sixteen are positive.
proof fn lemma_pow16_pos(k: nat)
    ensures
        pow16(k) >= 1,
    decreases k,
{
    if k > 0 {
        lemma_pow16_pos((k - 1) as nat);
        assert(16 * pow16((k - 1) as nat) >= 16) by (nonlinear_arith)
            requires
                pow16((k - 1) as nat) >= 1,
        ;
    }
}

/// The zero-padded hexadecimal rendering reads back as the value, for any
/// value below the capacity of its width.
pub proof fn lemma_hex_digits_val(n: nat, k: nat)
    ensures
        crate::numfmt::hex_digits(n, k).len() == k,
        all_hex_digits(crate::numfmt::hex_digits(n, k)),
        n < pow16(k) ==> hex_val(crate::numfmt::hex_digits(n, k)) == n,
        hex_val(crate::numfmt::hex_digits(n, k)) == n % pow16(k),
    decreases k,
{
    let d = crate::numfmt::hex_digits(n, k);
    if k == 0 {
        assert(n % 1 == 0) by (nonlinear_arith);
    } else {
        lemma_hex_digits_val(n / 16, (k - 1) as nat);
        let dh = crate::numfmt::hex_digits(n / 16, (k - 1) as nat);
        assert(d == dh + seq![crate::numfmt::hex_digit_byte(n % 16)]);
        assert(d.drop_last() =~= dh);
        assert(d.last() == crate::numfmt::hex_digit_byte(n % 16));
        assert(crate::numfmt::hex_digit_val(crate::numfmt::hex_digit_byte(n % 16)) == n % 16);
        assert(hex_val(d) == hex_val(dh) * 16 + n % 16);
        assert(hex_val(dh) == (n / 16) % pow16((k - 1) as nat));
        lemma_pow16_pos((k - 1) as nat);
        vstd::arithmetic::div_mod::lemma_breakdown(n as int, 16, pow16((k - 1) as nat) as int);
        assert(pow16(k) == 16 * pow16((k - 1) as nat));
        if n < pow16(k) {
            vstd::arithmetic::div_mod::lemma_small_mod(n, pow16(k));
        }
    }
}

/// The eight-digit rendering of a 32-bit checksum reads back as the checksum.
pub proof fn lemma_hex8_val(n: u32)
    ensures
        crate::numfmt::hex8_of(n).len() == 8,
        all_hex_digits(crate::numfmt::hex8_of(n)),
        hex_val(crate::numfmt::hex8_of(n)) == n,
{
    lemma_hex_digits_val(n as nat, 8);
    assert(pow16(0) == 1);
    assert(pow16(1) == 16);
    assert(pow16(2) == 256);
    assert(pow16(3) == 4096);
    assert(pow16(4) == 0x1_0000);
    assert(pow16(5) == 0x10_0000);
    assert(pow16(6) == 0x100_0000);
    assert(pow16(7) == 0x1000_0000);
    assert(pow16(8) == 0x1_0000_0000);
}


/// The record declared by a generated `=ybegin` line.
pub open spec fn header_meta(o: EncodeOptionsV, length: u64, name: Seq<u8>) -> MetaSpec {
    MetaSpec {
        name: Some(name),
        line_length: Some(o.line_length as u16),
        size: Some(length as usize),
        crc32: None,
        pcrc32: None,
        part: if o.parts == 1 {
            None
        } else {
            Some(o.part)
        },
        total: None,
        begin: None,
        end: None,
    }
}

/// Law: a `=ybegin` line written by the encoder parses back to exactly the
/// fields it declares, for every configuration, declared length that fits the
/// platform, and name free of carriage returns and line feeds.
#[verifier::rlimit(100)]
pub proof fn lemma_parse_generated_header(o: EncodeOptionsV, length: u64, name: Seq<u8>)
    requires
        length <= usize::MAX,
        forall|x: int| 0 <= x < name.len() ==> #[trigger] name[x] != CR && name[x] != LF,
    ensures
        crate::decode::spec_parse_header(spec_header_line(o, length, name)) == Ok::<
            MetaSpec,
            int,
        >(header_meta(o, length, name)),
{
    let l = spec_header_line(o, length, name);
    let pf = if o.parts == 1 {
        Seq::<u8>::empty()
    } else {
        crate::constants::lit_part_eq() + dec_digits(o.part as nat) + seq![SPACE]
    };
    let dll = dec_digits(o.line_length as nat);
    let dlen = dec_digits(length as nat);
    let g1 = crate::constants::prefix_ybegin() + pf;
    let g2 = crate::constants::lit_line_eq() + dll + seq![SPACE];
    let g3 = crate::constants::lit_size_eq() + dlen + seq![SPACE];
    let g4 = crate::constants::lit_name_eq() + name + seq![CR, LF];
    assert(l == ((g1 + g2) + g3) + g4);
    lemma_dec_digits_val(o.part as nat);
    lemma_dec_digits_val(o.line_length as nat);
    lemma_dec_digits_val(length as nat);
    let dpart = dec_digits(o.part as nat);
    let p1 = g1.len() as int;
    let p2 = p1 + g2.len();
    let p3 = p2 + g3.len();
    assert forall|x: int| 0 <= x < g1.len() implies l[x] == g1[x] by {}
    assert forall|x: int| 0 <= x < g2.len() implies l[p1 + x] == g2[x] by {}
    assert forall|x: int| 0 <= x < g3.len() implies l[p2 + x] == g3[x] by {}
    assert forall|x: int| 0 <= x < g4.len() implies l[p3 + x] == g4[x] by {}
    // the line opens with the begin tag
    assert(l.subrange(0, 8) =~= crate::constants::prefix_ybegin());
    assert(crate::constants::has_prefix(l, crate::constants::prefix_ybegin()));
    assert(crate::decode::header_offset(l) == Some(8int));
    let m0 = crate::decode::meta_none();
    let fresh = PState::InKeyword { kw_start: None, kw_end: 0 };
    // the optional part field
    let m1 = if o.parts == 1 {
        m0
    } else {
        MetaSpec { part: Some(o.part), ..m0 }
    };
    if o.parts != 1 {
        let kw_part = seq![112u8, 97u8, 114u8, 116u8];
        assert forall|x: int| 0 <= x < 4 implies l[8 + x] == kw_part[x] by {
            assert(l[8 + x] == g1[8 + x]);
            assert(g1[8 + x] == pf[x]);
            assert(pf[x] == crate::constants::lit_part_eq()[x]);
        }
        assert(l[8int + 4] == 61) by {
            assert(l[12int] == g1[12int]);
            assert(g1[12int] == pf[4int]);
        }
        assert(keyword_of(kw_part) == Some(Keyword::Part));
        lemma_parse_keyword(l, 8, kw_part, Keyword::Part, m0);
        assert forall|x: int| 0 <= x < dpart.len() implies l[13int + x] == dpart[x] by {
            assert(l[13int + x] == g1[13int + x]);
            assert(g1[13int + x] == pf[5int + x]);
        }
        assert(l[13int + dpart.len()] == SPACE) by {
            assert(l[13int + dpart.len()] == g1[13int + dpart.len()]);
            assert(g1[13int + dpart.len()] == pf[5int + dpart.len()]);
        }
        lemma_parse_dec_value(l, 13, 0, dpart, Keyword::Part, m0);
        assert(dec_commit_meta(Keyword::Part, m0, dec_val(dpart)) == m1);
        assert(13 + dpart.len() + 1 == p1);
    }
    // the line field
    let kw_line = seq![108u8, 105u8, 110u8, 101u8];
    assert forall|x: int| 0 <= x < 4 implies l[p1 + x] == kw_line[x] by {
        assert(l[p1 + x] == g2[x]);
        assert(g2[x] == crate::constants::lit_line_eq()[x]);
    }
    assert(l[p1 + 4] == 61) by {
        assert(l[p1 + 4] == g2[4int]);
        assert(g2[4int] == crate::constants::lit_line_eq()[4int]);
    }
    assert(keyword_of(kw_line) == Some(Keyword::Line));
    lemma_parse_keyword(l, p1, kw_line, Keyword::Line, m1);
    assert forall|x: int| 0 <= x < dll.len() implies l[p1 + 5 + x] == dll[x] by {
        assert(l[p1 + 5 + x] == g2[5int + x]);
    }
    assert(l[p1 + 5 + dll.len()] == SPACE) by {
        assert(l[p1 + 5 + dll.len()] == g2[5int + dll.len()]);
    }
    lemma_parse_dec_value(l, p1 + 5, 0, dll, Keyword::Line, m1);
    let m2 = MetaSpec { line_length: Some(o.line_length as u16), ..m1 };
    assert(dec_commit_meta(Keyword::Line, m1, dec_val(dll)) == m2);
    assert(p1 + 5 + dll.len() + 1 == p2);
    // the size field
    let kw_size = seq![115u8, 105u8, 122u8, 101u8];
    assert forall|x: int| 0 <= x < 4 implies l[p2 + x] == kw_size[x] by {
        assert(l[p2 + x] == g3[x]);
        assert(g3[x] == crate::constants::lit_size_eq()[x]);
    }
    assert(l[p2 + 4] == 61) by {
        assert(l[p2 + 4] == g3[4int]);
        assert(g3[4int] == crate::constants::lit_size_eq()[4int]);
    }
    assert(keyword_of(kw_size) == Some(Keyword::Size));
    lemma_parse_keyword(l, p2, kw_size, Keyword::Size, m2);
    assert forall|x: int| 0 <= x < dlen.len() implies l[p2 + 5 + x] == dlen[x] by {
        assert(l[p2 + 5 + x] == g3[5int + x]);
    }
    assert(l[p2 + 5 + dlen.len()] == SPACE) by {
        assert(l[p2 + 5 + dlen.len()] == g3[5int + dlen.len()]);
    }
    lemma_parse_dec_value(l, p2 + 5, 0, dlen, Keyword::Size, m2);
    let m3 = MetaSpec { size: Some(length as usize), ..m2 };
    assert(dec_commit_meta(Keyword::Size, m2, dec_val(dlen)) == m3);
    assert(p2 + 5 + dlen.len() + 1 == p3);
    // the name field
    let kw_name = seq![110u8, 97u8, 109u8, 101u8];
    assert forall|x: int| 0 <= x < 4 implies l[p3 + x] == kw_name[x] by {
        assert(l[p3 + x] == g4[x]);
        assert(g4[x] == crate::constants::lit_name_eq()[x]);
    }
    assert(l[p3 + 4] == 61) by {
        assert(l[p3 + 4] == g4[4int]);
        assert(g4[4int] == crate::constants::lit_name_eq()[4int]);
    }
    assert(keyword_of(kw_name) == Some(Keyword::Name));
    lemma_parse_keyword(l, p3, kw_name, Keyword::Name, m3);
    assert forall|x: int| 0 <= x < name.len() implies l[p3 + 5 + x] == name[x] by {
        assert(l[p3 + 5 + x] == g4[5int + x]);
    }
    assert(l[p3 + 5 + name.len()] == CR) by {
        assert(l[p3 + 5 + name.len()] == g4[5int + name.len()]);
    }
    assert(l[p3 + 5 + name.len() + 1] == LF) by {
        assert(l[p3 + 5 + name.len() + 1] == g4[5int + name.len() + 1]);
    }
    lemma_parse_name_value(l, p3 + 5, 0, name, m3);
    let m4 = MetaSpec { name: Some(name), ..m3 };
    assert(p3 + 5 + name.len() + 2 == l.len());
    assert(parse_kv(l, l.len() as int, m4, PState::Done) == Ok::<MetaSpec, int>(m4));
    assert(m4 == header_meta(o, length, name));
}


/// The record declared by a generated `=ypart` line.
pub open spec fn part_meta(o: EncodeOptionsV) -> MetaSpec {
    MetaSpec { begin: Some(o.begin as usize), end: Some(o.end as usize), ..crate::decode::meta_none() }
}

/// Law: a `=ypart` line written by the encoder parses back to exactly the
/// offsets it declares, for every multi-part configuration whose offsets fit
/// the platform.
#[verifier::rlimit(100)]
pub proof fn lemma_parse_generated_part_line(o: EncodeOptionsV)
    requires
        o.parts > 1,
        o.begin <= usize::MAX,
        o.end <= usize::MAX,
    ensures
        crate::decode::spec_parse_header(spec_part_line(o)) == Ok::<MetaSpec, int>(part_meta(o)),
{
    let l = spec_part_line(o);
    let dbeg = dec_digits(o.begin as nat);
    let dend = dec_digits(o.end as nat);
    lemma_dec_digits_val(o.begin as nat);
    lemma_dec_digits_val(o.end as nat);
    assert(l == crate::constants::prefix_ypart() + crate::constants::lit_begin_eq() + dbeg + seq![
        SPACE,
    ] + crate::constants::lit_end_eq() + dend + seq![CR, LF]);
    let q1 = 13 + dbeg.len() as int + 1;
    assert(l.subrange(0, 7) =~= crate::constants::prefix_ypart());
    assert(!crate::constants::has_prefix(l, crate::constants::prefix_ybegin())) by {
        if crate::constants::has_prefix(l, crate::constants::prefix_ybegin()) {
            assert(l.subrange(0, 8)[2] == l[2int]);
        }
    }
    assert(!crate::constants::has_prefix(l, crate::constants::prefix_yend())) by {
        if crate::constants::has_prefix(l, crate::constants::prefix_yend()) {
            assert(l.subrange(0, 6)[2] == l[2int]);
        }
    }
    assert(crate::decode::header_offset(l) == Some(7int));
    let m0 = crate::decode::meta_none();
    let kw_begin = seq![98u8, 101u8, 103u8, 105u8, 110u8];
    assert(forall|x: int| 0 <= x < 5 ==> l[7int + x] == kw_begin[x]);
    assert(l[12int] == 61);
    assert(keyword_of(kw_begin) == Some(Keyword::Begin));
    lemma_parse_keyword(l, 7, kw_begin, Keyword::Begin, m0);
    assert(forall|x: int| 0 <= x < dbeg.len() ==> l[13int + x] == dbeg[x]);
    assert(l[13int + dbeg.len()] == SPACE);
    lemma_parse_dec_value(l, 13, 0, dbeg, Keyword::Begin, m0);
    let m1 = MetaSpec { begin: Some(o.begin as usize), ..m0 };
    assert(dec_commit_meta(Keyword::Begin, m0, dec_val(dbeg)) == m1);
    let kw_end = seq![101u8, 110u8, 100u8];
    assert(forall|x: int| 0 <= x < 3 ==> l[q1 + x] == kw_end[x]);
    assert(l[q1 + 3] == 61);
    assert(keyword_of(kw_end) == Some(Keyword::End));
    lemma_parse_keyword(l, q1, kw_end, Keyword::End, m1);
    assert(forall|x: int| 0 <= x < dend.len() ==> l[q1 + 4 + x] == dend[x]);
    assert(l[q1 + 4int + dend.len()] == CR);
    lemma_parse_dec_value(l, q1 + 4, 0, dend, Keyword::End, m1);
    let m2 = MetaSpec { end: Some(o.end as usize), ..m1 };
    assert(dec_commit_meta(Keyword::End, m1, dec_val(dend)) == m2);
    let after = q1 + 4 + dend.len() + 1;
    assert(l[after] == LF);
    assert(after + 1 == l.len());
    let fresh = PState::InKeyword { kw_start: None, kw_end: 0 };
    assert(parse_kv(l, after, m2, fresh) == parse_kv(l, after + 1, m2, fresh));
    assert(parse_kv(l, l.len() as int, m2, fresh) == Ok::<MetaSpec, int>(m2));
    assert(m2 == part_meta(o));
}

/// The record declared by a generated `=yend` line.
pub open spec fn footer_meta(o: EncodeOptionsV, size: nat, crc: u32) -> MetaSpec {
    if o.parts > 1 {
        MetaSpec {
            size: Some(size as usize),
            part: Some(o.part),
            pcrc32: Some(crc),
            ..crate::decode::meta_none()
        }
    } else {
        MetaSpec { size: Some(size as usize), crc32: Some(crc), ..crate::decode::meta_none() }
    }
}

/// Law: a `=yend` line written by the encoder parses back to exactly the
/// size, part number and checksum it declares, for every configuration and
/// size that fits the platform.
#[verifier::rlimit(100)]
pub proof fn lemma_parse_generated_footer(o: EncodeOptionsV, size: nat, crc: u32)
    requires
        size <= usize::MAX,
    ensures
        crate::decode::spec_parse_header(spec_footer_line(o, size, crc)) == Ok::<MetaSpec, int>(
            footer_meta(o, size, crc),
        ),
{
    let l = spec_footer_line(o, size, crc);
    let dsize = dec_digits(size);
    let dpart = dec_digits(o.part as nat);
    let h8 = crate::numfmt::hex8_of(crc);
    lemma_dec_digits_val(size);
    lemma_dec_digits_val(o.part as nat);
    lemma_hex8_val(crc);
    let tail = if o.parts > 1 {
        seq![SPACE] + crate::constants::lit_part_eq() + dpart + seq![SPACE]
            + crate::constants::lit_pcrc32_eq() + h8
    } else {
        seq![SPACE] + crate::constants::lit_crc32_eq() + h8
    };
    assert(l == crate::constants::prefix_yend() + crate::constants::lit_size_eq() + dsize + tail
        + seq![CR, LF]);
    let f1 = 11 + dsize.len() as int + 1;
    assert(l.subrange(0, 6) =~= crate::constants::prefix_yend());
    assert(!crate::constants::has_prefix(l, crate::constants::prefix_ybegin())) by {
        if crate::constants::has_prefix(l, crate::constants::prefix_ybegin()) {
            assert(l.subrange(0, 8)[2] == l[2int]);
        }
    }
    assert(crate::decode::header_offset(l) == Some(6int));
    let m0 = crate::decode::meta_none();
    let kw_size = seq![115u8, 105u8, 122u8, 101u8];
    assert(forall|x: int| 0 <= x < 4 ==> l[6int + x] == kw_size[x]);
    assert(l[10int] == 61);
    assert(keyword_of(kw_size) == Some(Keyword::Size));
    lemma_parse_keyword(l, 6, kw_size, Keyword::Size, m0);
    assert(forall|x: int| 0 <= x < dsize.len() ==> l[11int + x] == dsize[x]);
    assert(l[11int + dsize.len()] == SPACE) by {
        assert(l[11int + dsize.len()] == tail[0int]);
    }
    lemma_parse_dec_value(l, 11, 0, dsize, Keyword::Size, m0);
    let m1 = MetaSpec { size: Some(size as usize), ..m0 };
    assert(dec_commit_meta(Keyword::Size, m0, dec_val(dsize)) == m1);
    if o.parts > 1 {
        let kw_part = seq![112u8, 97u8, 114u8, 116u8];
        assert forall|x: int| 0 <= x < 4 implies l[f1 + x] == kw_part[x] by {
            assert(l[f1 + x] == tail[1int + x]);
        }
        assert(l[f1 + 4] == 61) by {
            assert(l[f1 + 4] == tail[5int]);
        }
        assert(keyword_of(kw_part) == Some(Keyword::Part));
        lemma_parse_keyword(l, f1, kw_part, Keyword::Part, m1);
        assert forall|x: int| 0 <= x < dpart.len() implies l[f1 + 5 + x] == dpart[x] by {
            assert(l[f1 + 5 + x] == tail[6int + x]);
        }
        assert(l[f1 + 5int + dpart.len()] == SPACE) by {
            assert(l[f1 + 5int + dpart.len()] == tail[6int + dpart.len()]);
        }
        lemma_parse_dec_value(l, f1 + 5, 0, dpart, Keyword::Part, m1);
        let m2 = MetaSpec { part: Some(o.part), ..m1 };
        assert(dec_commit_meta(Keyword::Part, m1, dec_val(dpart)) == m2);
        let f2 = f1 + 5 + dpart.len() as int + 1;
        let kw_pcrc = seq![112u8, 99u8, 114u8, 99u8, 51u8, 50u8];
        assert forall|x: int| 0 <= x < 6 implies l[f2 + x] == kw_pcrc[x] by {
            assert(l[f2 + x] == tail[6int + dpart.len() + 1 + x]);
        }
        assert(l[f2 + 6] == 61) by {
            assert(l[f2 + 6] == tail[6int + dpart.len() + 7]);
        }
        assert(keyword_of(kw_pcrc) == Some(Keyword::Pcrc32));
        lemma_parse_keyword(l, f2, kw_pcrc, Keyword::Pcrc32, m2);
        assert forall|x: int| 0 <= x < 8 implies l[f2 + 7 + x] == h8[x] by {
            assert(l[f2 + 7 + x] == tail[6int + dpart.len() + 8 + x]);
        }
        assert(l[f2 + 7 + 8] == CR);
        assert(l[f2 + 7 + 8 + 1] == LF);
        lemma_parse_hex_value(l, f2 + 7, 0, h8, Keyword::Pcrc32, m2);
        let m3 = MetaSpec { pcrc32: Some(crc), ..m2 };
        assert(hex_commit_meta(Keyword::Pcrc32, m2, hex_val(h8) as u32) == m3);
        assert(f2 + 7 + 8 + 2 == l.len());
        assert(parse_kv(l, l.len() as int, m3, PState::Done) == Ok::<MetaSpec, int>(m3));
        assert(m3 == footer_meta(o, size, crc));
    } else {
        let kw_crc = seq![99u8, 114u8, 99u8, 51u8, 50u8];
        assert forall|x: int| 0 <= x < 5 implies l[f1 + x] == kw_crc[x] by {
            assert(l[f1 + x] == tail[1int + x]);
        }
        assert(l[f1 + 5] == 61) by {
            assert(l[f1 + 5] == tail[6int]);
        }
        assert(keyword_of(kw_crc) == Some(Keyword::Crc32));
        lemma_parse_keyword(l, f1, kw_crc, Keyword::Crc32, m1);
        assert forall|x: int| 0 <= x < 8 implies l[f1 + 6 + x] == h8[x] by {
            assert(l[f1 + 6 + x] == tail[7int + x]);
        }
        assert(l[f1 + 6 + 8] == CR);
        assert(l[f1 + 6 + 8 + 1] == LF);
        lemma_parse_hex_value(l, f1 + 6, 0, h8, Keyword::Crc32, m1);
        let m2 = MetaSpec { crc32: Some(crc), ..m1 };
        assert(hex_commit_meta(Keyword::Crc32, m1, hex_val(h8) as u32) == m2);
        assert(f1 + 6 + 8 + 2 == l.len());
        assert(parse_kv(l, l.len() as int, m2, PState::Done) == Ok::<MetaSpec, int>(m2));
        assert(m2 == footer_meta(o, size, crc));
    }
}


/// Decimal digits are printable and hold no control byte.
proof fn lemma_dec_digits_bytes(n: nat)
    ensures
        forall|x: int|
            0 <= x < dec_digits(n).len() ==> 48 <= #[trigger] dec_digits(n)[x] <= 57,
{
    lemma_dec_digits_val(n);
    assert forall|x: int| 0 <= x < dec_digits(n).len() implies 48 <= #[trigger] dec_digits(n)[x]
        <= 57 by {
        assert(crate::numfmt::is_dec_digit(dec_digits(n)[x]));
    }
}

/// The generated `=ybegin` line carries its line feed as the last byte only.
proof fn lemma_header_line_shape(o: EncodeOptionsV, length: u64, name: Seq<u8>)
    requires
        forall|x: int| 0 <= x < name.len() ==> #[trigger] name[x] != CR && name[x] != LF,
    ensures
        ({
            let h = spec_header_line(o, length, name);
            &&& h.len() >= 2
            &&& h[h.len() - 1] == LF
            &&& forall|j: int| 0 <= j < h.len() - 1 ==> #[trigger] h[j] != LF
            &&& crate::constants::has_prefix(h, crate::constants::prefix_ybegin())
        }),
{
    let h = spec_header_line(o, length, name);
    let pf = if o.parts == 1 {
        Seq::<u8>::empty()
    } else {
        crate::constants::lit_part_eq() + dec_digits(o.part as nat) + seq![SPACE]
    };
    let dll = dec_digits(o.line_length as nat);
    let dlen = dec_digits(length as nat);
    let g1 = crate::constants::prefix_ybegin() + pf;
    let g2 = crate::constants::lit_line_eq() + dll + seq![SPACE];
    let g3 = crate::constants::lit_size_eq() + dlen + seq![SPACE];
    let g4 = crate::constants::lit_name_eq() + name + seq![CR, LF];
    assert(h == ((g1 + g2) + g3) + g4);
    lemma_dec_digits_bytes(o.part as nat);
    lemma_dec_digits_bytes(o.line_length as nat);
    lemma_dec_digits_bytes(length as nat);
    assert(forall|j: int| 0 <= j < g1.len() ==> #[trigger] g1[j] != LF);
    assert(forall|j: int| 0 <= j < g2.len() ==> #[trigger] g2[j] != LF);
    assert(forall|j: int| 0 <= j < g3.len() ==> #[trigger] g3[j] != LF);
    assert(forall|j: int| 0 <= j < g4.len() - 1 ==> #[trigger] g4[j] != LF);
    assert(h[h.len() - 1] == g4[g4.len() - 1]);
    assert forall|j: int| 0 <= j < h.len() - 1 implies #[trigger] h[j] != LF by {
        if j < g1.len() {
            assert(h[j] == g1[j]);
        } else if j < g1.len() + g2.len() {
            assert(h[j] == g2[j - g1.len()]);
        } else if j < g1.len() + g2.len() + g3.len() {
            assert(h[j] == g3[j - g1.len() - g2.len()]);
        } else {
            assert(h[j] == g4[j - g1.len() - g2.len() - g3.len()]);
        }
    }
    assert(h.subrange(0, 8) =~= crate::constants::prefix_ybegin());
}

/// The generated `=ypart` line carries its line feed as the last byte only.
proof fn lemma_part_line_shape(o: EncodeOptionsV)
    requires
        o.parts > 1,
    ensures
        ({
            let p = spec_part_line(o);
            &&& p.len() >= 2
            &&& p[p.len() - 1] == LF
            &&& forall|j: int| 0 <= j < p.len() - 1 ==> #[trigger] p[j] != LF
            &&& crate::constants::has_prefix(p, crate::constants::prefix_ypart())
        }),
{
    let p = spec_part_line(o);
    let dbeg = dec_digits(o.begin as nat);
    let dend = dec_digits(o.end as nat);
    lemma_dec_digits_bytes(o.begin as nat);
    lemma_dec_digits_bytes(o.end as nat);
    assert(p == crate::constants::prefix_ypart() + crate::constants::lit_begin_eq() + dbeg + seq![
        SPACE,
    ] + crate::constants::lit_end_eq() + dend + seq![CR, LF]);
    assert(p[p.len() - 1] == LF);
    assert forall|j: int| 0 <= j < p.len() - 1 implies #[trigger] p[j] != LF by {}
    assert(p.subrange(0, 7) =~= crate::constants::prefix_ypart());
}

/// Hexadecimal digits are printable and hold no control byte.
proof fn lemma_hex8_bytes(crc: u32)
    ensures
        forall|x: int|
            0 <= x < crate::numfmt::hex8_of(crc).len() ==> #[trigger] crate::numfmt::hex8_of(
                crc,
            )[x] != LF && crate::numfmt::hex8_of(crc)[x] != 121,
{
    lemma_hex8_val(crc);
    assert forall|x: int| 0 <= x < crate::numfmt::hex8_of(crc).len() implies
        #[trigger] crate::numfmt::hex8_of(crc)[x] != LF && crate::numfmt::hex8_of(crc)[x]
        != 121 by {
        assert(crate::numfmt::is_hex_digit(crate::numfmt::hex8_of(crc)[x]));
    }
}

/// The generated `=yend` line carries its line feed as the last byte only,
/// and does not open like a part line.
proof fn lemma_footer_line_shape(o: EncodeOptionsV, size: nat, crc: u32)
    ensures
        ({
            let f = spec_footer_line(o, size, crc);
            &&& f.len() >= 2
            &&& f[f.len() - 1] == LF
            &&& forall|j: int| 0 <= j < f.len() - 1 ==> #[trigger] f[j] != LF
            &&& crate::constants::has_prefix(f, crate::constants::prefix_yend())
            &&& !crate::constants::has_prefix(f, crate::constants::prefix_ypart())
        }),
{
    let f = spec_footer_line(o, size, crc);
    let dsize = dec_digits(size);
    let dpart = dec_digits(o.part as nat);
    let h8 = crate::numfmt::hex8_of(crc);
    lemma_dec_digits_bytes(size);
    lemma_dec_digits_bytes(o.part as nat);
    lemma_hex8_bytes(crc);
    let tail = if o.parts > 1 {
        seq![SPACE] + crate::constants::lit_part_eq() + dpart + seq![SPACE]
            + crate::constants::lit_pcrc32_eq() + h8
    } else {
        seq![SPACE] + crate::constants::lit_crc32_eq() + h8
    };
    assert(f == crate::constants::prefix_yend() + crate::constants::lit_size_eq() + dsize + tail
        + seq![CR, LF]);
    assert(forall|j: int| 0 <= j < tail.len() ==> #[trigger] tail[j] != LF);
    assert(f[f.len() - 1] == LF);
    assert forall|j: int| 0 <= j < f.len() - 1 implies #[trigger] f[j] != LF by {}
    assert(f.subrange(0, 6) =~= crate::constants::prefix_yend());
    assert(!crate::constants::has_prefix(f, crate::constants::prefix_ypart())) by {
        if crate::constants::has_prefix(f, crate::constants::prefix_ypart()) {
            assert(f.subrange(0, 7)[2] == f[2int]);
        }
    }
}


/// The line at `i` is the segment in front of the remainder of the stream.
proof fn lemma_line_at_is(wire: Seq<u8>, i: int, seg: Seq<u8>, rest: Seq<u8>)
    requires
        0 <= i <= wire.len(),
        wire.skip(i) == seg + rest,
        seg.len() >= 1,
        seg[seg.len() - 1] == LF,
        forall|j: int| 0 <= j < seg.len() - 1 ==> #[trigger] seg[j] != LF,
    ensures
        first_line_len(wire.skip(i)) == seg.len(),
        line_at(wire, i) == seg,
        i + seg.len() <= wire.len(),
        i < wire.len(),
{
    let suffix = wire.skip(i);
    assert(suffix.len() == seg.len() + rest.len());
    assert forall|x: int| 0 <= x < seg.len() implies suffix[x] == seg[x] by {}
    crate::decode::lemma_fll_lf(suffix, seg.len() - 1);
    assert(line_at(wire, i) =~= seg);
}

/// Skipping past the segment in front of the remainder lands on the
/// remainder.
proof fn lemma_skip_shift(wire: Seq<u8>, i: int, seg: Seq<u8>, rest: Seq<u8>)
    requires
        0 <= i <= wire.len(),
        wire.skip(i) == seg + rest,
    ensures
        wire.skip(i + seg.len()) == rest,
{
    assert(wire.skip(i).len() == wire.len() - i);
    assert forall|x: int| 0 <= x < rest.len() implies #[trigger] wire.skip(i + seg.len())[x]
        == rest[x] by {
        assert(wire.skip(i + seg.len())[x] == wire[i + seg.len() + x]);
        assert(wire.skip(i)[seg.len() + x] == wire[i + (seg.len() + x)]);
        assert((seg + rest)[seg.len() + x] == rest[x]);
    }
    assert(wire.skip(i + seg.len()) =~= rest);
}

/// Law (end to end): decoding an encoded message succeeds and reproduces the
/// encoded source range byte for byte: the declared name comes back, the
/// decoded runs place exactly the bytes of `begin ..= end` at output offset
/// `begin - 1` (after an empty run at offset 0 for multi-part output, whose
/// part line seeks first), and the declared size and checksum agree with what
/// was decoded.  Splitting a file into parts with disjoint ranges and
/// decoding every part into one output therefore reconstructs the file.
#[verifier::rlimit(100)]
pub proof fn lemma_stream_round_trip(o: EncodeOptionsV, input: Seq<u8>, length: u64, name: Seq<u8>)
    requires
        crate::encode::options_valid(o),
        1 <= o.begin <= o.end <= input.len(),
        input.len() <= usize::MAX,
        length <= usize::MAX,
        forall|x: int| 0 <= x < name.len() ==> #[trigger] name[x] != CR && name[x] != LF,
    ensures
        ({
            let data = input.subrange(o.begin - 1, o.end as int);
            let segs = if o.parts > 1 {
                seq![
                    crate::decode::SegmentV { offset: 0u64, data: Seq::empty() },
                    crate::decode::SegmentV { offset: (o.begin - 1) as u64, data },
                ]
            } else {
                seq![crate::decode::SegmentV { offset: 0u64, data }]
            };
            crate::decode::spec_decode_stream(
                crate::encode::spec_encode_stream(o, input, length, name),
            ) == Ok::<crate::decode::OutcomeV, crate::decode::DecodeFail>(
                crate::decode::OutcomeV { found: true, name: Some(name), segments: segs },
            )
        }),
{
    let data = input.subrange(o.begin - 1, o.end as int);
    let ll = o.line_length as int;
    let crc = crate::crc32::crc32_of(data);
    let hl = spec_header_line(o, length, name);
    let pl = spec_part_line(o);
    let body = encode_bytes(data, 0, ll);
    let ftr = spec_footer_line(o, data.len(), crc);
    let wire = crate::encode::spec_encode_stream(o, input, length, name);
    assert(wire == hl + pl + body + seq![CR, LF] + ftr);
    lemma_header_line_shape(o, length, name);
    lemma_footer_line_shape(o, data.len(), crc);
    // the header is the first line, and the scan stops on it
    let rest_h = ((pl + body) + seq![CR, LF]) + ftr;
    assert(wire.skip(0) =~= hl + rest_h);
    lemma_line_at_is(wire, 0, hl, rest_h);
    lemma_skip_shift(wire, 0, hl, rest_h);
    assert(crate::decode::spec_scan_begin(wire, 0) == Some(0int));
    lemma_parse_generated_header(o, length, name);
    let m0 = header_meta(o, length, name);
    let st0 = crate::decode::body_init(m0);
    // the optional part line seeks to the part offset
    let hp = hl.len() as int + pl.len();
    let rest_p = (body + seq![CR, LF]) + ftr;
    let st_b = if o.parts > 1 {
        BodyV {
            done: st0.done.push(
                crate::decode::SegmentV { offset: 0u64, data: Seq::<u8>::empty() },
            ),
            cur_off: (o.begin - 1) as u64,
            cur: Seq::empty(),
            meta: MetaSpec {
                begin: Some(o.begin as usize),
                end: Some(o.end as usize),
                ..m0
            },
            ..st0
        }
    } else {
        st0
    };
    if o.parts > 1 {
        lemma_part_line_shape(o);
        assert(wire.skip(hl.len() as int) =~= pl + rest_p);
        lemma_line_at_is(wire, hl.len() as int, pl, rest_p);
        lemma_skip_shift(wire, hl.len() as int, pl, rest_p);
        lemma_parse_generated_part_line(o);
        assert(!crate::constants::has_prefix(pl, crate::constants::prefix_yend())) by {
            if crate::constants::has_prefix(pl, crate::constants::prefix_yend()) {
                assert(pl.subrange(0, 6)[2] == pl[2int]);
                assert(pl[2int] == crate::constants::prefix_ypart()[2]) by {
                    assert(pl.subrange(0, 7) =~= crate::constants::prefix_ypart());
                }
            }
        }
        assert(o.begin as usize != 0);
        assert((o.begin as usize - 1) as u64 == (o.begin - 1) as u64);
        assert(crate::decode::spec_body(wire, hl.len() as int, st0) == crate::decode::spec_body(
            wire,
            hp,
            st_b,
        ));
        assert(wire.skip(hp) == rest_p);
    } else {
        assert(pl =~= Seq::<u8>::empty());
        assert(hp == hl.len());
        assert(wire.skip(hp) == rest_p) by {
            assert(rest_h =~= rest_p);
        }
    }
    // the body region appends exactly the source range
    assert(wire.skip(hp) == body + seq![CR, LF] + ftr) by {
        assert(rest_p =~= body + seq![CR, LF] + ftr);
    }
    lemma_body_region(wire, hp, data, ll, st_b, ftr);
    let pos_f = hp + body.len() + 2;
    let st_c = BodyV { cur: st_b.cur + data, fed: st_b.fed + data, ..st_b };
    // the footer line closes the pass
    lemma_skip_shift(wire, hp, (body + seq![CR, LF]), ftr);
    assert(wire.skip(pos_f) == ftr) by {
        assert(hp + (body + seq![CR, LF]).len() == pos_f);
    }
    assert(wire.skip(pos_f) =~= ftr + Seq::<u8>::empty());
    lemma_line_at_is(wire, pos_f, ftr, Seq::<u8>::empty());
    lemma_parse_generated_footer(o, data.len(), crc);
    let mf = footer_meta(o, data.len(), crc);
    let st_d = BodyV {
        meta: MetaSpec { size: mf.size, crc32: mf.crc32, pcrc32: mf.pcrc32, ..st_c.meta },
        footer: true,
        ..st_c
    };
    assert(crate::decode::spec_body(wire, pos_f, st_c) == Ok::<BodyV, crate::decode::DecodeFail>(
        st_d,
    ));
    // validation: the declared checksum and size are those of the decoded data
    assert(st_d.fed =~= data);
    assert(st_d.meta.size == Some(data.len() as usize));
    assert(data.len() as usize == st_d.fed.len());
    let segs_final = st_d.done.push(
        crate::decode::SegmentV { offset: st_d.cur_off, data: st_d.cur },
    );
    assert(st_d.cur =~= data);
    if o.parts > 1 {
        assert(st_d.meta.pcrc32 == Some(crc));
        assert(segs_final =~= seq![
            crate::decode::SegmentV { offset: 0u64, data: Seq::<u8>::empty() },
            crate::decode::SegmentV { offset: (o.begin - 1) as u64, data },
        ]);
    } else {
        assert(st_d.meta.pcrc32 is None && st_d.meta.crc32 == Some(crc));
        assert(segs_final =~= seq![crate::decode::SegmentV { offset: 0u64, data }]);
    }
    assert(st_d.meta.name == Some(name));
    assert(crate::decode::spec_validate(st_d) == Ok::<
        crate::decode::OutcomeV,
        crate::decode::DecodeFail,
    >(crate::decode::OutcomeV { found: true, name: Some(name), segments: segs_final }));
}


} // verus!
