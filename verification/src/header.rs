//! The image header model: four tokens in a fixed order — magic, width,
//! height, channel max value — validated against the format's invariants,
//! yielding an immutable descriptor plus the byte offset where pixel data
//! begins. Also the re-emission of a header from a descriptor.

use vstd::prelude::*;

use crate::error::PpmError;
use crate::tokenizer::{
    all_text, is_delim, is_newline, is_text_byte, lemma_comment_skipped, lemma_next_token_advances,
    lemma_next_token_prefix, lemma_next_token_suffix, lemma_scan_delim, lemma_scan_non_delim,
    next_token, scan_delim, scan_non_delim, spec_next_token, window_end, COMMENT_MARKER, WINDOW,
};

verus! {

/// The fixed format identifier, `P6`, as bytes.
pub open spec fn magic_seq() -> Seq<u8> {
    seq![80u8, 54u8]
}

/// A decimal digit byte, `0` to `9`.
pub open spec fn is_digit(b: u8) -> bool {
    48 <= b <= 57
}

/// Whether every byte of `s` is a decimal digit.
pub open spec fn all_digits(s: Seq<u8>) -> bool {
    forall|i: int| 0 <= i < s.len() ==> is_digit(s[i])
}

/// A well-formed decimal numeral: non-empty and all digits.
pub open spec fn is_numeral(s: Seq<u8>) -> bool {
    s.len() > 0 && all_digits(s)
}

/// The value of a digit string, most significant digit first.
pub open spec fn dec_val(s: Seq<u8>) -> int
    decreases s.len(),
{
    if s.len() == 0 {
        0
    } else {
        dec_val(s.drop_last()) * 10 + (s.last() - 48)
    }
}

/// The canonical digit string of a non-negative number, without leading
/// zeros (except for the single digit `0` itself).
pub open spec fn dec_digits(n: int) -> Seq<u8>
    decreases n,
{
    if n < 10 {
        seq![(48 + n) as u8]
    } else {
        dec_digits(n / 10).push((48 + n % 10) as u8)
    }
}

/// A digit string's value is never negative.
pub proof fn lemma_dec_val_nonneg(s: Seq<u8>)
    requires
        all_digits(s),
    ensures
        dec_val(s) >= 0,
    decreases s.len(),
{
    if s.len() > 0 {
        assert(all_digits(s.drop_last())) by {
            assert(forall|i: int| 0 <= i < s.len() - 1 ==> s.drop_last()[i] == s[i]);
        }
        lemma_dec_val_nonneg(s.drop_last());
    }
}

/// The value of any prefix of a digit string is at most the whole value.
pub proof fn lemma_dec_val_prefix_le(s: Seq<u8>, i: int)
    requires
        all_digits(s),
        0 <= i <= s.len(),
    ensures
        dec_val(s.take(i)) <= dec_val(s),
    decreases s.len() - i,
{
    if i < s.len() {
        lemma_dec_val_prefix_le(s, i + 1);
        assert(s.take(i + 1).drop_last() =~= s.take(i));
        assert(all_digits(s.take(i))) by {
            assert(forall|k: int| 0 <= k < i ==> s.take(i)[k] == s[k]);
        }
        lemma_dec_val_nonneg(s.take(i));
        assert(dec_val(s.take(i + 1)) == dec_val(s.take(i)) * 10 + (s[i] - 48));
        assert(dec_val(s.take(i)) <= dec_val(s.take(i)) * 10 + (s[i] - 48));
    } else {
        assert(s.take(i) =~= s);
    }
}

/// The canonical digit string of `n` is a numeral whose value is `n`.
pub proof fn lemma_dec_digits_value(n: int)
    requires
        n >= 0,
    ensures
        is_numeral(dec_digits(n)),
        dec_val(dec_digits(n)) == n,
    decreases n,
{
    if n < 10 {
        let s = dec_digits(n);
        assert(s.drop_last() =~= Seq::<u8>::empty());
        assert(dec_val(Seq::<u8>::empty()) == 0);
        assert(s.last() == (48 + n) as u8);
        assert(dec_val(s) == dec_val(s.drop_last()) * 10 + (s.last() - 48));
    } else {
        lemma_dec_digits_value(n / 10);
        let s = dec_digits(n);
        assert(s.drop_last() =~= dec_digits(n / 10));
        assert(dec_val(s) == dec_val(dec_digits(n / 10)) * 10 + ((48 + n % 10) - 48));
        assert((n / 10) * 10 + n % 10 == n);
    }
}

/// Powers of ten.
pub open spec fn pow10(k: nat) -> int
    decreases k,
{
    if k == 0 {
        1
    } else {
        10 * pow10((k - 1) as nat)
    }
}

/// A number below the `k`-th power of ten has at most `k` digits.
pub proof fn lemma_dec_digits_len(n: int, k: nat)
    requires
        0 <= n < pow10(k),
        k >= 1,
    ensures
        dec_digits(n).len() <= k,
    decreases n,
{
    if n >= 10 {
        assert(pow10(1) == 10 * pow10(0));
        if k == 1 {
            assert(false);
        }
        assert(n / 10 < pow10((k - 1) as nat)) by (nonlinear_arith)
            requires
                n < 10 * pow10((k - 1) as nat),
                n >= 10,
        {}
        lemma_dec_digits_len(n / 10, (k - 1) as nat);
    }
}

/// Any machine-sized number has at most 20 digits.
pub proof fn lemma_dec_digits_len_usize(n: int)
    requires
        0 <= n <= usize::MAX,
    ensures
        dec_digits(n).len() <= 20,
{
    assert(pow10(20) == 100000000000000000000) by {
        reveal_with_fuel(pow10, 21);
    }
    assert(usize::MAX < pow10(20));
    lemma_dec_digits_len(n, 20);
}

/// Parses a token as a decimal number, strictly: some value is returned
/// exactly when the token is a numeral whose value fits the machine.
pub fn parse_usize(tok: &Vec<u8>) -> (r: Option<usize>)
    ensures
        r is Some <==> is_numeral(tok@) && dec_val(tok@) <= usize::MAX,
        r is Some ==> r->0 == dec_val(tok@),
{
    if tok.len() == 0 {
        return None;
    }
    let mut acc: usize = 0;
    let mut i: usize = 0;
    while i < tok.len()
        invariant
            0 <= i <= tok@.len(),
            all_digits(tok@.take(i as int)),
            acc == dec_val(tok@.take(i as int)),
        decreases tok@.len() - i,
    {
        let b = tok[i];
        if b < 48 || b > 57 {
            proof {
                assert(!is_digit(tok@[i as int]));
            }
            return None;
        }
        let d = (b - 48) as usize;
        if acc > (usize::MAX - d) / 10 {
            proof {
                let pre = tok@.take(i as int);
                let nxt = tok@.take(i as int + 1);
                assert(nxt.drop_last() =~= pre);
                assert(all_digits(nxt)) by {
                    assert(forall|k: int| 0 <= k < i + 1 ==> nxt[k] == tok@[k]);
                }
                assert(dec_val(nxt) == acc * 10 + d);
                assert(acc * 10 + d > usize::MAX) by (nonlinear_arith)
                    requires
                        acc > (usize::MAX - d) / 10,
                        0 <= d <= 9,
                {}
                if is_numeral(tok@) && dec_val(tok@) <= usize::MAX {
                    lemma_dec_val_prefix_le(tok@, i as int + 1);
                }
            }
            return None;
        }
        proof {
            assert(acc * 10 + d <= usize::MAX) by (nonlinear_arith)
                requires
                    acc <= (usize::MAX - d) / 10,
                    0 <= d <= 9,
            {}
            let pre = tok@.take(i as int);
            let nxt = tok@.take(i as int + 1);
            assert(nxt.drop_last() =~= pre);
            assert(dec_val(nxt) == acc * 10 + d);
            assert(all_digits(nxt)) by {
                assert(forall|k: int| 0 <= k < i + 1 ==> nxt[k] == tok@[k]);
            }
        }
        acc = acc * 10 + d;
        i = i + 1;
    }
    proof {
        assert(tok@.take(i as int) =~= tok@);
    }
    Some(acc)
}

/// Appends the canonical decimal digits of `n` to `out`.
pub fn push_decimal(out: &mut Vec<u8>, n: usize)
    ensures
        final(out)@ == old(out)@ + dec_digits(n as int),
    decreases n,
{
    if n < 10 {
        out.push(48 + n as u8);
        proof {
            assert(out@ =~= old(out)@ + dec_digits(n as int));
        }
    } else {
        push_decimal(out, n / 10);
        out.push(48 + (n % 10) as u8);
        proof {
            assert(out@ =~= old(out)@ + dec_digits(n as int));
        }
    }
}

/// The immutable descriptor of a binary pixel-map file: the validated
/// header fields and the byte offset where the pixel section begins.
#[derive(Debug)]
pub struct BinaryImage {
    pub magic_number: Vec<u8>,
    pub pixels_offset: usize,
    pub height: usize,
    pub width: usize,
    pub rgb_max_value: usize,
}

impl BinaryImage {
    /// The invariant every descriptor built from a parse satisfies.
    pub open spec fn wf(&self) -> bool {
        &&& self.magic_number@ == magic_seq()
        &&& self.rgb_max_value == 255
        &&& self.width >= 1
        &&& self.height >= 1
    }
}

/// Whether a width or height token is acceptable: a numeral with a
/// positive value that fits the machine.
pub open spec fn good_dimension(t: Seq<u8>) -> bool {
    is_numeral(t) && 1 <= dec_val(t) <= usize::MAX
}

/// Whether a channel max-value token is acceptable: a numeral reading 255.
pub open spec fn good_max_value(t: Seq<u8>) -> bool {
    is_numeral(t) && dec_val(t) == 255
}

/// The result of reading the four header tokens in order: the width, the
/// height, and the pixel-data offset, or the first failure. The magic token
/// must be the format identifier, the dimensions positive numbers, the max
/// value exactly 255. The pixel data begins exactly one byte past the
/// delimiter that ends the max-value token: that single byte separates the
/// headers from the raw pixel stream, whose own bytes may look like
/// delimiters and are never skipped.
pub open spec fn spec_parse_header(data: Seq<u8>) -> Result<(int, int, int), PpmError> {
    match spec_next_token(data, 0) {
        Err(e) => Err(e),
        Ok((t1, _e1, p1)) => if t1 != magic_seq() {
            Err(PpmError::BadMagic)
        } else {
            match spec_next_token(data, p1) {
                Err(e) => Err(e),
                Ok((t2, _e2, p2)) => if !good_dimension(t2) {
                    Err(PpmError::BadWidth)
                } else {
                    match spec_next_token(data, p2) {
                        Err(e) => Err(e),
                        Ok((t3, _e3, p3)) => if !good_dimension(t3) {
                            Err(PpmError::BadHeight)
                        } else {
                            match spec_next_token(data, p3) {
                                Err(e) => Err(e),
                                Ok((t4, e4, _p4)) => if !good_max_value(t4) {
                                    Err(PpmError::BadMaxValue)
                                } else {
                                    Ok((dec_val(t2), dec_val(t3), e4 + 1))
                                },
                            }
                        },
                    }
                },
            }
        },
    }
}

/// Checks a token against the format identifier.
fn is_magic(tok: &Vec<u8>) -> (r: bool)
    ensures
        r == (tok@ == magic_seq()),
{
    let r = tok.len() == 2 && tok[0] == 80 && tok[1] == 54;
    proof {
        if r {
            assert(tok@ =~= magic_seq());
        }
    }
    r
}

/// Builds the descriptor of a binary pixel-map whose bytes are `data`:
/// reads the four header tokens in order, validates each, and records where
/// the pixel section starts. Returns exactly what `spec_parse_header` says.
pub fn new_with_bytes(data: &Vec<u8>) -> (r: Result<BinaryImage, PpmError>)
    ensures
        r is Ok <==> spec_parse_header(data@) is Ok,
        r is Ok ==> {
            let (w, h, off) = spec_parse_header(data@)->Ok_0;
            &&& r->Ok_0.width == w
            &&& r->Ok_0.height == h
            &&& r->Ok_0.pixels_offset == off
            &&& r->Ok_0.wf()
            &&& off <= data@.len()
        },
        r is Err ==> r->Err_0 == spec_parse_header(data@)->Err_0,
{
    let (magic, _e1, p1) = match next_token(data, 0) {
        Ok(t) => t,
        Err(e) => {
            return Err(e);
        },
    };
    if !is_magic(&magic) {
        return Err(PpmError::BadMagic);
    }

    let (width_tok, _e2, p2) = match next_token(data, p1) {
        Ok(t) => t,
        Err(e) => {
            return Err(e);
        },
    };
    let width = match parse_usize(&width_tok) {
        Some(w) if w >= 1 => w,
        _ => {
            return Err(PpmError::BadWidth);
        },
    };

    let (height_tok, _e3, p3) = match next_token(data, p2) {
        Ok(t) => t,
        Err(e) => {
            return Err(e);
        },
    };
    let height = match parse_usize(&height_tok) {
        Some(h) if h >= 1 => h,
        _ => {
            return Err(PpmError::BadHeight);
        },
    };

    let (max_tok, e4, _p4) = match next_token(data, p3) {
        Ok(t) => t,
        Err(e) => {
            return Err(e);
        },
    };
    let rgb_max_value = match parse_usize(&max_tok) {
        Some(m) if m == 255 => m,
        _ => {
            return Err(PpmError::BadMaxValue);
        },
    };

    Ok(BinaryImage { magic_number: magic, pixels_offset: e4 + 1, height, width, rgb_max_value })
}

/// The three-line header layout re-emitted from a descriptor's fields:
/// magic, then "width height", then the max value, each line ending in LF.
pub open spec fn spec_header_bytes(w: int, h: int) -> Seq<u8> {
    magic_seq() + seq![10u8] + dec_digits(w) + seq![32u8] + dec_digits(h) + seq![10u8]
        + dec_digits(255) + seq![10u8]
}

/// Emits the header lines of a descriptor, byte for byte as
/// `spec_header_bytes` lays them out.
pub fn emit_header(img: &BinaryImage) -> (r: Vec<u8>)
    requires
        img.wf(),
    ensures
        r@ == spec_header_bytes(img.width as int, img.height as int),
{
    let mut out: Vec<u8> = Vec::new();
    out.push(80);
    out.push(54);
    out.push(10);
    push_decimal(&mut out, img.width);
    out.push(32);
    push_decimal(&mut out, img.height);
    out.push(10);
    push_decimal(&mut out, img.rgb_max_value);
    out.push(10);
    proof {
        assert(out@ =~= spec_header_bytes(img.width as int, img.height as int));
    }
    out
}

/// Where the cursor stands after the first `n` header tokens are read.
pub open spec fn spec_boundary(data: Seq<u8>, n: nat) -> int
    decreases n,
{
    if n == 0 {
        0
    } else {
        match spec_next_token(data, spec_boundary(data, (n - 1) as nat)) {
            Ok(t) => t.2,
            Err(_) => data.len() as int,
        }
    }
}

/// Whether each of the first `n` reads succeeds.
pub open spec fn reads_ok(data: Seq<u8>, n: nat) -> bool
    decreases n,
{
    n == 0 || (reads_ok(data, (n - 1) as nat) && spec_next_token(
        data,
        spec_boundary(data, (n - 1) as nat),
    ) is Ok)
}

/// Boundaries stay within the data and move strictly forward.
pub proof fn lemma_boundary_bounds(data: Seq<u8>, n: nat)
    requires
        reads_ok(data, n),
    ensures
        0 <= spec_boundary(data, n) <= data.len(),
        n > 0 ==> spec_boundary(data, (n - 1) as nat) < spec_boundary(data, n),
    decreases n,
{
    if n > 0 {
        lemma_boundary_bounds(data, (n - 1) as nat);
        lemma_next_token_advances(data, spec_boundary(data, (n - 1) as nat));
    }
}

/// Fewer reads succeed whenever more do.
pub proof fn lemma_reads_ok_mono(data: Seq<u8>, n: nat, m: nat)
    requires
        reads_ok(data, n),
        m <= n,
    ensures
        reads_ok(data, m),
    decreases n,
{
    if m < n {
        lemma_reads_ok_mono(data, (n - 1) as nat, m);
    }
}

/// Boundaries never move backwards as more tokens are read.
pub proof fn lemma_boundary_mono(data: Seq<u8>, m: nat, n: nat)
    requires
        reads_ok(data, n),
        m <= n,
    ensures
        spec_boundary(data, m) <= spec_boundary(data, n),
    decreases n,
{
    if m < n {
        lemma_reads_ok_mono(data, n, (n - 1) as nat);
        lemma_boundary_mono(data, m, (n - 1) as nat);
        lemma_boundary_bounds(data, n);
    }
}

/// Cutting a stream at or after `q` commutes with inserting bytes at
/// `p <= q`: the tail from `q` reads the same, shifted by the insertion.
proof fn lemma_tail_shifted(data: Seq<u8>, p: int, comment: Seq<u8>, q: int)
    requires
        0 <= p <= q <= data.len(),
    ensures
        ({
            let data2 = data.subrange(0, p) + comment + data.subrange(p, data.len() as int);
            data.subrange(q, data.len() as int) == data2.subrange(
                q + comment.len(),
                data2.len() as int,
            )
        }),
{
    let data2 = data.subrange(0, p) + comment + data.subrange(p, data.len() as int);
    let clen = comment.len() as int;
    let t1 = data.subrange(q, data.len() as int);
    let t2 = data2.subrange(q + clen, data2.len() as int);
    assert forall|m: int| 0 <= m < t1.len() implies t1[m] == t2[m] by {
        assert(t1[m] == data[q + m]);
        assert(t2[m] == data2[q + clen + m]);
        assert(data2[q + clen + m] == data.subrange(p, data.len() as int)[q + m - p]);
    }
    assert(t1 =~= t2);
}

/// At `pos` the data holds a token of `tlen` plain bytes — no delimiter,
/// text, not opening with the comment marker — then one delimiter. The
/// tokenizer then returns exactly that token, ending at that delimiter;
/// and when the byte after the delimiter is the data's end or content, the
/// next position is right there.
proof fn lemma_plain_token_at(data: Seq<u8>, pos: int, tlen: int)
    requires
        0 <= pos,
        1 <= tlen,
        tlen + 1 < WINDOW,
        pos + tlen + 1 <= data.len(),
        forall|k: int|
            pos <= k < pos + tlen ==> !is_delim(#[trigger] data[k]) && is_text_byte(data[k]),
        data[pos] != COMMENT_MARKER,
        is_delim(data[pos + tlen]),
    ensures
        spec_next_token(data, pos) is Ok,
        spec_next_token(data, pos)->Ok_0.0 == data.subrange(pos, pos + tlen),
        spec_next_token(data, pos)->Ok_0.1 == pos + tlen,
        pos + tlen + 1 == data.len() || !is_delim(data[pos + tlen + 1]) ==> spec_next_token(
            data,
            pos,
        )->Ok_0.2 == pos + tlen + 1,
{
    let wend = window_end(data, pos);
    assert(pos + tlen < wend);
    lemma_scan_delim(data, pos, wend);
    assert(scan_delim(data, pos, wend) == pos + tlen);
    let tok = data.subrange(pos, pos + tlen);
    assert(all_text(tok)) by {
        assert(forall|i: int| 0 <= i < tlen ==> tok[i] == data[pos + i]);
    }
    assert(tok[0] == data[pos]);
    lemma_scan_non_delim(data, pos + tlen, wend);
    if pos + tlen + 1 == data.len() || !is_delim(data[pos + tlen + 1]) {
        assert(scan_non_delim(data, pos + tlen, wend) == pos + tlen + 1);
    }
}

/// Law: the header round-trips. A file whose bytes open with the emitted
/// three-line header of any valid dimensions — followed by any pixel bytes
/// whatever — parses back to exactly those dimensions, a max value of 255,
/// and a pixel offset right after the header, so re-emitting the parsed
/// descriptor reproduces the original header byte for byte.
pub proof fn lemma_header_round_trip(w: usize, h: usize, rest: Seq<u8>)
    requires
        w >= 1,
        h >= 1,
    ensures
        spec_parse_header(spec_header_bytes(w as int, h as int) + rest) == Ok::<
            (int, int, int),
            PpmError,
        >((w as int, h as int, spec_header_bytes(w as int, h as int).len() as int)),
{
    let dw = dec_digits(w as int);
    let dh = dec_digits(h as int);
    let d255 = dec_digits(255);
    lemma_dec_digits_value(w as int);
    lemma_dec_digits_value(h as int);
    lemma_dec_digits_value(255);
    lemma_dec_digits_len_usize(w as int);
    lemma_dec_digits_len_usize(h as int);
    assert(d255 =~= seq![50u8, 53u8, 53u8]) by {
        reveal_with_fuel(dec_digits, 4);
    }
    let lw = dw.len() as int;
    let lh = dh.len() as int;
    let hdr = spec_header_bytes(w as int, h as int);
    let data = hdr + rest;
    assert(hdr.len() == 9 + lw + lh);

    // Where each byte of the assembled stream comes from.
    assert(data[0] == 80);
    assert(data[1] == 54);
    assert(data[2] == 10);
    assert forall|k: int| 0 <= k < lw implies data[3 + k] == dw[k] by {
        assert(hdr[3 + k] == dw[k]);
    }
    assert(data[3 + lw] == 32);
    assert forall|k: int| 0 <= k < lh implies data[4 + lw + k] == dh[k] by {
        assert(hdr[4 + lw + k] == dh[k]);
    }
    assert(data[4 + lw + lh] == 10);
    assert(data[5 + lw + lh] == 50);
    assert(data[6 + lw + lh] == 53);
    assert(data[7 + lw + lh] == 53);
    assert(data[8 + lw + lh] == 10);

    // Digits are plain bytes: text, no delimiters, not the comment marker.
    assert forall|k: int| 0 <= k < lw implies !is_delim(#[trigger] dw[k]) && is_text_byte(dw[k])
        && dw[k] != COMMENT_MARKER by {
        assert(is_digit(dw[k]));
    }
    assert forall|k: int| 0 <= k < lh implies !is_delim(#[trigger] dh[k]) && is_text_byte(dh[k])
        && dh[k] != COMMENT_MARKER by {
        assert(is_digit(dh[k]));
    }

    // Token one: the magic.
    lemma_plain_token_at(data, 0, 2);
    assert(data.subrange(0, 2) =~= magic_seq());

    // Token two: the width.
    assert forall|k: int| 3 <= k < 3 + lw implies !is_delim(#[trigger] data[k]) && is_text_byte(
        data[k],
    ) by {
        assert(data[3 + (k - 3)] == dw[k - 3]);
    }
    lemma_plain_token_at(data, 3, lw);
    assert(data.subrange(3, 3 + lw) =~= dw);

    // Token three: the height.
    assert forall|k: int| 4 + lw <= k < 4 + lw + lh implies !is_delim(#[trigger] data[k])
        && is_text_byte(data[k]) by {
        assert(data[4 + lw + (k - 4 - lw)] == dh[k - 4 - lw]);
    }
    lemma_plain_token_at(data, 4 + lw, lh);
    assert(data.subrange(4 + lw, 4 + lw + lh) =~= dh);

    // Token four: the max value; the pixel data begins one byte past its
    // newline, whatever byte stands there.
    assert forall|k: int| 5 + lw + lh <= k < 8 + lw + lh implies !is_delim(#[trigger] data[k])
        && is_text_byte(data[k]) by {
        assert(data[5 + lw + lh] == 50 && data[6 + lw + lh] == 53 && data[7 + lw + lh] == 53);
    }
    lemma_plain_token_at(data, 5 + lw + lh, 3);
    assert(data.subrange(5 + lw + lh, 8 + lw + lh) =~= d255);

    assert(good_dimension(dw));
    assert(good_dimension(dh));
    assert(good_max_value(d255));
}

/// Law: a header with a comment line between any two of its tokens parses
/// exactly as the same header with the comment line removed. Inserting a
/// well-formed comment line — marker first, text, one final line ending,
/// within the lookahead window — at the cursor position reached after any
/// `n` of the four tokens leaves the parse result unchanged: the same
/// fields or the same error, with only the pixel offset moved by the
/// comment's length.
pub proof fn lemma_parse_header_comment_skipped(data: Seq<u8>, n: nat, comment: Seq<u8>)
    requires
        n <= 3,
        reads_ok(data, n),
        2 <= comment.len() <= WINDOW,
        comment[0] == COMMENT_MARKER,
        is_newline(comment.last()),
        forall|i: int| 0 <= i < comment.len() - 1 ==> !is_newline(comment[i]),
        forall|i: int| 0 <= i < comment.len() ==> is_text_byte(comment[i]),
    ensures
        ({
            let p = spec_boundary(data, n);
            let data2 = data.subrange(0, p) + comment + data.subrange(p, data.len() as int);
            let r = spec_parse_header(data);
            let s = spec_parse_header(data2);
            &&& (r is Ok <==> s is Ok)
            &&& (r is Ok ==> s->Ok_0.0 == r->Ok_0.0 && s->Ok_0.1 == r->Ok_0.1 && s->Ok_0.2
                == r->Ok_0.2 + comment.len())
            &&& (r is Err ==> s->Err_0 == r->Err_0)
        }),
{
    let clen = comment.len() as int;
    lemma_boundary_bounds(data, n);
    let p = spec_boundary(data, n);
    let data2 = data.subrange(0, p) + comment + data.subrange(p, data.len() as int);
    assert(data2.len() == data.len() + clen);
    assert(data2.subrange(0, p) =~= data.subrange(0, p)) by {
        assert forall|j: int| 0 <= j < p implies data2.subrange(0, p)[j] == data.subrange(
            0,
            p,
        )[j] by {
            assert(data2.subrange(0, p)[j] == data2[j]);
            assert(data2[j] == data.subrange(0, p)[j]);
        }
    }
    assert(data2[p] == comment[0]);
    assert(!is_delim(data2[p]));
    assert(spec_boundary(data, 0) == 0);

    // The magic token.
    let r0 = spec_next_token(data, 0);
    if n == 0 {
        lemma_comment_skipped(data, 0, comment);
    } else {
        lemma_reads_ok_mono(data, n, 1);
        lemma_boundary_mono(data, 1, n);
        lemma_next_token_prefix(data, data2, 0, p);
    }

    if r0 is Ok {
        let q1 = r0->Ok_0.2;
        assert(spec_boundary(data, 1) == q1);
        lemma_next_token_advances(data, 0);

        // The width token.
        let r1 = spec_next_token(data, q1);
        if n == 0 {
            lemma_tail_shifted(data, p, comment, q1);
            lemma_next_token_suffix(data, q1, data2, q1 + clen);
        } else if n == 1 {
            lemma_comment_skipped(data, p, comment);
        } else {
            lemma_reads_ok_mono(data, n, 2);
            lemma_boundary_mono(data, 1, n);
            lemma_boundary_mono(data, 2, n);
            lemma_next_token_prefix(data, data2, q1, p);
        }

        if r1 is Ok {
            let q2 = r1->Ok_0.2;
            assert(spec_boundary(data, 2) == q2);
            lemma_next_token_advances(data, q1);

            // The height token.
            let r2 = spec_next_token(data, q2);
            if n <= 1 {
                lemma_tail_shifted(data, p, comment, q2);
                lemma_next_token_suffix(data, q2, data2, q2 + clen);
            } else if n == 2 {
                lemma_comment_skipped(data, p, comment);
            } else {
                lemma_reads_ok_mono(data, n, 3);
                lemma_boundary_mono(data, 2, n);
                lemma_boundary_mono(data, 3, n);
                lemma_next_token_prefix(data, data2, q2, p);
            }

            if r2 is Ok {
                let q3 = r2->Ok_0.2;
                assert(spec_boundary(data, 3) == q3);
                lemma_next_token_advances(data, q2);

                // The max-value token.
                if n <= 2 {
                    lemma_tail_shifted(data, p, comment, q3);
                    lemma_next_token_suffix(data, q3, data2, q3 + clen);
                } else {
                    lemma_comment_skipped(data, p, comment);
                }
            }
        }
    }
}

} // verus!
