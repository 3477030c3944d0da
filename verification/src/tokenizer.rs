//! The header tokenizer: extracts one whitespace-delimited token at a time
//! from a byte stream, skipping comment lines, within a bounded lookahead
//! window. `spec_next_token` is the mathematical model; `next_token` is the
//! verified implementation.

use vstd::prelude::*;

use crate::error::PpmError;

verus! {

/// Size of the lookahead window: a single header token and its trailing
/// delimiter, or a comment line's newline, must fall within this many bytes.
pub const WINDOW: usize = 8192;

/// The comment marker byte, `#`.
pub const COMMENT_MARKER: u8 = 35;

/// The four delimiter bytes: LF, CR, space, tab.
pub open spec fn is_delim(b: u8) -> bool {
    b == 10u8 || b == 13u8 || b == 32u8 || b == 9u8
}

/// The two line-ending bytes that terminate a comment: LF, CR.
pub open spec fn is_newline(b: u8) -> bool {
    b == 10u8 || b == 13u8
}

/// A byte of plain text: seven-bit.
pub open spec fn is_text_byte(b: u8) -> bool {
    b < 128
}

/// Whether a whole token is plain text.
pub open spec fn all_text(s: Seq<u8>) -> bool {
    forall|i: int| 0 <= i < s.len() ==> is_text_byte(s[i])
}

/// Where the lookahead window that starts at `pos` ends.
pub open spec fn window_end(data: Seq<u8>, pos: int) -> int {
    if data.len() <= pos + WINDOW {
        data.len() as int
    } else {
        pos + WINDOW
    }
}

/// The first index in `[i, end)` holding a delimiter, or `end` if none.
pub open spec fn scan_delim(data: Seq<u8>, i: int, end: int) -> int
    decreases end - i,
{
    if i >= end {
        end
    } else if is_delim(data[i]) {
        i
    } else {
        scan_delim(data, i + 1, end)
    }
}

/// The first index in `[i, end)` holding a line ending, or `end` if none.
pub open spec fn scan_newline(data: Seq<u8>, i: int, end: int) -> int
    decreases end - i,
{
    if i >= end {
        end
    } else if is_newline(data[i]) {
        i
    } else {
        scan_newline(data, i + 1, end)
    }
}

/// The first index in `[i, end)` holding a non-delimiter, or `end` if none.
pub open spec fn scan_non_delim(data: Seq<u8>, i: int, end: int) -> int
    decreases end - i,
{
    if i >= end {
        end
    } else if !is_delim(data[i]) {
        i
    } else {
        scan_non_delim(data, i + 1, end)
    }
}

/// `scan_delim` returns the first delimiter index: it lies in `[i, end]`,
/// hits a delimiter unless it is `end`, and nothing before it is one.
pub proof fn lemma_scan_delim(data: Seq<u8>, i: int, end: int)
    requires
        i <= end,
    ensures
        i <= scan_delim(data, i, end) <= end,
        scan_delim(data, i, end) < end ==> is_delim(data[scan_delim(data, i, end)]),
        forall|k: int| i <= k < scan_delim(data, i, end) ==> !is_delim(data[k]),
    decreases end - i,
{
    if i < end && !is_delim(data[i]) {
        lemma_scan_delim(data, i + 1, end);
    }
}

/// `scan_newline` returns the first line-ending index, characterized as in
/// `lemma_scan_delim`.
pub proof fn lemma_scan_newline(data: Seq<u8>, i: int, end: int)
    requires
        i <= end,
    ensures
        i <= scan_newline(data, i, end) <= end,
        scan_newline(data, i, end) < end ==> is_newline(data[scan_newline(data, i, end)]),
        forall|k: int| i <= k < scan_newline(data, i, end) ==> !is_newline(data[k]),
    decreases end - i,
{
    if i < end && !is_newline(data[i]) {
        lemma_scan_newline(data, i + 1, end);
    }
}

/// `scan_non_delim` returns the first non-delimiter index, characterized as
/// in `lemma_scan_delim`.
pub proof fn lemma_scan_non_delim(data: Seq<u8>, i: int, end: int)
    requires
        i <= end,
    ensures
        i <= scan_non_delim(data, i, end) <= end,
        scan_non_delim(data, i, end) < end ==> !is_delim(data[scan_non_delim(data, i, end)]),
        forall|k: int| i <= k < scan_non_delim(data, i, end) ==> is_delim(data[k]),
    decreases end - i,
{
    if i < end && is_delim(data[i]) {
        lemma_scan_non_delim(data, i + 1, end);
    }
}

/// The next token of `data`, read from `pos`: the bytes up to the first
/// delimiter within the window, with comment lines skipped, together with
/// the position of that delimiter (the token's end) and the position of
/// the first byte after the delimiter run that follows the token. Fails
/// when no delimiter or no comment-ending newline lies within the window,
/// or when the token is not text.
pub open spec fn spec_next_token(data: Seq<u8>, pos: int) -> Result<(Seq<u8>, int, int), PpmError>
    decreases data.len() - pos
        via spec_next_token_decreases
{
    let wend = window_end(data, pos);
    let d = scan_delim(data, pos, wend);
    if d >= wend {
        Err(PpmError::UnterminatedToken)
    } else {
        let tok = data.subrange(pos, d);
        if !all_text(tok) {
            Err(PpmError::NotText)
        } else if tok.len() > 0 && tok[0] == COMMENT_MARKER {
            let k = scan_newline(data, d, wend);
            if k >= wend {
                Err(PpmError::UnterminatedComment)
            } else {
                spec_next_token(data, k + 1)
            }
        } else {
            Ok((tok, d, scan_non_delim(data, d, wend)))
        }
    }
}

#[via_fn]
proof fn spec_next_token_decreases(data: Seq<u8>, pos: int) {
    let wend = window_end(data, pos);
    if pos <= wend {
        lemma_scan_delim(data, pos, wend);
        let d = scan_delim(data, pos, wend);
        if d < wend {
            lemma_scan_newline(data, d, wend);
        }
    }
}

/// On success the token ends at or after the cursor, the next position
/// lies strictly past the token's ending delimiter, and both stay inside
/// the data.
pub proof fn lemma_next_token_advances(data: Seq<u8>, pos: int)
    requires
        0 <= pos <= data.len(),
        spec_next_token(data, pos) is Ok,
    ensures
        pos <= spec_next_token(data, pos)->Ok_0.1,
        spec_next_token(data, pos)->Ok_0.1 < spec_next_token(data, pos)->Ok_0.2 <= data.len(),
    decreases data.len() - pos,
{
    let wend = window_end(data, pos);
    lemma_scan_delim(data, pos, wend);
    let d = scan_delim(data, pos, wend);
    if d < wend {
        let tok = data.subrange(pos, d);
        if all_text(tok) {
            if tok.len() > 0 && tok[0] == COMMENT_MARKER {
                lemma_scan_newline(data, d, wend);
                let k = scan_newline(data, d, wend);
                if k < wend {
                    lemma_next_token_advances(data, k + 1);
                }
            } else {
                lemma_scan_non_delim(data, d + 1, wend);
                assert(scan_non_delim(data, d, wend) == scan_non_delim(data, d + 1, wend));
            }
        }
    }
}

/// Tokenizing depends only on the bytes from the cursor on: two streams
/// whose suffixes are equal tokenize alike, with positions shifted.
pub proof fn lemma_next_token_suffix(data1: Seq<u8>, pos1: int, data2: Seq<u8>, pos2: int)
    requires
        0 <= pos1 <= data1.len(),
        0 <= pos2 <= data2.len(),
        data1.subrange(pos1, data1.len() as int) == data2.subrange(pos2, data2.len() as int),
    ensures
        ({
            let r1 = spec_next_token(data1, pos1);
            let r2 = spec_next_token(data2, pos2);
            &&& (r1 is Ok <==> r2 is Ok)
            &&& (r1 is Ok ==> r1->Ok_0.0 == r2->Ok_0.0 && r1->Ok_0.1 - pos1 == r2->Ok_0.1 - pos2
                && r1->Ok_0.2 - pos1 == r2->Ok_0.2 - pos2)
            &&& (r1 is Err ==> r1->Err_0 == r2->Err_0)
        }),
    decreases data1.len() - pos1,
{
    assert(data1.subrange(pos1, data1.len() as int).len() == data1.len() - pos1);
    assert(data2.subrange(pos2, data2.len() as int).len() == data2.len() - pos2);
    assert(data1.len() - pos1 == data2.len() - pos2);
    assert forall|j: int| 0 <= j < data1.len() - pos1 implies #[trigger] data1[pos1 + j]
        == #[trigger] data2[pos2 + j] by {
        assert(data1.subrange(pos1, data1.len() as int)[j] == data1[pos1 + j]);
        assert(data2.subrange(pos2, data2.len() as int)[j] == data2[pos2 + j]);
    }

    let wend1 = window_end(data1, pos1);
    let wend2 = window_end(data2, pos2);
    assert(wend1 - pos1 == wend2 - pos2);

    lemma_scan_delim(data1, pos1, wend1);
    lemma_scan_delim(data2, pos2, wend2);
    let d1 = scan_delim(data1, pos1, wend1);
    let d2 = scan_delim(data2, pos2, wend2);
    assert(d1 - pos1 == d2 - pos2) by {
        if d1 - pos1 < d2 - pos2 {
            let j = d1 - pos1;
            assert(data1[pos1 + j] == data2[pos2 + j]);
            assert(!is_delim(data2[pos2 + j]));
            assert(is_delim(data1[d1]));
        }
        if d2 - pos2 < d1 - pos1 {
            let j = d2 - pos2;
            assert(data1[pos1 + j] == data2[pos2 + j]);
            assert(!is_delim(data1[pos1 + j]));
            assert(is_delim(data2[d2]));
        }
    }

    if d1 < wend1 {
        let tok1 = data1.subrange(pos1, d1);
        let tok2 = data2.subrange(pos2, d2);
        assert(tok1 =~= tok2);
        if all_text(tok1) {
            if tok1.len() > 0 && tok1[0] == COMMENT_MARKER {
                lemma_scan_newline(data1, d1, wend1);
                lemma_scan_newline(data2, d2, wend2);
                let k1 = scan_newline(data1, d1, wend1);
                let k2 = scan_newline(data2, d2, wend2);
                assert(k1 - pos1 == k2 - pos2) by {
                    if k1 - pos1 < k2 - pos2 {
                        let j = k1 - pos1;
                        assert(data1[pos1 + j] == data2[pos2 + j]);
                        assert(!is_newline(data2[pos2 + j]));
                        assert(is_newline(data1[k1]));
                    }
                    if k2 - pos2 < k1 - pos1 {
                        let j = k2 - pos2;
                        assert(data1[pos1 + j] == data2[pos2 + j]);
                        assert(!is_newline(data1[pos1 + j]));
                        assert(is_newline(data2[k2]));
                    }
                }
                if k1 < wend1 {
                    let sub1 = data1.subrange(k1 + 1, data1.len() as int);
                    let sub2 = data2.subrange(k2 + 1, data2.len() as int);
                    assert forall|m: int| 0 <= m < sub1.len() implies sub1[m] == sub2[m] by {
                        let j = (k1 + 1 - pos1) + m;
                        assert(data1[pos1 + j] == data2[pos2 + j]);
                        assert(sub1[m] == data1[k1 + 1 + m]);
                        assert(sub2[m] == data2[k2 + 1 + m]);
                        assert(data1[k1 + 1 + m] == data1[pos1 + j]);
                        assert(data2[k2 + 1 + m] == data2[pos2 + j]);
                    }
                    assert(sub1 =~= sub2);
                    lemma_next_token_suffix(data1, k1 + 1, data2, k2 + 1);
                }
            } else {
                lemma_scan_non_delim(data1, d1, wend1);
                lemma_scan_non_delim(data2, d2, wend2);
                let j1 = scan_non_delim(data1, d1, wend1);
                let j2 = scan_non_delim(data2, d2, wend2);
                assert(j1 - pos1 == j2 - pos2) by {
                    if j1 - pos1 < j2 - pos2 {
                        let j = j1 - pos1;
                        assert(data1[pos1 + j] == data2[pos2 + j]);
                        assert(is_delim(data2[pos2 + j]));
                        assert(!is_delim(data1[j1]));
                    }
                    if j2 - pos2 < j1 - pos1 {
                        let j = j2 - pos2;
                        assert(data1[pos1 + j] == data2[pos2 + j]);
                        assert(is_delim(data1[pos1 + j]));
                        assert(!is_delim(data2[j2]));
                    }
                }
            }
        }
    }
}

/// A read that stops at or before `p` is unchanged by edits from `p` on:
/// if two streams agree before `p` and the second holds content (or its
/// end) at `p`, the read comes out the same in both, positions included.
pub proof fn lemma_next_token_prefix(data1: Seq<u8>, data2: Seq<u8>, pos: int, p: int)
    requires
        0 <= pos <= p,
        p <= data1.len(),
        p <= data2.len(),
        data1.len() <= data2.len(),
        data1.subrange(0, p) == data2.subrange(0, p),
        spec_next_token(data1, pos) is Ok,
        spec_next_token(data1, pos)->Ok_0.2 <= p,
        p < data2.len() ==> !is_delim(data2[p]),
    ensures
        spec_next_token(data2, pos) == spec_next_token(data1, pos),
    decreases data1.len() - pos,
{
    assert(data1.subrange(0, p).len() == p);
    assert forall|j: int| 0 <= j < p implies #[trigger] data1[j] == #[trigger] data2[j] by {
        assert(data1.subrange(0, p)[j] == data1[j]);
        assert(data2.subrange(0, p)[j] == data2[j]);
    }

    let wend1 = window_end(data1, pos);
    let wend2 = window_end(data2, pos);
    assert(wend1 <= wend2);

    lemma_scan_delim(data1, pos, wend1);
    lemma_scan_delim(data2, pos, wend2);
    lemma_next_token_advances(data1, pos);
    let d1 = scan_delim(data1, pos, wend1);
    let d2 = scan_delim(data2, pos, wend2);
    let r1 = spec_next_token(data1, pos);
    assert(d1 < wend1);
    assert(d1 <= r1->Ok_0.1) by {
        let tok = data1.subrange(pos, d1);
        if all_text(tok) && tok.len() > 0 && tok[0] == COMMENT_MARKER {
            lemma_scan_newline(data1, d1, wend1);
            let k = scan_newline(data1, d1, wend1);
            if k < wend1 {
                lemma_next_token_advances(data1, k + 1);
            }
        }
    }
    assert(d1 < p) by {
        lemma_scan_non_delim(data1, d1, wend1);
    }
    assert(d2 == d1) by {
        if d2 < d1 {
            assert(data1[d2] == data2[d2]);
            assert(is_delim(data2[d2]));
            assert(!is_delim(data1[d2]));
        }
        if d1 < d2 {
            assert(data1[d1] == data2[d1]);
            assert(is_delim(data1[d1]));
            assert(!is_delim(data2[d1]));
        }
    }

    let tok1 = data1.subrange(pos, d1);
    let tok2 = data2.subrange(pos, d2);
    assert(tok1 =~= tok2);

    if all_text(tok1) {
        if tok1.len() > 0 && tok1[0] == COMMENT_MARKER {
            // A comment frame: its newline lies before the final read's
            // positions, so both streams skip the same line and the rest
            // follows by induction.
            lemma_scan_newline(data1, d1, wend1);
            lemma_scan_newline(data2, d2, wend2);
            let k1 = scan_newline(data1, d1, wend1);
            let k2 = scan_newline(data2, d2, wend2);
            assert(k1 < wend1);
            assert(k1 + 1 <= r1->Ok_0.1) by {
                lemma_next_token_advances(data1, k1 + 1);
            }
            assert(k2 == k1) by {
                if k2 < k1 {
                    assert(data1[k2] == data2[k2]);
                    assert(is_newline(data2[k2]));
                    assert(!is_newline(data1[k2]));
                }
                if k1 < k2 {
                    assert(data1[k1] == data2[k1]);
                    assert(is_newline(data1[k1]));
                    assert(!is_newline(data2[k1]));
                }
            }
            lemma_next_token_prefix(data1, data2, k1 + 1, p);
        } else {
            // The trailing delimiter run stops at the same place in both
            // streams: at a shared non-delimiter before `p`, or exactly at
            // `p`, where the second stream holds content or ends.
            lemma_scan_non_delim(data1, d1, wend1);
            lemma_scan_non_delim(data2, d2, wend2);
            let j1 = scan_non_delim(data1, d1, wend1);
            let j2 = scan_non_delim(data2, d2, wend2);
            assert(j1 == r1->Ok_0.2);
            assert(j2 == j1) by {
                if j2 < j1 {
                    assert(data1[j2] == data2[j2]);
                    assert(!is_delim(data2[j2]));
                    assert(is_delim(data1[j2]));
                }
                if j1 < j2 {
                    assert(j1 < wend2);
                    assert(!is_delim(data2[j1])) by {
                        if j1 < p {
                            assert(data1[j1] == data2[j1]);
                            assert(j1 < wend1 ==> !is_delim(data1[j1]));
                            if j1 >= wend1 {
                                assert(wend1 == pos + WINDOW || wend1 == data1.len());
                                assert(j1 <= wend1);
                                assert(false);
                            }
                        } else {
                            assert(j1 == p);
                        }
                    }
                }
            }
        }
    }
}

/// Law: a comment line standing where a token is expected changes nothing
/// but positions. Inserting at the cursor a line that opens with the
/// comment marker, holds no line ending before its final one, is text, and
/// fits the lookahead window, leaves the tokenizer's result as it was —
/// the same token or the same error — with the position shifted by the
/// line's length.
pub proof fn lemma_comment_skipped(data: Seq<u8>, pos: int, comment: Seq<u8>)
    requires
        0 <= pos <= data.len(),
        2 <= comment.len() <= WINDOW,
        comment[0] == COMMENT_MARKER,
        is_newline(comment.last()),
        forall|i: int| 0 <= i < comment.len() - 1 ==> !is_newline(comment[i]),
        forall|i: int| 0 <= i < comment.len() ==> is_text_byte(comment[i]),
    ensures
        ({
            let data2 = data.subrange(0, pos) + comment + data.subrange(pos, data.len() as int);
            let r1 = spec_next_token(data, pos);
            let r2 = spec_next_token(data2, pos);
            &&& (r1 is Ok <==> r2 is Ok)
            &&& (r1 is Ok ==> r2->Ok_0.0 == r1->Ok_0.0 && r2->Ok_0.1 == r1->Ok_0.1 + comment.len()
                && r2->Ok_0.2 == r1->Ok_0.2 + comment.len())
            &&& (r1 is Err ==> r2->Err_0 == r1->Err_0)
        }),
{
    let clen = comment.len() as int;
    let data2 = data.subrange(0, pos) + comment + data.subrange(pos, data.len() as int);
    assert(data2.len() == data.len() + clen);
    assert(forall|i: int| 0 <= i < clen ==> data2[pos + i] == comment[i]);

    let wend2 = window_end(data2, pos);
    assert(pos + clen - 1 < wend2);

    // The comment's final newline bounds the delimiter scan, and the
    // marker keeps the found token non-empty, so the comment branch runs.
    lemma_scan_delim(data2, pos, wend2);
    let d2 = scan_delim(data2, pos, wend2);
    assert(d2 <= pos + clen - 1) by {
        assert(is_delim(data2[pos + clen - 1]));
    }
    assert(d2 > pos) by {
        assert(data2[pos] == COMMENT_MARKER);
    }
    let tok2 = data2.subrange(pos, d2);
    assert(all_text(tok2)) by {
        assert(forall|i: int| 0 <= i < d2 - pos ==> tok2[i] == comment[i]);
    }
    assert(tok2[0] == COMMENT_MARKER);

    // The newline scan stops exactly at the comment's final byte.
    lemma_scan_newline(data2, d2, wend2);
    let k2 = scan_newline(data2, d2, wend2);
    assert(k2 == pos + clen - 1) by {
        assert(is_newline(data2[pos + clen - 1]));
        if k2 < pos + clen - 1 {
            assert(!is_newline(comment[k2 - pos]));
        }
    }

    // The tokenizer restarts just past the comment, where the stream reads
    // as the original did at the cursor.
    assert(spec_next_token(data2, pos) == spec_next_token(data2, pos + clen));
    assert(data2.subrange(pos + clen, data2.len() as int) =~= data.subrange(
        pos,
        data.len() as int,
    ));
    lemma_next_token_suffix(data, pos, data2, pos + clen);
}

/// Exec check for a delimiter byte.
pub fn delim_byte(b: u8) -> (r: bool)
    ensures
        r == is_delim(b),
{
    b == 10 || b == 13 || b == 32 || b == 9
}

/// Exec check for a line-ending byte.
pub fn newline_byte(b: u8) -> (r: bool)
    ensures
        r == is_newline(b),
{
    b == 10 || b == 13
}

/// Copies `data[start..end]` into a fresh vector.
pub fn copy_range(data: &Vec<u8>, start: usize, end: usize) -> (r: Vec<u8>)
    requires
        start <= end <= data@.len(),
    ensures
        r@ == data@.subrange(start as int, end as int),
{
    let mut out: Vec<u8> = Vec::new();
    let mut i = start;
    while i < end
        invariant
            start <= i <= end <= data@.len(),
            out@ == data@.subrange(start as int, i as int),
        decreases end - i,
    {
        out.push(data[i]);
        i = i + 1;
        proof {
            assert(out@ =~= data@.subrange(start as int, i as int));
        }
    }
    out
}

/// Reads the next header token from `data` at `pos`, skipping comment
/// lines, and returns it with the position of its ending delimiter and the
/// position of the next token (or of the pixel data). Behaves exactly as
/// `spec_next_token` says.
pub fn next_token(data: &Vec<u8>, pos: usize) -> (r: Result<(Vec<u8>, usize, usize), PpmError>)
    requires
        pos <= data@.len(),
    ensures
        r is Ok <==> spec_next_token(data@, pos as int) is Ok,
        r is Ok ==> r->Ok_0.0@ == spec_next_token(data@, pos as int)->Ok_0.0
            && r->Ok_0.1 == spec_next_token(data@, pos as int)->Ok_0.1
            && r->Ok_0.2 == spec_next_token(data@, pos as int)->Ok_0.2
            && pos <= r->Ok_0.1 && r->Ok_0.1 < r->Ok_0.2 <= data@.len(),
        r is Err ==> r->Err_0 == spec_next_token(data@, pos as int)->Err_0,
{
    let mut cur = pos;
    loop
        invariant
            pos <= cur <= data@.len(),
            spec_next_token(data@, pos as int) == spec_next_token(data@, cur as int),
        decreases data@.len() - cur,
    {
        let wend = if data.len() - cur <= WINDOW {
            data.len()
        } else {
            cur + WINDOW
        };
        proof {
            assert(wend == window_end(data@, cur as int));
        }

        // Find the first delimiter: it marks the end of the token.
        let mut d = cur;
        while d < wend && !delim_byte(data[d])
            invariant
                cur <= d <= wend <= data@.len(),
                forall|k: int| cur <= k < d ==> !is_delim(data@[k]),
            decreases wend - d,
        {
            d = d + 1;
        }
        proof {
            lemma_scan_delim(data@, cur as int, wend as int);
            assert(scan_delim(data@, cur as int, wend as int) == d);
        }
        if d >= wend {
            return Err(PpmError::UnterminatedToken);
        }

        let tok = copy_range(data, cur, d);

        // The token must decode as plain text.
        let mut t: usize = 0;
        while t < tok.len() && tok[t] < 128
            invariant
                t <= tok@.len(),
                forall|k: int| 0 <= k < t ==> is_text_byte(tok@[k]),
            decreases tok@.len() - t,
        {
            t = t + 1;
        }
        if t < tok.len() {
            proof {
                assert(!is_text_byte(tok@[t as int]));
            }
            return Err(PpmError::NotText);
        }
        proof {
            assert(all_text(tok@));
        }

        if tok.len() > 0 && tok[0] == COMMENT_MARKER {
            // A comment: discard the rest of the line and start over just
            // past its newline.
            let mut k = d;
            while k < wend && !newline_byte(data[k])
                invariant
                    d <= k <= wend <= data@.len(),
                    forall|j: int| d <= j < k ==> !is_newline(data@[j]),
                decreases wend - k,
            {
                k = k + 1;
            }
            proof {
                lemma_scan_newline(data@, d as int, wend as int);
                assert(scan_newline(data@, d as int, wend as int) == k);
            }
            if k >= wend {
                return Err(PpmError::UnterminatedComment);
            }
            cur = k + 1;
        } else {
            // Skip the delimiter run after the token, so the next call
            // starts exactly on token content (or on the pixel bytes).
            let mut j = d;
            while j < wend && delim_byte(data[j])
                invariant
                    d <= j <= wend <= data@.len(),
                    forall|k: int| d <= k < j ==> is_delim(data@[k]),
                decreases wend - j,
            {
                j = j + 1;
            }
            proof {
                lemma_scan_non_delim(data@, d as int, wend as int);
                assert(scan_non_delim(data@, d as int, wend as int) == j);
                lemma_next_token_advances(data@, pos as int);
            }
            return Ok((tok, d, j));
        }
    }
}

} // verus!
