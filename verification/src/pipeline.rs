//! The chunked transform pipeline: pixel bytes are processed one chunk at a
//! time, each chunk partitioned into contiguous, pixel-aligned ranges (one
//! per worker), every pixel mapped through the chosen strategy. The output
//! is proved byte-identical to the header re-emission followed by the
//! transformed pixel section, whatever the chunk capacity and worker limit.

use vstd::prelude::*;

use crate::error::PpmError;
use crate::header::{
    emit_header, new_with_bytes, spec_header_bytes, spec_parse_header, BinaryImage,
};
use crate::pixel::{
    greyscale_binary_pixel, invert_binary_pixel, spec_grey, spec_greyscale_binary,
    spec_invert_binary, spec_invert_channel, BinaryPixel, ImageProcess,
};
use crate::tokenizer::copy_range;

verus! {

/// Default capacity of the reused chunk buffer, a multiple of the pixel
/// stride (3 bytes) so a chunk boundary never splits a pixel.
pub const PIXELS_BUFFER_BYTES_LENGTH: usize = 1024 * 1024 * 3;

/// What the chosen strategy does to one binary pixel.
pub open spec fn spec_apply(p: ImageProcess, px: BinaryPixel) -> BinaryPixel {
    match p {
        ImageProcess::Invert => spec_invert_binary(px),
        ImageProcess::Greyscale => spec_greyscale_binary(px),
    }
}

/// Applies the chosen strategy to one pixel.
pub fn apply_process(pixel: &mut BinaryPixel, process: ImageProcess)
    requires
        old(pixel).valid(),
    ensures
        *final(pixel) == spec_apply(process, *old(pixel)),
        final(pixel).valid(),
{
    match process {
        ImageProcess::Invert => invert_binary_pixel(pixel),
        ImageProcess::Greyscale => greyscale_binary_pixel(pixel),
    }
}

/// Byte `i` of the transformed pixel byte string `s`: for invert, the
/// inverted byte; for greyscale, the truncating mean of the three bytes of
/// the pixel that byte `i` belongs to.
pub open spec fn transformed_byte(p: ImageProcess, s: Seq<u8>, i: int) -> u8 {
    match p {
        ImageProcess::Invert => spec_invert_channel(s[i]),
        ImageProcess::Greyscale => spec_grey(s[3 * (i / 3)], s[3 * (i / 3) + 1], s[3 * (i / 3) + 2]),
    }
}

/// A pixel byte string mapped through the strategy, byte for byte.
pub open spec fn spec_transform_bytes(p: ImageProcess, s: Seq<u8>) -> Seq<u8> {
    Seq::new(s.len(), |i: int| transformed_byte(p, s, i))
}

/// A transformed byte depends only on the bytes of its own pixel, so any
/// two strings that agree on the pixel of `i` transform `i` alike.
pub proof fn lemma_transformed_byte_local(p: ImageProcess, s1: Seq<u8>, s2: Seq<u8>, i: int)
    requires
        0 <= i < s1.len(),
        0 <= i < s2.len(),
        3 * (i / 3) + 2 < s1.len(),
        3 * (i / 3) + 2 < s2.len(),
        forall|j: int| 3 * (i / 3) <= j < 3 * (i / 3) + 3 ==> s1[j] == s2[j],
    ensures
        transformed_byte(p, s1, i) == transformed_byte(p, s2, i),
{
    assert(3 * (i / 3) <= i < 3 * (i / 3) + 3) by (nonlinear_arith);
}

/// Transforms the pixels `start..end` of `buf` in place, touching no byte
/// outside that range.
pub fn transform_range(buf: &mut Vec<u8>, start: usize, end: usize, process: ImageProcess)
    requires
        start <= end,
        (end as int) * 3 <= old(buf)@.len(),
    ensures
        final(buf)@.len() == old(buf)@.len(),
        forall|i: int|
            0 <= i < old(buf)@.len() && !(3 * start <= i < 3 * end) ==> final(buf)@[i] == old(
                buf,
            )@[i],
        forall|i: int|
            3 * start <= i < 3 * end ==> final(buf)@[i] == transformed_byte(
                process,
                old(buf)@,
                i,
            ),
{
    let n = buf.len();
    let mut k = start;
    while k < end
        invariant
            start <= k <= end,
            (end as int) * 3 <= n as int,
            buf@.len() == n,
            buf@.len() == old(buf)@.len(),
            forall|i: int|
                0 <= i < buf@.len() && !(3 * start <= i < 3 * k) ==> buf@[i] == old(buf)@[i],
            forall|i: int|
                3 * start <= i < 3 * k ==> buf@[i] == transformed_byte(process, old(buf)@, i),
        decreases end - k,
    {
        let base = 3 * k;
        let mut pixel = BinaryPixel {
            r: buf[base] as u32,
            g: buf[base + 1] as u32,
            b: buf[base + 2] as u32,
        };
        let ghost mid = buf@;
        apply_process(&mut pixel, process);
        buf.set(base, pixel.r as u8);
        buf.set(base + 1, pixel.g as u8);
        buf.set(base + 2, pixel.b as u8);
        proof {
            assert forall|i: int| 3 * k <= i < 3 * k + 3 implies buf@[i] == transformed_byte(
                process,
                old(buf)@,
                i,
            ) by {
                assert(i / 3 == k as int) by (nonlinear_arith)
                    requires
                        3 * (k as int) <= i < 3 * (k as int) + 3,
                {}
                assert(mid[3 * (k as int)] == old(buf)@[3 * (k as int)]);
                assert(mid[3 * (k as int) + 1] == old(buf)@[3 * (k as int) + 1]);
                assert(mid[3 * (k as int) + 2] == old(buf)@[3 * (k as int) + 2]);
            }
        }
        k = k + 1;
    }
}

/// Partitions `num_pixels` pixels across at most `limit` workers: the
/// ranges are contiguous, non-overlapping, non-empty, in order, cover
/// everything, and any remainder pixels belong to the last range.
pub fn worker_ranges(num_pixels: usize, limit: usize) -> (r: Vec<(usize, usize)>)
    requires
        num_pixels >= 1,
        limit >= 1,
    ensures
        r@.len() == if num_pixels < limit {
            num_pixels as int
        } else {
            limit as int
        },
        r@[0].0 == 0,
        r@[r@.len() - 1].1 == num_pixels,
        forall|k: int| 0 <= k < r@.len() - 1 ==> (#[trigger] r@[k]).1 == r@[k + 1].0,
        forall|k: int| 0 <= k < r@.len() ==> (#[trigger] r@[k]).0 < r@[k].1 <= num_pixels,
        forall|k: int|
            0 <= k < r@.len() - 1 ==> (#[trigger] r@[k]).1 - r@[k].0 == num_pixels as int / (
            r@.len() as int),
{
    let to_spawn = if num_pixels < limit {
        num_pixels
    } else {
        limit
    };
    let per = num_pixels / to_spawn;
    proof {
        assert(per >= 1 && per * (to_spawn as int) <= num_pixels) by (nonlinear_arith)
            requires
                1 <= to_spawn <= num_pixels,
                per == num_pixels as int / to_spawn as int,
        {}
    }
    let mut r: Vec<(usize, usize)> = Vec::new();
    let mut i: usize = 0;
    let mut start: usize = 0;
    while i < to_spawn
        invariant
            0 <= i <= to_spawn,
            per >= 1,
            r@.len() == i as int,
            i < to_spawn ==> num_pixels - start >= per * (to_spawn - i),
            i == to_spawn ==> start == num_pixels,
            i > 0 ==> r@[i - 1].1 == start,
            i == 0 ==> start == 0,
            forall|k: int| 0 <= k < i - 1 ==> (#[trigger] r@[k]).1 == r@[k + 1].0,
            forall|k: int| 0 <= k < i ==> (#[trigger] r@[k]).0 < r@[k].1 <= start,
            forall|k: int|
                0 <= k < i && k < to_spawn - 1 ==> (#[trigger] r@[k]).1 - r@[k].0 == per as int,
            r@.len() > 0 ==> r@[0].0 == 0,
        decreases to_spawn - i,
    {
        proof {
            assert(per * (to_spawn - i) >= per) by (nonlinear_arith)
                requires
                    per >= 1,
                    to_spawn - i >= 1,
            {}
        }
        let end = if i + 1 == to_spawn {
            num_pixels
        } else {
            start + per
        };
        proof {
            if i + 1 < to_spawn {
                assert(per * (to_spawn - i) - per == per * (to_spawn - (i + 1))) by (nonlinear_arith);
            }
        }
        r.push((start, end));
        start = end;
        i = i + 1;
    }
    r
}

/// Transforms a whole chunk in place: the chunk is partitioned into
/// pixel-aligned worker ranges and every range is transformed, which
/// together map every pixel of the chunk through the strategy exactly once.
pub fn transform_chunk(buf: &mut Vec<u8>, limit: usize, process: ImageProcess)
    requires
        old(buf)@.len() % 3 == 0,
        limit >= 1,
    ensures
        final(buf)@ == spec_transform_bytes(process, old(buf)@),
{
    let n = buf.len();
    if n == 0 {
        proof {
            assert(buf@ =~= spec_transform_bytes(process, old(buf)@));
        }
        return ;
    }
    let pixels = n / 3;
    proof {
        assert((pixels as int) * 3 == n as int);
    }
    let ranges = worker_ranges(pixels, limit);
    let mut idx: usize = 0;
    while idx < ranges.len()
        invariant
            0 <= idx <= ranges@.len(),
            ranges@.len() >= 1,
            buf@.len() == old(buf)@.len(),
            n == old(buf)@.len(),
            (pixels as int) * 3 == n as int,
            ranges@[0].0 == 0,
            ranges@[ranges@.len() - 1].1 == pixels,
            forall|k: int|
                0 <= k < ranges@.len() - 1 ==> (#[trigger] ranges@[k]).1 == ranges@[k + 1].0,
            forall|k: int|
                0 <= k < ranges@.len() ==> (#[trigger] ranges@[k]).0 < ranges@[k].1 <= pixels,
            idx < ranges@.len() ==> forall|i: int|
                3 * ranges@[idx as int].0 <= i < n ==> buf@[i] == old(buf)@[i],
            idx < ranges@.len() ==> forall|i: int|
                0 <= i < 3 * ranges@[idx as int].0 ==> buf@[i] == transformed_byte(
                    process,
                    old(buf)@,
                    i,
                ),
            idx == ranges@.len() ==> forall|i: int|
                0 <= i < n ==> buf@[i] == transformed_byte(process, old(buf)@, i),
        decreases ranges@.len() - idx,
    {
        let (s, e) = ranges[idx];
        let ghost mid = buf@;
        transform_range(buf, s, e, process);
        proof {
            assert forall|i: int| 3 * s <= i < 3 * e implies buf@[i] == transformed_byte(
                process,
                old(buf)@,
                i,
            ) by {
                assert(s as int <= i / 3 < e as int && 3 * (i / 3) + 2 < 3 * (e as int))
                    by (nonlinear_arith)
                    requires
                        3 * (s as int) <= i < 3 * (e as int),
                {}
                assert forall|j: int| 3 * (i / 3) <= j < 3 * (i / 3) + 3 implies mid[j] == old(
                    buf,
                )@[j] by {
                    assert(j >= 3 * (s as int)) by (nonlinear_arith)
                        requires
                            3 * (i / 3) <= j,
                            i / 3 >= s as int,
                    {}
                }
                lemma_transformed_byte_local(process, mid, old(buf)@, i);
            }
            if idx + 1 < ranges@.len() {
                assert(ranges@[idx as int].1 == ranges@[idx as int + 1].0);
            }
        }
        idx = idx + 1;
    }
    proof {
        assert(buf@ =~= spec_transform_bytes(process, old(buf)@));
    }
}

/// The sizes of the successive reads the pipeline makes for a pixel region
/// of `total` bytes with a chunk buffer of `cap` bytes: each read takes
/// `cap` bytes, the last takes what is left.
pub open spec fn spec_read_sizes(total: int, cap: int) -> Seq<int>
    decreases total,
{
    if total <= 0 || cap <= 0 {
        Seq::empty()
    } else if total >= cap {
        seq![cap] + spec_read_sizes(total - cap, cap)
    } else {
        seq![total]
    }
}

/// The sum of a sequence of numbers.
pub open spec fn sum_seq(s: Seq<int>) -> int
    decreases s.len(),
{
    if s.len() == 0 {
        0
    } else {
        s[0] + sum_seq(s.drop_first())
    }
}

/// Law: for any capacity that is a positive multiple of 3 and any total
/// byte length, the read sizes sum exactly to the total, each is between 1
/// and the capacity, and — whenever the total is itself a multiple of 3 —
/// every read size is a multiple of 3, so no chunk ever splits a pixel.
pub proof fn lemma_chunk_schedule(total: int, cap: int)
    requires
        total >= 0,
        cap >= 1,
        cap % 3 == 0,
    ensures
        sum_seq(spec_read_sizes(total, cap)) == total,
        forall|k: int|
            0 <= k < spec_read_sizes(total, cap).len() ==> 1 <= #[trigger] spec_read_sizes(
                total,
                cap,
            )[k] <= cap,
        total % 3 == 0 ==> forall|k: int|
            0 <= k < spec_read_sizes(total, cap).len() ==> #[trigger] spec_read_sizes(total, cap)[k]
                % 3 == 0,
    decreases total,
{
    let s = spec_read_sizes(total, cap);
    if total <= 0 {
    } else if total >= cap {
        lemma_chunk_schedule(total - cap, cap);
        let rest = spec_read_sizes(total - cap, cap);
        assert(s.drop_first() =~= rest);
        assert(sum_seq(s) == cap + sum_seq(rest));
    } else {
        assert(s.drop_first() =~= Seq::<int>::empty());
        assert(sum_seq(s) == total + sum_seq(s.drop_first()));
    }
}

/// Transforming a pixel-aligned piece of a byte string equals the matching
/// piece of the transformed whole.
pub proof fn lemma_transform_subrange(p: ImageProcess, s: Seq<u8>, a: int, b: int)
    requires
        0 <= a <= b <= s.len(),
        a % 3 == 0,
        b % 3 == 0,
    ensures
        spec_transform_bytes(p, s).subrange(a, b) == spec_transform_bytes(p, s.subrange(a, b)),
{
    let lhs = spec_transform_bytes(p, s).subrange(a, b);
    let rhs = spec_transform_bytes(p, s.subrange(a, b));
    assert forall|i: int| 0 <= i < b - a implies lhs[i] == rhs[i] by {
        assert(3 * ((a + i) / 3) == a + 3 * (i / 3)) by (nonlinear_arith)
            requires
                a % 3 == 0,
                0 <= a,
                0 <= i,
        {}
        assert(3 * (i / 3) + 2 < b - a) by (nonlinear_arith)
            requires
                0 <= i < b - a,
                (b - a) % 3 == 0,
        {}
        assert((b - a) % 3 == 0) by (nonlinear_arith)
            requires
                a % 3 == 0,
                b % 3 == 0,
        {}
    }
    assert(lhs =~= rhs);
}

/// The result of the whole streaming operation on a file's bytes: the
/// re-emitted header followed by the transformed pixel section, or the
/// header's own error, or `Truncated` when the file holds fewer pixel bytes
/// than width × height × 3.
pub open spec fn spec_process_image(data: Seq<u8>, p: ImageProcess) -> Result<Seq<u8>, PpmError> {
    match spec_parse_header(data) {
        Err(e) => Err(e),
        Ok((w, h, off)) => if data.len() < off + w * h * 3 {
            Err(PpmError::Truncated)
        } else {
            Ok(
                spec_header_bytes(w, h) + spec_transform_bytes(
                    p,
                    data.subrange(off, off + w * h * 3),
                ),
            )
        },
    }
}

/// Runs the chunked pipeline over a file's bytes: parses and validates the
/// header, re-emits it, then reads the pixel section chunk by chunk —
/// never more than `cap` bytes at a time — partitions each chunk across at
/// most `limit` workers, transforms it, and appends it to the output. The
/// result is exactly `spec_process_image`, whatever `cap` and `limit` are.
pub fn run_pipeline(data: &Vec<u8>, process: ImageProcess, cap: usize, limit: usize) -> (r: Result<
    Vec<u8>,
    PpmError,
>)
    requires
        cap >= 3,
        cap % 3 == 0,
        limit >= 1,
    ensures
        r is Ok <==> spec_process_image(data@, process) is Ok,
        r is Ok ==> r->Ok_0@ == spec_process_image(data@, process)->Ok_0,
        r is Err ==> r->Err_0 == spec_process_image(data@, process)->Err_0,
{
    let dlen = data.len();
    let img = match new_with_bytes(data) {
        Ok(img) => img,
        Err(e) => {
            return Err(e);
        },
    };
    let ghost w = img.width as int;
    let ghost h = img.height as int;
    let off = img.pixels_offset;

    // Total pixel bytes. When the product does not fit the machine it
    // surely exceeds what the data can hold, so the file is truncated.
    let total = match img.width.checked_mul(img.height) {
        Some(wh) => match wh.checked_mul(3) {
            Some(t) => t,
            None => {
                proof {
                    assert(w * h * 3 > usize::MAX);
                }
                return Err(PpmError::Truncated);
            },
        },
        None => {
            proof {
                assert(w * h * 3 >= w * h) by (nonlinear_arith)
                    requires
                        w * h > usize::MAX,
                {}
            }
            return Err(PpmError::Truncated);
        },
    };
    proof {
        assert(total as int == w * h * 3);
    }

    if dlen - off < total {
        return Err(PpmError::Truncated);
    }

    let mut out = emit_header(&img);
    let ghost pixels = data@.subrange(off as int, off as int + total as int);
    let ghost full = spec_transform_bytes(process, pixels);
    let mut done: usize = 0;
    proof {
        assert(out@ =~= spec_header_bytes(w, h) + full.take(0));
    }
    while done < total
        invariant
            0 <= done <= total,
            done % 3 == 0,
            total % 3 == 0,
            cap >= 3,
            cap % 3 == 0,
            limit >= 1,
            off + total <= dlen,
            dlen == data@.len(),
            pixels == data@.subrange(off as int, off as int + total as int),
            full == spec_transform_bytes(process, pixels),
            out@ == spec_header_bytes(w, h) + full.take(done as int),
        decreases total - done,
    {
        let sz = if total - done >= cap {
            cap
        } else {
            total - done
        };
        let mut buf = copy_range(data, off + done, off + done + sz);
        transform_chunk(&mut buf, limit, process);
        proof {
            assert(data@.subrange(off as int + done, off as int + done + sz) =~= pixels.subrange(
                done as int,
                done as int + sz,
            ));
            lemma_transform_subrange(process, pixels, done as int, done as int + sz);
            assert(buf@ == full.subrange(done as int, done as int + sz));
        }
        out.append(&mut buf);
        proof {
            assert(out@ =~= spec_header_bytes(w, h) + full.take(done as int + sz));
        }
        done = done + sz;
    }
    proof {
        assert(full.take(total as int) =~= full);
    }
    Ok(out)
}

/// Relies on num_cpus::get: the number of CPUs available to the process,
/// which its documentation promises is always at least 1.
#[verifier::external_body]
fn available_workers() -> (r: usize)
    ensures
        r >= 1,
{
    num_cpus::get()
}

/// Processes a file's bytes with the default configuration: the fixed
/// chunk-buffer capacity and one worker per available CPU. The result does
/// not depend on either — it is exactly `spec_process_image`.
pub fn process_image(data: &Vec<u8>, process: ImageProcess) -> (r: Result<Vec<u8>, PpmError>)
    ensures
        r is Ok <==> spec_process_image(data@, process) is Ok,
        r is Ok ==> r->Ok_0@ == spec_process_image(data@, process)->Ok_0,
        r is Err ==> r->Err_0 == spec_process_image(data@, process)->Err_0,
{
    let limit = available_workers();
    run_pipeline(data, process, PIXELS_BUFFER_BYTES_LENGTH, limit)
}

} // verus!
