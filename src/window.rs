//! The windowed read: which data blocks a time window covers, where they lie in
//! the file, and how their interleaved samples become one sequence per channel.
use vstd::prelude::*;
use vstd::arithmetic::div_mod::lemma_fundamental_div_mod_converse;
use crate::error::EdfError;
use crate::model::{EDFChannel, EDFHeader, Ratio, field_limit};

verus! {

/// The signed 16-bit integer whose little-endian bytes are `lo`, `hi`.
pub open spec fn le_i16(lo: u8, hi: u8) -> int {
    let u = lo + 256 * hi;
    if u >= 32768 {
        u - 65536
    } else {
        u
    }
}

/// Sample number `index` of a byte sequence of 16-bit little-endian samples.
pub open spec fn sample_at(data: Seq<u8>, index: int) -> int {
    le_i16(data[2 * index], data[2 * index + 1])
}

/// Reads sample number `index` of a byte buffer of 16-bit little-endian samples.
pub fn get_sample(data: &Vec<u8>, index: usize) -> (r: i16)
    requires
        2 * index + 1 < data@.len(),
    ensures
        r == sample_at(data@, index as int),
{
    let len = data.len();
    assert(2 * index + 1 < len);
    let lo = data[2 * index] as i32;
    let hi = data[2 * index + 1] as i32;
    let u: i32 = lo + 256 * hi;
    if u >= 32768 {
        (u - 65536) as i16
    } else {
        u as i16
    }
}

/// Length of the recording in milliseconds.
pub open spec fn recording_duration(h: EDFHeader) -> int {
    h.block_duration * h.number_of_blocks
}

/// Fails with `WindowOutOfBounds` when the window ends after the recording.
pub fn check_bounds(start_time: u64, duration: u64, edf_header: &EDFHeader) -> (r: Result<
    (),
    EdfError,
>)
    requires
        edf_header.general_wf(),
    ensures
        start_time + duration <= recording_duration(*edf_header) ==> r is Ok,
        start_time + duration > recording_duration(*edf_header) ==> r == Err::<(), EdfError>(
            EdfError::WindowOutOfBounds,
        ),
{
    assert(edf_header.block_duration * edf_header.number_of_blocks <= 100000000000 * 100000000)
        by (nonlinear_arith)
        requires
            edf_header.block_duration < 100000000000,
            edf_header.number_of_blocks < 100000000,
    ;
    let total = edf_header.block_duration * edf_header.number_of_blocks;
    if start_time > total || duration > total - start_time {
        Err(EdfError::WindowOutOfBounds)
    } else {
        Ok(())
    }
}

/// Index of the block that holds `start` milliseconds.
pub open spec fn first_block(h: EDFHeader, start: int) -> int {
    if h.block_duration == 0 {
        0
    } else {
        start / (h.block_duration as int)
    }
}

/// Number of whole blocks that `duration` milliseconds span: the duration over
/// the block duration, rounded up.
pub open spec fn blocks_to_fetch(h: EDFHeader, duration: int) -> int {
    if h.block_duration == 0 {
        0
    } else {
        (duration + h.block_duration - 1) / (h.block_duration as int)
    }
}

/// First byte of the window's blocks.
pub open spec fn window_offset(h: EDFHeader, start: int) -> int {
    h.byte_size_header + first_block(h, start) * h.spec_size_of_data_block()
}

/// Number of bytes of the window's blocks.
pub open spec fn window_length(h: EDFHeader, duration: int) -> int {
    blocks_to_fetch(h, duration) * h.spec_size_of_data_block()
}

/// The byte range to read for a window, and how many blocks it holds.
#[derive(Debug, Clone, Copy, PartialEq, Eq, Structural)]
pub struct WindowPlan {
    pub offset: u64,
    pub length: u64,
    pub blocks: u64,
}

/// Computes the byte range of the blocks that cover `[start_time_ms,
/// start_time_ms + duration_ms)`.
pub fn plan_window(header: &EDFHeader, start_time_ms: u64, duration_ms: u64) -> (r: Result<
    WindowPlan,
    EdfError,
>)
    requires
        header.wf(),
    ensures
        start_time_ms + duration_ms > recording_duration(*header) ==> r == Err::<
            WindowPlan,
            EdfError,
        >(EdfError::WindowOutOfBounds),
        start_time_ms + duration_ms <= recording_duration(*header) ==> {
            let fits = window_offset(*header, start_time_ms as int) <= u64::MAX && window_length(
                *header,
                duration_ms as int,
            ) <= u64::MAX;
            &&& fits ==> r == Ok::<WindowPlan, EdfError>(
                WindowPlan {
                    offset: window_offset(*header, start_time_ms as int) as u64,
                    length: window_length(*header, duration_ms as int) as u64,
                    blocks: blocks_to_fetch(*header, duration_ms as int) as u64,
                },
            )
            &&& !fits ==> r == Err::<WindowPlan, EdfError>(EdfError::RangeOverflow)
        },
        r matches Ok(p) ==> p.offset == window_offset(*header, start_time_ms as int) && p.length
            == window_length(*header, duration_ms as int) && p.blocks == blocks_to_fetch(
            *header,
            duration_ms as int,
        ),
{
    match check_bounds(start_time_ms, duration_ms, header) {
        Ok(()) => {},
        Err(e) => return Err(e),
    }
    let block_size = header.get_size_of_data_block();
    let bd = header.block_duration;
    assert(recording_duration(*header) <= 100000000000 * 100000000) by (nonlinear_arith)
        requires
            header.block_duration < 100000000000,
            header.number_of_blocks < 100000000,
    ;
    let (first, blocks) = if bd == 0 {
        (0u64, 0u64)
    } else {
        assert(duration_ms / bd <= duration_ms) by (nonlinear_arith)
            requires
                bd >= 1,
        ;
        let blocks = duration_ms / bd + if duration_ms % bd == 0 {
            0u64
        } else {
            1u64
        };
        proof {
            lemma_ceil_div(duration_ms as int, bd as int);
        }
        (start_time_ms / bd, blocks)
    };
    let b = block_size as u128;
    proof {
        assert(first as u128 * b <= 0xffff_ffff_ffff_ffffu128 * 0xffff_ffff_ffff_ffffu128)
            by (nonlinear_arith)
            requires
                first <= 0xffff_ffff_ffff_ffffu64,
                b <= 0xffff_ffff_ffff_ffffu64,
        ;
        assert(header.byte_size_header < 100000000);
        assert(blocks as u128 * b <= 0xffff_ffff_ffff_ffffu128 * 0xffff_ffff_ffff_ffffu128)
            by (nonlinear_arith)
            requires
                blocks <= 0xffff_ffff_ffff_ffffu64,
                b <= 0xffff_ffff_ffff_ffffu64,
        ;
    }
    let offset: u128 = header.byte_size_header as u128 + first as u128 * b;
    let length: u128 = blocks as u128 * b;
    if offset > 0xffff_ffff_ffff_ffff || length > 0xffff_ffff_ffff_ffff {
        return Err(EdfError::RangeOverflow);
    }
    Ok(WindowPlan { offset: offset as u64, length: length as u64, blocks })
}

/// `d / b` plus one when it leaves a remainder is `(d + b - 1) / b`.
proof fn lemma_ceil_div(d: int, b: int)
    requires
        0 <= d,
        0 < b,
    ensures
        d / b + (if d % b == 0 { 0int } else { 1int }) == (d + b - 1) / b,
{
    vstd::arithmetic::div_mod::lemma_fundamental_div_mod(d, b);
    let q = d / b;
    let r = d % b;
    assert(d == q * b + r) by (nonlinear_arith)
        requires
            d == b * (d / b) + d % b,
            q == d / b,
            r == d % b,
    ;
    if r == 0 {
        lemma_fundamental_div_mod_converse(d + b - 1, b, q, b - 1);
    } else {
        assert(d + b - 1 == (q + 1) * b + (r - 1)) by (nonlinear_arith)
            requires
                d == q * b + r,
        ;
        lemma_fundamental_div_mod_converse(d + b - 1, b, q + 1, r - 1);
    }
}

/// `x` is element `p` of channel `j` in a window decoded from `data`: sample
/// `p mod spb` of that channel in block `p / spb`, converted to physical units.
pub open spec fn sample_matches(h: EDFHeader, data: Seq<u8>, j: int, p: int, x: Ratio) -> bool {
    let c = h.channels@[j];
    let spb = c.number_of_samples_in_data_record as int;
    let index = (p / spb) * h.samples_per_block() + h.samples_before(j) + p % spb;
    &&& x.numerator == c.physical_numerator(sample_at(data, index))
    &&& x.denominator == c.unit_denominator()
}

/// `v` is channel `j` of a window of `blocks` blocks decoded from `data`.
pub open spec fn channel_decoded(h: EDFHeader, data: Seq<u8>, blocks: int, j: int, v: Seq<Ratio>) -> bool {
    &&& v.len() == h.channels@[j].number_of_samples_in_data_record * blocks
    &&& forall|p: int| 0 <= p < v.len() ==> #[trigger] sample_matches(h, data, j, p, v[p])
}

/// `r` holds, for every channel in header order, its samples of the `blocks`
/// blocks in `data`.
pub open spec fn window_decoded(h: EDFHeader, data: Seq<u8>, blocks: int, r: Seq<Vec<Ratio>>) -> bool {
    &&& r.len() == h.channels@.len()
    &&& forall|j: int| 0 <= j < r.len() ==> #[trigger] channel_decoded(h, data, blocks, j, r[j]@)
}

proof fn lemma_samples_before_mono(h: EDFHeader, i: int, j: int)
    requires
        0 <= i <= j <= h.channels@.len(),
    ensures
        h.samples_before(i) <= h.samples_before(j),
    decreases j - i,
{
    if i < j {
        lemma_samples_before_mono(h, i, j - 1);
    }
}

proof fn lemma_samples_before_bound(h: EDFHeader, j: int)
    requires
        h.wf(),
        0 <= j <= h.channels@.len(),
    ensures
        0 <= h.samples_before(j) <= j * field_limit(),
    decreases j,
{
    if j > 0 {
        lemma_samples_before_bound(h, j - 1);
        assert(h.channels@[j - 1].wf());
    }
}

/// Decodes channel `j` of `blocks` blocks whose samples start at `data[0]`.
fn decode_channel(header: &EDFHeader, data: &Vec<u8>, blocks: u64, j: usize, before: u64) -> (r: Vec<
    Ratio,
>)
    requires
        header.wf(),
        j < header.channels@.len(),
        before == header.samples_before(j as int),
        data@.len() == blocks * header.spec_size_of_data_block(),
    ensures
        channel_decoded(*header, data@, blocks as int, j as int, r@),
{
    let len = data.len();
    assert(len == blocks * header.spec_size_of_data_block());
    let c: &EDFChannel = &header.channels[j];
    assert(c.wf());
    let spb = c.number_of_samples_in_data_record;
    let total = header.get_size_of_data_block() / 2;
    proof {
        lemma_samples_before_mono(*header, j as int + 1, header.channels@.len() as int);
    }
    let mut out: Vec<Ratio> = Vec::new();
    let mut b: u64 = 0;
    while b < blocks
        invariant
            header.wf(),
            c == header.channels@[j as int],
            c.wf(),
            spb == c.number_of_samples_in_data_record,
            total == header.samples_per_block(),
            before == header.samples_before(j as int),
            before + spb <= total,
            data@.len() == blocks * (2 * total),
            data@.len() <= usize::MAX,
            b <= blocks,
            out@.len() == b * spb,
            forall|p: int| 0 <= p < out@.len() ==> #[trigger] sample_matches(*header, data@, j as int, p, out@[p]),
        decreases blocks - b,
    {
        assert((b + 1) * total <= blocks * total) by (nonlinear_arith)
            requires
                b < blocks,
                total >= 0,
        ;
        let mut k: u64 = 0;
        while k < spb
            invariant
                header.wf(),
                c == header.channels@[j as int],
                c.wf(),
                spb == c.number_of_samples_in_data_record,
                total == header.samples_per_block(),
                before == header.samples_before(j as int),
                before + spb <= total,
                data@.len() == blocks * (2 * total),
                data@.len() <= usize::MAX,
                b < blocks,
                (b + 1) * total <= blocks * total,
                k <= spb,
                out@.len() == b * spb + k,
                forall|p: int| 0 <= p < out@.len() ==> #[trigger] sample_matches(*header, data@, j as int, p, out@[p]),
            decreases spb - k,
        {
            assert(b * total + before + k < blocks * total) by (nonlinear_arith)
                requires
                    (b + 1) * total <= blocks * total,
                    before + k < total,
            ;
            assert(2 * (b * total + before + k) + 1 < data@.len()) by (nonlinear_arith)
                requires
                    b * total + before + k < blocks * total,
                    data@.len() == blocks * (2 * total),
            ;
            assert(b <= b * total && total <= blocks * total) by (nonlinear_arith)
                requires
                    total >= 1,
                    b < blocks,
            ;
            assert(data@.len() == 2 * (blocks * total)) by (nonlinear_arith)
                requires
                    data@.len() == blocks * (2 * total),
            ;
            let index = (b as usize) * (total as usize) + (before as usize) + (k as usize);
            let sample = get_sample(data, index);
            let x = c.to_physical(sample);
            proof {
                let p = out@.len() as int;
                lemma_fundamental_div_mod_converse(p, spb as int, b as int, k as int);
                assert(p / (spb as int) == b && p % (spb as int) == k);
                assert(index == (p / (spb as int)) * header.samples_per_block() + header.samples_before(j as int) + p % (spb as int));
                assert(sample_matches(*header, data@, j as int, p, x));
            }
            let ghost prev = out@;
            out.push(x);
            assert(forall|q: int| 0 <= q < prev.len() ==> out@[q] == prev[q]);
            k = k + 1;
            assert((b * spb + k) == out@.len());
        }
        assert(b * spb + spb == (b + 1) * spb) by (nonlinear_arith);
        b = b + 1;
    }
    assert(blocks * spb == spb * blocks) by (nonlinear_arith);
    out
}

/// Splits `blocks` whole data blocks into one sequence of physical values per
/// channel, in header order.
pub fn decode_window(header: &EDFHeader, blocks: u64, data: &Vec<u8>) -> (r: Vec<Vec<Ratio>>)
    requires
        header.wf(),
        data@.len() == blocks * header.spec_size_of_data_block(),
    ensures
        window_decoded(*header, data@, blocks as int, r@),
{
    let mut result: Vec<Vec<Ratio>> = Vec::new();
    let mut before: u64 = 0;
    let mut j: usize = 0;
    while j < header.channels.len()
        invariant
            header.wf(),
            data@.len() == blocks * header.spec_size_of_data_block(),
            j <= header.channels@.len(),
            before == header.samples_before(j as int),
            result@.len() == j,
            forall|i: int| 0 <= i < j ==> #[trigger] channel_decoded(*header, data@, blocks as int, i, result@[i]@),
        decreases header.channels@.len() - j,
    {
        let v = decode_channel(header, data, blocks, j, before);
        proof {
            lemma_samples_before_mono(*header, j as int + 1, header.channels@.len() as int);
            lemma_samples_before_bound(*header, header.channels@.len() as int);
            assert(header.channels@[j as int].wf());
        }
        before = before + header.channels[j].number_of_samples_in_data_record;
        result.push(v);
        j = j + 1;
    }
    result
}

} // verus!
