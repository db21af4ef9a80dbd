//! Progressive preview streaming: request settings, job bookkeeping, the
//! frame schedule, GPU readback layout, and the binary frame packet.

use vstd::prelude::*;
use vstd::bytes::{spec_u32_from_le_bytes, spec_u32_to_le_bytes, u32_to_le_bytes, lemma_auto_spec_u32_to_from_le_bytes};
use crate::text::{append_str, string_from_chars};

verus! {

/// Default preview width in pixels.
pub const PREVIEW_WIDTH: u32 = 360;
/// Default preview height in pixels.
pub const PREVIEW_HEIGHT: u32 = 260;
/// Default sample count of a one-shot preview.
pub const PREVIEW_SAMPLES: u32 = 6;
/// Default sample count of a streamed preview.
pub const STREAM_PREVIEW_SAMPLES: u32 = 64;
/// Largest sample count of a streamed preview.
pub const MAX_STREAM_PREVIEW_SAMPLES: u32 = 1024;
/// First word of every frame packet.
pub const STREAM_FRAME_MAGIC: u32 = 0x4652_5953;
/// Layout version of the frame packet.
pub const STREAM_FRAME_VERSION: u32 = 1;
/// Size of the packet header: eight little-endian `u32` words.
pub const STREAM_FRAME_HEADER_BYTES: usize = 32;
/// Flag word of the last frame of a job.
pub const STREAM_FRAME_FINAL: u32 = 1;

// ---------------------------------------------------------------------------
// Request settings.
// ---------------------------------------------------------------------------

/// `value` (or `default` when absent) clamped to `lo..=hi`.
pub open spec fn clamped_or(value: Option<u32>, default: u32, lo: u32, hi: u32) -> u32 {
    let v = match value {
        Some(x) => x,
        None => default,
    };
    if v < lo {
        lo
    } else if v > hi {
        hi
    } else {
        v
    }
}

fn clamp_or(value: Option<u32>, default: u32, lo: u32, hi: u32) -> (r: u32)
    ensures
        r == clamped_or(value, default, lo, hi),
{
    let v = match value {
        Some(x) => x,
        None => default,
    };
    if v < lo {
        lo
    } else if v > hi {
        hi
    } else {
        v
    }
}

/// The size and sample count of a preview render.
pub struct PreviewSettings {
    pub width: u32,
    pub height: u32,
    pub samples: u32,
}

/// Settings of a one-shot preview: width 360 in 160..=960, height 260 in
/// 120..=720, samples 6 in 1..=24 (defaults for absent values).
pub fn preview_settings(width: Option<u32>, height: Option<u32>, samples: Option<u32>) -> (r: PreviewSettings)
    ensures
        r.width == clamped_or(width, PREVIEW_WIDTH, 160, 960),
        r.height == clamped_or(height, PREVIEW_HEIGHT, 120, 720),
        r.samples == clamped_or(samples, PREVIEW_SAMPLES, 1, 24),
{
    PreviewSettings {
        width: clamp_or(width, PREVIEW_WIDTH, 160, 960),
        height: clamp_or(height, PREVIEW_HEIGHT, 120, 720),
        samples: clamp_or(samples, PREVIEW_SAMPLES, 1, 24),
    }
}

/// Settings of a streamed preview: as a one-shot preview, but samples 64
/// in 1..=1024.
pub fn stream_preview_settings(width: Option<u32>, height: Option<u32>, samples: Option<u32>) -> (r: PreviewSettings)
    ensures
        r.width == clamped_or(width, PREVIEW_WIDTH, 160, 960),
        r.height == clamped_or(height, PREVIEW_HEIGHT, 120, 720),
        r.samples == clamped_or(samples, STREAM_PREVIEW_SAMPLES, 1, MAX_STREAM_PREVIEW_SAMPLES),
{
    PreviewSettings {
        width: clamp_or(width, PREVIEW_WIDTH, 160, 960),
        height: clamp_or(height, PREVIEW_HEIGHT, 120, 720),
        samples: clamp_or(samples, STREAM_PREVIEW_SAMPLES, 1, MAX_STREAM_PREVIEW_SAMPLES),
    }
}

/// Whether the render targets must be rebuilt for a `width` x `height`
/// frame: there are none yet, or they have another size.
pub fn targets_need_recreate(current: Option<(u32, u32)>, width: u32, height: u32) -> (r: bool)
    ensures
        r == match current {
            Some(size) => size.0 != width || size.1 != height,
            None => true,
        },
{
    match current {
        Some(size) => size.0 != width || size.1 != height,
        None => true,
    }
}

// ---------------------------------------------------------------------------
// Job bookkeeping: the latest submitted preview job wins.
// ---------------------------------------------------------------------------

/// Hands out preview job ids and remembers the latest one; every other job
/// is stale and is skipped or stopped.
pub struct PreviewJobLedger {
    next_job_id: u64,
    latest_job_id: u64,
}

impl PreviewJobLedger {
    /// The id the next submitted job gets.
    pub closed spec fn next_id(self) -> u64 {
        self.next_job_id
    }

    /// The id of the latest submitted job (0 before any).
    pub closed spec fn latest_id(self) -> u64 {
        self.latest_job_id
    }

    /// A ledger whose first job gets id 1.
    pub fn new() -> (r: PreviewJobLedger)
        ensures
            r.next_id() == 1,
            r.latest_id() == 0,
    {
        PreviewJobLedger { next_job_id: 1, latest_job_id: 0 }
    }

    /// Registers a new job and returns its id, which becomes the latest; ids
    /// count up, wrapping around after `u64::MAX`.
    pub fn submit(&mut self) -> (job_id: u64)
        ensures
            submitted(*old(self), *final(self), job_id),
    {
        let job_id = self.next_job_id;
        self.next_job_id = self.next_job_id.wrapping_add(1);
        self.latest_job_id = job_id;
        job_id
    }

    /// Whether job `job_id` has been superseded by a later submission.
    pub fn is_stale(&self, job_id: u64) -> (r: bool)
        ensures
            r == (job_id != self.latest_id()),
    {
        self.latest_job_id != job_id
    }

    /// The id of the latest submitted job.
    pub fn latest(&self) -> (r: u64)
        ensures
            r == self.latest_id(),
    {
        self.latest_job_id
    }
}

/// `after` is `before` once a job got `job_id`: the id `before` had ready,
/// now the latest; the next id is one more, wrapping around after
/// `u64::MAX`.
pub open spec fn submitted(before: PreviewJobLedger, after: PreviewJobLedger, job_id: u64) -> bool {
    &&& job_id == before.next_id()
    &&& after.latest_id() == job_id
    &&& after.next_id() == (if job_id == u64::MAX { 0 } else { (job_id + 1) as u64 })
}

/// The latest job wins: a job is current right after it is submitted, the
/// next submission gets the next id, and that job makes the earlier one
/// stale.
pub proof fn lemma_latest_job_wins(
    first_before: PreviewJobLedger,
    first_after: PreviewJobLedger,
    second_after: PreviewJobLedger,
    first: u64,
    second: u64,
)
    requires
        submitted(first_before, first_after, first),
        submitted(first_after, second_after, second),
    ensures
        first_after.latest_id() == first,
        second == (if first == u64::MAX { 0 } else { (first + 1) as u64 }),
        second_after.latest_id() == second,
        second_after.latest_id() != first,
{
}

// ---------------------------------------------------------------------------
// The frame schedule.
// ---------------------------------------------------------------------------

/// `n` is a power of two.
pub open spec fn is_power_of_two(n: nat) -> bool
    decreases n,
{
    if n == 1 {
        true
    } else if n == 0 || n % 2 == 1 {
        false
    } else {
        is_power_of_two(n / 2)
    }
}

fn power_of_two(n: u32) -> (r: bool)
    ensures
        r == is_power_of_two(n as nat),
{
    let mut m = n;
    while m != 1 && m != 0 && m % 2 == 0
        invariant
            is_power_of_two(n as nat) == is_power_of_two(m as nat),
        decreases m,
    {
        m = m / 2;
    }
    m == 1
}

/// A frame is sent after `completed` samples: at powers of two and after
/// the last sample.
pub open spec fn emits_frame(completed: nat, total: nat) -> bool {
    completed == total || is_power_of_two(completed)
}

/// Whether a frame is sent after `completed_samples` of `total_samples`.
pub fn should_emit_stream_preview_frame(completed_samples: u32, total_samples: u32) -> (r: bool)
    ensures
        r == emits_frame(completed_samples as nat, total_samples as nat),
{
    completed_samples == total_samples || power_of_two(completed_samples)
}

/// What happens after one accumulation pass of a streamed job.
pub struct SampleOutcome {
    /// Samples accumulated so far.
    pub completed_samples: u32,
    /// A frame is read back and sent now.
    pub emit_frame: bool,
    /// This was the last sample of the job.
    pub final_frame: bool,
}

/// The outcome of pass `accum_counter` (counting from 0) of a job of
/// `total_samples` passes.
pub fn stream_sample_outcome(accum_counter: u32, total_samples: u32) -> (r: SampleOutcome)
    requires
        accum_counter < total_samples,
    ensures
        r.completed_samples == accum_counter + 1,
        r.final_frame == (accum_counter + 1 == total_samples),
        r.emit_frame == emits_frame(accum_counter as nat + 1, total_samples as nat),
{
    let completed = accum_counter + 1;
    SampleOutcome {
        completed_samples: completed,
        emit_frame: should_emit_stream_preview_frame(completed, total_samples),
        final_frame: completed == total_samples,
    }
}

// ---------------------------------------------------------------------------
// The frame packet.
// ---------------------------------------------------------------------------

/// The little-endian bytes of a sequence of words.
pub open spec fn le_words(words: Seq<u32>) -> Seq<u8>
    decreases words.len(),
{
    if words.len() == 0 {
        Seq::empty()
    } else {
        le_words(words.drop_last()) + spec_u32_to_le_bytes(words.last())
    }
}

/// The revision as carried by the packet: saturated at `u32::MAX`.
pub open spec fn packet_revision(revision: u64) -> u32 {
    if revision > u32::MAX as u64 {
        u32::MAX
    } else {
        revision as u32
    }
}

/// The eight header words of a frame packet.
pub open spec fn frame_header(
    revision: u64,
    width: u32,
    height: u32,
    completed_samples: u32,
    total_samples: u32,
    final_frame: bool,
) -> Seq<u32> {
    seq![
        STREAM_FRAME_MAGIC,
        STREAM_FRAME_VERSION,
        packet_revision(revision),
        width,
        height,
        completed_samples,
        total_samples,
        if final_frame { STREAM_FRAME_FINAL } else { 0 },
    ]
}

proof fn lemma_le_words_len(words: Seq<u32>)
    ensures
        le_words(words).len() == 4 * words.len(),
    decreases words.len(),
{
    lemma_auto_spec_u32_to_from_le_bytes();
    if words.len() > 0 {
        lemma_le_words_len(words.drop_last());
    }
}

/// Word `i` is encoded in bytes `4i .. 4i + 4`.
pub proof fn lemma_le_words_word(words: Seq<u32>, i: int)
    requires
        0 <= i < words.len(),
    ensures
        le_words(words).subrange(4 * i, 4 * i + 4) == spec_u32_to_le_bytes(words[i]),
        spec_u32_from_le_bytes(le_words(words).subrange(4 * i, 4 * i + 4)) == words[i],
    decreases words.len(),
{
    lemma_auto_spec_u32_to_from_le_bytes();
    let prev = words.drop_last();
    lemma_le_words_len(prev);
    if i == words.len() - 1 {
        assert(le_words(words).subrange(4 * i, 4 * i + 4) =~= spec_u32_to_le_bytes(words[i]));
    } else {
        lemma_le_words_word(prev, i);
        assert(le_words(words).subrange(4 * i, 4 * i + 4) =~= le_words(prev).subrange(4 * i, 4 * i + 4));
    }
}

/// The first and the last sample of a job always send a frame.
pub proof fn lemma_first_and_last_samples_send_frames(total_samples: u32)
    requires
        total_samples > 0,
    ensures
        emits_frame(1, total_samples as nat),
        emits_frame(total_samples as nat, total_samples as nat),
{
}

/// A frame packet reads back as what was put in: the eight header words as
/// little-endian `u32`s at byte offsets 0, 4, ..., 28, then the pixels.
pub proof fn lemma_frame_packet_round_trip(
    revision: u64,
    width: u32,
    height: u32,
    completed_samples: u32,
    total_samples: u32,
    final_frame: bool,
    pixels: Seq<u8>,
)
    ensures
        ({
            let packet = le_words(frame_header(revision, width, height, completed_samples, total_samples, final_frame))
                + pixels;
            &&& packet.len() == STREAM_FRAME_HEADER_BYTES + pixels.len()
            &&& spec_u32_from_le_bytes(packet.subrange(0, 4)) == STREAM_FRAME_MAGIC
            &&& spec_u32_from_le_bytes(packet.subrange(4, 8)) == STREAM_FRAME_VERSION
            &&& spec_u32_from_le_bytes(packet.subrange(8, 12)) == packet_revision(revision)
            &&& spec_u32_from_le_bytes(packet.subrange(12, 16)) == width
            &&& spec_u32_from_le_bytes(packet.subrange(16, 20)) == height
            &&& spec_u32_from_le_bytes(packet.subrange(20, 24)) == completed_samples
            &&& spec_u32_from_le_bytes(packet.subrange(24, 28)) == total_samples
            &&& spec_u32_from_le_bytes(packet.subrange(28, 32)) == (if final_frame { STREAM_FRAME_FINAL } else { 0 })
            &&& packet.subrange(32, packet.len() as int) == pixels
        }),
{
    let header = frame_header(revision, width, height, completed_samples, total_samples, final_frame);
    let bytes = le_words(header);
    let packet = bytes + pixels;
    lemma_le_words_len(header);
    assert forall|i: int| 0 <= i < 8 implies #[trigger] spec_u32_from_le_bytes(packet.subrange(4 * i, 4 * i + 4))
        == header[i] by {
        lemma_le_words_word(header, i);
        assert(packet.subrange(4 * i, 4 * i + 4) =~= bytes.subrange(4 * i, 4 * i + 4));
    }
    assert(spec_u32_from_le_bytes(packet.subrange(4 * 0int, 4 * 0int + 4)) == header[0int]);
    assert(spec_u32_from_le_bytes(packet.subrange(4 * 1int, 4 * 1int + 4)) == header[1int]);
    assert(spec_u32_from_le_bytes(packet.subrange(4 * 2int, 4 * 2int + 4)) == header[2int]);
    assert(spec_u32_from_le_bytes(packet.subrange(4 * 3int, 4 * 3int + 4)) == header[3int]);
    assert(spec_u32_from_le_bytes(packet.subrange(4 * 4int, 4 * 4int + 4)) == header[4int]);
    assert(spec_u32_from_le_bytes(packet.subrange(4 * 5int, 4 * 5int + 4)) == header[5int]);
    assert(spec_u32_from_le_bytes(packet.subrange(4 * 6int, 4 * 6int + 4)) == header[6int]);
    assert(spec_u32_from_le_bytes(packet.subrange(4 * 7int, 4 * 7int + 4)) == header[7int]);
    assert(packet.subrange(32, packet.len() as int) =~= pixels);
}

/// Builds a frame packet: the eight header words (magic, version, revision
/// saturated to `u32`, width, height, completed samples, total samples,
/// final flag) as little-endian `u32`s, followed by the RGBA8 pixels.
pub fn stream_preview_frame_packet(
    revision: u64,
    width: u32,
    height: u32,
    completed_samples: u32,
    total_samples: u32,
    final_frame: bool,
    pixels: Vec<u8>,
) -> (packet: Vec<u8>)
    ensures
        packet@ == le_words(frame_header(revision, width, height, completed_samples, total_samples, final_frame)) + pixels@,
        packet@.len() == STREAM_FRAME_HEADER_BYTES + pixels@.len(),
{
    let ghost header = frame_header(revision, width, height, completed_samples, total_samples, final_frame);
    let words: [u32; 8] = [
        STREAM_FRAME_MAGIC,
        STREAM_FRAME_VERSION,
        if revision > 0xffff_ffff { 0xffff_ffff } else { revision as u32 },
        width,
        height,
        completed_samples,
        total_samples,
        if final_frame { STREAM_FRAME_FINAL } else { 0 },
    ];
    assert(words@ =~= header);
    let mut packet: Vec<u8> = Vec::new();
    let mut i: usize = 0;
    assert(header.subrange(0, 0) =~= Seq::<u32>::empty());
    while i < 8
        invariant
            i <= 8,
            words@ == header,
            header.len() == 8,
            packet@ == le_words(header.subrange(0, i as int)),
        decreases 8 - i,
    {
        let mut bytes = u32_to_le_bytes(words[i]);
        packet.append(&mut bytes);
        proof {
            let p = header.subrange(0, i + 1);
            assert(p.drop_last() =~= header.subrange(0, i as int));
            assert(p.last() == words@[i as int]);
        }
        i = i + 1;
    }
    assert(header.subrange(0, 8) =~= header);
    proof {
        lemma_le_words_len(header);
    }
    let mut rest = pixels;
    packet.append(&mut rest);
    packet
}

// ---------------------------------------------------------------------------
// GPU readback layout.
// ---------------------------------------------------------------------------

/// Row sizes of a readback buffer: rows are padded to the copy alignment.
pub struct ReadbackLayout {
    /// Bytes of pixel data per row (4 per pixel).
    pub unpadded_bytes_per_row: usize,
    /// Bytes per row in the buffer: the unpadded size rounded up to `align`.
    pub padded_bytes_per_row: usize,
    /// Total buffer size: padded row size times the number of rows.
    pub buffer_size: u64,
}

/// `n` rounded up to a multiple of `align`.
pub open spec fn round_up(n: nat, align: nat) -> nat {
    ((n + align - 1) / align as int) as nat * align
}

/// The readback layout is computable without overflow.
pub open spec fn layout_fits(width: u32, height: u32, align: usize) -> bool {
    &&& align > 0
    &&& 4 * width <= usize::MAX
    &&& round_up(4 * width as nat, align as nat) <= usize::MAX
    &&& round_up(4 * width as nat, align as nat) * height <= u64::MAX
}

/// Whether the readback layout of a `width` x `height` texture with rows
/// aligned to `align` bytes can be computed without overflow.
pub fn readback_layout_fits(width: u32, height: u32, align: usize) -> (r: bool)
    ensures
        r == layout_fits(width, height, align),
{
    if align == 0 {
        return false;
    }
    let n: u128 = 4 * (width as u128);
    let a: u128 = align as u128;
    if n > usize::MAX as u128 {
        return false;
    }
    let sum: u128 = n + a - 1;
    let blocks: u128 = sum / a;
    assert(blocks * a <= sum) by (nonlinear_arith)
        requires
            a > 0,
            blocks == sum / a,
            sum >= 0,
    ;
    let padded: u128 = blocks * a;
    assert(padded as nat == round_up(4 * width as nat, align as nat));
    if padded > usize::MAX as u128 {
        return false;
    }
    assert(padded * (height as u128) <= (usize::MAX as u128) * (u32::MAX as u128)) by (nonlinear_arith)
        requires
            padded <= usize::MAX as u128,
            height <= u32::MAX,
    ;
    assert((usize::MAX as u128) * (u32::MAX as u128) < u128::MAX) by (nonlinear_arith);
    padded * (height as u128) <= u64::MAX as u128
}

/// The buffer layout for reading back a `width` x `height` RGBA8 texture
/// with rows aligned to `align` bytes.
pub fn readback_layout(width: u32, height: u32, align: usize) -> (r: ReadbackLayout)
    requires
        layout_fits(width, height, align),
    ensures
        r.unpadded_bytes_per_row == 4 * width,
        r.padded_bytes_per_row == round_up(4 * width as nat, align as nat),
        r.buffer_size == r.padded_bytes_per_row * height,
{
    let unpadded: usize = 4 * (width as usize);
    let blocks: usize = unpadded / align + if unpadded % align == 0 { 0 } else { 1 };
    proof {
        let n = unpadded as int;
        let a = align as int;
        assert(blocks as int == (n + a - 1) / a) by (nonlinear_arith)
            requires
                a > 0,
                n >= 0,
                blocks as int == n / a + if n % a == 0 { 0int } else { 1int },
        {
            let q = n / a;
            let r = n % a;
            assert(n == q * a + r);
            if r == 0 {
                assert(n + a - 1 == q * a + (a - 1));
            } else {
                assert(n + a - 1 == (q + 1) * a + (r - 1));
            }
        }
    }
    assert(blocks * align <= usize::MAX);
    let padded: usize = blocks * align;
    assert(padded as u64 * height as u64 <= u64::MAX);
    let buffer_size: u64 = padded as u64 * height as u64;
    ReadbackLayout { unpadded_bytes_per_row: unpadded, padded_bytes_per_row: padded, buffer_size }
}

/// The rows of a mapped readback buffer that are copied: one per padded
/// chunk, at most `height` of them.
pub open spec fn readback_rows(len: nat, padded: nat, height: nat) -> nat {
    let chunks = (len + padded - 1) / padded as int;
    if chunks < height {
        chunks as nat
    } else {
        height
    }
}

/// The pixel bytes of the first `rows` rows, padding dropped.
pub open spec fn unpadded_rows(mapped: Seq<u8>, unpadded: nat, padded: nat, rows: nat) -> Seq<u8>
    decreases rows,
{
    if rows == 0 {
        Seq::empty()
    } else {
        let start = (rows - 1) * padded;
        unpadded_rows(mapped, unpadded, padded, (rows - 1) as nat) + mapped.subrange(start, start + unpadded)
    }
}

/// Each copied row holds at least `unpadded` bytes (a shorter last chunk
/// would make the copy fail).
pub open spec fn rows_complete(len: nat, unpadded: nat, padded: nat, height: nat) -> bool {
    forall|i: nat| i < height && #[trigger] (i * padded) < len ==> i * padded + unpadded <= len
}

/// Whether every copied row of a mapped buffer of `len` bytes holds
/// `unpadded` bytes.
pub fn readback_rows_complete(len: usize, unpadded: usize, padded: usize, height: u32) -> (r: bool)
    ensures
        r == rows_complete(len as nat, unpadded as nat, padded as nat, height as nat),
{
    let mut row: u32 = 0;
    while row < height
        invariant
            row <= height,
            forall|i: nat| i < row && #[trigger] (i * padded) < len ==> i * padded + unpadded <= len,
        decreases height - row,
    {
        assert((row as u128) * (padded as u128) <= (u32::MAX as u128) * (usize::MAX as u128)) by (nonlinear_arith)
            requires
                row <= u32::MAX,
                padded <= usize::MAX,
        ;
        assert((u32::MAX as u128) * (usize::MAX as u128) < u128::MAX) by (nonlinear_arith);
        let start: u128 = (row as u128) * (padded as u128);
        assert(start as int == (row as nat) * (padded as nat));
        if start < len as u128 && start + unpadded as u128 > len as u128 {
            assert(!rows_complete(len as nat, unpadded as nat, padded as nat, height as nat)) by {
                let i = row as nat;
                assert(i * padded < len);
            }
            return false;
        }
        row = row + 1;
    }
    true
}

/// Copies the pixel bytes out of a mapped readback buffer, dropping the
/// padding at the end of each row.
pub fn strip_row_padding(mapped: &[u8], unpadded_bytes_per_row: usize, padded_bytes_per_row: usize, height: u32) -> (pixels: Vec<u8>)
    requires
        0 < padded_bytes_per_row,
        height > 0 && mapped@.len() > 0 ==> unpadded_bytes_per_row <= padded_bytes_per_row,
        rows_complete(mapped@.len(), unpadded_bytes_per_row as nat, padded_bytes_per_row as nat, height as nat),
    ensures
        pixels@ == unpadded_rows(
            mapped@,
            unpadded_bytes_per_row as nat,
            padded_bytes_per_row as nat,
            readback_rows(mapped@.len(), padded_bytes_per_row as nat, height as nat),
        ),
{
    let len = mapped.len();
    let unpadded = unpadded_bytes_per_row;
    let padded = padded_bytes_per_row;
    let mut pixels: Vec<u8> = Vec::new();
    let mut row: u32 = 0;
    let mut offset: usize = 0;
    while row < height && offset < len
        invariant
            0 < padded,
            height > 0 && len > 0 ==> unpadded <= padded,
            len == mapped@.len(),
            row <= height,
            offset < len ==> (offset as int) == (row as int) * (padded as int),
            offset >= len ==> offset == len && (row as int) * (padded as int) >= len,
            row == 0 || ((row as int) - 1) * (padded as int) < len,
            rows_complete(len as nat, unpadded as nat, padded as nat, height as nat),
            pixels@ == unpadded_rows(mapped@, unpadded as nat, padded as nat, row as nat),
        decreases height - row,
    {
        assert(offset + unpadded <= len) by {
            assert((row as nat) * (padded as nat) < len as nat);
        }
        let mut k: usize = 0;
        let ghost before = pixels@;
        while k < unpadded
            invariant
                k <= unpadded,
                offset + unpadded <= len,
                len == mapped@.len(),
                pixels@ == before + mapped@.subrange(offset as int, offset + k),
            decreases unpadded - k,
        {
            pixels.push(mapped[offset + k]);
            assert(pixels@ =~= before + mapped@.subrange(offset as int, offset + k + 1));
            k = k + 1;
        }
        proof {
            assert(unpadded_rows(mapped@, unpadded as nat, padded as nat, (row + 1) as nat) == before + mapped@.subrange(
                offset as int,
                offset + unpadded,
            ));
            assert(((row + 1) as int) * (padded as int) == (row as int) * (padded as int) + (padded as int)) by (nonlinear_arith);
        }
        row = row + 1;
        if len - offset <= padded {
            offset = len;
        } else {
            offset = offset + padded;
        }
    }
    proof {
        let l = len as int;
        let pd = padded as int;
        let r = row as int;
        let h = height as int;
        let chunks = (l + pd - 1) / pd;
        if offset >= len {
            assert(chunks == r) by (nonlinear_arith)
                requires
                    pd > 0,
                    r * pd >= l,
                    r == 0 || (r - 1) * pd < l,
                    l >= 0,
                    chunks == (l + pd - 1) / pd,
            {
                if r == 0 {
                    assert(l == 0);
                } else {
                    assert(l + pd - 1 < r * pd + pd);
                    assert(l + pd - 1 >= (r - 1) * pd + pd);
                }
            }
        } else {
            assert(r == h);
            assert(chunks >= r) by (nonlinear_arith)
                requires
                    pd > 0,
                    r * pd < l,
                    chunks == (l + pd - 1) / pd,
            {
                assert(l + pd - 1 >= r * pd + pd);
            }
        }
    }
    pixels
}

// ---------------------------------------------------------------------------
// Failure messages.
// ---------------------------------------------------------------------------

/// What a caught panic carried.
pub enum PanicPayload {
    /// A `&'static str` message.
    Text(String),
    /// A `String` message.
    Owned(String),
    /// Anything else.
    Unknown,
}

/// The text of a panic payload: its message, or `unknown panic`.
pub fn panic_payload_to_string(payload: &PanicPayload) -> (r: String)
    ensures
        r@ == match payload {
            PanicPayload::Text(m) => m@,
            PanicPayload::Owned(m) => m@,
            PanicPayload::Unknown => "unknown panic"@,
        },
{
    match payload {
        PanicPayload::Text(m) => m.clone(),
        PanicPayload::Owned(m) => m.clone(),
        PanicPayload::Unknown => crate::text::owned("unknown panic"),
    }
}

/// How a preview render went wrong.
pub enum RenderFailure {
    /// The renderer reported an error.
    Failed,
    /// The renderer panicked.
    Crashed,
}

/// The message reported for a failed preview of `surface_id`.
pub open spec fn render_failure_message_spec(kind: RenderFailure, surface_id: Seq<char>, detail: Seq<char>) -> Seq<char> {
    match kind {
        RenderFailure::Failed => "Lupin preview render failed for "@ + surface_id + ": "@ + detail,
        RenderFailure::Crashed => "Lupin preview render crashed for "@ + surface_id + ": "@ + detail,
    }
}

/// The message reported for a failed preview of `surface_id`.
pub fn render_failure_message(kind: RenderFailure, surface_id: &str, detail: &str) -> (r: String)
    ensures
        r@ == render_failure_message_spec(kind, surface_id@, detail@),
{
    let mut out: Vec<char> = Vec::new();
    match kind {
        RenderFailure::Failed => append_str(&mut out, "Lupin preview render failed for "),
        RenderFailure::Crashed => append_str(&mut out, "Lupin preview render crashed for "),
    }
    append_str(&mut out, surface_id);
    append_str(&mut out, ": ");
    append_str(&mut out, detail);
    string_from_chars(&out)
}

} // verus!
