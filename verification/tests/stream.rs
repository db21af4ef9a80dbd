use soyel::stream::{
    panic_payload_to_string, preview_settings, readback_layout, readback_layout_fits, readback_rows_complete,
    render_failure_message, should_emit_stream_preview_frame,
    stream_preview_frame_packet, stream_preview_settings, stream_sample_outcome, strip_row_padding, targets_need_recreate,
    PanicPayload, PreviewJobLedger, RenderFailure, STREAM_FRAME_FINAL, STREAM_FRAME_HEADER_BYTES, STREAM_FRAME_MAGIC,
    STREAM_FRAME_VERSION,
};

fn word(packet: &[u8], at: usize) -> u32 {
    u32::from_le_bytes(packet[at..at + 4].try_into().unwrap())
}

#[test]
fn stream_preview_packet_contains_header_and_pixels() {
    let pixels = vec![1, 2, 3, 4, 5, 6, 7, 8];
    let packet = stream_preview_frame_packet(7, 2, 1, 4, 64, true, pixels.clone());

    assert_eq!(packet.len(), STREAM_FRAME_HEADER_BYTES + pixels.len());
    assert_eq!(u32::from_le_bytes(packet[0..4].try_into().unwrap()), STREAM_FRAME_MAGIC);
    assert_eq!(u32::from_le_bytes(packet[4..8].try_into().unwrap()), STREAM_FRAME_VERSION);
    assert_eq!(u32::from_le_bytes(packet[8..12].try_into().unwrap()), 7);
    assert_eq!(u32::from_le_bytes(packet[12..16].try_into().unwrap()), 2);
    assert_eq!(u32::from_le_bytes(packet[16..20].try_into().unwrap()), 1);
    assert_eq!(u32::from_le_bytes(packet[20..24].try_into().unwrap()), 4);
    assert_eq!(u32::from_le_bytes(packet[24..28].try_into().unwrap()), 64);
    assert_eq!(u32::from_le_bytes(packet[28..32].try_into().unwrap()), STREAM_FRAME_FINAL);
    assert_eq!(&packet[STREAM_FRAME_HEADER_BYTES..], pixels.as_slice());
}

#[test]
fn packet_of_intermediate_frame_has_zero_flag_and_saturated_revision() {
    let packet = stream_preview_frame_packet(u64::MAX, 360, 260, 8, 64, false, vec![9; 4]);
    assert_eq!(packet.len(), 36);
    assert_eq!(word(&packet, 0), 0x4652_5953);
    assert_eq!(word(&packet, 8), u32::MAX);
    assert_eq!(word(&packet, 12), 360);
    assert_eq!(word(&packet, 16), 260);
    assert_eq!(word(&packet, 20), 8);
    assert_eq!(word(&packet, 28), 0);
    assert_eq!(&packet[32..], &[9, 9, 9, 9]);
}

#[test]
fn packet_round_trips_every_header_field() {
    let pixels: Vec<u8> = (0..16).collect();
    let packet = stream_preview_frame_packet(41, 160, 120, 1, 3, false, pixels.clone());
    let decoded: Vec<u32> = (0..8).map(|i| word(&packet, 4 * i)).collect();
    assert_eq!(decoded, vec![STREAM_FRAME_MAGIC, STREAM_FRAME_VERSION, 41, 160, 120, 1, 3, 0]);
    assert_eq!(packet[32..].to_vec(), pixels);
}

#[test]
fn frames_are_emitted_at_powers_of_two_and_at_the_end() {
    let emitted: Vec<u32> = (1..=20).filter(|&c| should_emit_stream_preview_frame(c, 20)).collect();
    assert_eq!(emitted, vec![1, 2, 4, 8, 16, 20]);
    assert!(!should_emit_stream_preview_frame(0, 20));
    assert!(should_emit_stream_preview_frame(0, 0));
    assert!(should_emit_stream_preview_frame(3, 3));
    assert!(!should_emit_stream_preview_frame(6, 64));
    assert!(should_emit_stream_preview_frame(1u32 << 31, u32::MAX));
}

#[test]
fn sample_outcome_flags_the_last_pass() {
    let first = stream_sample_outcome(0, 5);
    assert_eq!(first.completed_samples, 1);
    assert!(first.emit_frame);
    assert!(!first.final_frame);
    let third = stream_sample_outcome(2, 5);
    assert_eq!(third.completed_samples, 3);
    assert!(!third.emit_frame);
    let last = stream_sample_outcome(4, 5);
    assert_eq!(last.completed_samples, 5);
    assert!(last.emit_frame);
    assert!(last.final_frame);
}

#[test]
fn preview_settings_use_defaults_and_clamp() {
    let d = preview_settings(None, None, None);
    assert_eq!((d.width, d.height, d.samples), (360, 260, 6));
    let c = preview_settings(Some(10), Some(5000), Some(0));
    assert_eq!((c.width, c.height, c.samples), (160, 720, 1));
    let k = preview_settings(Some(500), Some(300), Some(30));
    assert_eq!((k.width, k.height, k.samples), (500, 300, 24));
}

#[test]
fn stream_settings_use_stream_sample_bounds() {
    let d = stream_preview_settings(None, None, None);
    assert_eq!((d.width, d.height, d.samples), (360, 260, 64));
    let c = stream_preview_settings(Some(961), Some(119), Some(5000));
    assert_eq!((c.width, c.height, c.samples), (960, 120, 1024));
}

#[test]
fn targets_are_rebuilt_only_on_size_change() {
    assert!(targets_need_recreate(None, 360, 260));
    assert!(!targets_need_recreate(Some((360, 260)), 360, 260));
    assert!(targets_need_recreate(Some((360, 260)), 361, 260));
    assert!(targets_need_recreate(Some((360, 260)), 360, 259));
}

#[test]
fn latest_job_wins() {
    let mut ledger = PreviewJobLedger::new();
    assert_eq!(ledger.latest(), 0);
    let first = ledger.submit();
    assert_eq!(first, 1);
    assert!(!ledger.is_stale(first));
    let second = ledger.submit();
    assert_eq!(second, 2);
    assert!(ledger.is_stale(first));
    assert!(!ledger.is_stale(second));
    assert_eq!(ledger.latest(), 2);
}

#[test]
fn readback_rows_are_padded_to_the_alignment() {
    let layout = readback_layout(360, 260, 256);
    assert_eq!(layout.unpadded_bytes_per_row, 1440);
    assert_eq!(layout.padded_bytes_per_row, 1536);
    assert_eq!(layout.buffer_size, 1536 * 260);
    let exact = readback_layout(64, 2, 256);
    assert_eq!(exact.padded_bytes_per_row, 256);
    assert_eq!(exact.buffer_size, 512);
}

#[test]
fn row_padding_is_stripped() {
    let mapped: Vec<u8> = vec![1, 2, 3, 4, 0, 0, 0, 0, 5, 6, 7, 8, 0, 0, 0, 0];
    assert_eq!(strip_row_padding(&mapped, 4, 8, 2), vec![1, 2, 3, 4, 5, 6, 7, 8]);
    assert_eq!(strip_row_padding(&mapped, 4, 8, 1), vec![1, 2, 3, 4]);
    assert_eq!(strip_row_padding(&mapped[..12], 4, 8, 5), vec![1, 2, 3, 4, 5, 6, 7, 8]);
    assert!(strip_row_padding(&[], 8, 4, 3).is_empty());
    assert!(strip_row_padding(&mapped, 4, 8, 0).is_empty());
}

#[test]
fn panic_payloads_become_messages() {
    assert_eq!(panic_payload_to_string(&PanicPayload::Text("boom".to_string())), "boom");
    assert_eq!(panic_payload_to_string(&PanicPayload::Owned("bad".to_string())), "bad");
    assert_eq!(panic_payload_to_string(&PanicPayload::Unknown), "unknown panic");
}

#[test]
fn render_failures_name_the_surface() {
    assert_eq!(
        render_failure_message(RenderFailure::Failed, "floor", "no adapter"),
        "Lupin preview render failed for floor: no adapter"
    );
    assert_eq!(
        render_failure_message(RenderFailure::Crashed, "sample-block", "unknown panic"),
        "Lupin preview render crashed for sample-block: unknown panic"
    );
}

#[test]
fn readback_checks() {
    assert!(readback_layout_fits(360, 260, 256));
    assert!(!readback_layout_fits(360, 260, 0));
    assert!(!readback_layout_fits(u32::MAX, u32::MAX, 256) || usize::MAX as u128 > u64::MAX as u128);
    assert!(readback_rows_complete(16, 4, 8, 2));
    assert!(readback_rows_complete(12, 4, 8, 5));
    assert!(!readback_rows_complete(10, 4, 8, 2));
    assert!(readback_rows_complete(10, 4, 8, 1));
}
