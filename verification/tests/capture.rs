use hypr_tools::{
    convert_frame, copy_step, frame_event, offer_step, CopyStep, OfferStep, is_bgr_format, parse_shot_args, registry_bind, shm_size,
    window_handle, ArgError, BufParams, CaptureState, FrameEvent, Global, ShotArgs,
};

fn args(v: &[&str]) -> Vec<String> {
    v.iter().map(|s| s.to_string()).collect()
}

#[test]
fn shot_args_parse_hex_address() {
    assert_eq!(
        parse_shot_args(&args(&["ws", "0x558cf8b33b60", "/tmp/w.png"])),
        Ok(ShotArgs { handle: 0xf8b33b60, out_path: "/tmp/w.png".to_string() })
    );
    assert_eq!(
        parse_shot_args(&args(&["ws", "0x0xFF", "o.png"])),
        Ok(ShotArgs { handle: 0xff, out_path: "o.png".to_string() })
    );
    assert_eq!(
        parse_shot_args(&args(&["ws", "+aB", "o.png"])),
        Ok(ShotArgs { handle: 0xab, out_path: "o.png".to_string() })
    );
    assert_eq!(parse_shot_args(&args(&["ws", "0x", "o.png"])), Err(ArgError::BadAddress));
    assert_eq!(parse_shot_args(&args(&["ws", "-1", "o.png"])), Err(ArgError::BadAddress));
    assert_eq!(parse_shot_args(&args(&["ws", "0xg1", "o.png"])), Err(ArgError::BadAddress));
    assert_eq!(
        parse_shot_args(&args(&["ws", "10000000000000000", "o.png"])),
        Err(ArgError::BadAddress)
    );
    assert_eq!(parse_shot_args(&args(&["ws", "0x1"])), Err(ArgError::Usage));
    assert_eq!(parse_shot_args(&args(&["ws", "0x1", "a", "b"])), Err(ArgError::Usage));
}

#[test]
fn handle_is_low_32_bits() {
    assert_eq!(window_handle(0x558c_f8b3_3b60), 0xf8b3_3b60);
    assert_eq!(window_handle(u64::MAX), u32::MAX);
    assert_eq!(window_handle(7), 7);
}

#[test]
fn registry_binds_two_globals() {
    assert_eq!(registry_bind("wl_shm", 1), Some((Global::Shm, 1)));
    assert_eq!(registry_bind("wl_shm", 2), Some((Global::Shm, 1)));
    assert_eq!(registry_bind("hyprland_toplevel_export_manager_v1", 1), Some((Global::ExportManager, 1)));
    assert_eq!(registry_bind("hyprland_toplevel_export_manager_v1", 3), Some((Global::ExportManager, 2)));
    assert_eq!(registry_bind("wl_seat", 7), None);
}

#[test]
fn frame_keeps_first_buffer_offer() {
    let mut st = CaptureState::new();
    let events = [
        FrameEvent::Buffer { format: 1, width: 4, height: 2, stride: 16 },
        FrameEvent::Flags { flags: 3 },
        FrameEvent::Buffer { format: 7, width: 9, height: 9, stride: 36 },
        FrameEvent::Other,
        FrameEvent::BufferDone,
    ];
    for e in events {
        frame_event(&mut st, e);
    }
    assert_eq!(st.params, Some(BufParams { format: 1, width: 4, height: 2, stride: 16 }));
    assert!(st.buffer_done && st.y_invert && !st.ready && !st.failed);
    frame_event(&mut st, FrameEvent::Flags { flags: 2 });
    assert!(!st.y_invert);
    frame_event(&mut st, FrameEvent::Failed);
    frame_event(&mut st, FrameEvent::Ready);
    assert!(st.failed && st.ready);
}

#[test]
fn shm_size_overflow() {
    assert_eq!(shm_size(BufParams { format: 0, width: 2, height: 3, stride: 8 }), Some(24));
    assert_eq!(shm_size(BufParams { format: 0, width: 1, height: 65536, stride: 65536 }), None);
}

#[test]
fn bgr_formats() {
    for f in [0u32, 1, 875708993, 875709016] {
        assert!(is_bgr_format(f));
    }
    assert!(!is_bgr_format(2));
    assert!(!is_bgr_format(875713089));
}

#[test]
fn convert_swaps_bgr_and_sets_alpha() {
    // 2x2 image, stride 12 (one padding pixel per row).
    let data: Vec<u8> = (0u8..24).collect();
    let p = BufParams { format: 0, width: 2, height: 2, stride: 12 };
    let out = convert_frame(&data, p, false);
    assert_eq!(out, vec![2, 1, 0, 255, 6, 5, 4, 255, 14, 13, 12, 255, 18, 17, 16, 255]);
    let p = BufParams { format: 2, width: 2, height: 2, stride: 12 };
    let out = convert_frame(&data, p, false);
    assert_eq!(out, vec![0, 1, 2, 255, 4, 5, 6, 255, 12, 13, 14, 255, 16, 17, 18, 255]);
}

#[test]
fn convert_flips_rows_when_inverted() {
    let data: Vec<u8> = (0u8..24).collect();
    let p = BufParams { format: 1, width: 2, height: 2, stride: 12 };
    let out = convert_frame(&data, p, true);
    assert_eq!(out, vec![14, 13, 12, 255, 18, 17, 16, 255, 2, 1, 0, 255, 6, 5, 4, 255]);
}

#[test]
fn convert_leaves_missing_pixels_zero() {
    let data: Vec<u8> = vec![9, 8, 7, 6, 5, 4, 3];
    let p = BufParams { format: 0, width: 2, height: 1, stride: 8 };
    let out = convert_frame(&data, p, false);
    assert_eq!(out, vec![7, 8, 9, 255, 0, 0, 0, 0]);
    assert!(convert_frame(&[], BufParams { format: 0, width: 0, height: 5, stride: 0 }, false).is_empty());
}

#[test]
fn capture_steps_wait_then_start_or_fail() {
    let mut st = CaptureState::new();
    assert_eq!(offer_step(&st), OfferStep::Wait);
    frame_event(&mut st, FrameEvent::BufferDone);
    // Offers done but no buffer yet: keep waiting.
    assert_eq!(offer_step(&st), OfferStep::Wait);
    let mut st = CaptureState::new();
    let p = BufParams { format: 1, width: 3, height: 2, stride: 12 };
    frame_event(&mut st, FrameEvent::Buffer { format: 1, width: 3, height: 2, stride: 12 });
    assert_eq!(offer_step(&st), OfferStep::Wait);
    frame_event(&mut st, FrameEvent::BufferDone);
    assert_eq!(offer_step(&st), OfferStep::Start(p));
    assert_eq!(copy_step(&st), CopyStep::Wait);
    frame_event(&mut st, FrameEvent::Ready);
    assert_eq!(copy_step(&st), CopyStep::Done);
    frame_event(&mut st, FrameEvent::Failed);
    assert_eq!(offer_step(&st), OfferStep::Failed);
    assert_eq!(copy_step(&st), CopyStep::Failed);
}
