//! Window-management helpers for Hyprland: snapping the active window to
//! fractional zones of the focused monitor (layouts of zones read from a
//! JSON configuration, with a saved current layout), and capturing one
//! window's frame through the toplevel-export protocol into RGBA pixels.

mod capture;
mod config;
mod json;
mod laws;
mod text;
mod zones;

pub use capture::{
    all_hex, convert_frame, copy_step, first_offer, frame_event, frame_run, frame_step, has_event,
    hex_char, hex_digit, hex_repr, hex_value, is_bgr, is_bgr_format, last_flags,
    lemma_address_reads, lemma_first_offer_kept, lemma_hex_repr_reads,
    lemma_frame_run_flags, lemma_hex_digits, lemma_offer_stays, lemma_pixel_of_byte,
    lemma_plain_pixel, lemma_y_invert_mirrors, offer_step, parse_shot_args, pixel_byte, registry_bind,
    rgba_byte, shm_size, std_parse_hex_u64, strip_hex_prefix, window_handle, ArgError, BufParams,
    CaptureState, CopyStep, FrameEvent, Global, OfferStep, ShotArgs,
};
pub use config::{
    default_config, default_config_of, lemma_default_reloads, load_config, loaded_config,
    DEFAULT_CONFIG,
};
pub use json::{json_parse, json_wf, keys_distinct, lookup, refers, Json, JsonNumber};
pub use laws::{
    cycled, lemma_cycle_from_current, lemma_cycle_from_unknown, lemma_cycle_in_layouts,
    lemma_cycle_next, lemma_cycle_repeat, lemma_cycle_returns, lemma_lookup_hit,
    lemma_lookup_member, lemma_names_distinct, lemma_saved_layout_is_current,
};
pub use text::{
    all_digits, chars_eq, chars_leq, chars_of, dec_int, dec_nat, digits_value, is_ws,
    lemma_ascii_ws, lemma_dec_int_reads, lemma_parse_usize_reads, lemma_str_leq_lexicographic,
    lemma_str_order_total, lemma_trim_ws_bounds, parse_usize, push_i64, read_int, std_parse_usize,
    str_eq, str_leq, str_order, trim, trim_end_ws, trim_start_ws, trim_ws,
};
pub use zones::{
    active_window, active_window_of, batch_says, choose_zone, cmd_cycle, command_word, config_path,
    current_layout, current_layout_of, flag, focused_index, focused_of, focused_position,
    hyprctl_json, in_i64, int_or_zero, layout_entry, layout_exists, layout_keys, layout_names,
    layout_names_of, layout_of, layout_zones, lemma_snap_batch_says, lemma_usable_area_margins,
    next_layout_of, parse_command, position_of, reserved_at, select_zone, sizes_match, snap_arg,
    snap_batch, snap_to_zone, state_path, usable_area, usable_area_fits, usable_area_fits_spec,
    usable_area_in, usable_area_in_fits, usable_area_of, views, zone_choice, zones_of, Command,
    SnapError, SnapPlan,
};
