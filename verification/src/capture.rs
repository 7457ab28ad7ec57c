//! Capturing one window's frame through Hyprland's toplevel-export protocol:
//! the command line, which globals to bind, the frame's event handling, and
//! the conversion of the shared-memory buffer into RGBA pixels.
use vstd::prelude::*;
use crate::text::{chars_of, str_eq};

verus! {

/// `s` with every leading `0x` removed, as `str::trim_start_matches("0x")` does.
pub open spec fn strip_hex_prefix(s: Seq<char>) -> Seq<char>
    decreases s.len(),
{
    if s.len() >= 2 && s[0] == '0' && s[1] == 'x' {
        strip_hex_prefix(s.subrange(2, s.len() as int))
    } else {
        s
    }
}

/// The value of the hexadecimal digit `c`, where it is one.
pub open spec fn hex_digit(c: char) -> Option<nat> {
    if '0' <= c <= '9' {
        Some((c as int - '0' as int) as nat)
    } else if 'a' <= c <= 'f' {
        Some((c as int - 'a' as int + 10) as nat)
    } else if 'A' <= c <= 'F' {
        Some((c as int - 'A' as int + 10) as nat)
    } else {
        None
    }
}

/// The hexadecimal digits are exactly `0`-`9`, `a`-`f` and `A`-`F`, worth
/// their position in `0123456789abcdef` (or `0123456789ABCDEF`), as
/// `char::to_digit(16)` reads them.
pub proof fn lemma_hex_digits()
    ensures
        forall|d: int|
            0 <= d < 16 ==> hex_digit(#[trigger] "0123456789abcdef"@[d]) == Some(d as nat)
                && hex_digit("0123456789ABCDEF"@[d]) == Some(d as nat),
        forall|c: char|
            #[trigger] hex_digit(c) is Some ==> hex_digit(c).unwrap() < 16 && (c
                == "0123456789abcdef"@[hex_digit(c).unwrap() as int] || c
                == "0123456789ABCDEF"@[hex_digit(c).unwrap() as int]),
{
    reveal_strlit("0123456789abcdef");
    reveal_strlit("0123456789ABCDEF");
    let lo = "0123456789abcdef"@;
    let up = "0123456789ABCDEF"@;
    assert(lo =~= seq!['0', '1', '2', '3', '4', '5', '6', '7', '8', '9', 'a', 'b', 'c', 'd', 'e', 'f']);
    assert(up =~= seq!['0', '1', '2', '3', '4', '5', '6', '7', '8', '9', 'A', 'B', 'C', 'D', 'E', 'F']);
    assert forall|c: char| #[trigger] hex_digit(c) is Some implies hex_digit(c).unwrap() < 16 && (c
        == lo[hex_digit(c).unwrap() as int] || c == up[hex_digit(c).unwrap() as int]) by {
        let v = c as int;
        if '0' <= c <= '9' {
            assert(lo[v - 48] == (v as char));
        } else if 'a' <= c <= 'f' {
            assert(lo[v - 87] == (v as char));
        } else if 'A' <= c <= 'F' {
            assert(up[v - 55] == (v as char));
        }
    }
}

pub open spec fn all_hex(s: Seq<char>) -> bool {
    forall|i: int| 0 <= i < s.len() ==> (#[trigger] hex_digit(s[i])) is Some
}

/// The number that the hexadecimal digits `s` denote.
pub open spec fn hex_value(s: Seq<char>) -> nat
    decreases s.len(),
{
    if s.len() == 0 {
        0
    } else {
        hex_value(s.drop_last()) * 16 + match hex_digit(s.last()) {
            Some(d) => d,
            None => 0,
        }
    }
}

/// The lowercase hexadecimal digit for `d` (below 16).
pub open spec fn hex_char(d: nat) -> char {
    if d < 10 {
        (d + 48) as char
    } else {
        (d + 87) as char
    }
}

/// `n` in lowercase hexadecimal, without leading zeros, as `{:x}` writes it.
pub open spec fn hex_repr(n: nat) -> Seq<char>
    decreases n,
{
    if n < 16 {
        seq![hex_char(n)]
    } else {
        hex_repr(n / 16) + seq![hex_char(n % 16)]
    }
}

/// Reading back the hexadecimal digits of `n` gives `n`.
pub proof fn lemma_hex_repr_reads(n: nat)
    ensures
        hex_repr(n).len() > 0,
        all_hex(hex_repr(n)),
        hex_value(hex_repr(n)) == n,
    decreases n,
{
    assert(hex_digit(hex_char(n % 16)) == Some(n % 16));
    let h = hex_repr(n);
    if n < 16 {
        assert(h.drop_last() =~= Seq::<char>::empty());
        assert(h.last() == hex_char(n));
        assert(hex_value(h.drop_last()) == 0);
        assert(hex_value(h) == hex_value(h.drop_last()) * 16 + n);
    } else {
        lemma_hex_repr_reads(n / 16);
        let p = hex_repr(n / 16);
        assert(h.drop_last() =~= p);
        assert(h.last() == hex_char(n % 16));
        assert(hex_value(h) == hex_value(p) * 16 + n % 16);
        assert(n == (n / 16) * 16 + n % 16);
        assert forall|i: int| 0 <= i < h.len() implies (#[trigger] hex_digit(h[i])) is Some by {
            if i < p.len() {
                assert(h[i] == p[i]);
            }
        }
    }
}

/// A window address as Hyprland prints it, `0x` and its hexadecimal
/// digits, reads back as that address for every 64-bit value.
pub proof fn lemma_address_reads(n: nat)
    requires
        n <= u64::MAX,
    ensures
        std_parse_hex_u64(strip_hex_prefix("0x"@ + hex_repr(n))) == Some(n),
{
    reveal_strlit("0x");
    lemma_hex_repr_reads(n);
    let h = hex_repr(n);
    let s = "0x"@ + h;
    assert(s.subrange(2, s.len() as int) =~= h);
    assert(h[0] != '+') by {
        assert(hex_digit(h[0]) is Some);
    }
    if h.len() >= 2 {
        assert(hex_digit(h[1]) is Some);
        assert(h[1] != 'x');
    }
    assert(strip_hex_prefix(h) == h);
    assert(strip_hex_prefix(s) == strip_hex_prefix(h));
}

/// What `u64::from_str_radix(s, 16)` returns: an optional `+`, then one or
/// more hexadecimal digits whose value fits a `u64`.
pub open spec fn std_parse_hex_u64(s: Seq<char>) -> Option<nat> {
    let d = if s.len() > 0 && s[0] == '+' { s.drop_first() } else { s };
    if d.len() > 0 && all_hex(d) && hex_value(d) <= u64::MAX {
        Some(hex_value(d))
    } else {
        None
    }
}

fn hex_digit_exec(c: char) -> (r: Option<u64>)
    ensures
        match hex_digit(c) {
            Some(d) => r == Some(d as u64),
            None => r is None,
        },
{
    if '0' <= c && c <= '9' {
        Some((c as u32 - '0' as u32) as u64)
    } else if 'a' <= c && c <= 'f' {
        Some((c as u32 - 'a' as u32 + 10) as u64)
    } else if 'A' <= c && c <= 'F' {
        Some((c as u32 - 'A' as u32 + 10) as u64)
    } else {
        None
    }
}

/// `u64::from_str_radix(s, 16)`, on the characters `cs[start..]`.
fn parse_hex(cs: &Vec<char>, start: usize) -> (r: Option<u64>)
    requires
        start <= cs@.len(),
    ensures
        r == (match std_parse_hex_u64(cs@.subrange(start as int, cs@.len() as int)) {
            Some(n) => Some(n as u64),
            None => None::<u64>,
        }),
{
    let ghost s = cs@.subrange(start as int, cs@.len() as int);
    let n = cs.len();
    let mut b: usize = start;
    if b < n && cs[b] == '+' {
        b = b + 1;
    }
    let ghost d = cs@.subrange(b as int, n as int);
    proof {
        if s.len() > 0 && s[0] == '+' {
            assert(d =~= s.drop_first());
        } else {
            assert(d =~= s);
        }
    }
    if b == n {
        return None;
    }
    let mut acc: u64 = 0;
    let mut fits: bool = true;
    let mut i: usize = b;
    while i < n
        invariant
            b <= i <= n,
            n == cs@.len(),
            d == cs@.subrange(b as int, n as int),
            d.len() > 0,
            std_parse_hex_u64(cs@.subrange(start as int, n as int)) == (if all_hex(d) && hex_value(d)
                <= u64::MAX {
                Some(hex_value(d))
            } else {
                None
            }),
            all_hex(cs@.subrange(b as int, i as int)),
            fits ==> acc == hex_value(cs@.subrange(b as int, i as int)),
            !fits ==> hex_value(cs@.subrange(b as int, i as int)) > u64::MAX,
        decreases n - i,
    {
        let ghost pre = cs@.subrange(b as int, i as int);
        let ghost nxt = cs@.subrange(b as int, i + 1);
        assert(nxt.drop_last() =~= pre);
        let dv = match hex_digit_exec(cs[i]) {
            Some(v) => v,
            None => {
                assert(d[i - b] == cs@[i as int]);
                assert(hex_digit(d[i - b]) is None);
                return None;
            },
        };
        assert(all_hex(nxt));
        if fits {
            match acc.checked_mul(16) {
                Some(m) => match m.checked_add(dv) {
                    Some(a) => {
                        acc = a;
                    },
                    None => {
                        fits = false;
                    },
                },
                None => {
                    fits = false;
                },
            }
        }
        i = i + 1;
    }
    assert(cs@.subrange(b as int, i as int) =~= d);
    if fits {
        Some(acc)
    } else {
        None
    }
}

/// The low 32 bits of `addr`: the window handle the protocol takes (the
/// compositor compares the low 32 bits of a window's address).
pub fn window_handle(addr: u64) -> (r: u32)
    ensures
        r == addr % 0x1_0000_0000,
{
    let m = addr & 0xFFFF_FFFF;
    assert(addr & 0xFFFF_FFFF == addr % 0x1_0000_0000) by (bit_vector);
    m as u32
}

/// What the command line asks for.
#[derive(Debug, PartialEq, Eq)]
pub struct ShotArgs {
    /// The window handle (low 32 bits of the window address).
    pub handle: u32,
    /// Where the PNG goes.
    pub out_path: String,
}

/// Why the command line was refused.
#[derive(Debug, PartialEq, Eq)]
pub enum ArgError {
    /// Not exactly two arguments.
    Usage,
    /// The window address is no hexadecimal number.
    BadAddress,
}

/// Reads `hypr-winshot <window-address> <out.png>` (`args[0]` is the
/// program): the address in hexadecimal, with any leading `0x` removed.
pub fn parse_shot_args(args: &Vec<String>) -> (r: Result<ShotArgs, ArgError>)
    ensures
        args@.len() != 3 ==> r matches Err(ArgError::Usage),
        args@.len() == 3 ==> match std_parse_hex_u64(strip_hex_prefix(args@[1]@)) {
            None => r matches Err(ArgError::BadAddress),
            Some(a) => r matches Ok(sa) && sa.handle == a % 0x1_0000_0000 && sa.out_path@
                == args@[2]@,
        },
{
    if args.len() != 3 {
        return Err(ArgError::Usage);
    }
    let cs = chars_of(args[1].as_str());
    let mut i: usize = 0;
    assert(cs@.subrange(0, cs@.len() as int) =~= cs@);
    while cs.len() - i >= 2 && cs[i] == '0' && cs[i + 1] == 'x'
        invariant
            i <= cs@.len(),
            args@.len() == 3,
            cs@ == args@[1]@,
            strip_hex_prefix(cs@) == strip_hex_prefix(cs@.subrange(i as int, cs@.len() as int)),
        decreases cs.len() - i,
    {
        assert(cs@.subrange(i as int, cs@.len() as int).subrange(2, cs@.len() - i) =~= cs@.subrange(
            i + 2,
            cs@.len() as int,
        ));
        i = i + 2;
    }
    match parse_hex(&cs, i) {
        Some(a) => Ok(ShotArgs { handle: window_handle(a), out_path: args[2].clone() }),
        None => Err(ArgError::BadAddress),
    }
}

/// The globals of the compositor that the capture binds.
#[derive(Clone, Copy, Debug, PartialEq, Eq)]
pub enum Global {
    /// `wl_shm`, for the shared-memory buffer.
    Shm,
    /// `hyprland_toplevel_export_manager_v1`, for the capture itself.
    ExportManager,
}

/// Which global to bind for an advertised `interface` of `version`, and at
/// which version: `wl_shm` at most at version 1, the export manager at most
/// at version 2; other interfaces are not bound.
pub fn registry_bind(interface: &str, version: u32) -> (r: Option<(Global, u32)>)
    ensures
        interface@ == "wl_shm"@ ==> r == Some((Global::Shm, if version < 1 { version } else { 1 })),
        interface@ == "hyprland_toplevel_export_manager_v1"@ ==> r == Some(
            (Global::ExportManager, if version < 2 { version } else { 2 }),
        ),
        interface@ != "wl_shm"@ && interface@ != "hyprland_toplevel_export_manager_v1"@ ==> r is None,
{
    proof {
        reveal_strlit("wl_shm");
        reveal_strlit("hyprland_toplevel_export_manager_v1");
        assert("wl_shm"@.len() != "hyprland_toplevel_export_manager_v1"@.len());
    }
    if str_eq(interface, "wl_shm") {
        Some((Global::Shm, if version < 1 { version } else { 1 }))
    } else if str_eq(interface, "hyprland_toplevel_export_manager_v1") {
        Some((Global::ExportManager, if version < 2 { version } else { 2 }))
    } else {
        None
    }
}


/// The shared-memory buffer the compositor asks for.
#[derive(Clone, Copy, Debug, PartialEq, Eq)]
pub struct BufParams {
    pub format: u32,
    pub width: u32,
    pub height: u32,
    pub stride: u32,
}

/// What the frame's events have told so far.
#[derive(Clone, Copy, Debug, PartialEq, Eq)]
pub struct CaptureState {
    /// The first buffer the compositor offered.
    pub params: Option<BufParams>,
    /// All buffer offers have been made.
    pub buffer_done: bool,
    /// The frame is stored upside down.
    pub y_invert: bool,
    /// The frame has been copied into the buffer.
    pub ready: bool,
    /// The capture failed.
    pub failed: bool,
}

/// An event of the export frame, with its enum values as plain numbers.
#[derive(Clone, Copy, Debug, PartialEq, Eq)]
pub enum FrameEvent {
    Buffer { format: u32, width: u32, height: u32, stride: u32 },
    BufferDone,
    Flags { flags: u32 },
    Ready,
    Failed,
    Other,
}

impl CaptureState {
    /// Nothing heard yet.
    pub open spec fn initial() -> CaptureState {
        CaptureState { params: None, buffer_done: false, y_invert: false, ready: false, failed: false }
    }

    pub fn new() -> (r: CaptureState)
        ensures
            r == CaptureState::initial(),
    {
        CaptureState { params: None, buffer_done: false, y_invert: false, ready: false, failed: false }
    }
}

/// The state after event `e`: the first buffer offer is kept, later ones
/// are ignored; bit 0 of the flags is the y-invert flag.
pub open spec fn frame_step(st: CaptureState, e: FrameEvent) -> CaptureState {
    match e {
        FrameEvent::Buffer { format, width, height, stride } => if st.params is None {
            CaptureState { params: Some(BufParams { format, width, height, stride }), ..st }
        } else {
            st
        },
        FrameEvent::BufferDone => CaptureState { buffer_done: true, ..st },
        FrameEvent::Flags { flags } => CaptureState { y_invert: flags % 2 == 1, ..st },
        FrameEvent::Ready => CaptureState { ready: true, ..st },
        FrameEvent::Failed => CaptureState { failed: true, ..st },
        FrameEvent::Other => st,
    }
}

/// Handles one event of the export frame.
pub fn frame_event(st: &mut CaptureState, e: FrameEvent)
    ensures
        *final(st) == frame_step(*old(st), e),
{
    match e {
        FrameEvent::Buffer { format, width, height, stride } => {
            if st.params.is_none() {
                st.params = Some(BufParams { format, width, height, stride });
            }
        },
        FrameEvent::BufferDone => {
            st.buffer_done = true;
        },
        FrameEvent::Flags { flags } => {
            st.y_invert = flags & 1 != 0;
            assert(flags & 1 != 0 <==> flags % 2 == 1) by (bit_vector);
        },
        FrameEvent::Ready => {
            st.ready = true;
        },
        FrameEvent::Failed => {
            st.failed = true;
        },
        FrameEvent::Other => {},
    }
}

/// The state after the events `es`, in order.
pub open spec fn frame_run(st: CaptureState, es: Seq<FrameEvent>) -> CaptureState
    decreases es.len(),
{
    if es.len() == 0 {
        st
    } else {
        frame_run(frame_step(st, es[0]), es.drop_first())
    }
}

/// The buffer of the first `Buffer` event in `es`.
pub open spec fn first_offer(es: Seq<FrameEvent>) -> Option<BufParams>
    decreases es.len(),
{
    if es.len() == 0 {
        None
    } else {
        match es[0] {
            FrameEvent::Buffer { format, width, height, stride } => Some(
                BufParams { format, width, height, stride },
            ),
            _ => first_offer(es.drop_first()),
        }
    }
}

/// The capture takes the first buffer format the compositor offers: from
/// a state with no buffer yet, the events `es` leave the first offer among
/// them as the buffer.
pub proof fn lemma_first_offer_kept(st: CaptureState, es: Seq<FrameEvent>)
    requires
        st.params is None,
    ensures
        frame_run(st, es).params == first_offer(es),
    decreases es.len(),
{
    if es.len() > 0 {
        let next = frame_step(st, es[0]);
        match es[0] {
            FrameEvent::Buffer { .. } => {
                lemma_offer_stays(next, es.drop_first());
            },
            _ => {
                lemma_first_offer_kept(next, es.drop_first());
            },
        }
    }
}

/// Once a buffer is chosen, no later event changes it; once the offers are
/// done, the copy is ready or the capture has failed, that stays so.
pub proof fn lemma_offer_stays(st: CaptureState, es: Seq<FrameEvent>)
    ensures
        st.params is Some ==> frame_run(st, es).params == st.params,
        st.failed ==> frame_run(st, es).failed,
        st.buffer_done ==> frame_run(st, es).buffer_done,
        st.ready ==> frame_run(st, es).ready,
    decreases es.len(),
{
    if es.len() > 0 {
        lemma_offer_stays(frame_step(st, es[0]), es.drop_first());
    }
}

/// The flags of the last `Flags` event in `es`.
pub open spec fn last_flags(es: Seq<FrameEvent>) -> Option<u32>
    decreases es.len(),
{
    if es.len() == 0 {
        None
    } else {
        match last_flags(es.drop_first()) {
            Some(f) => Some(f),
            None => match es[0] {
                FrameEvent::Flags { flags } => Some(flags),
                _ => None,
            },
        }
    }
}

/// Some event of `es` is `e`.
pub open spec fn has_event(es: Seq<FrameEvent>, e: FrameEvent) -> bool {
    exists|i: int| 0 <= i < es.len() && es[i] == e
}

/// What a run of frame events leaves: the frame is upside down exactly
/// when bit 0 of the last `Flags` event's flags is set (with no such event
/// the flag is as before); the offers are done, the copy is ready, the
/// capture has failed exactly when it was so before or the matching event
/// came. No other event touches these.
pub proof fn lemma_frame_run_flags(st: CaptureState, es: Seq<FrameEvent>)
    ensures
        frame_run(st, es).y_invert == match last_flags(es) {
            Some(f) => f & 1 == 1,
            None => st.y_invert,
        },
        frame_run(st, es).buffer_done == (st.buffer_done || has_event(es, FrameEvent::BufferDone)),
        frame_run(st, es).ready == (st.ready || has_event(es, FrameEvent::Ready)),
        frame_run(st, es).failed == (st.failed || has_event(es, FrameEvent::Failed)),
    decreases es.len(),
{
    if es.len() > 0 {
        let rest = es.drop_first();
        lemma_frame_run_flags(frame_step(st, es[0]), rest);
        if let FrameEvent::Flags { flags } = es[0] {
            assert(flags & 1 == 1 <==> flags % 2 == 1) by (bit_vector);
        }
        assert forall|e: FrameEvent| has_event(es, e) <==> (es[0] == e || has_event(rest, e)) by {
            if has_event(es, e) {
                let i = choose|i: int| 0 <= i < es.len() && es[i] == e;
                if i > 0 {
                    assert(rest[i - 1] == e);
                }
            }
            if has_event(rest, e) {
                let i = choose|i: int| 0 <= i < rest.len() && rest[i] == e;
                assert(es[i + 1] == e);
            }
        }
    }
}

/// What the capture does next while the buffer is being negotiated.
#[derive(Debug, PartialEq, Eq)]
pub enum OfferStep {
    /// Dispatch more events: no buffer offered yet, or offers not done.
    Wait,
    /// The capture failed.
    Failed,
    /// Create this buffer and ask for the copy.
    Start(BufParams),
}

/// The next step before the copy: stop on failure; wait until a buffer
/// has been offered and the offers are done; then start with that buffer.
pub fn offer_step(st: &CaptureState) -> (r: OfferStep)
    ensures
        st.failed ==> r == OfferStep::Failed,
        !st.failed && (st.params is None || !st.buffer_done) ==> r == OfferStep::Wait,
        !st.failed && st.buffer_done && st.params is Some ==> r == OfferStep::Start(st.params.unwrap()),
{
    if st.failed {
        OfferStep::Failed
    } else {
        match st.params {
            Some(p) => if st.buffer_done {
                OfferStep::Start(p)
            } else {
                OfferStep::Wait
            },
            None => OfferStep::Wait,
        }
    }
}

/// What the capture does next while the frame is being copied.
#[derive(Debug, PartialEq, Eq)]
pub enum CopyStep {
    /// Dispatch more events.
    Wait,
    /// The copy failed.
    Failed,
    /// The buffer holds the frame.
    Done,
}

/// The next step during the copy: stop on failure, else wait until ready.
pub fn copy_step(st: &CaptureState) -> (r: CopyStep)
    ensures
        st.failed ==> r == CopyStep::Failed,
        !st.failed && !st.ready ==> r == CopyStep::Wait,
        !st.failed && st.ready ==> r == CopyStep::Done,
{
    if st.failed {
        CopyStep::Failed
    } else if st.ready {
        CopyStep::Done
    } else {
        CopyStep::Wait
    }
}

/// The size in bytes of the shared-memory buffer, `stride * height`, where
/// that product fits a `u32`.
pub fn shm_size(p: BufParams) -> (r: Option<usize>)
    ensures
        p.stride * p.height <= u32::MAX ==> r == Some((p.stride * p.height) as usize),
        p.stride * p.height > u32::MAX ==> r is None,
{
    match p.stride.checked_mul(p.height) {
        Some(n) => Some(n as usize),
        None => None,
    }
}


/// Whether a buffer of `format` (`ARGB8888`, `XRGB8888` and their DRM
/// codes) holds its pixels as blue, green, red, alpha bytes in memory.
pub open spec fn is_bgr(format: u32) -> bool {
    format == 0 || format == 1 || format == 875708993 || format == 875709016
}

pub fn is_bgr_format(format: u32) -> (r: bool)
    ensures
        r == is_bgr(format),
{
    format == 0 || format == 1 || format == 875708993 || format == 875709016
}

/// Byte `i` of the RGBA image made from the buffer `data`: pixel `i / 4`
/// counts rows of `width` pixels from the top; its row is read from the
/// buffer (bottom-up where `y_invert`), its red, green and blue from the
/// buffer's bytes (swapped for a BGR format), its alpha opaque. A pixel
/// whose four bytes lie beyond the buffer stays all zero.
pub open spec fn rgba_byte(data: Seq<u8>, p: BufParams, y_invert: bool, i: int) -> u8 {
    let k = i / 4;
    let c = i % 4;
    let y = k / (p.width as int);
    let x = k % (p.width as int);
    let sy = if y_invert { p.height - 1 - y } else { y };
    let si = sy * p.stride + x * 4;
    if si < data.len() && data.len() - si > 3 {
        if c == 0 {
            if is_bgr(p.format) { data[si + 2] } else { data[si] }
        } else if c == 1 {
            data[si + 1]
        } else if c == 2 {
            if is_bgr(p.format) { data[si] } else { data[si + 2] }
        } else {
            255
        }
    } else {
        0
    }
}

proof fn lemma_src_offset_fits(sy: u32, x: u32, p: BufParams)
    requires
        sy < p.height,
        x < p.width,
        p.width * p.height * 4 <= u32::MAX,
        p.stride * p.height <= u32::MAX,
    ensures
        sy * p.stride + x * 4 <= u32::MAX,
{
    let h = p.height as int;
    let w = p.width as int;
    let st = p.stride as int;
    assert(sy * st <= (h - 1) * st) by (nonlinear_arith)
        requires
            sy <= h - 1,
            st >= 0,
    ;
    if st >= 4 * w {
        assert((h - 1) * st + st == h * st) by (nonlinear_arith);
        assert(h * st == p.stride * p.height) by (nonlinear_arith)
            requires
                h == p.height,
                st == p.stride,
        ;
    } else {
        assert((h - 1) * st <= (h - 1) * (4 * w)) by (nonlinear_arith)
            requires
                h >= 1,
                st < 4 * w,
        ;
        assert((h - 1) * (4 * w) + 4 * w == w * h * 4) by (nonlinear_arith);
        assert(w * h * 4 == p.width * p.height * 4) by (nonlinear_arith)
            requires
                h == p.height,
                w == p.width,
        ;
    }
}

proof fn lemma_pixel_index(y: int, x: int, w: int, c: int)
    requires
        0 <= y,
        0 <= x < w,
        0 <= c < 4,
    ensures
        ((y * w + x) * 4 + c) / 4 == y * w + x,
        ((y * w + x) * 4 + c) % 4 == c,
        (y * w + x) / w == y,
        (y * w + x) % w == x,
{
    vstd::arithmetic::div_mod::lemma_fundamental_div_mod_converse((y * w + x) * 4 + c, 4, y * w + x, c);
    vstd::arithmetic::div_mod::lemma_fundamental_div_mod_converse(y * w + x, w, y, x);
}

/// The RGBA image (rows from the top, 4 bytes per pixel) of a frame that
/// the compositor copied into `data`, a buffer laid out as `p` says.
pub fn convert_frame(data: &[u8], p: BufParams, y_invert: bool) -> (out: Vec<u8>)
    requires
        p.width * p.height * 4 <= u32::MAX,
        p.stride * p.height <= u32::MAX,
    ensures
        out@.len() == p.width * p.height * 4,
        forall|i: int| 0 <= i < out@.len() ==> out@[i] == rgba_byte(data@, p, y_invert, i),
{
    let bgr = is_bgr_format(p.format);
    let mut out: Vec<u8> = Vec::new();
    let mut y: u32 = 0;
    while y < p.height
        invariant
            y <= p.height,
            p.width * p.height * 4 <= u32::MAX,
            p.stride * p.height <= u32::MAX,
            bgr == is_bgr(p.format),
            out@.len() == (y * p.width) * 4,
            forall|i: int| 0 <= i < out@.len() ==> out@[i] == rgba_byte(data@, p, y_invert, i),
        decreases p.height - y,
    {
        let src_y: u32 = if y_invert { p.height - 1 - y } else { y };
        let mut x: u32 = 0;
        while x < p.width
            invariant
                y < p.height,
                x <= p.width,
                p.width * p.height * 4 <= u32::MAX,
                p.stride * p.height <= u32::MAX,
                bgr == is_bgr(p.format),
                src_y == (if y_invert { p.height - 1 - y } else { y as int }),
                out@.len() == (y * p.width + x) * 4,
                forall|i: int| 0 <= i < out@.len() ==> out@[i] == rgba_byte(data@, p, y_invert, i),
            decreases p.width - x,
        {
            proof {
                lemma_src_offset_fits(src_y, x, p);
            }
            let si = (src_y * p.stride + x * 4) as usize;
            let ghost i0 = out@.len() as int;
            let ghost k = y * p.width + x;
            proof {
                assert(i0 == k * 4);
                lemma_pixel_index(y as int, x as int, p.width as int, 0);
                lemma_pixel_index(y as int, x as int, p.width as int, 1);
                lemma_pixel_index(y as int, x as int, p.width as int, 2);
                lemma_pixel_index(y as int, x as int, p.width as int, 3);
            }
            if si < data.len() && data.len() - si > 3 {
                let (b0, b1, b2) = (data[si], data[si + 1], data[si + 2]);
                if bgr {
                    out.push(b2);
                    out.push(b1);
                    out.push(b0);
                } else {
                    out.push(b0);
                    out.push(b1);
                    out.push(b2);
                }
                out.push(255);
            } else {
                out.push(0);
                out.push(0);
                out.push(0);
                out.push(0);
            }
            proof {
                assert(out@[i0] == rgba_byte(data@, p, y_invert, i0));
                assert(out@[i0 + 1] == rgba_byte(data@, p, y_invert, i0 + 1));
                assert(out@[i0 + 2] == rgba_byte(data@, p, y_invert, i0 + 2));
                assert(out@[i0 + 3] == rgba_byte(data@, p, y_invert, i0 + 3));
                assert((y * p.width + (x + 1)) * 4 == i0 + 4) by (nonlinear_arith)
                    requires
                        i0 == (y * p.width + x) * 4,
                ;
            }
            x = x + 1;
        }
        assert((y + 1) * p.width == y * p.width + p.width) by (nonlinear_arith);
        y = y + 1;
    }
    assert(p.height * p.width == p.width * p.height) by (nonlinear_arith);
    out
}


/// The byte of the image whose pixel is at column `x` of row `y`, channel `c`.
pub open spec fn pixel_byte(p: BufParams, y: int, x: int, c: int) -> int {
    (y * p.width + x) * 4 + c
}

/// An upside-down frame comes out mirrored: with `y_invert`, every byte of
/// row `y` is the byte that the plain conversion puts in row
/// `height - 1 - y`, same column and channel.
pub proof fn lemma_y_invert_mirrors(data: Seq<u8>, p: BufParams, y: int, x: int, c: int)
    requires
        0 <= y < p.height,
        0 <= x < p.width,
        0 <= c < 4,
    ensures
        rgba_byte(data, p, true, pixel_byte(p, y, x, c)) == rgba_byte(
            data,
            p,
            false,
            pixel_byte(p, p.height - 1 - y, x, c),
        ),
{
    lemma_pixel_index(y, x, p.width as int, c);
    lemma_pixel_index(p.height - 1 - y, x, p.width as int, c);
}

/// The plain conversion reads row `y`, column `x` of the image from the
/// four bytes at `y * stride + x * 4` of the buffer (where they all lie in
/// it): red, green, blue from bytes 0, 1, 2 (from 2, 1, 0 for a BGR format),
/// alpha opaque; else the pixel is zero.
pub proof fn lemma_plain_pixel(data: Seq<u8>, p: BufParams, y: int, x: int)
    requires
        0 <= y < p.height,
        0 <= x < p.width,
    ensures
        ({
            let si = y * p.stride + x * 4;
            let px = |c: int| rgba_byte(data, p, false, pixel_byte(p, y, x, c));
            if si + 3 < data.len() {
                &&& px(0) == (if is_bgr(p.format) { data[si + 2] } else { data[si] })
                &&& px(1) == data[si + 1]
                &&& px(2) == (if is_bgr(p.format) { data[si] } else { data[si + 2] })
                &&& px(3) == 255
            } else {
                px(0) == 0 && px(1) == 0 && px(2) == 0 && px(3) == 0
            }
        }),
{
    lemma_pixel_index(y, x, p.width as int, 0);
    lemma_pixel_index(y, x, p.width as int, 1);
    lemma_pixel_index(y, x, p.width as int, 2);
    lemma_pixel_index(y, x, p.width as int, 3);
}

/// Every byte of the image belongs to one pixel: byte `i` is channel
/// `i % 4` of column `(i / 4) % width` of row `(i / 4) / width`, a row of
/// the frame.
pub proof fn lemma_pixel_of_byte(p: BufParams, i: int)
    requires
        0 <= i < p.width * p.height * 4,
    ensures
        0 <= (i / 4) / (p.width as int) < p.height,
        0 <= (i / 4) % (p.width as int) < p.width,
        i == pixel_byte(p, (i / 4) / (p.width as int), (i / 4) % (p.width as int), i % 4),
{
    let w = p.width as int;
    let h = p.height as int;
    assert(w > 0) by (nonlinear_arith)
        requires
            0 <= i < w * h * 4,
            h >= 0,
            w >= 0,
    ;
    let k = i / 4;
    vstd::arithmetic::div_mod::lemma_fundamental_div_mod(i, 4);
    vstd::arithmetic::div_mod::lemma_fundamental_div_mod(k, w);
    assert(k < w * h) by (nonlinear_arith)
        requires
            0 <= i < w * h * 4,
            k == i / 4,
    ;
    assert(k / w < h) by (nonlinear_arith)
        requires
            0 <= k < w * h,
            w > 0,
            k == w * (k / w) + k % w,
            0 <= k % w,
    ;
    assert(k / w >= 0) by (nonlinear_arith)
        requires
            0 <= k,
            w > 0,
    ;
}

} // verus!
