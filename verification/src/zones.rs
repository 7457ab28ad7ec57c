//! FancyZones-style snapping: layouts of zones (rectangles given as
//! fractions of a monitor's usable area), the current-layout state, and the
//! commands that move the active window into a zone.
use vstd::prelude::*;
use vstd::string::*;
use crate::json::{json_parse, parse_json, refers, Json};
use crate::text::{
    chars_leq, chars_of, dec_int, lemma_dec_int_reads, read_int, lemma_str_order_total, parse_usize, push_i64, std_parse_usize,
    str_eq, str_leq, str_order, trim, trim_ws,
};
use vstd::relations::sorted_by;

verus! {

/// `~/.config/hypr/fancyzones.json` under the home directory `home`.
pub fn config_path(home: &str) -> (r: String)
    ensures
        r@ == home@ + "/.config/hypr/fancyzones.json"@,
{
    let mut s = home.to_owned();
    s.append("/.config/hypr/fancyzones.json");
    s
}

/// `~/.cache/hypr/fancyzones-current` under the home directory `home`.
pub fn state_path(home: &str) -> (r: String)
    ensures
        r@ == home@ + "/.cache/hypr/fancyzones-current"@,
{
    let mut s = home.to_owned();
    s.append("/.cache/hypr/fancyzones-current");
    s
}

/// The document that a `hyprctl ... -j` run printed: its standard output
/// parsed as JSON where the run succeeded and the output parses, else `null`.
pub fn hyprctl_json(success: bool, stdout: &[u8]) -> (r: Json)
    ensures
        r == (if success && json_parse(stdout@) is Some {
            json_parse(stdout@).unwrap()
        } else {
            Json::Null
        }),
{
    if success {
        match parse_json(stdout) {
            Some(v) => v,
            None => Json::Null,
        }
    } else {
        Json::Null
    }
}

/// Whether member `key` of `v` is the boolean `true` (a missing or
/// non-boolean member counts as `false`).
pub open spec fn flag(v: Json, key: Seq<char>) -> bool {
    match v.member(key) {
        Some(Json::Bool(b)) => b,
        _ => false,
    }
}

/// Member `key` of `v` as an `i64`, or 0 where it is missing or no such integer.
pub open spec fn int_or_zero(v: Option<Json>) -> int {
    match v {
        Some(Json::Number(n)) => match n.as_i64 {
            Some(i) => i as int,
            None => 0,
        },
        _ => 0,
    }
}

/// The active window's address and whether it floats, from the document
/// that `hyprctl activewindow -j` printed. `None` where there is no
/// address string or it is empty.
pub open spec fn active_window_of(w: Json) -> Option<(Seq<char>, bool)> {
    match w.member("address"@) {
        Some(Json::Str(a)) => if a@.len() == 0 {
            None
        } else {
            Some((a@, flag(w, "floating"@)))
        },
        _ => None,
    }
}

fn flag_exec(v: &Json, key: &str) -> (r: bool)
    ensures
        r == flag(*v, key@),
{
    match v.get(key) {
        Some(x) => match x.as_bool() {
            Some(b) => b,
            None => false,
        },
        None => false,
    }
}

fn int_or_zero_exec(v: Option<&Json>) -> (r: i64)
    ensures
        r as int == int_or_zero(match v {
            Some(x) => Some(*x),
            None => None,
        }),
{
    match v {
        Some(x) => match x.as_i64() {
            Some(i) => i,
            None => 0,
        },
        None => 0,
    }
}

/// The active window: its address and whether it is floating.
pub fn active_window(w: &Json) -> (r: Option<(String, bool)>)
    ensures
        match active_window_of(*w) {
            Some((a, f)) => r matches Some((s, g)) && s@ == a && g == f,
            None => r is None,
        },
{
    let addr = match w.get("address") {
        Some(x) => match x.as_str() {
            Some(s) => s,
            None => {
                return None;
            },
        },
        None => {
            return None;
        },
    };
    if addr.as_str().is_empty() {
        return None;
    }
    let floating = flag_exec(w, "floating");
    Some((addr.clone(), floating))
}


/// The index of the first monitor in `a` whose `focused` member is `true`.
pub open spec fn focused_index(a: Seq<Json>) -> Option<int>
    decreases a.len(),
{
    if a.len() == 0 {
        None
    } else if flag(a[0], "focused"@) {
        Some(0)
    } else {
        match focused_index(a.drop_first()) {
            Some(k) => Some(k + 1),
            None => None,
        }
    }
}

/// The position of the focused monitor in the document that
/// `hyprctl monitors -j` printed (a list of monitors).
pub open spec fn focused_of(mons: Json) -> Option<int> {
    match mons {
        Json::Array(a) => focused_index(a@),
        _ => None,
    }
}

/// The position of the focused monitor: the first element of the monitor
/// list whose `focused` member is `true`.
pub fn focused_position(mons: &Json) -> (r: Option<usize>)
    ensures
        focused_of(*mons) is None ==> r is None,
        r matches Some(k) ==> focused_of(*mons) == Some(k as int),
        focused_of(*mons) is Some ==> r is Some,
        r matches Some(k) ==> mons matches Json::Array(a) && k < a@.len(),
{
    match mons {
        Json::Array(a) => {
            let mut i: usize = 0;
            assert(a@.subrange(0, a@.len() as int) =~= a@);
            while i < a.len()
                invariant
                    i <= a@.len(),
                    *mons == Json::Array(*a),
                    focused_of(*mons) == match focused_index(a@.subrange(i as int, a@.len() as int)) {
                        Some(k) => Some(k + i),
                        None => None,
                    },
                decreases a.len() - i,
            {
                let ghost rest = a@.subrange(i as int, a@.len() as int);
                assert(rest.drop_first() =~= a@.subrange(i + 1, a@.len() as int));
                assert(rest[0] == a@[i as int]);
                if flag_exec(&a[i], "focused") {
                    return Some(i);
                }
                i = i + 1;
            }
            None
        },
        _ => None,
    }
}

/// Entry `i` of the monitor's `reserved` list (left, top, right, bottom
/// margins) as an integer, or 0.
pub open spec fn reserved_at(m: Json, i: int) -> int {
    match m.member("reserved"@) {
        Some(Json::Array(a)) => if 0 <= i < a@.len() {
            int_or_zero(Some(a@[i]))
        } else {
            0
        },
        _ => 0,
    }
}

/// The usable area `(x, y, w, h)` of monitor `m` whose logical size is
/// `lw` by `lh`: its position moved past the left and top reserved margins,
/// its size shrunk by the reserved margins on both sides.
pub open spec fn usable_area_of(m: Json, lw: int, lh: int) -> (int, int, int, int) {
    let mx = int_or_zero(m.member("x"@));
    let my = int_or_zero(m.member("y"@));
    (
        mx + reserved_at(m, 0),
        my + reserved_at(m, 1),
        lw - reserved_at(m, 0) - reserved_at(m, 2),
        lh - reserved_at(m, 1) - reserved_at(m, 3),
    )
}

pub open spec fn in_i64(v: int) -> bool {
    i64::MIN <= v <= i64::MAX
}

/// Every sum and difference that computing the usable area takes, in the
/// order it takes them, fits an `i64`.
pub open spec fn usable_area_fits_spec(m: Json, lw: int, lh: int) -> bool {
    let mx = int_or_zero(m.member("x"@));
    let my = int_or_zero(m.member("y"@));
    &&& in_i64(mx + reserved_at(m, 0))
    &&& in_i64(my + reserved_at(m, 1))
    &&& in_i64(lw - reserved_at(m, 0))
    &&& in_i64(lw - reserved_at(m, 0) - reserved_at(m, 2))
    &&& in_i64(lh - reserved_at(m, 1))
    &&& in_i64(lh - reserved_at(m, 1) - reserved_at(m, 3))
}

fn reserved_exec(m: &Json, i: usize) -> (r: i64)
    ensures
        r as int == reserved_at(*m, i as int),
{
    match m.get("reserved") {
        Some(x) => match x.as_array() {
            Some(a) => if i < a.len() {
                int_or_zero_exec(Some(&a[i]))
            } else {
                0
            },
            None => 0,
        },
        None => 0,
    }
}

fn monitor_area_fits(m: &Json, lw: i64, lh: i64) -> (r: bool)
    ensures
        r == usable_area_fits_spec(*m, lw as int, lh as int),
{
    let mx = int_or_zero_exec(m.get("x")) as i128;
    let my = int_or_zero_exec(m.get("y")) as i128;
    let r0 = reserved_exec(m, 0) as i128;
    let r1 = reserved_exec(m, 1) as i128;
    let r2 = reserved_exec(m, 2) as i128;
    let r3 = reserved_exec(m, 3) as i128;
    let lo = i64::MIN as i128;
    let hi = i64::MAX as i128;
    let a = mx + r0;
    let b = my + r1;
    let c = lw as i128 - r0;
    let d = c - r2;
    let e = lh as i128 - r1;
    let f = e - r3;
    lo <= a && a <= hi && lo <= b && b <= hi && lo <= c && c <= hi && lo <= d && d <= hi && lo <= e
        && e <= hi && lo <= f && f <= hi
}

fn monitor_area(m: &Json, lw: i64, lh: i64) -> (r: (i64, i64, i64, i64))
    requires
        usable_area_fits_spec(*m, lw as int, lh as int),
    ensures
        (r.0 as int, r.1 as int, r.2 as int, r.3 as int) == usable_area_of(*m, lw as int, lh as int),
{
    let mx = int_or_zero_exec(m.get("x"));
    let my = int_or_zero_exec(m.get("y"));
    let r0 = reserved_exec(m, 0);
    let r1 = reserved_exec(m, 1);
    let r2 = reserved_exec(m, 2);
    let r3 = reserved_exec(m, 3);
    (mx + r0, my + r1, lw - r0 - r2, lh - r1 - r3)
}

/// `sizes` gives one logical size (width, height) for each monitor in the
/// list `mons`.
pub open spec fn sizes_match(mons: Json, sizes: Seq<(i64, i64)>) -> bool {
    match mons {
        Json::Array(a) => sizes.len() == a@.len(),
        _ => true,
    }
}

/// The usable area of the focused monitor of the list `mons`, whose
/// monitors have the logical sizes `sizes`; `None` where `mons` is no list
/// or no monitor in it is focused.
pub open spec fn usable_area_in(mons: Json, sizes: Seq<(i64, i64)>) -> Option<(int, int, int, int)> {
    match mons {
        Json::Array(a) => match focused_index(a@) {
            Some(k) => Some(usable_area_of(a@[k], sizes[k].0 as int, sizes[k].1 as int)),
            None => None,
        },
        _ => None,
    }
}

/// The usable area of the focused monitor can be computed without overflow
/// (or there is no focused monitor).
pub open spec fn usable_area_in_fits(mons: Json, sizes: Seq<(i64, i64)>) -> bool {
    match mons {
        Json::Array(a) => match focused_index(a@) {
            Some(k) => usable_area_fits_spec(a@[k], sizes[k].0 as int, sizes[k].1 as int),
            None => true,
        },
        _ => true,
    }
}

/// Whether `usable_area` can compute the area without overflow.
pub fn usable_area_fits(mons: &Json, sizes: &Vec<(i64, i64)>) -> (r: bool)
    requires
        sizes_match(*mons, sizes@),
    ensures
        r == usable_area_in_fits(*mons, sizes@),
{
    match focused_position(mons) {
        Some(k) => match mons {
            Json::Array(a) => monitor_area_fits(&a[k], sizes[k].0, sizes[k].1),
            _ => true,
        },
        None => true,
    }
}

/// The usable area `(x, y, w, h)` of the focused monitor, in logical
/// coordinates: its position moved past the left and top reserved margins,
/// its size shrunk by the reserved margins. `None` where the monitor list
/// is no list or has no focused monitor.
pub fn usable_area(mons: &Json, sizes: &Vec<(i64, i64)>) -> (r: Option<(i64, i64, i64, i64)>)
    requires
        sizes_match(*mons, sizes@),
        usable_area_in_fits(*mons, sizes@),
    ensures
        match usable_area_in(*mons, sizes@) {
            Some(v) => r matches Some(a) && (a.0 as int, a.1 as int, a.2 as int, a.3 as int) == v,
            None => r is None,
        },
{
    match focused_position(mons) {
        Some(k) => match mons {
            Json::Array(a) => Some(monitor_area(&a[k], sizes[k].0, sizes[k].1)),
            _ => None,
        },
        None => None,
    }
}

/// The usable area leaves exactly the reserved margins of the monitor
/// uncovered: `reserved` left, top, right and bottom between the area's
/// edges and the monitor's edges (the monitor at its `x`, `y`, of logical
/// size `lw` by `lh`).
pub proof fn lemma_usable_area_margins(m: Json, lw: int, lh: int)
    ensures
        ({
            let (x, y, w, h) = usable_area_of(m, lw, lh);
            let mx = int_or_zero(m.member("x"@));
            let my = int_or_zero(m.member("y"@));
            &&& x - mx == reserved_at(m, 0)
            &&& y - my == reserved_at(m, 1)
            &&& (mx + lw) - (x + w) == reserved_at(m, 2)
            &&& (my + lh) - (y + h) == reserved_at(m, 3)
        }),
{
}

/// The names of the layouts in `cfg`: the keys of its `layouts` object,
/// in the order the object holds them.
pub open spec fn layout_keys(cfg: Json) -> Seq<Seq<char>> {
    match cfg.member("layouts"@) {
        Some(Json::Object(m)) => m@.map_values(|e: (String, Json)| e.0@),
        _ => Seq::empty(),
    }
}

/// The layout names of `cfg` in sorted order.
pub open spec fn layout_names_of(cfg: Json) -> Seq<Seq<char>> {
    layout_keys(cfg).sort_by(str_order())
}

/// The characters of each string in `v`.
pub open spec fn views(v: Seq<String>) -> Seq<Seq<char>> {
    v.map_values(|s: String| s@)
}

/// The layout names of `cfg`, sorted.
pub fn layout_names(cfg: &Json) -> (r: Vec<String>)
    ensures
        views(r@) == layout_names_of(*cfg),
{
    let mut names: Vec<String> = Vec::new();
    let mut cnames: Vec<Vec<char>> = Vec::new();
    proof {
        lemma_str_order_total();
    }
    let no_members: Vec<(String, Json)> = Vec::new();
    let m = match cfg.get("layouts") {
        Some(l) => match l.as_object() {
            Some(m) => m,
            None => &no_members,
        },
        None => &no_members,
    };
    let ghost keys = m@.map_values(|e: (String, Json)| e.0@);
    assert(keys =~= layout_keys(*cfg));
    assert(views(names@) =~= Seq::<Seq<char>>::empty());
    assert(cnames@.map_values(|c: Vec<char>| c@) =~= Seq::<Seq<char>>::empty());
    assert(keys.subrange(0, 0) =~= Seq::<Seq<char>>::empty());
    let mut i: usize = 0;
    while i < m.len()
        invariant
            i <= m@.len(),
            keys == m@.map_values(|e: (String, Json)| e.0@),
            vstd::relations::total_ordering(str_order()),
            views(names@) == cnames@.map_values(|c: Vec<char>| c@),
            names@.len() == cnames@.len(),
            sorted_by(views(names@), str_order()),
            views(names@).to_multiset() == keys.subrange(0, i as int).to_multiset(),
        decreases m.len() - i,
    {
        let k = chars_of(m[i].0.as_str());
        let ghost vs = views(names@);
        let mut j: usize = 0;
        while j < names.len() && chars_leq(&cnames[j], &k)
            invariant
                j <= names@.len(),
                names@.len() == cnames@.len(),
                vs == views(names@),
                vs == cnames@.map_values(|c: Vec<char>| c@),
                forall|t: int| 0 <= t < j ==> str_leq(#[trigger] vs[t], k@),
            decreases names.len() - j,
        {
            assert(vs[j as int] == cnames@[j as int]@);
            j = j + 1;
        }
        proof {
            if j < names@.len() {
                assert(vs[j as int] == cnames@[j as int]@);
            }
        }
        names.insert(j, m[i].0.clone());
        cnames.insert(j, k);
        proof {
            let nv = vs.insert(j as int, k@);
            assert(views(names@) =~= nv);
            assert(cnames@.map_values(|c: Vec<char>| c@) =~= nv);
            assert forall|a: int, b: int| 0 <= a < b < nv.len() implies #[trigger] str_order()(
                nv[a],
                nv[b],
            ) by {
                if b < j {
                } else if a < j && b == j {
                } else if a < j {
                    assert(str_order()(vs[a], vs[b - 1]));
                } else if a == j {
                    assert(!str_leq(vs[j as int], k@));
                    assert(str_order()(vs[j as int], k@) || str_order()(k@, vs[j as int]));
                    assert(str_order()(k@, vs[j as int]));
                    if b - 1 > j {
                        assert(str_order()(vs[j as int], vs[b - 1]));
                    }
                } else {
                    assert(str_order()(vs[a - 1], vs[b - 1]));
                }
            }
            vstd::seq_lib::to_multiset_insert(vs, j as int, k@);
            let ks = keys.subrange(0, i + 1);
            assert(ks =~= keys.subrange(0, i as int).push(k@));
            vstd::seq_lib::to_multiset_build(keys.subrange(0, i as int), k@);
        }
        i = i + 1;
    }
    proof {
        assert(keys.subrange(0, i as int) =~= keys);
        keys.lemma_sort_by_ensures(str_order());
        vstd::seq_lib::lemma_sorted_unique(views(names@), keys.sort_by(str_order()), str_order());
    }
    names
}


/// The layout called `name`: the member `name` of the `layouts` object of `cfg`.
pub open spec fn layout_entry(cfg: Json, name: Seq<char>) -> Option<Json> {
    match cfg.member("layouts"@) {
        Some(l) => l.member(name),
        None => None,
    }
}

/// The layout called `name` in `cfg`.
pub fn layout_of<'a>(cfg: &'a Json, name: &str) -> (r: Option<&'a Json>)
    ensures
        refers(r, layout_entry(*cfg, name@)),
{
    match cfg.get("layouts") {
        Some(l) => l.get(name),
        None => None,
    }
}

/// Whether `cfg` has a layout called `name`.
pub fn layout_exists(cfg: &Json, name: &str) -> (r: bool)
    ensures
        r == layout_entry(*cfg, name@) is Some,
{
    layout_of(cfg, name).is_some()
}

/// The layout in force: the name saved in the state file `state`, once
/// trimmed, where `cfg` has a layout of that name; else the configured
/// `default`; else the first layout name in sorted order; else empty.
pub open spec fn current_layout_of(cfg: Json, state: Option<Seq<char>>) -> Seq<char> {
    let saved = match state {
        Some(s) => if layout_entry(cfg, trim_ws(s)) is Some {
            Some(trim_ws(s))
        } else {
            None
        },
        None => None,
    };
    match saved {
        Some(n) => n,
        None => match cfg.member("default"@) {
            Some(Json::Str(d)) => d@,
            _ => if layout_names_of(cfg).len() > 0 {
                layout_names_of(cfg)[0]
            } else {
                Seq::empty()
            },
        },
    }
}

/// The current layout, given the contents of the state file where it could
/// be read.
pub fn current_layout(cfg: &Json, state: Option<&str>) -> (r: String)
    ensures
        r@ == current_layout_of(*cfg, match state {
            Some(s) => Some(s@),
            None => None,
        }),
{
    if let Some(s) = state {
        let name = trim(s);
        if layout_exists(cfg, name) {
            return name.to_owned();
        }
    }
    match cfg.get("default") {
        Some(d) => match d.as_str() {
            Some(d) => {
                return d.clone();
            },
            None => {},
        },
        None => {},
    }
    let names = layout_names(cfg);
    if names.len() > 0 {
        names[0].clone()
    } else {
        String::new()
    }
}

/// The index of the first occurrence of `x` in `s`.
pub open spec fn position_of(s: Seq<Seq<char>>, x: Seq<char>) -> Option<int>
    decreases s.len(),
{
    if s.len() == 0 {
        None
    } else if s[0] == x {
        Some(0)
    } else {
        match position_of(s.drop_first(), x) {
            Some(i) => Some(i + 1),
            None => None,
        }
    }
}

/// The layout that `cycle` switches to: the one after the current layout
/// in sorted order, wrapping around (after the first one where the current
/// layout is not among the names). `None` where there are no layouts.
pub open spec fn next_layout_of(cfg: Json, state: Option<Seq<char>>) -> Option<Seq<char>> {
    let names = layout_names_of(cfg);
    if names.len() == 0 {
        None
    } else {
        let idx = match position_of(names, current_layout_of(cfg, state)) {
            Some(i) => i,
            None => 0,
        };
        Some(names[(idx + 1) % (names.len() as int)])
    }
}

/// The layout to switch to on `cycle`, given the contents of the state file.
pub fn cmd_cycle(cfg: &Json, state: Option<&str>) -> (r: Option<String>)
    ensures
        match next_layout_of(*cfg, match state {
            Some(s) => Some(s@),
            None => None,
        }) {
            Some(n) => r matches Some(x) && x@ == n,
            None => r is None,
        },
{
    let names = layout_names(cfg);
    if names.len() == 0 {
        return None;
    }
    let cur = current_layout(cfg, state);
    let ghost ns = views(names@);
    let mut i: usize = 0;
    assert(ns.subrange(0, ns.len() as int) =~= ns);
    while i < names.len() && !str_eq(names[i].as_str(), cur.as_str())
        invariant
            i <= names@.len(),
            ns == views(names@),
            position_of(ns, cur@) == match position_of(ns.subrange(i as int, ns.len() as int), cur@) {
                Some(p) => Some(p + i),
                None => None,
            },
        decreases names.len() - i,
    {
        assert(ns.subrange(i as int, ns.len() as int).drop_first() =~= ns.subrange(i + 1, ns.len() as int));
        assert(ns[i as int] == names@[i as int]@);
        i = i + 1;
    }
    let idx: usize = if i < names.len() {
        assert(ns[i as int] == names@[i as int]@);
        i
    } else {
        assert(ns.subrange(i as int, ns.len() as int).len() == 0);
        0
    };
    let next = (idx + 1) % names.len();
    assert(ns[next as int] == names@[next as int]@);
    Some(names[next].clone())
}


/// Why a window could not be snapped.
#[derive(Debug, PartialEq, Eq)]
pub enum SnapError {
    /// The layout has no list of zones.
    NoZones,
    /// The zone number is not between 1 and the number of zones.
    OutOfRange { zone: usize, count: usize },
    /// The selected zone is not a list (the snap cannot go on).
    ZoneNotArray,
    /// There is no active window.
    NoActiveWindow,
}

/// The zones of layout `layout` in `cfg`, where that layout is a list.
pub open spec fn zones_of(cfg: Json, layout: Seq<char>) -> Option<Seq<Json>> {
    match layout_entry(cfg, layout) {
        Some(Json::Array(a)) => Some(a@),
        _ => None,
    }
}

/// The zones of layout `layout` in `cfg`.
pub fn layout_zones<'a>(cfg: &'a Json, layout: &str) -> (r: Option<&'a Vec<Json>>)
    ensures
        match zones_of(*cfg, layout@) {
            Some(zs) => r matches Some(v) && v@ == zs,
            None => r is None,
        },
{
    match layout_of(cfg, layout) {
        Some(z) => z.as_array(),
        None => None,
    }
}

/// Selects zone `zone_1based` (counted from 1) of layout `layout`: the
/// zone's list of fractions (x, y, width, height of the usable area).
/// `r` is what selecting zone `zone_1based` (counted from 1) of layout
/// `layout` gives: "no zones" where the layout has no list of zones; "out
/// of range" (with the zone number and the count) where the number is 0 or
/// past the count; "not a list" where that zone is no list; else the zone.
pub open spec fn zone_choice(cfg: Json, layout: Seq<char>, zone_1based: int, r: Result<&Vec<Json>, SnapError>) -> bool {
    match zones_of(cfg, layout) {
        None => r matches Err(SnapError::NoZones),
        Some(zs) => if zone_1based == 0 || zone_1based > zs.len() {
            r matches Err(SnapError::OutOfRange { zone, count }) && zone == zone_1based && count
                == zs.len()
        } else {
            match zs[zone_1based - 1] {
                Json::Array(z) => r matches Ok(x) && *x == z,
                _ => r matches Err(SnapError::ZoneNotArray),
            }
        },
    }
}

pub fn select_zone<'a>(cfg: &'a Json, layout: &str, zone_1based: usize) -> (r: Result<&'a Vec<Json>, SnapError>)
    ensures
        zone_choice(*cfg, layout@, zone_1based as int, r),
{
    let zones = match layout_zones(cfg, layout) {
        Some(a) => a,
        None => {
            return Err(SnapError::NoZones);
        },
    };
    if zone_1based == 0 || zone_1based > zones.len() {
        return Err(SnapError::OutOfRange { zone: zone_1based, count: zones.len() });
    }
    match zones[zone_1based - 1].as_array() {
        Some(z) => Ok(z),
        None => Err(SnapError::ZoneNotArray),
    }
}

/// The first decisions of `snap N`: the current layout (from the state
/// file's contents `state`) and zone N of it, or why there is none. No
/// monitor or window is looked at before these succeed.
pub fn choose_zone<'a>(cfg: &'a Json, state: Option<&str>, zone_1based: usize) -> (r: (
    String,
    Result<&'a Vec<Json>, SnapError>,
))
    ensures
        r.0@ == current_layout_of(*cfg, match state {
            Some(s) => Some(s@),
            None => None,
        }),
        zone_choice(*cfg, r.0@, zone_1based as int, r.1),
{
    let layout = current_layout(cfg, state);
    let zone = select_zone(cfg, layout.as_str(), zone_1based);
    (layout, zone)
}

/// The hyprctl commands that put the active window into a zone.
#[derive(Debug, PartialEq, Eq)]
pub struct SnapPlan {
    /// The `address:<addr>` argument of `dispatch togglefloating`, where the
    /// window is tiled and has to be made floating first.
    pub toggle_floating: Option<String>,
    /// The `--batch` command that resizes and moves the window.
    pub batch: String,
}

/// The batch command that gives the window at `addr` the size `w` by `h`
/// and moves it to `(x, y)`.
pub open spec fn snap_batch(addr: Seq<char>, x: int, y: int, w: int, h: int) -> Seq<char> {
    "dispatch resizewindowpixel exact "@ + dec_int(w) + " "@ + dec_int(h) + ",address:"@ + addr
        + " ; dispatch movewindowpixel exact "@ + dec_int(x) + " "@ + dec_int(y) + ",address:"@
        + addr
}

/// `batch` is the command `dispatch resizewindowpixel exact W H,address:A
/// ; dispatch movewindowpixel exact X Y,address:A` for the window `addr`,
/// whose decimal numbers W, H, X, Y read as `w`, `h`, `x`, `y`: it gives the
/// window the size `w` by `h` and moves it to `(x, y)`.
pub open spec fn batch_says(batch: Seq<char>, addr: Seq<char>, x: int, y: int, w: int, h: int) -> bool {
    exists|tw: Seq<char>, th: Seq<char>, tx: Seq<char>, ty: Seq<char>|
        #![trigger read_int(tw), read_int(th), read_int(tx), read_int(ty)]
        batch == "dispatch resizewindowpixel exact "@ + tw + " "@ + th + ",address:"@ + addr
            + " ; dispatch movewindowpixel exact "@ + tx + " "@ + ty + ",address:"@ + addr
            && read_int(tw) == Some(w) && read_int(th) == Some(h) && read_int(tx) == Some(x)
            && read_int(ty) == Some(y)
}

/// The snap batch moves and resizes exactly as asked, for every position
/// and size, negative coordinates included.
pub proof fn lemma_snap_batch_says(addr: Seq<char>, x: int, y: int, w: int, h: int)
    ensures
        batch_says(snap_batch(addr, x, y, w, h), addr, x, y, w, h),
{
    lemma_dec_int_reads(w);
    lemma_dec_int_reads(h);
    lemma_dec_int_reads(x);
    lemma_dec_int_reads(y);
}

/// Snaps the active window `window` (the document `hyprctl activewindow -j`
/// printed) into the zone whose offset and size, in pixels of the usable
/// area `area`, are `offset` = (x, y, w, h): the window goes to
/// `(area.x + x, area.y + y)` with size `w` by `h`, made floating first
/// where it is tiled.
pub fn snap_to_zone(area: (i64, i64, i64, i64), offset: (i64, i64, i64, i64), window: &Json) -> (r: Result<SnapPlan, SnapError>)
    requires
        in_i64(area.0 + offset.0),
        in_i64(area.1 + offset.1),
    ensures
        match active_window_of(*window) {
            None => r matches Err(SnapError::NoActiveWindow),
            Some((addr, floating)) => r matches Ok(plan) && batch_says(
                plan.batch@,
                addr,
                area.0 + offset.0,
                area.1 + offset.1,
                offset.2 as int,
                offset.3 as int,
            ) && plan.batch@ == snap_batch(
                addr,
                area.0 + offset.0,
                area.1 + offset.1,
                offset.2 as int,
                offset.3 as int,
            ) && (if floating {
                plan.toggle_floating is None
            } else {
                plan.toggle_floating matches Some(t) && t@ == "address:"@ + addr
            }),
        },
{
    let zx = area.0 + offset.0;
    let zy = area.1 + offset.1;
    let zw = offset.2;
    let zh = offset.3;
    let (addr, floating) = match active_window(window) {
        Some(w) => w,
        None => {
            return Err(SnapError::NoActiveWindow);
        },
    };
    let toggle_floating = if !floating {
        let mut t = "address:".to_owned();
        t.append(addr.as_str());
        Some(t)
    } else {
        None
    };
    let mut b = "dispatch resizewindowpixel exact ".to_owned();
    push_i64(&mut b, zw);
    b.append(" ");
    push_i64(&mut b, zh);
    b.append(",address:");
    b.append(addr.as_str());
    b.append(" ; dispatch movewindowpixel exact ");
    push_i64(&mut b, zx);
    b.append(" ");
    push_i64(&mut b, zy);
    b.append(",address:");
    b.append(addr.as_str());
    proof {
        lemma_snap_batch_says(addr@, zx as int, zy as int, zw as int, zh as int);
    }
    Ok(SnapPlan { toggle_floating, batch: b })
}


/// A command line of the snapping tool.
#[derive(Debug, PartialEq, Eq)]
pub enum Command {
    /// `snap <N>`: snap the active window to zone N (0 where N is missing or no number).
    Snap(usize),
    /// `layout <name>`: make `name` the current layout.
    Layout(Option<String>),
    /// `cycle`: switch to the next layout.
    Cycle,
    /// `list`: show the layouts and the zones of the current one.
    List,
    /// Any other word.
    Unknown(String),
}

/// The command word of the argument list `args` (`args[0]` is the program):
/// `args[1]`, or `list` where there is none.
pub open spec fn command_word(args: Seq<Seq<char>>) -> Seq<char> {
    if args.len() > 1 {
        args[1]
    } else {
        "list"@
    }
}

/// The zone number of `snap`: `args[2]` parsed as a `usize`, or 0.
pub open spec fn snap_arg(args: Seq<Seq<char>>) -> nat {
    if args.len() > 2 {
        match std_parse_usize(args[2]) {
            Some(n) => n,
            None => 0,
        }
    } else {
        0
    }
}

/// Reads the command line `args` (with the program name first).
pub fn parse_command(args: &Vec<String>) -> (r: Command)
    ensures
        ({
            let a = views(args@);
            let w = command_word(a);
            if w == "snap"@ {
                r matches Command::Snap(n) && n == snap_arg(a)
            } else if w == "layout"@ {
                r matches Command::Layout(o) && (if a.len() > 2 {
                    o matches Some(x) && x@ == a[2]
                } else {
                    o is None
                })
            } else if w == "cycle"@ {
                r matches Command::Cycle
            } else if w == "list"@ {
                r matches Command::List
            } else {
                r matches Command::Unknown(x) && x@ == w
            }
        }),
{
    let ghost a = views(args@);
    let word: &str = if args.len() > 1 {
        assert(a[1] == args@[1]@);
        args[1].as_str()
    } else {
        "list"
    };
    assert(word@ == command_word(a));
    if str_eq(word, "snap") {
        let n: usize = if args.len() > 2 {
            assert(a[2] == args@[2]@);
            match parse_usize(args[2].as_str()) {
                Some(n) => n,
                None => 0,
            }
        } else {
            0
        };
        Command::Snap(n)
    } else if str_eq(word, "layout") {
        if args.len() > 2 {
            assert(a[2] == args@[2]@);
            Command::Layout(Some(args[2].clone()))
        } else {
            Command::Layout(None)
        }
    } else if str_eq(word, "cycle") {
        Command::Cycle
    } else if str_eq(word, "list") {
        Command::List
    } else {
        Command::Unknown(word.to_owned())
    }
}

} // verus!
