//! Properties that hold across the snapping tool's operations.
use vstd::prelude::*;
use crate::json::{json_wf, keys_distinct, lookup, Json};
use crate::text::{str_order, trim_ws};
use crate::zones::{
    current_layout_of, layout_entry, layout_keys, layout_names_of, next_layout_of, position_of,
};

verus! {

/// A lookup of a key that the object holds finds a value.
pub proof fn lemma_lookup_hit(m: Seq<(String, Json)>, key: Seq<char>, j: int)
    requires
        0 <= j < m.len(),
        m[j].0@ == key,
    ensures
        lookup(m, key) is Some,
    decreases j,
{
    if j > 0 && m[0].0@ != key {
        lemma_lookup_hit(m.drop_first(), key, j - 1);
    }
}

/// What a lookup finds is the value of a member with that key.
pub proof fn lemma_lookup_member(m: Seq<(String, Json)>, key: Seq<char>)
    ensures
        lookup(m, key) matches Some(v) ==> exists|j: int| 0 <= j < m.len() && (#[trigger] m[j]).0@ == key && m[j].1 == v,
    decreases m.len(),
{
    if m.len() > 0 && m[0].0@ != key {
        lemma_lookup_member(m.drop_first(), key);
        if let Some(v) = lookup(m, key) {
            let j = choose|j: int| 0 <= j < m.drop_first().len() && (#[trigger] m.drop_first()[j]).0@ == key && m.drop_first()[j].1 == v;
            assert(m[j + 1] == m.drop_first()[j]);
        }
    } else if m.len() > 0 {
        assert(m[0].0@ == key);
    }
}

/// Reading back a saved layout: once `layout NAME` has accepted NAME
/// (`cfg` has a layout called NAME) and saved it, the current layout is
/// NAME, where NAME has no leading or trailing whitespace.
pub proof fn lemma_saved_layout_is_current(cfg: Json, name: Seq<char>)
    requires
        layout_entry(cfg, name) is Some,
        trim_ws(name) == name,
    ensures
        current_layout_of(cfg, Some(name)) == name,
{
}

proof fn lemma_position_distinct(s: Seq<Seq<char>>, i: int)
    requires
        s.no_duplicates(),
        0 <= i < s.len(),
    ensures
        position_of(s, s[i]) == Some(i),
    decreases i,
{
    if i > 0 {
        assert(s[0] != s[i]);
        assert(s.drop_first().no_duplicates());
        assert(s.drop_first()[i - 1] == s[i]);
        lemma_position_distinct(s.drop_first(), i - 1);
    }
}

/// In a well-formed configuration the layout names are distinct, and
/// each is the name of a layout.
pub proof fn lemma_names_distinct(cfg: Json)
    requires
        json_wf(cfg),
    ensures
        layout_names_of(cfg).no_duplicates(),
        forall|i: int|
            0 <= i < layout_names_of(cfg).len() ==> layout_entry(cfg, #[trigger] layout_names_of(cfg)[i]) is Some,
{
    let names = layout_names_of(cfg);
    let keys = layout_keys(cfg);
    crate::text::lemma_str_order_total();
    keys.lemma_sort_by_ensures(str_order());
    assert(keys.len() == names.len()) by {
        broadcast use vstd::seq_lib::group_to_multiset_ensures;
        assert(keys.to_multiset().len() == names.to_multiset().len());
    }
    if names.len() == 0 {
        return;
    }
    // The layouts member is an object with distinct keys.
    assert(cfg is Object);
    let m = cfg->Object_0;
    lemma_lookup_member(m@, "layouts"@);
    let layouts = cfg.member("layouts"@).unwrap();
    assert(layouts is Object);
    let lmem = layouts->Object_0;
    let j = choose|j: int| 0 <= j < m@.len() && (#[trigger] m@[j]).0@ == "layouts"@ && m@[j].1 == layouts;
    assert(json_wf(m@[j].1));
    assert(keys_distinct(lmem@));
    assert(keys =~= lmem@.map_values(|e: (String, Json)| e.0@));
    // The names have no duplicates.
    assert(keys.no_duplicates()) by {
        assert forall|a: int, b: int| 0 <= a < keys.len() && 0 <= b < keys.len() && a != b implies keys[a] != keys[b] by {
            if a < b {
                assert(lmem@[a].0@ != lmem@[b].0@);
            } else {
                assert(lmem@[b].0@ != lmem@[a].0@);
            }
        }
    }
    keys.lemma_multiset_has_no_duplicates();
    names.lemma_multiset_has_no_duplicates_conv();
    keys.lemma_multiset_has_no_duplicates();
    names.lemma_multiset_has_no_duplicates_conv();
    assert forall|i: int| 0 <= i < names.len() implies layout_entry(cfg, #[trigger] names[i]) is Some by {
        let name = names[i];
        assert(names.to_multiset().contains(name)) by {
            broadcast use vstd::seq_lib::group_to_multiset_ensures;
        }
        assert(keys.contains(name)) by {
            broadcast use vstd::seq_lib::group_to_multiset_ensures;
        }
        let k = choose|k: int| 0 <= k < keys.len() && keys[k] == name;
        assert(lmem@[k].0@ == name);
        lemma_lookup_hit(lmem@, name, k);
    }
}

proof fn lemma_position_absent(s: Seq<Seq<char>>, x: Seq<char>)
    requires
        !s.contains(x),
    ensures
        position_of(s, x) is None,
    decreases s.len(),
{
    if s.len() > 0 {
        assert(s[0] != x);
        assert(!s.drop_first().contains(x)) by {
            if s.drop_first().contains(x) {
                let j = choose|j: int| 0 <= j < s.drop_first().len() && s.drop_first()[j] == x;
                assert(s[j + 1] == x);
            }
        }
        lemma_position_absent(s.drop_first(), x);
    }
}

/// `cycle` starts from the current layout, whatever the state file holds:
/// where the current layout is the `i`-th name, it picks the next name
/// (the first after the last).
pub proof fn lemma_cycle_from_current(cfg: Json, state: Option<Seq<char>>, i: int)
    requires
        json_wf(cfg),
        0 <= i < layout_names_of(cfg).len(),
        layout_names_of(cfg)[i] == current_layout_of(cfg, state),
    ensures
        next_layout_of(cfg, state) == Some(
            layout_names_of(cfg)[(i + 1) % layout_names_of(cfg).len() as int],
        ),
{
    lemma_names_distinct(cfg);
    lemma_position_distinct(layout_names_of(cfg), i);
}

/// Where the current layout is none of the names (a `default` naming no
/// layout), `cycle` picks the name after the first.
pub proof fn lemma_cycle_from_unknown(cfg: Json, state: Option<Seq<char>>)
    requires
        layout_names_of(cfg).len() > 0,
        !layout_names_of(cfg).contains(current_layout_of(cfg, state)),
    ensures
        next_layout_of(cfg, state) == Some(layout_names_of(cfg)[1int % layout_names_of(cfg).len() as int]),
{
    lemma_position_absent(layout_names_of(cfg), current_layout_of(cfg, state));
}

/// Cycling goes through the layouts in sorted order and wraps around: when
/// the saved layout is the `i`-th name, `cycle` picks the next one (the
/// first after the last). The name must have no surrounding whitespace,
/// and `cfg` be well formed.
pub proof fn lemma_cycle_next(cfg: Json, i: int)
    requires
        json_wf(cfg),
        0 <= i < layout_names_of(cfg).len(),
        trim_ws(layout_names_of(cfg)[i]) == layout_names_of(cfg)[i],
    ensures
        next_layout_of(cfg, Some(layout_names_of(cfg)[i])) == Some(
            layout_names_of(cfg)[(i + 1) % layout_names_of(cfg).len() as int],
        ),
        layout_names_of(cfg).no_duplicates(),
{
    let names = layout_names_of(cfg);
    let keys = layout_keys(cfg);
    let name = names[i];
    crate::text::lemma_str_order_total();
    keys.lemma_sort_by_ensures(str_order());
    assert(keys.len() == names.len()) by {
        broadcast use vstd::seq_lib::group_to_multiset_ensures;
        assert(keys.to_multiset().len() == names.to_multiset().len());
    }
    lemma_names_distinct(cfg);
    lemma_position_distinct(names, i);
    assert(layout_entry(cfg, name) is Some);
    assert(current_layout_of(cfg, Some(name)) == name);
}


/// `cycle` always switches to one of the configured layouts.
pub proof fn lemma_cycle_in_layouts(cfg: Json, state: Option<Seq<char>>)
    ensures
        next_layout_of(cfg, state) matches Some(n) ==> layout_names_of(cfg).contains(n),
{
    let names = layout_names_of(cfg);
    if names.len() > 0 {
        let idx = match position_of(names, current_layout_of(cfg, state)) {
            Some(i) => i,
            None => 0,
        };
        let k = (idx + 1) % (names.len() as int);
        assert(0 <= k < names.len());
        assert(names.contains(names[k]));
    }
}


/// The layout current after `k` runs of `cycle`, starting from the saved
/// layout `name` (each run saves the layout it picks).
pub open spec fn cycled(cfg: Json, name: Seq<char>, k: nat) -> Seq<char>
    decreases k,
{
    if k == 0 {
        name
    } else {
        let prev = cycled(cfg, name, (k - 1) as nat);
        match next_layout_of(cfg, Some(prev)) {
            Some(n) => n,
            None => prev,
        }
    }
}

/// Repeated cycling from the `i`-th name reaches the `(i + k) mod n`-th
/// name after `k` runs, and with two or more layouts each run changes the
/// layout. Every name must have no surrounding whitespace, and `cfg` be
/// well formed.
pub proof fn lemma_cycle_repeat(cfg: Json, i: int, k: nat)
    requires
        json_wf(cfg),
        0 <= i < layout_names_of(cfg).len(),
        forall|j: int|
            0 <= j < layout_names_of(cfg).len() ==> trim_ws(#[trigger] layout_names_of(cfg)[j])
                == layout_names_of(cfg)[j],
    ensures
        cycled(cfg, layout_names_of(cfg)[i], k) == layout_names_of(cfg)[(i + k) % layout_names_of(
            cfg,
        ).len() as int],
        k >= 1 && layout_names_of(cfg).len() >= 2 ==> cycled(cfg, layout_names_of(cfg)[i], k)
            != cycled(cfg, layout_names_of(cfg)[i], (k - 1) as nat),
    decreases k,
{
    let names = layout_names_of(cfg);
    let n = names.len() as int;
    if k == 0 {
        vstd::arithmetic::div_mod::lemma_small_mod(i as nat, n as nat);
    } else {
        lemma_cycle_repeat(cfg, i, (k - 1) as nat);
        let j = (i + k - 1) % n;
        assert(0 <= j < n);
        lemma_cycle_next(cfg, j);
        vstd::arithmetic::div_mod::lemma_add_mod_noop(i + k - 1, 1, n);
        vstd::arithmetic::div_mod::lemma_add_mod_noop(j, 1, n);
        vstd::arithmetic::div_mod::lemma_small_mod(j as nat, n as nat);
        assert((j + 1) % n == (i + k) % n);
        if n >= 2 {
            if j + 1 < n {
                vstd::arithmetic::div_mod::lemma_small_mod((j + 1) as nat, n as nat);
            } else {
                assert(j + 1 == n);
                vstd::arithmetic::div_mod::lemma_mod_self_0(n);
            }
            assert((j + 1) % n != j);
            assert(names[(j + 1) % n] != names[j]);
        }
    }
}

/// After as many runs of `cycle` as there are layouts, the starting layout
/// is current again.
pub proof fn lemma_cycle_returns(cfg: Json, i: int)
    requires
        json_wf(cfg),
        0 <= i < layout_names_of(cfg).len(),
        forall|j: int|
            0 <= j < layout_names_of(cfg).len() ==> trim_ws(#[trigger] layout_names_of(cfg)[j])
                == layout_names_of(cfg)[j],
    ensures
        cycled(cfg, layout_names_of(cfg)[i], layout_names_of(cfg).len()) == layout_names_of(cfg)[i],
{
    let n = layout_names_of(cfg).len();
    lemma_cycle_repeat(cfg, i, n);
    vstd::arithmetic::div_mod::lemma_mod_add_multiples_vanish(i, n as int);
    vstd::arithmetic::div_mod::lemma_small_mod(i as nat, n);
}

} // verus!
