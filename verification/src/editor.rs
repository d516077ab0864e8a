//! The scenario editor: UI state, painting and erasing provinces, the
//! eyedropper, custom factions, province search and the faction list.

use vstd::prelude::*;
use crate::parser::{
    all_distinct, strings_view, default_color, hex_color_of, hex_digit_value, hex_digits_value, hex_u32_value, rgb_of,
    unassigned_label,
};
use crate::text::{
    contains_chars, contains_seq, lowercase, to_lowercase, trim_seq, trimmed_chars,
    string_from_chars, chars_of,
};
use crate::palette::palette_color;
use crate::types::{EditorTool, MapGroup, MapMode, Province};

verus! {

/// The state of the editor and search windows.
pub struct UiState {
    pub show_search: bool,
    pub show_editor: bool,
    pub search_query: String,
    pub faction_filter: String,
    pub active_tool: EditorTool,
    pub active_group_key: String,
    pub new_faction_label: String,
    pub new_faction_color: [u8; 3],
}

impl Default for UiState {
    /// Windows closed, empty queries, the brush on the Ottomans (`#810f7c`),
    /// and a custom faction called `New Faction` in colour (180, 50, 80).
    fn default() -> (s: Self)
        ensures
            !s.show_search,
            !s.show_editor,
            s.search_query@ == Seq::<char>::empty(),
            s.faction_filter@ == Seq::<char>::empty(),
            s.active_tool == EditorTool::Brush,
            s.active_group_key@ == "#810f7c"@,
            s.new_faction_label@ == "New Faction"@,
            s.new_faction_color == [180u8, 50u8, 80u8],
    {
        UiState {
            show_search: false,
            show_editor: false,
            search_query: String::new(),
            faction_filter: String::new(),
            active_tool: EditorTool::Brush,
            active_group_key: "#810f7c".to_owned(),
            new_faction_label: "New Faction".to_owned(),
            new_faction_color: [180, 50, 80],
        }
    }
}

/// The position of the first faction with key `k`, if any.
pub open spec fn group_index(gs: Seq<MapGroup>, k: Seq<char>) -> Option<int>
    decreases gs.len(),
{
    if gs.len() == 0 {
        None
    } else if gs[0].key@ == k {
        Some(0)
    } else {
        match group_index(gs.drop_first(), k) {
            Some(j) => Some(j + 1),
            None => None,
        }
    }
}

/// `group_index` finds the first faction with the key, or reports there is none.
pub proof fn lemma_group_index(gs: Seq<MapGroup>, k: Seq<char>)
    ensures
        group_index(gs, k) matches Some(j) ==> 0 <= j < gs.len() && gs[j].key@ == k && forall|h: int| 0 <= h < j ==> gs[h].key@ != k,
        group_index(gs, k) is None ==> forall|h: int| 0 <= h < gs.len() ==> gs[h].key@ != k,
    decreases gs.len(),
{
    if gs.len() > 0 && gs[0].key@ != k {
        lemma_group_index(gs.drop_first(), k);
        assert forall|h: int| 1 <= h < gs.len() implies gs[h] == gs.drop_first()[h - 1] by {}
    }
}

/// The faction with key `key`, as a position in `groups`.
pub fn find_group(groups: &Vec<MapGroup>, key: &String) -> (r: Option<usize>)
    ensures
        match group_index(groups@, key@) {
            Some(j) => r matches Some(x) && x == j,
            None => r is None,
        },
{
    let mut i: usize = 0;
    assert(groups@.skip(0) =~= groups@);
    while i < groups.len()
        invariant
            i <= groups@.len(),
            forall|h: int| 0 <= h < i ==> groups@[h].key@ != key@,
        decreases groups@.len() - i,
    {
        if groups[i].key == *key {
            proof {
                lemma_group_index(groups@, key@);
            }
            return Some(i);
        }
        i = i + 1;
    }
    proof {
        lemma_group_index(groups@, key@);
    }
    None
}

/// `p` is `q` painted in the colours of faction `g`.
pub open spec fn painted(p: Province, q: Province, g: MapGroup) -> bool {
    &&& p.group_key@ == g.key@
    &&& p.group_label@ == g.label@
    &&& p.color == g.color
    &&& p.index == q.index
    &&& p.id == q.id
    &&& p.name == q.name
    &&& p.is_wasteland == q.is_wasteland
    &&& p.settlement == q.settlement
    &&& p.biome == q.biome
}

/// `p` is `q` handed back to no faction.
pub open spec fn unassigned(p: Province, q: Province) -> bool {
    &&& p.group_key@ == Seq::<char>::empty()
    &&& p.group_label@ == unassigned_label()
    &&& p.color == default_color()
    &&& p.index == q.index
    &&& p.id == q.id
    &&& p.name == q.name
    &&& p.is_wasteland == q.is_wasteland
    &&& p.settlement == q.settlement
    &&& p.biome == q.biome
}

/// The path ids `ps` with every occurrence of `s` left out.
pub open spec fn without_path(ps: Seq<Seq<char>>, s: Seq<char>) -> Seq<Seq<char>>
    decreases ps.len(),
{
    if ps.len() == 0 {
        seq![]
    } else {
        let prev = without_path(ps.drop_last(), s);
        if ps.last() == s {
            prev
        } else {
            prev.push(ps.last())
        }
    }
}

/// The path ids `ps` listing `s`: appended when it is not listed yet.
pub open spec fn with_path(ps: Seq<Seq<char>>, s: Seq<char>) -> Seq<Seq<char>> {
    if ps.contains(s) {
        ps
    } else {
        ps.push(s)
    }
}

/// `g` is faction `h` with, at most, another list of path ids.
pub open spec fn same_but_paths(g: MapGroup, h: MapGroup) -> bool {
    &&& g.key == h.key
    &&& g.label == h.label
    &&& g.color == h.color
    &&& g.capital_province_id == h.capital_province_id
    &&& g.capital_name == h.capital_name
}

/// The factions `gs` are `old` after province `id` passed to the faction at
/// position `owner` (or to none): the owner lists `id`, no other faction
/// lists it any longer, and nothing else changes.
pub open spec fn paths_synced(gs: Seq<MapGroup>, old: Seq<MapGroup>, id: Seq<char>, owner: Option<int>) -> bool {
    &&& gs.len() == old.len()
    &&& forall|h: int|
        0 <= h < old.len() ==> {
            &&& same_but_paths(#[trigger] gs[h], old[h])
            &&& strings_view(gs[h].paths@) == if owner == Some(h) {
                with_path(strings_view(old[h].paths@), id)
            } else {
                without_path(strings_view(old[h].paths@), id)
            }
        }
}

proof fn lemma_strings_view_push(v: Seq<String>, s: String)
    ensures
        strings_view(v.push(s)) == strings_view(v).push(s@),
{
    assert(strings_view(v.push(s)) =~= strings_view(v).push(s@));
}

fn path_listed(paths: &Vec<String>, id: &String) -> (b: bool)
    ensures
        b == strings_view(paths@).contains(id@),
{
    let mut i: usize = 0;
    while i < paths.len()
        invariant
            i <= paths@.len(),
            forall|j: int| 0 <= j < i ==> strings_view(paths@)[j] != id@,
        decreases paths@.len() - i,
    {
        if paths[i] == *id {
            assert(strings_view(paths@)[i as int] == id@);
            return true;
        }
        i = i + 1;
    }
    false
}

fn paths_without(paths: &Vec<String>, id: &String) -> (r: Vec<String>)
    ensures
        strings_view(r@) == without_path(strings_view(paths@), id@),
{
    let ghost ps = strings_view(paths@);
    let mut r: Vec<String> = Vec::new();
    let mut i: usize = 0;
    while i < paths.len()
        invariant
            i <= paths@.len(),
            ps == strings_view(paths@),
            strings_view(r@) == without_path(ps.take(i as int), id@),
        decreases paths@.len() - i,
    {
        assert(ps.take(i + 1).drop_last() =~= ps.take(i as int));
        assert(ps.take(i + 1).last() == paths@[i as int]@);
        if !(paths[i] == *id) {
            let c = paths[i].clone();
            proof {
                lemma_strings_view_push(r@, c);
            }
            r.push(c);
        }
        i = i + 1;
    }
    assert(ps.take(i as int) =~= ps);
    r
}

fn paths_with(paths: &Vec<String>, id: &String) -> (r: Vec<String>)
    ensures
        strings_view(r@) == with_path(strings_view(paths@), id@),
{
    let listed = path_listed(paths, id);
    let ghost ps = strings_view(paths@);
    let mut r: Vec<String> = Vec::new();
    let mut i: usize = 0;
    while i < paths.len()
        invariant
            i <= paths@.len(),
            ps == strings_view(paths@),
            strings_view(r@) == ps.take(i as int),
        decreases paths@.len() - i,
    {
        let c = paths[i].clone();
        proof {
            lemma_strings_view_push(r@, c);
        }
        r.push(c);
        assert(ps.take(i + 1) =~= ps.take(i as int).push(paths@[i as int]@));
        i = i + 1;
    }
    assert(ps.take(i as int) =~= ps);
    if !listed {
        let c = id.clone();
        proof {
            lemma_strings_view_push(r@, c);
        }
        r.push(c);
    }
    r
}

/// Makes the faction lists follow province `id` to the faction at position
/// `owner` (or to none).
fn sync_paths(groups: &mut Vec<MapGroup>, id: &String, owner: Option<usize>)
    requires
        owner matches Some(o) ==> o < old(groups)@.len(),
    ensures
        paths_synced(
            final(groups)@,
            old(groups)@,
            id@,
            match owner {
                Some(o) => Some(o as int),
                None => None,
            },
        ),
{
    let ghost old_gs = groups@;
    let ghost own: Option<int> = match owner {
        Some(o) => Some(o as int),
        None => None,
    };
    let mut h: usize = 0;
    while h < groups.len()
        invariant
            h <= groups@.len(),
            groups@.len() == old_gs.len(),
            own == match owner {
                Some(o) => Some(o as int),
                None => None::<int>,
            },
            forall|k: int|
                0 <= k < h ==> {
                    &&& same_but_paths(#[trigger] groups@[k], old_gs[k])
                    &&& strings_view(groups@[k].paths@) == if own == Some(k) {
                        with_path(strings_view(old_gs[k].paths@), id@)
                    } else {
                        without_path(strings_view(old_gs[k].paths@), id@)
                    }
                },
            forall|k: int| h <= k < groups@.len() ==> #[trigger] groups@[k] == old_gs[k],
        decreases groups@.len() - h,
    {
        let is_owner = match owner {
            Some(o) => o == h,
            None => false,
        };
        let np = if is_owner {
            paths_with(&groups[h].paths, id)
        } else {
            paths_without(&groups[h].paths, id)
        };
        let ghost before = groups@;
        groups[h].paths = np;
        assert forall|k: int| h + 1 <= k < groups@.len() implies #[trigger] groups@[k] == old_gs[k] by {
            assert(groups@[k] == before[k]);
        }
        assert forall|k: int| 0 <= k < h + 1 implies {
            &&& same_but_paths(#[trigger] groups@[k], old_gs[k])
            &&& strings_view(groups@[k].paths@) == if own == Some(k) {
                with_path(strings_view(old_gs[k].paths@), id@)
            } else {
                without_path(strings_view(old_gs[k].paths@), id@)
            }
        } by {
            if k < h {
                assert(groups@[k] == before[k]);
            }
        }
        h = h + 1;
    }
}

/// Paints province `idx` with the faction whose key is `key`, and moves the
/// province's path id to that faction's list; returns whether such a faction
/// exists (and so whether anything changed).
pub fn paint_province(provinces: &mut Vec<Province>, groups: &mut Vec<MapGroup>, idx: usize, key: &String) -> (changed: bool)
    requires
        idx < old(provinces)@.len(),
    ensures
        final(provinces)@.len() == old(provinces)@.len(),
        changed == group_index(old(groups)@, key@) is Some,
        match group_index(old(groups)@, key@) {
            Some(g) => {
                &&& painted(final(provinces)@[idx as int], old(provinces)@[idx as int], old(groups)@[g])
                &&& paths_synced(final(groups)@, old(groups)@, old(provinces)@[idx as int].id@, Some(g))
            },
            None => final(provinces)@[idx as int] == old(provinces)@[idx as int] && final(groups)@ == old(groups)@,
        },
        forall|i: int| 0 <= i < old(provinces)@.len() && i != idx ==> #[trigger] final(provinces)@[i] == old(provinces)@[i],
{
    match find_group(groups, key) {
        Some(g) => {
            proof {
                lemma_group_index(groups@, key@);
            }
            provinces[idx].group_key = key.clone();
            provinces[idx].group_label = groups[g].label.clone();
            provinces[idx].color = groups[g].color;
            sync_paths(groups, &provinces[idx].id, Some(g));
            true
        },
        None => false,
    }
}

/// Hands province `idx` back to no faction; no faction lists its path id any longer.
pub fn unassign_province(provinces: &mut Vec<Province>, groups: &mut Vec<MapGroup>, idx: usize)
    requires
        idx < old(provinces)@.len(),
    ensures
        final(provinces)@.len() == old(provinces)@.len(),
        unassigned(final(provinces)@[idx as int], old(provinces)@[idx as int]),
        paths_synced(final(groups)@, old(groups)@, old(provinces)@[idx as int].id@, None),
        forall|i: int| 0 <= i < old(provinces)@.len() && i != idx ==> #[trigger] final(provinces)@[i] == old(provinces)@[i],
{
    provinces[idx].group_key = String::new();
    provinces[idx].group_label = "Unassigned".to_owned();
    provinces[idx].color = [209, 219, 221];
    sync_paths(groups, &provinces[idx].id, None);
}

/// Applies the active editor tool to province `p_idx`: the brush paints it
/// with the active faction (if that faction exists), the eraser unassigns
/// it, and the eyedropper picks its faction as the brush (if it has one).
/// Painting and erasing keep the factions' lists of path ids in step.
/// Returns whether the province changed and the palette must be refreshed.
pub fn apply_editor_action(
    ui_state: &mut UiState,
    provinces: &mut Vec<Province>,
    groups: &mut Vec<MapGroup>,
    p_idx: usize,
) -> (dirty: bool)
    requires
        p_idx < old(provinces)@.len(),
    ensures
        final(provinces)@.len() == old(provinces)@.len(),
        forall|i: int| 0 <= i < old(provinces)@.len() && i != p_idx ==> #[trigger] final(provinces)@[i] == old(provinces)@[i],
        ({
            let p = final(provinces)@[p_idx as int];
            let q = old(provinces)@[p_idx as int];
            match old(ui_state).active_tool {
                EditorTool::Brush => {
                    &&& *final(ui_state) == *old(ui_state)
                    &&& dirty == group_index(old(groups)@, old(ui_state).active_group_key@) is Some
                    &&& match group_index(old(groups)@, old(ui_state).active_group_key@) {
                        Some(g) => painted(p, q, old(groups)@[g]) && paths_synced(final(groups)@, old(groups)@, q.id@, Some(g)),
                        None => p == q && final(groups)@ == old(groups)@,
                    }
                },
                EditorTool::Eraser => {
                    &&& *final(ui_state) == *old(ui_state)
                    &&& dirty
                    &&& unassigned(p, q)
                    &&& paths_synced(final(groups)@, old(groups)@, q.id@, None)
                },
                EditorTool::Eyedropper => {
                    &&& !dirty
                    &&& p == q
                    &&& final(groups)@ == old(groups)@
                    &&& if q.group_key@.len() > 0 {
                        &&& final(ui_state).active_group_key@ == q.group_key@
                        &&& final(ui_state).active_tool == EditorTool::Brush
                        &&& final(ui_state).show_search == old(ui_state).show_search
                        &&& final(ui_state).show_editor == old(ui_state).show_editor
                        &&& final(ui_state).search_query == old(ui_state).search_query
                        &&& final(ui_state).faction_filter == old(ui_state).faction_filter
                        &&& final(ui_state).new_faction_label == old(ui_state).new_faction_label
                        &&& final(ui_state).new_faction_color == old(ui_state).new_faction_color
                    } else {
                        *final(ui_state) == *old(ui_state)
                    }
                },
            }
        }),
{
    match ui_state.active_tool {
        EditorTool::Brush => {
            paint_province(provinces, groups, p_idx, &ui_state.active_group_key)
        },
        EditorTool::Eraser => {
            unassign_province(provinces, groups, p_idx);
            true
        },
        EditorTool::Eyedropper => {
            if !provinces[p_idx].group_key.as_str().is_empty() {
                ui_state.active_group_key = provinces[p_idx].group_key.clone();
                ui_state.active_tool = EditorTool::Brush;
            }
            false
        },
    }
}

} // verus!

verus! {

/// The lowercase hexadecimal digit of `n` (below 16).
pub open spec fn hex_char(n: int) -> char {
    if n < 10 { ('0' as int + n) as char } else { ('a' as int + n - 10) as char }
}

/// The two lowercase hexadecimal digits of a byte.
pub open spec fn hex_pair(b: u8) -> Seq<char> {
    seq![hex_char(b as int / 16), hex_char(b as int % 16)]
}

/// The MapChart key of a colour: `#rrggbb` in lowercase hexadecimal.
pub open spec fn color_key(c: [u8; 3]) -> Seq<char> {
    seq!['#'] + hex_pair(c[0]) + hex_pair(c[1]) + hex_pair(c[2])
}

fn hex_digit_char(n: u8) -> (c: char)
    requires
        n < 16,
    ensures
        c == hex_char(n as int),
{
    if n < 10 {
        ((48u8 + n) as char)
    } else {
        ((87u8 + n) as char)
    }
}

/// The key `#rrggbb` of a colour, as a new faction is keyed.
pub fn faction_key(c: [u8; 3]) -> (key: String)
    ensures
        key@ == color_key(c),
{
    let mut key = String::new();
    key.push('#');
    let mut k: usize = 0;
    while k < 3
        invariant
            k <= 3,
            key@ == seq!['#'] + (if k >= 1 { hex_pair(c[0]) } else { seq![] }) + (if k >= 2 { hex_pair(c[1]) } else { seq![] }) + (if k >= 3 { hex_pair(c[2]) } else { seq![] }),
        decreases 3 - k,
    {
        let b = c[k];
        let ghost before = key@;
        key.push(hex_digit_char(b / 16));
        key.push(hex_digit_char(b % 16));
        assert(key@ =~= before + hex_pair(b));
        k = k + 1;
    }
    assert(key@ =~= color_key(c));
    key
}

/// The faction `g` that `create_faction` builds: keyed by its colour,
/// labelled with the trimmed label, with no provinces and no capital yet.
pub open spec fn is_new_faction(g: MapGroup, label: Seq<char>, c: [u8; 3]) -> bool {
    &&& g.key@ == color_key(c)
    &&& g.label@ == trim_seq(label)
    &&& g.paths@.len() == 0
    &&& g.color == c
    &&& g.capital_province_id is None
    &&& g.capital_name is None
}

/// Creates the custom faction described by the editor (its trimmed label
/// and its colour, keyed `#rrggbb`), replacing any faction with the same
/// key, and selects it as the brush. Nothing happens when the trimmed label
/// is empty. Returns whether the faction was created.
pub fn create_faction(ui_state: &mut UiState, groups: &mut Vec<MapGroup>) -> (created: bool)
    ensures
        created == (trim_seq(old(ui_state).new_faction_label@).len() > 0),
        created ==> {
            let k = color_key(old(ui_state).new_faction_color);
            &&& match group_index(old(groups)@, k) {
                Some(j) => final(groups)@.len() == old(groups)@.len()
                    && is_new_faction(final(groups)@[j], old(ui_state).new_faction_label@, old(ui_state).new_faction_color)
                    && forall|h: int| 0 <= h < old(groups)@.len() && h != j ==> #[trigger] final(groups)@[h] == old(groups)@[h],
                None => final(groups)@.len() == old(groups)@.len() + 1
                    && is_new_faction(final(groups)@[old(groups)@.len() as int], old(ui_state).new_faction_label@, old(ui_state).new_faction_color)
                    && forall|h: int| 0 <= h < old(groups)@.len() ==> #[trigger] final(groups)@[h] == old(groups)@[h],
            }
            &&& final(ui_state).active_group_key@ == k
            &&& final(ui_state).active_tool == EditorTool::Brush
            &&& final(ui_state).new_faction_label == old(ui_state).new_faction_label
            &&& final(ui_state).new_faction_color == old(ui_state).new_faction_color
            &&& final(ui_state).show_editor == old(ui_state).show_editor
            &&& final(ui_state).show_search == old(ui_state).show_search
            &&& final(ui_state).search_query == old(ui_state).search_query
            &&& final(ui_state).faction_filter == old(ui_state).faction_filter
        },
        !created ==> *final(ui_state) == *old(ui_state) && final(groups)@ == old(groups)@,
{
    let c = ui_state.new_faction_color;
    let hex_key = faction_key(c);
    let label_chars = trimmed_chars(ui_state.new_faction_label.as_str());
    if label_chars.len() == 0 {
        return false;
    }
    let label = string_from_chars(&label_chars);
    let group = MapGroup {
        key: hex_key.clone(),
        label,
        paths: Vec::new(),
        color: c,
        capital_province_id: None,
        capital_name: None,
    };
    proof {
        lemma_group_index(groups@, hex_key@);
    }
    match find_group(groups, &hex_key) {
        Some(j) => {
            groups.set(j, group);
        },
        None => {
            groups.push(group);
        },
    }
    ui_state.active_group_key = hex_key;
    ui_state.active_tool = EditorTool::Brush;
    true
}

} // verus!

verus! {

proof fn lemma_hex_char_value(n: int)
    requires
        0 <= n < 16,
    ensures
        hex_digit_value(hex_char(n)) == Some(n),
{
}

proof fn lemma_digits_push(s: Seq<char>, c: char, v: int, d: int)
    requires
        hex_digits_value(s) == Some(v),
        hex_digit_value(c) == Some(d),
    ensures
        hex_digits_value(s.push(c)) == Some(v * 16 + d),
{
    assert(s.push(c).drop_last() =~= s);
}

proof fn lemma_byte_digits(b: u8)
    ensures
        (b as int / 16) * 16 + (b as int % 16) == b as int,
        0 <= b as int / 16 < 16,
        0 <= b as int % 16 < 16,
{
}

/// The uppercase hexadecimal digit of `n` (below 16).
pub open spec fn hex_char_upper(n: int) -> char {
    if n < 10 { ('0' as int + n) as char } else { ('A' as int + n - 10) as char }
}

/// The key `#RRGGBB` of a colour in uppercase hexadecimal.
pub open spec fn color_key_upper(c: [u8; 3]) -> Seq<char> {
    seq!['#', hex_char_upper(c[0] as int / 16), hex_char_upper(c[0] as int % 16),
        hex_char_upper(c[1] as int / 16), hex_char_upper(c[1] as int % 16),
        hex_char_upper(c[2] as int / 16), hex_char_upper(c[2] as int % 16)]
}

/// A `#` and six hexadecimal digits whose values are the two nibbles of
/// each byte of `c` parse back to `c`.
proof fn lemma_key_digits_roundtrip(c: [u8; 3], k: Seq<char>)
    requires
        k.len() == 7,
        k[0] == '#',
        hex_digit_value(k[1]) == Some(c[0] as int / 16),
        hex_digit_value(k[2]) == Some(c[0] as int % 16),
        hex_digit_value(k[3]) == Some(c[1] as int / 16),
        hex_digit_value(k[4]) == Some(c[1] as int % 16),
        hex_digit_value(k[5]) == Some(c[2] as int / 16),
        hex_digit_value(k[6]) == Some(c[2] as int % 16),
    ensures
        hex_color_of(k) == c,
{
    let d = k.skip(1);
    let r = c[0] as int;
    let g = c[1] as int;
    let b = c[2] as int;
    lemma_byte_digits(c[0]);
    lemma_byte_digits(c[1]);
    lemma_byte_digits(c[2]);
    let s0 = Seq::<char>::empty();
    let s1 = s0.push(k[1int]);
    let s2 = s1.push(k[2int]);
    let s3 = s2.push(k[3int]);
    let s4 = s3.push(k[4int]);
    let s5 = s4.push(k[5int]);
    let s6 = s5.push(k[6int]);
    assert(hex_digits_value(s0) == Some(0int));
    lemma_digits_push(s0, k[1int], 0, r / 16);
    lemma_digits_push(s1, k[2int], r / 16, r % 16);
    lemma_digits_push(s2, k[3int], r, g / 16);
    lemma_digits_push(s3, k[4int], r * 16 + g / 16, g % 16);
    lemma_digits_push(s4, k[5int], r * 256 + g, b / 16);
    lemma_digits_push(s5, k[6int], r * 4096 + g * 16 + b / 16, b % 16);
    assert(d =~= s6);
    assert(d[0] != '+');
    let v = r * 65536 + g * 256 + b;
    assert(hex_digits_value(d) == Some(v));
    assert(hex_u32_value(d) == Some(v));
    assert(v / 65536 == r && (v / 65536) % 256 == r) by (nonlinear_arith)
        requires
            v == r * 65536 + g * 256 + b,
            0 <= r < 256,
            0 <= g < 256,
            0 <= b < 256,
    ;
    assert((v / 256) % 256 == g) by (nonlinear_arith)
        requires
            v == r * 65536 + g * 256 + b,
            0 <= r < 256,
            0 <= g < 256,
            0 <= b < 256,
    ;
    assert(v % 256 == b) by (nonlinear_arith)
        requires
            v == r * 65536 + g * 256 + b,
            0 <= r < 256,
            0 <= g < 256,
            0 <= b < 256,
    ;
    assert(rgb_of(v) =~= c);
}

/// The key of a custom faction reads back as its colour: parsing the key
/// `create_faction` gives a faction (as `apply_config` and the palette do
/// through `parse_hex_color`) yields the colour it was created with.
#[verifier::spinoff_prover]
pub proof fn lemma_faction_key_color_roundtrip(c: [u8; 3])
    ensures
        hex_color_of(color_key(c)) == c,
{
    let k = color_key(c);
    lemma_byte_digits(c[0]);
    lemma_byte_digits(c[1]);
    lemma_byte_digits(c[2]);
    lemma_hex_char_value(c[0] as int / 16);
    lemma_hex_char_value(c[0] as int % 16);
    lemma_hex_char_value(c[1] as int / 16);
    lemma_hex_char_value(c[1] as int % 16);
    lemma_hex_char_value(c[2] as int / 16);
    lemma_hex_char_value(c[2] as int % 16);
    lemma_key_digits_roundtrip(c, k);
}

/// A colour written as an uppercase key `#RRGGBB` also reads back as that
/// colour: `parse_hex_color` takes either case of hexadecimal digit.
#[verifier::spinoff_prover]
pub proof fn lemma_uppercase_key_color_roundtrip(c: [u8; 3])
    ensures
        hex_color_of(color_key_upper(c)) == c,
{
    let k = color_key_upper(c);
    lemma_byte_digits(c[0]);
    lemma_byte_digits(c[1]);
    lemma_byte_digits(c[2]);
    lemma_key_digits_roundtrip(c, k);
}

} // verus!

verus! {

/// Province `p` is found by the (trimmed, lowercased) search text `q`:
/// every province when `q` is empty, else those whose lowercased name, id
/// or faction label contains `q`.
pub open spec fn search_matches(p: Province, q: Seq<char>) -> bool {
    q.len() == 0 || contains_seq(lowercase(p.name@), q) || contains_seq(lowercase(p.id@), q)
        || contains_seq(lowercase(p.group_label@), q)
}

/// The positions of all provinces of `ps` found by `q`, in order.
pub open spec fn matching_positions(ps: Seq<Province>, q: Seq<char>) -> Seq<int>
    decreases ps.len(),
{
    if ps.len() == 0 {
        seq![]
    } else if search_matches(ps.last(), q) {
        matching_positions(ps.drop_last(), q).push(ps.len() - 1)
    } else {
        matching_positions(ps.drop_last(), q)
    }
}

/// The most results the search window lists.
pub const SEARCH_LIMIT: usize = 40;

/// The search results for `query`: the first forty provinces found.
pub open spec fn search_results(ps: Seq<Province>, query: Seq<char>) -> Seq<int> {
    let m = matching_positions(ps, lowercase(trim_seq(query)));
    if m.len() <= SEARCH_LIMIT { m } else { m.take(SEARCH_LIMIT as int) }
}

proof fn lemma_matching_prefix(ps: Seq<Province>, q: Seq<char>, i: int, j: int)
    requires
        0 <= i <= j <= ps.len(),
    ensures
        matching_positions(ps.take(i), q).len() <= matching_positions(ps.take(j), q).len(),
        matching_positions(ps.take(j), q).take(matching_positions(ps.take(i), q).len() as int) == matching_positions(ps.take(i), q),
    decreases j - i,
{
    if i < j {
        lemma_matching_prefix(ps, q, i, j - 1);
        assert(ps.take(j).drop_last() =~= ps.take(j - 1));
        let a = matching_positions(ps.take(i), q);
        let b = matching_positions(ps.take(j - 1), q);
        let c = matching_positions(ps.take(j), q);
        assert(c.take(a.len() as int) =~= b.take(a.len() as int));
    } else {
        assert(matching_positions(ps.take(j), q).take(matching_positions(ps.take(i), q).len() as int) =~= matching_positions(ps.take(i), q));
    }
}

proof fn lemma_matching_positions(ps: Seq<Province>, q: Seq<char>)
    ensures
        forall|a: int, b: int| 0 <= a < b < matching_positions(ps, q).len() ==> #[trigger] matching_positions(ps, q)[a]
            < #[trigger] matching_positions(ps, q)[b],
        forall|a: int| 0 <= a < matching_positions(ps, q).len() ==> 0 <= #[trigger] matching_positions(ps, q)[a] < ps.len()
            && search_matches(ps[matching_positions(ps, q)[a]], q),
        forall|i: int| 0 <= i < ps.len() && search_matches(#[trigger] ps[i], q) ==> matching_positions(ps, q).contains(i),
    decreases ps.len(),
{
    if ps.len() > 0 {
        let init = ps.drop_last();
        lemma_matching_positions(init, q);
        let p = matching_positions(init, q);
        let m = matching_positions(ps, q);
        assert forall|a: int| 0 <= a < p.len() implies #[trigger] p[a] < ps.len() - 1 && ps[p[a]] == init[p[a]] by {}
        assert forall|i: int| 0 <= i < ps.len() && search_matches(#[trigger] ps[i], q) implies m.contains(i) by {
            if i < ps.len() - 1 {
                assert(init[i] == ps[i]);
                assert(p.contains(i));
                let t = choose|t: int| 0 <= t < p.len() && p[t] == i;
                assert(m[t] == i);
            } else {
                assert(m[p.len() as int] == i);
            }
        }
    }
}

/// Search finds what it should: at most forty results, in increasing
/// order, each a province whose lowercased name, id or faction label
/// contains the trimmed, lowercased query (every province when the query is
/// empty); and every such province is found, unless forty earlier ones
/// already fill the list.
pub proof fn lemma_search_finds_matches(ps: Seq<Province>, query: Seq<char>)
    ensures
        ({
            let q = lowercase(trim_seq(query));
            let r = search_results(ps, query);
            &&& r.len() <= 40
            &&& forall|a: int, b: int| 0 <= a < b < r.len() ==> #[trigger] r[a] < #[trigger] r[b]
            &&& forall|a: int| 0 <= a < r.len() ==> {
                let p = ps[#[trigger] r[a]];
                &&& 0 <= r[a] < ps.len()
                &&& (q.len() == 0 || contains_seq(lowercase(p.name@), q) || contains_seq(lowercase(p.id@), q)
                    || contains_seq(lowercase(p.group_label@), q))
            }
            &&& forall|i: int|
                0 <= i < ps.len() && (q.len() == 0 || contains_seq(lowercase((#[trigger] ps[i]).name@), q) || contains_seq(
                    lowercase(ps[i].id@),
                    q,
                ) || contains_seq(lowercase(ps[i].group_label@), q)) ==> r.contains(i) || (r.len() == 40 && r[39] < i)
        }),
{
    let q = lowercase(trim_seq(query));
    let m = matching_positions(ps, q);
    let r = search_results(ps, query);
    lemma_matching_positions(ps, q);
    assert forall|a: int| 0 <= a < r.len() implies r[a] == m[a] by {}
    assert forall|i: int|
        0 <= i < ps.len() && (q.len() == 0 || contains_seq(lowercase((#[trigger] ps[i]).name@), q) || contains_seq(
            lowercase(ps[i].id@),
            q,
        ) || contains_seq(lowercase(ps[i].group_label@), q)) implies r.contains(i) || (r.len() == 40 && r[39] < i) by {
        assert(search_matches(ps[i], q));
        assert(m.contains(i));
        let t = choose|t: int| 0 <= t < m.len() && m[t] == i;
        if t < r.len() {
            assert(r[t] == i);
        } else {
            assert(r.len() == 40);
            assert(m[39] < m[t]);
        }
    }
}

/// Searches provinces by name, id or faction label (case-insensitive, the
/// query trimmed) and returns the positions of the first forty found, in order.
pub fn search_provinces(provinces: &Vec<Province>, query: &str) -> (found: Vec<usize>)
    ensures
        found@.map_values(|u: usize| u as int) == search_results(provinces@, query@),
{
    let ghost ps = provinces@;
    let trimmed = trimmed_chars(query);
    let trimmed_s = string_from_chars(&trimmed);
    let lowered = to_lowercase(trimmed_s.as_str());
    let q = chars_of(lowered.as_str());
    let ghost qs = lowercase(trim_seq(query@));
    let mut found: Vec<usize> = Vec::new();
    let mut i: usize = 0;
    while i < provinces.len()
        invariant
            i <= ps.len(),
            ps == provinces@,
            q@ == qs,
            qs == lowercase(trim_seq(query@)),
            found@.len() < SEARCH_LIMIT,
            found@.map_values(|u: usize| u as int) == matching_positions(ps.take(i as int), qs),
        decreases ps.len() - i,
    {
        let p = &provinces[i];
        assert(ps.take(i + 1).drop_last() =~= ps.take(i as int));
        assert(ps.take(i + 1).last() == ps[i as int]);
        let ghost before = found@;
        let name_l = chars_of(to_lowercase(p.name.as_str()).as_str());
        let id_l = chars_of(to_lowercase(p.id.as_str()).as_str());
        let label_l = chars_of(to_lowercase(p.group_label.as_str()).as_str());
        let hit = q.len() == 0 || contains_chars(&name_l, &q) || contains_chars(&id_l, &q) || contains_chars(&label_l, &q);
        if hit {
            found.push(i);
            assert(found@.map_values(|u: usize| u as int) =~= before.map_values(|u: usize| u as int).push(i as int));
            if found.len() >= SEARCH_LIMIT {
                proof {
                    lemma_matching_prefix(ps, qs, i + 1, ps.len() as int);
                    assert(ps.take(ps.len() as int) =~= ps);
                    let m = matching_positions(ps, qs);
                    assert(found@.map_values(|u: usize| u as int) == m.take(SEARCH_LIMIT as int));
                    assert(m.len() >= SEARCH_LIMIT);
                    if m.len() == SEARCH_LIMIT {
                        assert(m.take(SEARCH_LIMIT as int) =~= m);
                    }

                }
                return found;
            }
        }
        i = i + 1;
    }
    assert(ps.take(i as int) =~= ps);
    found
}

/// The order of the faction list: more provinces first, then list order.
pub open spec fn listed_before(gs: Seq<MapGroup>, a: int, b: int) -> bool {
    gs[a].paths@.len() > gs[b].paths@.len() || (gs[a].paths@.len() == gs[b].paths@.len() && a < b)
}

/// Faction `g` passes the (trimmed, lowercased) filter `f`.
pub open spec fn filter_matches(g: MapGroup, f: Seq<char>) -> bool {
    f.len() == 0 || contains_seq(lowercase(g.label@), f)
}

/// Lists the factions that pass `filter` (case-insensitive, trimmed),
/// largest first; factions of equal size keep their order.
pub fn faction_list(groups: &Vec<MapGroup>, filter: &str) -> (order: Vec<usize>)
    ensures
        ({
            let f = lowercase(trim_seq(filter@));
            &&& forall|a: int| 0 <= a < order@.len() ==> #[trigger] order@[a] < groups@.len() && filter_matches(groups@[order@[a] as int], f)
            &&& forall|h: int| 0 <= h < groups@.len() && filter_matches(#[trigger] groups@[h], f) ==> order@.contains(h as usize)
            &&& forall|a: int, b: int| 0 <= a < b < order@.len() ==> listed_before(groups@, #[trigger] order@[a] as int, #[trigger] order@[b] as int)
        }),
{
    let ghost gs = groups@;
    let trimmed = trimmed_chars(filter);
    let trimmed_s = string_from_chars(&trimmed);
    let lowered = to_lowercase(trimmed_s.as_str());
    let f = chars_of(lowered.as_str());
    let ghost fs = lowercase(trim_seq(filter@));
    let mut order: Vec<usize> = Vec::new();
    let mut h: usize = 0;
    while h < groups.len()
        invariant
            h <= gs.len(),
            gs == groups@,
            f@ == fs,
            fs == lowercase(trim_seq(filter@)),
            forall|a: int| 0 <= a < order@.len() ==> #[trigger] order@[a] < h && filter_matches(gs[order@[a] as int], fs),
            forall|x: int| 0 <= x < h && filter_matches(#[trigger] gs[x], fs) ==> order@.contains(x as usize),
            forall|a: int, b: int| 0 <= a < b < order@.len() ==> listed_before(gs, #[trigger] order@[a] as int, #[trigger] order@[b] as int),
        decreases gs.len() - h,
    {
        let label_l = chars_of(to_lowercase(groups[h].label.as_str()).as_str());
        if f.len() == 0 || contains_chars(&label_l, &f) {
            let size = groups[h].paths.len();
            let mut j: usize = 0;
            while j < order.len() && groups[order[j]].paths.len() >= size
                invariant
                    j <= order@.len(),
                    gs == groups@,
                    forall|a: int| 0 <= a < order@.len() ==> #[trigger] order@[a] < h,
                    h < gs.len(),
                    size == gs[h as int].paths@.len(),
                    forall|a: int| 0 <= a < j ==> gs[#[trigger] order@[a] as int].paths@.len() >= size,
                decreases order@.len() - j,
            {
                j = j + 1;
            }
            let ghost before = order@;
            proof {
                assert forall|a: int| j <= a < before.len() implies gs[#[trigger] before[a] as int].paths@.len() < size by {
                    if j < before.len() {
                        assert(gs[before[j as int] as int].paths@.len() < size);
                        if a > j {
                            assert(listed_before(gs, before[j as int] as int, before[a] as int));
                        }
                    }
                }
            }
            order.insert(j, h);
            proof {
                assert forall|a: int, b: int| 0 <= a < b < order@.len() implies listed_before(gs, #[trigger] order@[a] as int, #[trigger] order@[b] as int) by {
                    if b < j {
                        assert(order@[a] == before[a] && order@[b] == before[b]);
                    } else if b == j {
                        assert(order@[a] == before[a]);
                    } else if a == j {
                        assert(order@[b] == before[b - 1]);
                    } else if a < j {
                        assert(order@[a] == before[a] && order@[b] == before[b - 1]);
                    } else {
                        assert(order@[a] == before[a - 1] && order@[b] == before[b - 1]);
                    }
                }
                assert forall|x: int| 0 <= x < h + 1 && filter_matches(#[trigger] gs[x], fs) implies order@.contains(x as usize) by {
                    if x == h {
                        assert(order@[j as int] == h);
                    } else {
                        let a = before.index_of(x as usize);
                        if a < j {
                            assert(order@[a] == x);
                        } else {
                            assert(order@[a + 1] == x);
                        }
                    }
                }
                assert forall|a: int| 0 <= a < order@.len() implies #[trigger] order@[a] < h + 1 && filter_matches(gs[order@[a] as int], fs) by {
                    if a < j {
                        assert(order@[a] == before[a]);
                    } else if a > j {
                        assert(order@[a] == before[a - 1]);
                    }
                }
            }
        }
        h = h + 1;
    }
    order
}

} // verus!

verus! {

/// The editor's keyboard shortcuts: `/` toggles the search window, `B`,
/// `E` and `I` pick the brush, eraser and eyedropper.
#[derive(Clone, Copy, PartialEq, Eq, Debug, Structural)]
pub enum Shortcut {
    ToggleSearch,
    Brush,
    Eraser,
    Eyedropper,
}

/// Applies a keyboard shortcut to the editor state.
pub fn apply_shortcut(ui_state: &mut UiState, key: Shortcut)
    ensures
        match key {
            Shortcut::ToggleSearch => final(ui_state).show_search == !old(ui_state).show_search
                && final(ui_state).active_tool == old(ui_state).active_tool,
            Shortcut::Brush => final(ui_state).active_tool == EditorTool::Brush
                && final(ui_state).show_search == old(ui_state).show_search,
            Shortcut::Eraser => final(ui_state).active_tool == EditorTool::Eraser
                && final(ui_state).show_search == old(ui_state).show_search,
            Shortcut::Eyedropper => final(ui_state).active_tool == EditorTool::Eyedropper
                && final(ui_state).show_search == old(ui_state).show_search,
        },
        final(ui_state).show_editor == old(ui_state).show_editor,
        final(ui_state).search_query == old(ui_state).search_query,
        final(ui_state).faction_filter == old(ui_state).faction_filter,
        final(ui_state).active_group_key == old(ui_state).active_group_key,
        final(ui_state).new_faction_label == old(ui_state).new_faction_label,
        final(ui_state).new_faction_color == old(ui_state).new_faction_color,
{
    match key {
        Shortcut::ToggleSearch => {
            ui_state.show_search = !ui_state.show_search;
        },
        Shortcut::Brush => {
            ui_state.active_tool = EditorTool::Brush;
        },
        Shortcut::Eraser => {
            ui_state.active_tool = EditorTool::Eraser;
        },
        Shortcut::Eyedropper => {
            ui_state.active_tool = EditorTool::Eyedropper;
        },
    }
}

/// Picks the faction keyed `key` as the brush (quick select, the faction
/// list, or picking a province's faction in the inspector).
pub fn select_brush(ui_state: &mut UiState, key: &str)
    ensures
        final(ui_state).active_group_key@ == key@,
        final(ui_state).active_tool == EditorTool::Brush,
        final(ui_state).show_search == old(ui_state).show_search,
        final(ui_state).show_editor == old(ui_state).show_editor,
        final(ui_state).search_query == old(ui_state).search_query,
        final(ui_state).faction_filter == old(ui_state).faction_filter,
        final(ui_state).new_faction_label == old(ui_state).new_faction_label,
        final(ui_state).new_faction_color == old(ui_state).new_faction_color,
{
    ui_state.active_group_key = key.to_owned();
    ui_state.active_tool = EditorTool::Brush;
}

/// Whether dragging over the map paints (with the brush or eraser, while the
/// editor is open, dragging with the primary button) rather than pans.
pub fn drag_paints(ui_state: &UiState, primary_button: bool) -> (paints: bool)
    ensures
        paints == (ui_state.show_editor && primary_button && (ui_state.active_tool == EditorTool::Brush
            || ui_state.active_tool == EditorTool::Eraser)),
{
    ui_state.show_editor && primary_button && (ui_state.active_tool == EditorTool::Brush
        || ui_state.active_tool == EditorTool::Eraser)
}

} // verus!

verus! {

/// A province painted with a faction shows that faction's colour in the
/// political map mode (when the faction key is not empty), and the
/// eyedropper on it picks that faction.
pub proof fn lemma_painted_shows_faction(p: Province, q: Province, g: MapGroup, default_color: [u8; 3])
    requires
        painted(p, q, g),
        g.key@.len() > 0,
    ensures
        palette_color(p, MapMode::Political, default_color) == g.color,
        palette_color(p, MapMode::Independent, default_color) == [75u8, 90u8, 105u8],
        p.group_key@ == g.key@ && p.group_key@.len() > 0,
{
}

/// An erased province shows the default colour in the political map mode
/// and the independence highlight in the independence map mode.
pub proof fn lemma_unassigned_shows_neutral(p: Province, q: Province, default_color: [u8; 3])
    requires
        unassigned(p, q),
    ensures
        palette_color(p, MapMode::Political, default_color) == default_color,
        palette_color(p, MapMode::Independent, default_color) == [255u8, 140u8, 0u8],
{
}

/// Painting a province twice with the same faction is painting it once.
pub proof fn lemma_paint_idempotent(p2: Province, p1: Province, q: Province, g: MapGroup)
    requires
        painted(p1, q, g),
        painted(p2, p1, g),
    ensures
        painted(p2, q, g),
        p2.group_key@ == p1.group_key@ && p2.group_label@ == p1.group_label@ && p2.color == p1.color,
{
}

/// Erasing undoes any painting: a painted, then erased province is the
/// province as it was before, erased.
pub proof fn lemma_erase_after_paint(p2: Province, p1: Province, q: Province, g: MapGroup)
    requires
        painted(p1, q, g),
        unassigned(p2, p1),
    ensures
        unassigned(p2, q),
{
}

proof fn lemma_without_path(ps: Seq<Seq<char>>, s: Seq<char>)
    ensures
        !without_path(ps, s).contains(s),
        forall|x: Seq<char>| x != s ==> (without_path(ps, s).contains(x) <==> ps.contains(x)),
        all_distinct(ps) ==> all_distinct(without_path(ps, s)),
    decreases ps.len(),
{
    if ps.len() > 0 {
        let init = ps.drop_last();
        lemma_without_path(init, s);
        let prev = without_path(init, s);
        assert forall|x: Seq<char>| x != s implies (without_path(ps, s).contains(x) <==> ps.contains(x)) by {
            if ps.contains(x) {
                let j = choose|j: int| 0 <= j < ps.len() && ps[j] == x;
                if j < ps.len() - 1 {
                    assert(init[j] == x);
                    assert(init.contains(x));
                }
            }
            if init.contains(x) {
                let j = choose|j: int| 0 <= j < init.len() && init[j] == x;
                assert(ps[j] == x);
            }
            if ps.last() != s {
                assert(prev.push(ps.last())[prev.len() as int] == ps.last());
                if prev.contains(x) {
                    let j = choose|j: int| 0 <= j < prev.len() && prev[j] == x;
                    assert(prev.push(ps.last())[j] == x);
                }
                if prev.push(ps.last()).contains(x) {
                    let j = choose|j: int| 0 <= j < prev.len() + 1 && prev.push(ps.last())[j] == x;
                    if j < prev.len() {
                        assert(prev[j] == x);
                    } else {
                        assert(ps[ps.len() - 1] == x);
                    }
                }
            }
        }
        if ps.last() != s {
            if without_path(ps, s).contains(s) {
                let j = choose|j: int| 0 <= j < prev.len() + 1 && prev.push(ps.last())[j] == s;
                if j < prev.len() {
                    assert(prev[j] == s);
                }
            }
            if all_distinct(ps) {
                assert(!init.contains(ps.last())) by {
                    if init.contains(ps.last()) {
                        let j = choose|j: int| 0 <= j < init.len() && init[j] == ps.last();
                        assert(ps[j] == ps[ps.len() - 1]);
                    }
                }
                assert(all_distinct(init)) by {
                    assert forall|a: int, b: int| 0 <= a < b < init.len() implies #[trigger] init[a] != #[trigger] init[b] by {
                        assert(ps[a] != ps[b]);
                    }
                }
                assert(!prev.contains(ps.last()));
                let np = prev.push(ps.last());
                assert forall|a: int, b: int| 0 <= a < b < np.len() implies #[trigger] np[a] != #[trigger] np[b] by {
                    if b == prev.len() {
                        assert(prev[a] == np[a]);
                        assert(prev.contains(np[a]));
                    } else {
                        assert(prev[a] != prev[b]);
                    }
                }
            }
        } else {
            if all_distinct(ps) {
                assert forall|a: int, b: int| 0 <= a < b < init.len() implies #[trigger] init[a] != #[trigger] init[b] by {
                    assert(ps[a] != ps[b]);
                }
            }
        }
    }
}

proof fn lemma_with_path(ps: Seq<Seq<char>>, s: Seq<char>)
    ensures
        with_path(ps, s).contains(s),
        forall|x: Seq<char>| x != s ==> (with_path(ps, s).contains(x) <==> ps.contains(x)),
        all_distinct(ps) ==> all_distinct(with_path(ps, s)),
{
    if !ps.contains(s) {
        let np = ps.push(s);
        assert(np[ps.len() as int] == s);
        assert forall|x: Seq<char>| x != s implies (np.contains(x) <==> ps.contains(x)) by {
            if ps.contains(x) {
                let j = choose|j: int| 0 <= j < ps.len() && ps[j] == x;
                assert(np[j] == x);
            }
            if np.contains(x) {
                let j = choose|j: int| 0 <= j < np.len() && np[j] == x;
                assert(ps[j] == x);
            }
        }
        if all_distinct(ps) {
            assert forall|a: int, b: int| 0 <= a < b < np.len() implies #[trigger] np[a] != #[trigger] np[b] by {
                if b == ps.len() {
                    assert(ps.contains(ps[a]));
                } else {
                    assert(ps[a] != ps[b]);
                }
            }
        }
    }
}

/// After a province passes to a faction (painting) or to none (erasing),
/// its path id is listed by exactly the faction that now owns it; every
/// other path id is listed by the same factions as before; and a faction
/// whose list had no repeats still has none.
pub proof fn lemma_synced_paths_follow_owner(gs: Seq<MapGroup>, old: Seq<MapGroup>, id: Seq<char>, owner: Option<int>)
    requires
        paths_synced(gs, old, id, owner),
    ensures
        forall|h: int| 0 <= h < gs.len() ==> (strings_view(#[trigger] gs[h].paths@).contains(id) <==> owner == Some(h)),
        forall|h: int, x: Seq<char>|
            0 <= h < gs.len() && x != id ==> (#[trigger] strings_view(gs[h].paths@).contains(x) <==> strings_view(
                old[h].paths@,
            ).contains(x)),
        forall|h: int|
            0 <= h < gs.len() && all_distinct(strings_view(old[h].paths@)) ==> all_distinct(strings_view(#[trigger] gs[h].paths@)),
{
    assert forall|h: int| 0 <= h < gs.len() implies {
        &&& (strings_view(#[trigger] gs[h].paths@).contains(id) <==> owner == Some(h))
        &&& forall|x: Seq<char>| x != id ==> (strings_view(gs[h].paths@).contains(x) <==> strings_view(old[h].paths@).contains(x))
        &&& (all_distinct(strings_view(old[h].paths@)) ==> all_distinct(strings_view(gs[h].paths@)))
    } by {
        lemma_with_path(strings_view(old[h].paths@), id);
        lemma_without_path(strings_view(old[h].paths@), id);
    }
}

} // verus!
