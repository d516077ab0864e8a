//! Settlement registry: biomes, predefined capitals and cities of 1450,
//! a guaranteed capital for every faction, and the ranked settlement list.

use vstd::prelude::*;
use crate::text::{
    char_to_uppercase, chars_of, lowercase, replace_char, replace_char_seq, to_lowercase,
    uppercase_char,
};
use crate::tables::{capital_names, capital_table, city_names, city_table};
use vstd::hash_map::StringHashMap;
use crate::types::{BiomeType, MapGroup, Province, Settlement, SettlementInfo, SettlementTier};

verus! {

/// `id` with underscores read as spaces and each word (after a space or
/// hyphen, or at the start) opened with the uppercase mapping of its first character.
pub open spec fn title_case_from(s: Seq<char>, capitalize: bool) -> Seq<char>
    decreases s.len(),
{
    if s.len() == 0 {
        seq![]
    } else if s[0] == ' ' || s[0] == '-' {
        seq![s[0]] + title_case_from(s.drop_first(), true)
    } else if capitalize {
        uppercase_char(s[0]) + title_case_from(s.drop_first(), false)
    } else {
        seq![s[0]] + title_case_from(s.drop_first(), false)
    }
}

/// The display name of a location id.
pub open spec fn location_name(raw_id: Seq<char>) -> Seq<char> {
    title_case_from(replace_char_seq(raw_id, '_', ' '), true)
}

/// Turns a location id into a display name: underscores become spaces and
/// every word starts with its uppercase letter (`saint-jean_de_luz` gives
/// `Saint-Jean De Luz`).
pub fn format_location_name(raw_id: &str) -> (name: String)
    ensures
        name@ == location_name(raw_id@),
{
    let unescaped = replace_char(raw_id, '_', ' ');
    let v = chars_of(unescaped.as_str());
    let mut result = String::new();
    let mut capitalize_next = true;
    let mut i: usize = 0;
    assert(v@.skip(0) =~= v@);
    assert(result@ + title_case_from(v@, true) =~= title_case_from(v@, true));
    while i < v.len()
        invariant
            i <= v.len(),
            v@ == replace_char_seq(raw_id@, '_', ' '),
            result@ + title_case_from(v@.skip(i as int), capitalize_next) == location_name(raw_id@),
        decreases v.len() - i,
    {
        let ch = v[i];
        let ghost rest = v@.skip(i as int);
        let ghost before = result@;
        assert(rest.drop_first() =~= v@.skip(i + 1));
        assert(rest[0] == ch);
        if ch == ' ' || ch == '-' {
            result.push(ch);
            capitalize_next = true;
            assert(result@ + title_case_from(v@.skip(i + 1), true) =~= before + (seq![ch]
                + title_case_from(v@.skip(i + 1), true)));
        } else if capitalize_next {
            let up = char_to_uppercase(ch);
            let upv = chars_of(up.as_str());
            let mut k: usize = 0;
            while k < upv.len()
                invariant
                    k <= upv.len(),
                    upv@ == uppercase_char(ch),
                    result@ == before + upv@.take(k as int),
                decreases upv.len() - k,
            {
                result.push(upv[k]);
                assert(upv@.take(k + 1) =~= upv@.take(k as int).push(upv@[k as int]));
                k = k + 1;
            }
            assert(upv@.take(k as int) =~= upv@);
            capitalize_next = false;
            assert(result@ + title_case_from(v@.skip(i + 1), false) =~= before + (uppercase_char(ch)
                + title_case_from(v@.skip(i + 1), false)));
        } else {
            result.push(ch);
            assert(result@ + title_case_from(v@.skip(i + 1), false) =~= before + (seq![ch]
                + title_case_from(v@.skip(i + 1), false)));
        }
        i = i + 1;
    }
    assert(result@ + title_case_from(v@.skip(i as int), capitalize_next) =~= result@);
    result
}

/// A world position read on the half-unit grid: an even coordinate `2k`
/// stands for exactly `k` world units, an odd one `2k + 1` for a position
/// strictly between `k` and `k + 1`. Comparisons with whole-unit bounds
/// read the same on this grid as on the exact position.
#[derive(Clone, Copy, PartialEq, Eq, Debug, Structural)]
pub struct GridPoint {
    pub x2: i64,
    pub y2: i64,
}

/// The biome of a province from the position of its centroid: polar tundra
/// and taiga bands, then the desert, jungle, steppe and forest regions of the
/// world map, else grassland.
pub open spec fn biome_at(x2: int, y2: int) -> BiomeType {
    if y2 < 2 * 70 {
        BiomeType::Tundra
    } else if y2 < 2 * 130 {
        BiomeType::Taiga
    } else if (2 * 210 <= y2 <= 2 * 310 && 2 * 450 <= x2 <= 2 * 650)
        || (2 * 230 <= y2 <= 2 * 310 && 2 * 650 <= x2 <= 2 * 730)
        || (2 * 180 <= y2 <= 2 * 240 && 2 * 800 <= x2 <= 2 * 940)
        || (2 * 430 <= y2 <= 2 * 540 && 2 * 950 <= x2 <= 2 * 1100) {
        BiomeType::Desert
    } else if (2 * 280 <= y2 <= 2 * 430 && 2 * 240 <= x2 <= 2 * 400)
        || (2 * 310 <= y2 <= 2 * 440 && 2 * 550 <= x2 <= 2 * 700)
        || (2 * 290 <= y2 <= 2 * 420 && 2 * 880 <= x2 <= 2 * 1080) {
        BiomeType::Jungle
    } else if 2 * 130 <= y2 <= 2 * 200 && 2 * 680 <= x2 <= 2 * 950 {
        BiomeType::Steppe
    } else if (2 * 130 <= y2 <= 2 * 220 && 2 * 460 <= x2 <= 2 * 680)
        || (2 * 140 <= y2 <= 2 * 240 && 2 * 180 <= x2 <= 2 * 320)
        || (2 * 160 <= y2 <= 2 * 260 && 2 * 900 <= x2 <= 2 * 1060) {
        BiomeType::Forest
    } else {
        BiomeType::Grassland
    }
}

/// The biome at a grid position.
pub fn classify_biome(pos: GridPoint) -> (b: BiomeType)
    ensures
        b == biome_at(pos.x2 as int, pos.y2 as int),
{
    let x = pos.x2;
    let y = pos.y2;
    if y < 140 {
        BiomeType::Tundra
    } else if y < 260 {
        BiomeType::Taiga
    } else if (420 <= y && y <= 620 && 900 <= x && x <= 1300)
        || (460 <= y && y <= 620 && 1300 <= x && x <= 1460)
        || (360 <= y && y <= 480 && 1600 <= x && x <= 1880)
        || (860 <= y && y <= 1080 && 1900 <= x && x <= 2200) {
        BiomeType::Desert
    } else if (560 <= y && y <= 860 && 480 <= x && x <= 800)
        || (620 <= y && y <= 880 && 1100 <= x && x <= 1400)
        || (580 <= y && y <= 840 && 1760 <= x && x <= 2160) {
        BiomeType::Jungle
    } else if 260 <= y && y <= 400 && 1360 <= x && x <= 1900 {
        BiomeType::Steppe
    } else if (260 <= y && y <= 440 && 920 <= x && x <= 1360)
        || (280 <= y && y <= 480 && 360 <= x && x <= 640)
        || (320 <= y && y <= 520 && 1800 <= x && x <= 2120) {
        BiomeType::Forest
    } else {
        BiomeType::Grassland
    }
}

/// The half-unit grid position `(x2, y2)` lies in the world-unit box from
/// `(x0, y0)` to `(x1, y1)`, edges included.
pub open spec fn in_world_box(x2: int, y2: int, x0: int, y0: int, x1: int, y1: int) -> bool {
    2 * x0 <= x2 <= 2 * x1 && 2 * y0 <= y2 <= 2 * y1
}

/// The desert regions: the Sahara, Arabia, the Gobi and Taklamakan, and the Outback.
pub open spec fn in_desert_region(x2: int, y2: int) -> bool {
    ||| in_world_box(x2, y2, 450, 210, 650, 310)
    ||| in_world_box(x2, y2, 650, 230, 730, 310)
    ||| in_world_box(x2, y2, 800, 180, 940, 240)
    ||| in_world_box(x2, y2, 950, 430, 1100, 540)
}

/// The jungle regions: the Amazon, the Congo, and the Sunda islands and South-East Asia.
pub open spec fn in_jungle_region(x2: int, y2: int) -> bool {
    ||| in_world_box(x2, y2, 240, 280, 400, 430)
    ||| in_world_box(x2, y2, 550, 310, 700, 440)
    ||| in_world_box(x2, y2, 880, 290, 1080, 420)
}

/// The steppe of Central Asia.
pub open spec fn in_steppe_region(x2: int, y2: int) -> bool {
    in_world_box(x2, y2, 680, 130, 950, 200)
}

/// The forest regions: Europe, North America and East Asia.
pub open spec fn in_forest_region(x2: int, y2: int) -> bool {
    ||| in_world_box(x2, y2, 460, 130, 680, 220)
    ||| in_world_box(x2, y2, 180, 140, 320, 240)
    ||| in_world_box(x2, y2, 900, 160, 1060, 260)
}

/// The biome map by region: above y = 70 tundra, above y = 130 taiga; every
/// desert region is desert; outside the deserts, the jungle regions are
/// jungle; outside those, the steppe is steppe; outside all of these, the
/// forest regions are forest; and everywhere else is grassland.
pub proof fn lemma_biome_regions(x2: int, y2: int)
    ensures
        y2 < 2 * 70 ==> biome_at(x2, y2) == BiomeType::Tundra,
        2 * 70 <= y2 < 2 * 130 ==> biome_at(x2, y2) == BiomeType::Taiga,
        in_desert_region(x2, y2) ==> biome_at(x2, y2) == BiomeType::Desert,
        !in_desert_region(x2, y2) && in_jungle_region(x2, y2) ==> biome_at(x2, y2) == BiomeType::Jungle,
        !in_desert_region(x2, y2) && !in_jungle_region(x2, y2) && in_steppe_region(x2, y2) ==> biome_at(x2, y2)
            == BiomeType::Steppe,
        !in_desert_region(x2, y2) && !in_jungle_region(x2, y2) && !in_steppe_region(x2, y2) && y2 >= 2 * 130
            && in_forest_region(x2, y2) ==> biome_at(x2, y2) == BiomeType::Forest,
        y2 >= 2 * 130 && !in_desert_region(x2, y2) && !in_jungle_region(x2, y2) && !in_steppe_region(x2, y2)
            && !in_forest_region(x2, y2) ==> biome_at(x2, y2) == BiomeType::Grassland,
{
}

/// The character sequences of a table of owned string pairs.
pub open spec fn table_view(t: Seq<(String, String)>) -> Seq<(Seq<char>, Seq<char>)> {
    t.map_values(|e: (String, String)| (e.0@, e.1@))
}

/// The value paired with `key` in `table`, if any (the first such pair).
pub open spec fn table_lookup(table: Seq<(Seq<char>, Seq<char>)>, key: Seq<char>) -> Option<Seq<char>>
    decreases table.len(),
{
    if table.len() == 0 {
        None
    } else if table[0].0 == key {
        Some(table[0].1)
    } else {
        table_lookup(table.drop_first(), key)
    }
}

fn lookup(table: &Vec<(String, String)>, key: &String) -> (r: Option<String>)
    ensures
        match table_lookup(table_view(table@), key@) {
            Some(v) => r matches Some(s) && s@ == v,
            None => r is None,
        },
{
    let mut i: usize = 0;
    assert(table_view(table@).skip(0) =~= table_view(table@));
    while i < table.len()
        invariant
            i <= table.len(),
            table_lookup(table_view(table@), key@) == table_lookup(table_view(table@).skip(i as int), key@),
        decreases table.len() - i,
    {
        assert(table_view(table@).skip(i as int).drop_first() =~= table_view(table@).skip(i + 1));
        if table[i].0 == *key {
            return Some(table[i].1.clone());
        }
        i = i + 1;
    }
    assert(table_view(table@).skip(i as int) =~= Seq::<(Seq<char>, Seq<char>)>::empty());
    None
}


/// A settlement as the registry's rules read it: name, tier and capital flag.
pub open spec fn settlement_view(s: Option<SettlementInfo>) -> Option<(Seq<char>, SettlementTier, bool)> {
    match s {
        Some(x) => Some((x.name@, x.tier, x.is_capital)),
        None => None,
    }
}

/// The key a province id is looked up by: lowercase, hyphens read as underscores.
pub open spec fn lookup_key(id: Seq<char>) -> Seq<char> {
    replace_char_seq(lowercase(id), '-', '_')
}

/// The settlement of `p` once the predefined tables are consulted: a listed
/// capital, else a listed city, else whatever settlement it already had.
pub open spec fn predefined_settlement(p: Province) -> Option<(Seq<char>, SettlementTier, bool)> {
    match table_lookup(capital_names(), lookup_key(p.id@)) {
        Some(name) => Some((name, SettlementTier::Capital, true)),
        None => match table_lookup(city_names(), lookup_key(p.id@)) {
            Some(name) => Some((name, SettlementTier::City, false)),
            None => settlement_view(p.settlement),
        },
    }
}

/// A province that counts toward its faction's capital: owned, and not wasteland.
pub open spec fn is_member(p: Province) -> bool {
    p.group_key@.len() > 0 && !p.is_wasteland
}

/// The position of the group with key `k`, if any.
pub open spec fn slot_of(gs: Seq<(Seq<char>, Seq<int>)>, k: Seq<char>) -> Option<int>
    decreases gs.len(),
{
    if gs.len() == 0 {
        None
    } else if gs[0].0 == k {
        Some(0)
    } else {
        match slot_of(gs.drop_first(), k) {
            Some(j) => Some(j + 1),
            None => None,
        }
    }
}

/// The factions of `ps` that have member provinces, in order of first
/// appearance, each with the indices of its members in increasing order.
pub open spec fn member_groups(ps: Seq<Province>) -> Seq<(Seq<char>, Seq<int>)>
    decreases ps.len(),
{
    if ps.len() == 0 {
        seq![]
    } else {
        let prev = member_groups(ps.drop_last());
        let i = ps.len() - 1;
        let p = ps.last();
        if !is_member(p) {
            prev
        } else {
            match slot_of(prev, p.group_key@) {
                Some(j) => prev.update(j, (prev[j].0, prev[j].1.push(i))),
                None => prev.push((p.group_key@, seq![i])),
            }
        }
    }
}

/// The first of `members` whose predefined settlement is a capital.
pub open spec fn first_capital(ps: Seq<Province>, members: Seq<int>) -> Option<int>
    decreases members.len(),
{
    if members.len() == 0 {
        None
    } else if predefined_settlement(ps[members[0]]) matches Some(v) && v.1 == SettlementTier::Capital {
        Some(members[0])
    } else {
        first_capital(ps, members.drop_first())
    }
}

/// The first of `members` that has a predefined settlement.
pub open spec fn first_settled(ps: Seq<Province>, members: Seq<int>) -> Option<int>
    decreases members.len(),
{
    if members.len() == 0 {
        None
    } else if predefined_settlement(ps[members[0]]) is Some {
        Some(members[0])
    } else {
        first_settled(ps, members.drop_first())
    }
}

/// The capital a faction gets: its first capital, else its first city or
/// other settlement, else `fallback` (its most central province).
pub open spec fn chosen_capital(ps: Seq<Province>, members: Seq<int>, fallback: int) -> int {
    match first_capital(ps, members) {
        Some(c) => c,
        None => match first_settled(ps, members) {
            Some(c) => c,
            None => fallback,
        },
    }
}

/// The name of the capital in province `c`: its settlement's, else the
/// display name of its id.
pub open spec fn capital_name_of(ps: Seq<Province>, c: int) -> Seq<char> {
    match predefined_settlement(ps[c]) {
        Some(v) => v.0,
        None => location_name(ps[c].id@),
    }
}

/// Province `i` becomes the capital of a faction that had no settlement to promote.
pub open spec fn is_new_capital(ps: Seq<Province>, central: Seq<usize>, i: int) -> bool {
    &&& predefined_settlement(ps[i]) is None
    &&& exists|g: int| 0 <= g < member_groups(ps).len() && chosen_capital(ps, #[trigger] member_groups(ps)[g].1, central[g] as int) == i
}

/// The settlement province `i` ends with.
pub open spec fn final_settlement(ps: Seq<Province>, central: Seq<usize>, i: int) -> Option<(Seq<char>, SettlementTier, bool)> {
    if is_new_capital(ps, central, i) {
        Some((location_name(ps[i].id@), SettlementTier::Capital, true))
    } else {
        predefined_settlement(ps[i])
    }
}

/// A registry entry as its rules read it: name, province id and index, tier, faction key.
pub open spec fn entry_view(s: Settlement) -> (Seq<char>, Seq<char>, int, SettlementTier, Seq<char>) {
    (s.name@, s.province_id@, s.province_index as int, s.tier, s.group_key@)
}

/// The registry entries of tier `t` among `ps`, in province order.
pub open spec fn entries_of_tier(ps: Seq<Province>, t: SettlementTier) -> Seq<(Seq<char>, Seq<char>, int, SettlementTier, Seq<char>)>
    decreases ps.len(),
{
    if ps.len() == 0 {
        seq![]
    } else {
        let prev = entries_of_tier(ps.drop_last(), t);
        let p = ps.last();
        match p.settlement {
            Some(s) => if s.tier == t {
                prev.push((s.name@, p.id@, ps.len() - 1, t, p.group_key@))
            } else {
                prev
            },
            None => prev,
        }
    }
}

/// The registry of `ps`: capitals first, then cities, then towns, each in province order.
pub open spec fn ranked_entries(ps: Seq<Province>) -> Seq<(Seq<char>, Seq<char>, int, SettlementTier, Seq<char>)> {
    entries_of_tier(ps, SettlementTier::Capital) + entries_of_tier(ps, SettlementTier::City)
        + entries_of_tier(ps, SettlementTier::Town)
}

/// The members of one faction, as `SettlementRegistry::faction_members` lists them.
pub struct FactionMembers {
    pub key: String,
    pub members: Vec<usize>,
}

/// The keys and member indices of a list of factions.
pub open spec fn members_view(v: Seq<FactionMembers>) -> Seq<(Seq<char>, Seq<int>)> {
    v.map_values(|f: FactionMembers| (f.key@, f.members@.map_values(|u: usize| u as int)))
}

/// All settlements, ranked for collision queries.
pub struct SettlementRegistry {
    pub settlements: Vec<Settlement>,
}

/// `slot_of` finds the first group with the key, or reports there is none.
pub proof fn lemma_slot_of(gs: Seq<(Seq<char>, Seq<int>)>, k: Seq<char>)
    ensures
        slot_of(gs, k) matches Some(j) ==> 0 <= j < gs.len() && gs[j].0 == k && forall|h: int| 0 <= h < j ==> gs[h].0 != k,
        slot_of(gs, k) is None ==> forall|h: int| 0 <= h < gs.len() ==> gs[h].0 != k,
    decreases gs.len(),
{
    if gs.len() > 0 && gs[0].0 != k {
        lemma_slot_of(gs.drop_first(), k);
        assert forall|h: int| 1 <= h < gs.len() implies gs[h].0 == gs.drop_first()[h - 1].0 by {}
    }
}

/// A group with key `k` and no earlier group with that key is the one `slot_of` finds.
pub proof fn lemma_slot_of_unique(gs: Seq<(Seq<char>, Seq<int>)>, k: Seq<char>, v: int)
    requires
        0 <= v < gs.len(),
        gs[v].0 == k,
        forall|h: int| 0 <= h < v ==> gs[h].0 != k,
    ensures
        slot_of(gs, k) == Some(v),
{
    lemma_slot_of(gs, k);
    if let Some(j) = slot_of(gs, k) {
        if j > v {
            assert(gs[v].0 != k);
        }
    }
}

/// The factions of `member_groups` have distinct keys; every member of a
/// faction is an in-range member province carrying the faction's key, and
/// the members are increasing.
pub proof fn lemma_member_groups(ps: Seq<Province>)
    ensures
        forall|a: int, b: int| 0 <= a < b < member_groups(ps).len() ==> #[trigger] member_groups(ps)[a].0 != #[trigger] member_groups(ps)[b].0,
        forall|g: int, j: int| 0 <= g < member_groups(ps).len() && 0 <= j < member_groups(ps)[g].1.len() ==> {
            let m = #[trigger] member_groups(ps)[g].1[j];
            &&& 0 <= m < ps.len()
            &&& is_member(ps[m])
            &&& ps[m].group_key@ == member_groups(ps)[g].0
        },
        forall|g: int, a: int, b: int| 0 <= g < member_groups(ps).len() && 0 <= a < b < member_groups(ps)[g].1.len() ==> #[trigger] member_groups(ps)[g].1[a] < #[trigger] member_groups(ps)[g].1[b],
    decreases ps.len(),
{
    if ps.len() > 0 {
        let prev_ps = ps.drop_last();
        lemma_member_groups(prev_ps);
        let prev = member_groups(prev_ps);
        let p = ps.last();
        let i = ps.len() - 1;
        assert forall|g: int, j: int| 0 <= g < prev.len() && 0 <= j < prev[g].1.len() implies prev[g].1[j] < i && ps[prev[g].1[j]] == prev_ps[prev[g].1[j]] by {
            let m = prev[g].1[j];
        }
        if is_member(p) {
            lemma_slot_of(prev, p.group_key@);
        }
    }
}

/// `member_groups` reads only the faction keys and wasteland flags.
pub proof fn lemma_member_groups_congruent(a: Seq<Province>, b: Seq<Province>)
    requires
        a.len() == b.len(),
        forall|i: int| 0 <= i < a.len() ==> a[i].group_key == b[i].group_key && a[i].is_wasteland == b[i].is_wasteland,
    ensures
        member_groups(a) == member_groups(b),
    decreases a.len(),
{
    if a.len() > 0 {
        lemma_member_groups_congruent(a.drop_last(), b.drop_last());
        assert(a.last().group_key == b.last().group_key);
    }
}

impl SettlementRegistry {
    /// The factions that own non-wasteland provinces, in order of first
    /// appearance, each with the indices of its member provinces in order.
    pub fn faction_members(provinces: &Vec<Province>) -> (r: Vec<FactionMembers>)
        ensures
            members_view(r@) == member_groups(provinces@),
    {
        let ghost ps = provinces@;
        let mut r: Vec<FactionMembers> = Vec::new();
        let mut slots: StringHashMap<usize> = StringHashMap::new();
        let mut i: usize = 0;
        while i < provinces.len()
            invariant
                i <= provinces.len(),
                ps == provinces@,
                members_view(r@) == member_groups(ps.take(i as int)),
                forall|k: Seq<char>| #[trigger] slots@.contains_key(k) <==> slot_of(member_groups(ps.take(i as int)), k) is Some,
                forall|k: Seq<char>| #[trigger] slots@.contains_key(k) ==> slot_of(member_groups(ps.take(i as int)), k) == Some(slots@[k] as int),
            decreases provinces.len() - i,
        {
            let p = &provinces[i];
            let ghost prev = ps.take(i as int);
            let ghost next = ps.take(i + 1);
            let ghost old_r = r@;
            assert(next.drop_last() =~= prev);
            assert(next.last() == p);
            proof {
                lemma_slot_of(member_groups(prev), p.group_key@);
            }
            if !p.group_key.as_str().is_empty() && !p.is_wasteland {
                match slots.get(p.group_key.as_str()) {
                    Some(slot) => {
                        let slot = *slot;
                        r[slot].members.push(i);
                        proof {
                            assert(members_view(r@) =~= member_groups(next)) by {
                                assert forall|j: int| 0 <= j < r@.len() implies members_view(r@)[j] == member_groups(next)[j] by {
                                    if j == slot {
                                        assert(r@[j].members@.map_values(|u: usize| u as int) =~= old_r[j].members@.map_values(|u: usize| u as int).push(i as int));
                                    } else {
                                        assert(r@[j] == old_r[j]);
                                    }
                                }
                            }
                            assert forall|k: Seq<char>| slot_of(member_groups(next), k) == slot_of(member_groups(prev), k) by {
                                lemma_slot_of(member_groups(next), k);
                                lemma_slot_of(member_groups(prev), k);
                                assert forall|h: int| 0 <= h < member_groups(next).len() implies member_groups(next)[h].0 == member_groups(prev)[h].0 by {}
                            }
                        }
                    },
                    None => {
                        let mut members: Vec<usize> = Vec::new();
                        members.push(i);
                        let slot = r.len();
                        r.push(FactionMembers { key: p.group_key.clone(), members });
                        slots.insert(p.group_key.clone(), slot);
                        proof {
                            assert(members_view(r@) =~= member_groups(next)) by {
                                assert forall|j: int| 0 <= j < r@.len() implies members_view(r@)[j] == member_groups(next)[j] by {
                                    if j == slot {
                                        assert(r@[j].members@.map_values(|u: usize| u as int) =~= seq![i as int]);
                                    } else {
                                        assert(r@[j] == old_r[j]);
                                    }
                                }
                            }
                            let ghost pm = member_groups(prev);
                            let ghost nm = member_groups(next);
                            assert(nm == pm.push((p.group_key@, seq![i as int])));
                            assert forall|k: Seq<char>| #[trigger] slots@.contains_key(k) implies slot_of(nm, k) == Some(slots@[k] as int) by {
                                lemma_slot_of(pm, k);
                                if k != p.group_key@ {
                                    let v = slots@[k] as int;
                                    assert forall|h: int| 0 <= h < v implies nm[h].0 != k by {
                                        assert(nm[h] == pm[h]);
                                    }
                                    assert(nm[v] == pm[v]);
                                    lemma_slot_of_unique(nm, k, v);
                                } else {
                                    assert forall|h: int| 0 <= h < pm.len() implies nm[h].0 != k by {
                                        assert(nm[h] == pm[h]);
                                    }
                                    lemma_slot_of_unique(nm, k, pm.len() as int);
                                }
                            }
                            assert forall|k: Seq<char>| slot_of(nm, k) is Some implies #[trigger] slots@.contains_key(k) by {
                                lemma_slot_of(nm, k);
                                lemma_slot_of(pm, k);
                                if k != p.group_key@ {
                                    let j = slot_of(nm, k).unwrap();
                                    if j < pm.len() {
                                        assert(nm[j] == pm[j]);
                                    }
                                }
                            }
                        }
                    },
                }
            } else {
                assert(member_groups(next) == member_groups(prev));
            }
            i = i + 1;
        }
        assert(ps.take(i as int) =~= ps);
        r
    }
}


/// `p` keeps the identity, ownership and colour of `q`.
pub open spec fn same_place(p: Province, q: Province) -> bool {
    &&& p.index == q.index
    &&& p.id == q.id
    &&& p.name == q.name
    &&& p.group_key == q.group_key
    &&& p.group_label == q.group_label
    &&& p.color == q.color
    &&& p.is_wasteland == q.is_wasteland
}

fn settlement_key(id: &String) -> (key: String)
    ensures
        key@ == lookup_key(id@),
{
    let lowered = to_lowercase(id.as_str());
    replace_char(lowered.as_str(), '-', '_')
}

/// Sets each province's biome from its position and its settlement from the
/// predefined capitals and cities.
fn assign_predefined(provinces: &mut Vec<Province>, points: &Vec<GridPoint>)
    requires
        old(provinces)@.len() == points@.len(),
    ensures
        final(provinces)@.len() == old(provinces)@.len(),
        forall|i: int| 0 <= i < old(provinces)@.len() ==> {
            &&& same_place(#[trigger] final(provinces)@[i], old(provinces)@[i])
            &&& final(provinces)@[i].biome == biome_at(points@[i].x2 as int, points@[i].y2 as int)
            &&& settlement_view(final(provinces)@[i].settlement) == predefined_settlement(old(provinces)@[i])
        },
{
    let ghost ps = provinces@;
    let capitals = capital_table();
    let cities = city_table();
    let mut i: usize = 0;
    while i < provinces.len()
        invariant
            i <= provinces@.len(),
            provinces@.len() == ps.len(),
            ps.len() == points@.len(),
            table_view(capitals@) == capital_names(),
            table_view(cities@) == city_names(),
            forall|j: int| 0 <= j < i ==> {
                &&& same_place(#[trigger] provinces@[j], ps[j])
                &&& provinces@[j].biome == biome_at(points@[j].x2 as int, points@[j].y2 as int)
                &&& settlement_view(provinces@[j].settlement) == predefined_settlement(ps[j])
            },
            forall|j: int| i <= j < ps.len() ==> #[trigger] provinces@[j] == ps[j],
        decreases ps.len() - i,
    {
        provinces[i].biome = classify_biome(points[i]);
        let key = settlement_key(&provinces[i].id);
        match lookup(&capitals, &key) {
            Some(name) => {
                provinces[i].settlement = Some(SettlementInfo { name, tier: SettlementTier::Capital, is_capital: true });
            },
            None => match lookup(&cities, &key) {
                Some(name) => {
                    provinces[i].settlement = Some(SettlementInfo { name, tier: SettlementTier::City, is_capital: false });
                },
                None => {},
            },
        }
        i = i + 1;
    }
}


/// The integer view of a list of member indices.
pub open spec fn index_view(v: Seq<usize>) -> Seq<int> {
    v.map_values(|u: usize| u as int)
}

/// Province `i` is the new capital of one of the first `upto` factions.
pub open spec fn new_capital_upto(ps: Seq<Province>, central: Seq<usize>, i: int, upto: int) -> bool {
    &&& predefined_settlement(ps[i]) is None
    &&& exists|g: int| 0 <= g < upto && chosen_capital(ps, #[trigger] member_groups(ps)[g].1, central[g] as int) == i
}

/// Faction `gn` is `go` with its capital recorded, if it is one of the first
/// `upto` factions with members.
pub open spec fn capital_recorded(gn: MapGroup, go: MapGroup, ps: Seq<Province>, central: Seq<usize>, upto: int) -> bool {
    match slot_of(member_groups(ps), go.key@) {
        Some(f) => if f < upto {
            let c = chosen_capital(ps, member_groups(ps)[f].1, central[f] as int);
            &&& gn.key == go.key
            &&& gn.label == go.label
            &&& gn.paths == go.paths
            &&& gn.color == go.color
            &&& gn.capital_province_id matches Some(x) && x@ == ps[c].id@
            &&& gn.capital_name matches Some(nm) && nm@ == capital_name_of(ps, c)
        } else {
            gn == go
        },
        None => gn == go,
    }
}

/// `central` names, for each faction with members, one of its members.
pub open spec fn valid_fallbacks(ps: Seq<Province>, central: Seq<usize>) -> bool {
    &&& central.len() == member_groups(ps).len()
    &&& forall|g: int| 0 <= g < central.len() ==> member_groups(ps)[g].1.contains(#[trigger] central[g] as int)
}

/// The first capital among the members is one of them.
pub proof fn lemma_first_capital_member(ps: Seq<Province>, members: Seq<int>)
    ensures
        first_capital(ps, members) matches Some(c) ==> members.contains(c),
        first_settled(ps, members) matches Some(c) ==> members.contains(c),
    decreases members.len(),
{
    if members.len() > 0 {
        lemma_first_capital_member(ps, members.drop_first());
        if let Some(c) = first_capital(ps, members.drop_first()) {
            let j = members.drop_first().index_of(c);
            assert(members[j + 1] == c);
        }
        if let Some(c) = first_settled(ps, members.drop_first()) {
            let j = members.drop_first().index_of(c);
            assert(members[j + 1] == c);
        }
        assert(members[0] == members[0]);
    }
}

/// A faction's chosen capital is one of its members, and it is a member of
/// no other faction.
pub proof fn lemma_chosen_capital_member(ps: Seq<Province>, central: Seq<usize>, g: int)
    requires
        valid_fallbacks(ps, central),
        0 <= g < member_groups(ps).len(),
    ensures
        member_groups(ps)[g].1.contains(chosen_capital(ps, member_groups(ps)[g].1, central[g] as int)),
        forall|h: int| 0 <= h < member_groups(ps).len() && h != g ==> !#[trigger] member_groups(ps)[h].1.contains(chosen_capital(ps, member_groups(ps)[g].1, central[g] as int)),
{
    let mg = member_groups(ps);
    lemma_first_capital_member(ps, mg[g].1);
    lemma_member_groups(ps);
    let c = chosen_capital(ps, mg[g].1, central[g] as int);
    assert(mg[g].1.contains(c));
    assert forall|h: int| 0 <= h < mg.len() && h != g implies !#[trigger] mg[h].1.contains(c) by {
        if mg[h].1.contains(c) {
            let a = mg[h].1.index_of(c);
            let b = mg[g].1.index_of(c);
            assert(ps[mg[h].1[a]].group_key@ == mg[h].0);
            assert(ps[mg[g].1[b]].group_key@ == mg[g].0);
            if h < g {
                assert(mg[h].0 != mg[g].0);
            } else {
                assert(mg[g].0 != mg[h].0);
            }
        }
    }
}

/// Returns the capital of a faction from its members: the first whose
/// settlement is a capital, else the first with any settlement, else `fallback`.
fn pick_capital(provinces: &Vec<Province>, members: &Vec<usize>, fallback: usize, Ghost(ps): Ghost<Seq<Province>>) -> (c: usize)
    requires
        provinces@.len() == ps.len(),
        forall|j: int| 0 <= j < members@.len() ==> {
            &&& #[trigger] members@[j] < ps.len()
            &&& settlement_view(provinces@[members@[j] as int].settlement) == predefined_settlement(ps[members@[j] as int])
        },
    ensures
        c == chosen_capital(ps, index_view(members@), fallback as int),
{
    let ghost mv = index_view(members@);
    let mut j: usize = 0;
    assert(mv.skip(0) =~= mv);
    while j < members.len()
        invariant
            j <= members@.len(),
            provinces@.len() == ps.len(),
            forall|k: int| 0 <= k < members@.len() ==> {
                &&& #[trigger] members@[k] < ps.len()
                &&& settlement_view(provinces@[members@[k] as int].settlement) == predefined_settlement(ps[members@[k] as int])
            },
            mv == index_view(members@),
            first_capital(ps, mv) == first_capital(ps, mv.skip(j as int)),
        decreases members@.len() - j,
    {
        let idx = members[j];
        assert(idx == members@[j as int]);
        assert(idx < ps.len());
        assert(settlement_view(provinces@[idx as int].settlement) == predefined_settlement(ps[idx as int]));
        assert(mv.skip(j as int).drop_first() =~= mv.skip(j + 1));
        assert(mv.skip(j as int)[0] == idx as int);
        let is_capital = match &provinces[idx].settlement {
            Some(s) => s.tier == SettlementTier::Capital,
            None => false,
        };
        if is_capital {
            assert(first_capital(ps, mv) == Some(idx as int));
            return idx;
        }
        j = j + 1;
    }
    assert(first_capital(ps, mv.skip(j as int)) is None);
    let mut j: usize = 0;
    while j < members.len()
        invariant
            j <= members@.len(),
            provinces@.len() == ps.len(),
            forall|k: int| 0 <= k < members@.len() ==> {
                &&& #[trigger] members@[k] < ps.len()
                &&& settlement_view(provinces@[members@[k] as int].settlement) == predefined_settlement(ps[members@[k] as int])
            },
            mv == index_view(members@),
            first_capital(ps, mv) is None,
            first_settled(ps, mv) == first_settled(ps, mv.skip(j as int)),
        decreases members@.len() - j,
    {
        let idx = members[j];
        assert(idx == members@[j as int]);
        assert(idx < ps.len());
        assert(settlement_view(provinces@[idx as int].settlement) == predefined_settlement(ps[idx as int]));
        assert(mv.skip(j as int).drop_first() =~= mv.skip(j + 1));
        assert(mv.skip(j as int)[0] == idx as int);
        if provinces[idx].settlement.is_some() {
            return idx;
        }
        j = j + 1;
    }
    fallback
}


/// Gives every faction with members its capital: the chosen province gets
/// a capital settlement named after its id when it has no settlement, and
/// the faction records the capital's province id and name.
fn install_capitals(
    provinces: &mut Vec<Province>,
    groups: &mut Vec<MapGroup>,
    mg: &Vec<FactionMembers>,
    central: &Vec<usize>,
    Ghost(ps): Ghost<Seq<Province>>,
)
    requires
        old(provinces)@.len() == ps.len(),
        forall|i: int| 0 <= i < ps.len() ==> {
            &&& same_place(#[trigger] old(provinces)@[i], ps[i])
            &&& settlement_view(old(provinces)@[i].settlement) == predefined_settlement(ps[i])
        },
        members_view(mg@) == member_groups(ps),
        valid_fallbacks(ps, central@),
    ensures
        final(provinces)@.len() == ps.len(),
        forall|i: int| 0 <= i < ps.len() ==> {
            &&& same_place(#[trigger] final(provinces)@[i], ps[i])
            &&& final(provinces)@[i].biome == old(provinces)@[i].biome
            &&& settlement_view(final(provinces)@[i].settlement) == final_settlement(ps, central@, i)
        },
        final(groups)@.len() == old(groups)@.len(),
        forall|g: int| 0 <= g < old(groups)@.len() ==> capital_recorded(
            #[trigger] final(groups)@[g],
            old(groups)@[g],
            ps,
            central@,
            member_groups(ps).len() as int,
        ),
{
    let ghost mv = member_groups(ps);
    let ghost p1 = provinces@;
    let ghost g0 = groups@;
    proof {
        lemma_member_groups(ps);
        assert forall|g: int| 0 <= g < g0.len() implies capital_recorded(#[trigger] groups@[g], g0[g], ps, central@, 0) by {
            lemma_slot_of(mv, g0[g].key@);
        }
    }
    let mut f: usize = 0;
    while f < mg.len()
        invariant
            f <= mg@.len(),
            mv == member_groups(ps),
            members_view(mg@) == mv,
            mg@.len() == mv.len(),
            valid_fallbacks(ps, central@),
            provinces@.len() == ps.len(),
            p1.len() == ps.len(),
            forall|i: int| 0 <= i < ps.len() ==> {
                &&& same_place(#[trigger] provinces@[i], ps[i])
                &&& provinces@[i].biome == p1[i].biome
                &&& settlement_view(provinces@[i].settlement) == if new_capital_upto(ps, central@, i, f as int) {
                    Some((location_name(ps[i].id@), SettlementTier::Capital, true))
                } else {
                    predefined_settlement(ps[i])
                }
            },
            groups@.len() == g0.len(),
            forall|g: int| 0 <= g < g0.len() ==> capital_recorded(#[trigger] groups@[g], g0[g], ps, central@, f as int),
            forall|a: int, b: int| 0 <= a < b < mv.len() ==> #[trigger] mv[a].0 != #[trigger] mv[b].0,
            forall|g: int, j: int| 0 <= g < mv.len() && 0 <= j < mv[g].1.len() ==> {
                let m = #[trigger] mv[g].1[j];
                &&& 0 <= m < ps.len()
                &&& is_member(ps[m])
                &&& ps[m].group_key@ == mv[g].0
            },
        decreases mg@.len() - f,
    {
        let members = &mg[f].members;
        let ghost mf = mv[f as int].1;
        assert(index_view(members@) == mf) by {
            assert(members_view(mg@)[f as int] == mv[f as int]);
        }
        assert(mg[f as int].key@ == mv[f as int].0) by {
            assert(members_view(mg@)[f as int] == mv[f as int]);
        }
        proof {
            assert forall|j: int| 0 <= j < members@.len() implies {
                &&& #[trigger] members@[j] < ps.len()
                &&& settlement_view(provinces@[members@[j] as int].settlement) == predefined_settlement(ps[members@[j] as int])
            } by {
                let m = members@[j] as int;
                assert(mf[j] == m);
                assert(0 <= m < ps.len());
                if new_capital_upto(ps, central@, m, f as int) {
                    let h = choose|h: int| 0 <= h < f && chosen_capital(ps, #[trigger] mv[h].1, central@[h] as int) == m;
                    lemma_chosen_capital_member(ps, central@, h);
                    assert(mv[f as int].1.contains(m));
                }
            }
        }
        let c = pick_capital(provinces, members, central[f], Ghost(ps));
        proof {
            lemma_chosen_capital_member(ps, central@, f as int);
        }
        assert(c == chosen_capital(ps, mf, central@[f as int] as int));
        let ghost cj = mf.index_of(c as int);
        assert(c < ps.len());
        let ghost before = provinces@;
        let cap_name = match &provinces[c].settlement {
            Some(s) => s.name.clone(),
            None => {
                let formatted = format_location_name(provinces[c].id.as_str());
                provinces[c].settlement = Some(SettlementInfo {
                    name: formatted.clone(),
                    tier: SettlementTier::Capital,
                    is_capital: true,
                });
                formatted
            },
        };
        proof {
            assert(!new_capital_upto(ps, central@, c as int, f as int)) by {
                if new_capital_upto(ps, central@, c as int, f as int) {
                    let h = choose|h: int| 0 <= h < f && chosen_capital(ps, #[trigger] mv[h].1, central@[h] as int) == c;
                    lemma_chosen_capital_member(ps, central@, h);
                }
            }
            assert(cap_name@ == capital_name_of(ps, c as int));
            assert forall|i: int| 0 <= i < ps.len() implies new_capital_upto(ps, central@, i, f + 1) == (new_capital_upto(ps, central@, i, f as int) || (i == c && predefined_settlement(ps[i]) is None)) by {
                if new_capital_upto(ps, central@, i, f + 1) && !new_capital_upto(ps, central@, i, f as int) {
                    let h = choose|h: int| 0 <= h < f + 1 && chosen_capital(ps, #[trigger] mv[h].1, central@[h] as int) == i;
                    assert(h == f);
                }
                if i == c && predefined_settlement(ps[i]) is None {
                    assert(chosen_capital(ps, mv[f as int].1, central@[f as int] as int) == i);
                }
            }
        }
        let ghost groups_before = groups@;
        let mut gi: usize = 0;
        while gi < groups.len()
            invariant
                gi <= groups@.len(),
                groups@.len() == g0.len(),
                groups_before.len() == g0.len(),
                f < mv.len(),
                mg@.len() == mv.len(),
                mv == member_groups(ps),
                mg[f as int].key@ == mv[f as int].0,
                c < ps.len(),
                c == chosen_capital(ps, mv[f as int].1, central@[f as int] as int),
                cap_name@ == capital_name_of(ps, c as int),
                provinces@.len() == ps.len(),
                provinces@[c as int].id == ps[c as int].id,
                forall|a: int, b: int| 0 <= a < b < mv.len() ==> #[trigger] mv[a].0 != #[trigger] mv[b].0,
                forall|g: int| 0 <= g < g0.len() ==> capital_recorded(#[trigger] groups_before[g], g0[g], ps, central@, f as int),
                forall|g: int| 0 <= g < gi ==> capital_recorded(#[trigger] groups@[g], g0[g], ps, central@, f + 1),
                forall|g: int| gi <= g < g0.len() ==> #[trigger] groups@[g] == groups_before[g],
            decreases g0.len() - gi,
        {
            let ghost go = g0[gi as int];
            proof {
                lemma_slot_of(mv, go.key@);
                if mv[f as int].0 == go.key@ {
                    lemma_slot_of_unique(mv, go.key@, f as int);
                }
            }
            if groups[gi].key == mg[f].key {
                groups[gi].capital_province_id = Some(provinces[c].id.clone());
                groups[gi].capital_name = Some(cap_name.clone());
            }
            proof {
                let gb = groups_before[gi as int];
                assert(capital_recorded(gb, go, ps, central@, f as int));
                match slot_of(mv, go.key@) {
                    Some(h) => {
                        if h < f {
                            assert(gb.key == go.key);
                            assert(mv[h].0 != mv[f as int].0);
                        }
                    },
                    None => {},
                }
            }
            gi = gi + 1;
        }
        f = f + 1;
    }
    proof {
        assert forall|i: int| 0 <= i < ps.len() implies new_capital_upto(ps, central@, i, f as int) == is_new_capital(ps, central@, i) by {}
    }
}


/// Appends the registry entries of tier `t`, in province order.
fn collect_tier(provinces: &Vec<Province>, t: SettlementTier, out: &mut Vec<Settlement>)
    ensures
        final(out)@.map_values(|s: Settlement| entry_view(s)) == old(out)@.map_values(|s: Settlement| entry_view(s))
            + entries_of_tier(provinces@, t),
        forall|j: int| 0 <= j < final(out)@.len() ==> (#[trigger] final(out)@[j]).is_coastal == (if j < old(out)@.len() { old(out)@[j].is_coastal } else { false }),
        final(out)@.len() >= old(out)@.len(),
{
    let ghost ps = provinces@;
    let ghost start = out@;
    let mut i: usize = 0;
    while i < provinces.len()
        invariant
            i <= ps.len(),
            ps == provinces@,
            out@.len() >= start.len(),
            out@.map_values(|s: Settlement| entry_view(s)) == start.map_values(|s: Settlement| entry_view(s))
                + entries_of_tier(ps.take(i as int), t),
            forall|j: int| 0 <= j < out@.len() ==> (#[trigger] out@[j]).is_coastal == (if j < start.len() { start[j].is_coastal } else { false }),
        decreases ps.len() - i,
    {
        let p = &provinces[i];
        let ghost prev = ps.take(i as int);
        assert(ps.take(i + 1).drop_last() =~= prev);
        assert(ps.take(i + 1).last() == ps[i as int]);
        let ghost before = out@;
        match &p.settlement {
            Some(s) => {
                if s.tier == t {
                    let e = Settlement {
                        name: s.name.clone(),
                        province_id: p.id.clone(),
                        province_index: i,
                        tier: s.tier,
                        group_key: p.group_key.clone(),
                        is_coastal: false,
                    };
                    out.push(e);
                    assert(out@.map_values(|s: Settlement| entry_view(s)) =~= before.map_values(|s: Settlement| entry_view(s)).push(entry_view(e)));
                }
            },
            None => {},
        }
        i = i + 1;
    }
    assert(ps.take(i as int) =~= ps);
}

impl SettlementRegistry {
    /// Builds the settlement registry and updates provinces and factions:
    /// each province gets the biome at its position (`points`, one per
    /// province) and its predefined capital or city; every faction with
    /// non-wasteland provinces gets a capital (its first predefined capital,
    /// else its first settlement, else its most central member, given by
    /// `central`, one per entry of `faction_members`), and the registry lists
    /// all settlements, capitals first, then cities, then towns.
    pub fn build(
        provinces: &mut Vec<Province>,
        groups: &mut Vec<MapGroup>,
        points: &Vec<GridPoint>,
        central: &Vec<usize>,
    ) -> (reg: Self)
        requires
            old(provinces)@.len() == points@.len(),
            valid_fallbacks(old(provinces)@, central@),
        ensures
            final(provinces)@.len() == old(provinces)@.len(),
            forall|i: int| 0 <= i < old(provinces)@.len() ==> {
                &&& same_place(#[trigger] final(provinces)@[i], old(provinces)@[i])
                &&& final(provinces)@[i].biome == biome_at(points@[i].x2 as int, points@[i].y2 as int)
                &&& settlement_view(final(provinces)@[i].settlement) == final_settlement(old(provinces)@, central@, i)
            },
            final(groups)@.len() == old(groups)@.len(),
            forall|g: int| 0 <= g < old(groups)@.len() ==> capital_recorded(
                #[trigger] final(groups)@[g],
                old(groups)@[g],
                old(provinces)@,
                central@,
                member_groups(old(provinces)@).len() as int,
            ),
            reg.settlements@.map_values(|s: Settlement| entry_view(s)) == ranked_entries(final(provinces)@),
            forall|j: int| 0 <= j < reg.settlements@.len() ==> !(#[trigger] reg.settlements@[j]).is_coastal,
    {
        let ghost ps = provinces@;
        assign_predefined(provinces, points);
        let mg = Self::faction_members(provinces);
        proof {
            lemma_member_groups_congruent(provinces@, ps);
        }
        install_capitals(provinces, groups, &mg, central, Ghost(ps));
        let mut settlements: Vec<Settlement> = Vec::new();
        assert(settlements@.map_values(|s: Settlement| entry_view(s)) =~= Seq::<(Seq<char>, Seq<char>, int, SettlementTier, Seq<char>)>::empty());
        collect_tier(provinces, SettlementTier::Capital, &mut settlements);
        collect_tier(provinces, SettlementTier::City, &mut settlements);
        collect_tier(provinces, SettlementTier::Town, &mut settlements);
        assert(settlements@.map_values(|s: Settlement| entry_view(s)) =~= ranked_entries(provinces@));
        SettlementRegistry { settlements }
    }
}

/// Every faction that owns a non-wasteland province ends with a capital:
/// the registry records as its capital one of its own non-wasteland
/// provinces, and that province holds a settlement.
pub proof fn lemma_every_faction_gets_capital(
    ps: Seq<Province>,
    central: Seq<usize>,
    gn: MapGroup,
    go: MapGroup,
    i: int,
)
    requires
        valid_fallbacks(ps, central),
        capital_recorded(gn, go, ps, central, member_groups(ps).len() as int),
        0 <= i < ps.len(),
        is_member(ps[i]),
        ps[i].group_key@ == go.key@,
    ensures
        gn.capital_province_id is Some,
        exists|c: int| {
            &&& 0 <= c < ps.len()
            &&& gn.capital_province_id.unwrap()@ == (#[trigger] ps[c]).id@
            &&& ps[c].group_key@ == go.key@
            &&& is_member(ps[c])
            &&& final_settlement(ps, central, c) is Some
        },
{
    let mg = member_groups(ps);
    lemma_member_groups(ps);
    lemma_member_groups_contains(ps, i);
    lemma_slot_of(mg, go.key@);
    let f = slot_of(mg, go.key@).unwrap();
    lemma_chosen_capital_member(ps, central, f);
    let c = chosen_capital(ps, mg[f].1, central[f] as int);
    let j = mg[f].1.index_of(c);
    assert(mg[f].1[j] == c);
    if predefined_settlement(ps[c]) is None {
        assert(is_new_capital(ps, central, c));
    }
}

/// The character sequence of an optional string.
pub open spec fn opt_string_view(o: Option<String>) -> Option<Seq<char>> {
    match o {
        Some(x) => Some(x@),
        None => None,
    }
}

/// `p1` is `p` as one registry build leaves it.
pub open spec fn built_province(p1: Province, p: Province, ps: Seq<Province>, points: Seq<GridPoint>, central: Seq<usize>, i: int) -> bool {
    &&& same_place(p1, p)
    &&& p1.biome == biome_at(points[i].x2 as int, points[i].y2 as int)
    &&& settlement_view(p1.settlement) == final_settlement(ps, central, i)
}

proof fn lemma_first_congruent(a: Seq<Province>, b: Seq<Province>, m: Seq<int>)
    requires
        forall|j: int| 0 <= j < m.len() ==> predefined_settlement(a[#[trigger] m[j]]) == predefined_settlement(b[m[j]]),
    ensures
        first_capital(a, m) == first_capital(b, m),
        first_settled(a, m) == first_settled(b, m),
    decreases m.len(),
{
    if m.len() > 0 {
        assert(predefined_settlement(a[m[0]]) == predefined_settlement(b[m[0]]));
        assert forall|j: int| 0 <= j < m.drop_first().len() implies predefined_settlement(a[#[trigger] m.drop_first()[j]]) == predefined_settlement(b[m.drop_first()[j]]) by {
            assert(m.drop_first()[j] == m[j + 1]);
        }
        lemma_first_congruent(a, b, m.drop_first());
    }
}

proof fn lemma_first_none(ps: Seq<Province>, m: Seq<int>)
    ensures
        first_settled(ps, m) is None ==> forall|j: int| 0 <= j < m.len() ==> predefined_settlement(ps[#[trigger] m[j]]) is None,
    decreases m.len(),
{
    if m.len() > 0 {
        lemma_first_none(ps, m.drop_first());
        if first_settled(ps, m) is None {
            assert forall|j: int| 0 <= j < m.len() implies predefined_settlement(ps[#[trigger] m[j]]) is None by {
                if j > 0 {
                    assert(m[j] == m.drop_first()[j - 1]);
                }
            }
        }
    }
}

proof fn lemma_only_capital(ps: Seq<Province>, m: Seq<int>, c: int)
    requires
        m.contains(c),
        predefined_settlement(ps[c]) matches Some(v) && v.1 == SettlementTier::Capital,
        forall|j: int| 0 <= j < m.len() && m[j] != c ==> predefined_settlement(ps[#[trigger] m[j]]) is None,
    ensures
        first_capital(ps, m) == Some(c),
    decreases m.len(),
{
    if m[0] != c {
        assert(predefined_settlement(ps[m[0]]) is None);
        let j = m.index_of(c);
        assert(m.drop_first()[j - 1] == c);
        assert forall|k: int| 0 <= k < m.drop_first().len() && m.drop_first()[k] != c implies predefined_settlement(ps[#[trigger] m.drop_first()[k]]) is None by {
            assert(m.drop_first()[k] == m[k + 1]);
        }
        lemma_only_capital(ps, m.drop_first(), c);
    }
}

/// A faction's capital is chosen again as its capital on a second build.
proof fn lemma_rebuild_same_capital(ps: Seq<Province>, ps1: Seq<Province>, central: Seq<usize>, g: int)
    requires
        valid_fallbacks(ps, central),
        ps1.len() == ps.len(),
        forall|i: int| 0 <= i < ps.len() ==> predefined_settlement(#[trigger] ps1[i]) == final_settlement(ps, central, i),
        0 <= g < member_groups(ps).len(),
    ensures
        chosen_capital(ps1, member_groups(ps)[g].1, central[g] as int) == chosen_capital(ps, member_groups(ps)[g].1, central[g] as int),
{
    let mg = member_groups(ps);
    let m = mg[g].1;
    let f = central[g] as int;
    let c = chosen_capital(ps, m, f);
    lemma_member_groups(ps);
    lemma_chosen_capital_member(ps, central, g);
    assert forall|j: int| 0 <= j < m.len() && m[j] != c implies final_settlement(ps, central, #[trigger] m[j]) == predefined_settlement(ps[m[j]]) by {
        let x = m[j];
        if is_new_capital(ps, central, x) {
            let h = choose|h: int| 0 <= h < mg.len() && chosen_capital(ps, #[trigger] mg[h].1, central[h] as int) == x;
            lemma_chosen_capital_member(ps, central, h);
            if h != g {
                assert(m.contains(x));
            }
        }
    }
    assert(0 <= m.index_of(c) < m.len());
    assert(0 <= m.index_of(c) && m[m.index_of(c)] == c);
    if predefined_settlement(ps[c]) is Some {
        assert(!is_new_capital(ps, central, c));
        assert forall|j: int| 0 <= j < m.len() implies predefined_settlement(ps1[#[trigger] m[j]]) == predefined_settlement(ps[m[j]]) by {
            assert(0 <= m[j] < ps.len());
        }
        lemma_first_congruent(ps1, ps, m);
        if first_capital(ps, m) is None && first_settled(ps, m) is None {
            lemma_first_none(ps, m);
            assert(predefined_settlement(ps[m[m.index_of(c)]]) is None);
        }
    } else {
        assert(first_capital(ps, m) is None && first_settled(ps, m) is None) by {
            lemma_first_settled_is_settled(ps, m);
        }
        lemma_first_none(ps, m);
        assert(is_new_capital(ps, central, c));
        assert forall|j: int| 0 <= j < m.len() && m[j] != c implies predefined_settlement(ps1[#[trigger] m[j]]) is None by {
            assert(0 <= m[j] < ps.len());
        }
        assert(predefined_settlement(ps1[c]) == final_settlement(ps, central, c));
        lemma_only_capital(ps1, m, c);
    }
}

proof fn lemma_first_settled_is_settled(ps: Seq<Province>, m: Seq<int>)
    ensures
        first_settled(ps, m) matches Some(c) ==> predefined_settlement(ps[c]) is Some,
        first_capital(ps, m) matches Some(c) ==> predefined_settlement(ps[c]) is Some,
    decreases m.len(),
{
    if m.len() > 0 {
        lemma_first_settled_is_settled(ps, m.drop_first());
    }
}

proof fn lemma_entries_congruent(a: Seq<Province>, b: Seq<Province>, t: SettlementTier)
    requires
        a.len() == b.len(),
        forall|i: int| 0 <= i < a.len() ==> {
            &&& settlement_view(#[trigger] a[i].settlement) == settlement_view(b[i].settlement)
            &&& a[i].id == b[i].id
            &&& a[i].group_key == b[i].group_key
        },
    ensures
        entries_of_tier(a, t) == entries_of_tier(b, t),
    decreases a.len(),
{
    if a.len() > 0 {
        lemma_entries_congruent(a.drop_last(), b.drop_last(), t);
        assert(settlement_view(a[a.len() - 1].settlement) == settlement_view(b[a.len() - 1].settlement));
    }
}

/// Rebuilding the registry changes nothing: when `ps1` and `g1` are what one
/// build made of `ps` and `g0`, a second build with the same positions and
/// central members may be run (`central` still names a member of each
/// faction), and it leaves every province with the same place, biome and
/// settlement, records the same capital for the faction, and lists the same
/// registry entries.
pub proof fn lemma_rebuild_changes_nothing(
    ps: Seq<Province>,
    ps1: Seq<Province>,
    ps2: Seq<Province>,
    points: Seq<GridPoint>,
    central: Seq<usize>,
    g0: MapGroup,
    g1: MapGroup,
    g2: MapGroup,
)
    requires
        valid_fallbacks(ps, central),
        points.len() == ps.len(),
        ps1.len() == ps.len(),
        ps2.len() == ps.len(),
        forall|i: int| 0 <= i < ps.len() ==> built_province(#[trigger] ps1[i], ps[i], ps, points, central, i),
        forall|i: int| 0 <= i < ps.len() ==> built_province(#[trigger] ps2[i], ps1[i], ps1, points, central, i),
        capital_recorded(g1, g0, ps, central, member_groups(ps).len() as int),
        capital_recorded(g2, g1, ps1, central, member_groups(ps1).len() as int),
    ensures
        valid_fallbacks(ps1, central),
        forall|i: int| 0 <= i < ps.len() ==> {
            &&& same_place(#[trigger] ps2[i], ps1[i])
            &&& ps2[i].biome == ps1[i].biome
            &&& settlement_view(ps2[i].settlement) == settlement_view(ps1[i].settlement)
        },
        g2.key == g1.key && g2.label == g1.label && g2.paths == g1.paths && g2.color == g1.color,
        opt_string_view(g2.capital_province_id) == opt_string_view(g1.capital_province_id),
        opt_string_view(g2.capital_name) == opt_string_view(g1.capital_name),
        ranked_entries(ps2) == ranked_entries(ps1),
{
    assert forall|i: int| 0 <= i < ps.len() implies ps1[i].group_key == ps[i].group_key && ps1[i].is_wasteland == ps[i].is_wasteland by {
        assert(built_province(ps1[i], ps[i], ps, points, central, i));
    }
    lemma_member_groups_congruent(ps1, ps);
    let mg = member_groups(ps);
    assert forall|i: int| 0 <= i < ps.len() implies predefined_settlement(#[trigger] ps1[i]) == final_settlement(ps, central, i) by {
        assert(built_province(ps1[i], ps[i], ps, points, central, i));
        assert(lookup_key(ps1[i].id@) == lookup_key(ps[i].id@));
    }
    assert forall|g: int| 0 <= g < mg.len() implies chosen_capital(ps1, #[trigger] mg[g].1, central[g] as int) == chosen_capital(ps, mg[g].1, central[g] as int) by {
        lemma_rebuild_same_capital(ps, ps1, central, g);
    }
    assert forall|i: int| 0 <= i < ps.len() implies final_settlement(ps1, central, i) == final_settlement(ps, central, i) by {
        if is_new_capital(ps1, central, i) {
            let g = choose|g: int| 0 <= g < mg.len() && chosen_capital(ps1, #[trigger] mg[g].1, central[g] as int) == i;
            assert(chosen_capital(ps, mg[g].1, central[g] as int) == i);
            assert(predefined_settlement(ps[i]) is None) by {
                if predefined_settlement(ps[i]) is Some {
                    assert(!is_new_capital(ps, central, i));
                }
            }
            assert(is_new_capital(ps, central, i));
        }
    }
    assert forall|i: int| 0 <= i < ps.len() implies {
        &&& same_place(#[trigger] ps2[i], ps1[i])
        &&& ps2[i].biome == ps1[i].biome
        &&& settlement_view(ps2[i].settlement) == settlement_view(ps1[i].settlement)
    } by {
        assert(built_province(ps1[i], ps[i], ps, points, central, i));
        assert(built_province(ps2[i], ps1[i], ps1, points, central, i));
    }
    lemma_entries_congruent(ps2, ps1, SettlementTier::Capital);
    lemma_entries_congruent(ps2, ps1, SettlementTier::City);
    lemma_entries_congruent(ps2, ps1, SettlementTier::Town);
    lemma_slot_of(mg, g0.key@);
    match slot_of(mg, g0.key@) {
        Some(f) => {
            let c = chosen_capital(ps, mg[f].1, central[f] as int);
            lemma_chosen_capital_member(ps, central, f);
            lemma_member_groups(ps);
            let j = mg[f].1.index_of(c);
            assert(0 <= c < ps.len());
            assert(built_province(ps1[c], ps[c], ps, points, central, c));
            assert(capital_name_of(ps1, c) == capital_name_of(ps, c)) by {
                if predefined_settlement(ps[c]) is None {
                    assert(is_new_capital(ps, central, c));
                } else {
                    assert(!is_new_capital(ps, central, c));
                }
            }
        },
        None => {},
    }
}

/// Every member province belongs to the faction listed under its key.
pub proof fn lemma_member_groups_contains(ps: Seq<Province>, i: int)
    requires
        0 <= i < ps.len(),
        is_member(ps[i]),
    ensures
        slot_of(member_groups(ps), ps[i].group_key@) matches Some(f) && member_groups(ps)[f].1.contains(i),
    decreases ps.len(),
{
    let prev_ps = ps.drop_last();
    let prev = member_groups(prev_ps);
    let k = ps[i].group_key@;
    lemma_slot_of(prev, ps.last().group_key@);
    lemma_slot_of(member_groups(ps), k);
    if i < ps.len() - 1 {
        assert(prev_ps[i] == ps[i]);
        lemma_member_groups_contains(prev_ps, i);
        lemma_slot_of(prev, k);
        let f = slot_of(prev, k).unwrap();
        let a = prev[f].1.index_of(i);
        let mg = member_groups(ps);
        assert(mg[f].0 == k);
        assert(mg[f].1[a] == i);
        assert forall|h: int| 0 <= h < f implies mg[h].0 != k by {
            assert(mg[h].0 == prev[h].0);
        }
        lemma_slot_of_unique(mg, k, f);
    } else {
        let mg = member_groups(ps);
        match slot_of(prev, k) {
            Some(f) => {
                assert(mg[f].1[mg[f].1.len() - 1] == i);
                assert forall|h: int| 0 <= h < f implies mg[h].0 != k by {
                    assert(mg[h].0 == prev[h].0);
                }
                lemma_slot_of_unique(mg, k, f);
            },
            None => {
                let f = prev.len() as int;
                assert(mg[f].1[0] == i);
                assert forall|h: int| 0 <= h < f implies mg[h].0 != k by {
                    assert(mg[h].0 == prev[h].0);
                }
                lemma_slot_of_unique(mg, k, f);
            },
        }
    }
}

/// Candidate `k` is close to none of the settlements in `kept`.
pub open spec fn clear_of(close: Seq<Vec<bool>>, kept: Seq<usize>, k: int) -> bool {
    forall|i: int| 0 <= i < kept.len() ==> !close[k]@[#[trigger] kept[i] as int]
}

/// The settlements shown among the first `k` candidates, in candidate
/// order: a candidate is shown when it is exempt from spacing (a capital
/// when zoomed in) or lies close to no candidate shown before it.
pub open spec fn spaced_selection(exempt: Seq<bool>, close: Seq<Vec<bool>>, k: int) -> Seq<usize>
    decreases k,
{
    if k <= 0 {
        seq![]
    } else {
        let prev = spaced_selection(exempt, close, k - 1);
        if exempt[k - 1] || clear_of(close, prev, k - 1) {
            prev.push((k - 1) as usize)
        } else {
            prev
        }
    }
}

proof fn lemma_spaced_selection_bounds(exempt: Seq<bool>, close: Seq<Vec<bool>>, k: int)
    requires
        0 <= k <= usize::MAX,
    ensures
        forall|i: int| 0 <= i < spaced_selection(exempt, close, k).len() ==> #[trigger] spaced_selection(exempt, close, k)[i] < k,
        spaced_selection(exempt, close, k).len() <= k,
    decreases k,
{
    if k > 0 {
        lemma_spaced_selection_bounds(exempt, close, k - 1);
    }
}

/// Spacing keeps exactly the right candidates: the shown candidates are
/// listed in increasing order, and candidate `k` is shown exactly when it is
/// exempt or lies close to none of the candidates shown before it. So a
/// non-exempt shown candidate is clear of every earlier shown one, and a
/// dropped candidate is close to at least one of them.
pub proof fn lemma_spacing_keeps_clear_candidates(exempt: Seq<bool>, close: Seq<Vec<bool>>, n: int)
    requires
        0 <= n <= usize::MAX,
    ensures
        ({
            let s = spaced_selection(exempt, close, n);
            &&& forall|a: int, b: int| 0 <= a < b < s.len() ==> #[trigger] s[a] < #[trigger] s[b]
            &&& forall|a: int| 0 <= a < s.len() ==> #[trigger] s[a] < n
            &&& forall|k: usize|
                k < n ==> (#[trigger] s.contains(k) <==> (exempt[k as int] || forall|a: int|
                    0 <= a < s.len() && s[a] < k ==> !close[k as int]@[#[trigger] s[a] as int]))
        }),
    decreases n,
{
    lemma_spaced_selection_bounds(exempt, close, n);
    if n > 0 {
        lemma_spacing_keeps_clear_candidates(exempt, close, n - 1);
        lemma_spaced_selection_bounds(exempt, close, n - 1);
        let p = spaced_selection(exempt, close, n - 1);
        let s = spaced_selection(exempt, close, n);
        let last = (n - 1) as usize;
        assert forall|k: usize| k < n implies (#[trigger] s.contains(k) <==> (exempt[k as int] || forall|a: int|
            0 <= a < s.len() && s[a] < k ==> !close[k as int]@[#[trigger] s[a] as int])) by {
            if s != p {
                assert(s == p.push(last));
                assert(s[p.len() as int] == last);
            }
            // Members of `s` below `k` are the members of `p` below `k` (for k < n - 1),
            // and all of `p` for k == n - 1.
            if s.contains(k) {
                let i = choose|i: int| 0 <= i < s.len() && s[i] == k;
                if i < p.len() {
                    assert(p[i] == k);
                }
            }
            if p.contains(k) {
                let i = choose|i: int| 0 <= i < p.len() && p[i] == k;
                assert(s[i] == k);
            }
            assert forall|a: int| 0 <= a < s.len() && s[a] < k implies (a < p.len() && s[a] == p[a]) by {
                if a >= p.len() {
                    assert(s[a] == last);
                }
            }
            if (k as int) < n - 1 {
                assert(!p.contains(k) ==> !s.contains(k)) by {
                    if s.contains(k) && !p.contains(k) {
                        let i = choose|i: int| 0 <= i < s.len() && s[i] == k;
                        assert(i >= p.len());
                        assert(s[i] == last);
                    }
                }
                assert((forall|a: int| 0 <= a < s.len() && s[a] < k ==> !close[k as int]@[s[a] as int]) <==> (
                forall|a: int| 0 <= a < p.len() && p[a] < k ==> !close[k as int]@[p[a] as int])) by {
                    if forall|a: int| 0 <= a < p.len() && p[a] < k ==> !close[k as int]@[p[a] as int] {
                        assert forall|a: int| 0 <= a < s.len() && s[a] < k implies !close[k as int]@[s[a] as int] by {
                            assert(p[a] == s[a]);
                        }
                    }
                    if forall|a: int| 0 <= a < s.len() && s[a] < k ==> !close[k as int]@[s[a] as int] {
                        assert forall|a: int| 0 <= a < p.len() && p[a] < k implies !close[k as int]@[p[a] as int] by {
                            assert(s[a] == p[a]);
                        }
                    }
                }
            } else {
                assert(k == last);
                assert(!p.contains(k)) by {
                    if p.contains(k) {
                        let i = choose|i: int| 0 <= i < p.len() && p[i] == k;
                        assert(p[i] < n - 1);
                    }
                }
                assert(clear_of(close, p, n - 1) <==> (forall|a: int| 0 <= a < s.len() && s[a] < k ==> !close[k as int]@[s[a] as int])) by {
                    if clear_of(close, p, n - 1) {
                        assert forall|a: int| 0 <= a < s.len() && s[a] < k implies !close[k as int]@[s[a] as int] by {
                            assert(s[a] == p[a]);
                        }
                    }
                    if forall|a: int| 0 <= a < s.len() && s[a] < k ==> !close[k as int]@[s[a] as int] {
                        assert forall|i: int| 0 <= i < p.len() implies !close[n - 1]@[#[trigger] p[i] as int] by {
                            assert(s[i] == p[i]);
                            assert(p[i] < n - 1);
                        }
                    }
                }
            }
        }
        assert forall|a: int, b: int| 0 <= a < b < s.len() implies #[trigger] s[a] < #[trigger] s[b] by {
            if b >= p.len() {
                assert(s[b] == last);
                assert(s[a] == p[a]);
            } else {
                assert(s[a] == p[a] && s[b] == p[b]);
            }
        }
    }
}

/// Thins the visible candidates so that settlements do not crowd each other:
/// `exempt[k]` says candidate `k` is shown regardless of spacing, and
/// `close[k][j]` that candidate `k` lies within the minimum spacing of
/// candidate `j`. Returns the shown candidates in order.
pub fn select_spaced(exempt: &Vec<bool>, close: &Vec<Vec<bool>>) -> (kept: Vec<usize>)
    requires
        close@.len() == exempt@.len(),
        forall|k: int| 0 <= k < close@.len() ==> (#[trigger] close@[k])@.len() == close@.len(),
    ensures
        kept@ == spaced_selection(exempt@, close@, exempt@.len() as int),
{
    let mut kept: Vec<usize> = Vec::new();
    let mut k: usize = 0;
    while k < exempt.len()
        invariant
            k <= exempt@.len(),
            close@.len() == exempt@.len(),
            forall|q: int| 0 <= q < close@.len() ==> (#[trigger] close@[q])@.len() == close@.len(),
            kept@ == spaced_selection(exempt@, close@, k as int),
        decreases exempt@.len() - k,
    {
        proof {
            lemma_spaced_selection_bounds(exempt@, close@, k as int);
        }
        let keep = if exempt[k] {
            true
        } else {
            let row = &close[k];
            let mut clear = true;
            let mut i: usize = 0;
            while i < kept.len()
                invariant
                    i <= kept@.len(),
                    row@.len() == exempt@.len(),
                    row@ == close@[k as int]@,
                    k < exempt@.len(),
                    forall|q: int| 0 <= q < kept@.len() ==> #[trigger] kept@[q] < k,
                    clear == (forall|q: int| 0 <= q < i ==> !row@[#[trigger] kept@[q] as int]),
                decreases kept@.len() - i,
            {
                if row[kept[i]] {
                    clear = false;
                }
                i = i + 1;
            }
            clear
        };
        if keep {
            kept.push(k);
        }
        k = k + 1;
    }
    kept
}

} // verus!
