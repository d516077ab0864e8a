//! Which factions get a nation label, and which provinces it is laid out over.

use vstd::prelude::*;
use vstd::hash_map::StringHashMap;
use crate::parser::strings_view;
use crate::text::{
    chars_of, contains_chars, contains_seq, string_from_chars, to_uppercase, trim_seq,
    trimmed_chars, uppercase,
};
use crate::types::MapGroup;

verus! {

/// The uppercase words whose presence in a faction label suppresses its
/// nation label (wastelands, unassigned land and joke factions).
pub open spec fn excluded_words() -> Seq<Seq<char>> {
    seq![
        "WASTELAND"@,
        "UNASSIGNED"@,
        "ASSORTED GROUPS"@,
        "BLESS THE RAINS"@,
        "NE VALYAY"@,
        "CHTO SIBIR"@,
        "LAND DOWN UNDA"@,
    ]
}

/// A faction labelled `label` gets a nation label: its trimmed label is not
/// empty and its uppercase form contains none of the excluded words.
pub open spec fn is_labelled_nation(label: Seq<char>) -> bool {
    let name = trim_seq(label);
    let upper = uppercase(name);
    name.len() > 0 && forall|w: int| 0 <= w < excluded_words().len() ==> !contains_seq(upper, #[trigger] excluded_words()[w])
}

/// Which labels get a nation label: a label whose trimmed form is empty
/// gets none, and so does one whose trimmed uppercase form contains any of
/// WASTELAND, UNASSIGNED, ASSORTED GROUPS, BLESS THE RAINS, NE VALYAY,
/// CHTO SIBIR or LAND DOWN UNDA; every other label gets one.
pub proof fn lemma_labelled_nations(label: Seq<char>)
    ensures
        ({
            let upper = uppercase(trim_seq(label));
            &&& trim_seq(label).len() == 0 ==> !is_labelled_nation(label)
            &&& contains_seq(upper, "WASTELAND"@) ==> !is_labelled_nation(label)
            &&& contains_seq(upper, "UNASSIGNED"@) ==> !is_labelled_nation(label)
            &&& contains_seq(upper, "ASSORTED GROUPS"@) ==> !is_labelled_nation(label)
            &&& contains_seq(upper, "BLESS THE RAINS"@) ==> !is_labelled_nation(label)
            &&& contains_seq(upper, "NE VALYAY"@) ==> !is_labelled_nation(label)
            &&& contains_seq(upper, "CHTO SIBIR"@) ==> !is_labelled_nation(label)
            &&& contains_seq(upper, "LAND DOWN UNDA"@) ==> !is_labelled_nation(label)
            &&& (trim_seq(label).len() > 0 && !contains_seq(upper, "WASTELAND"@) && !contains_seq(upper, "UNASSIGNED"@)
                && !contains_seq(upper, "ASSORTED GROUPS"@) && !contains_seq(upper, "BLESS THE RAINS"@)
                && !contains_seq(upper, "NE VALYAY"@) && !contains_seq(upper, "CHTO SIBIR"@)
                && !contains_seq(upper, "LAND DOWN UNDA"@)) ==> is_labelled_nation(label)
        }),
{
    let w = excluded_words();
    assert(w[0] == "WASTELAND"@);
    assert(w[1] == "UNASSIGNED"@);
    assert(w[2] == "ASSORTED GROUPS"@);
    assert(w[3] == "BLESS THE RAINS"@);
    assert(w[4] == "NE VALYAY"@);
    assert(w[5] == "CHTO SIBIR"@);
    assert(w[6] == "LAND DOWN UNDA"@);
    assert(w.len() == 7);
}

fn excluded_word_list() -> (v: Vec<String>)
    ensures
        strings_view(v@) == excluded_words(),
{
    let mut v: Vec<String> = Vec::new();
    v.push("WASTELAND".to_owned());
    v.push("UNASSIGNED".to_owned());
    v.push("ASSORTED GROUPS".to_owned());
    v.push("BLESS THE RAINS".to_owned());
    v.push("NE VALYAY".to_owned());
    v.push("CHTO SIBIR".to_owned());
    v.push("LAND DOWN UNDA".to_owned());
    assert(strings_view(v@) =~= excluded_words());
    v
}

/// Whether a faction with this label gets a nation label on the map.
pub fn nation_label_eligible(label: &str) -> (b: bool)
    ensures
        b == is_labelled_nation(label@),
{
    let name = trimmed_chars(label);
    if name.len() == 0 {
        return false;
    }
    let name_s = string_from_chars(&name);
    let upper_s = to_uppercase(name_s.as_str());
    let upper = chars_of(upper_s.as_str());
    let words = excluded_word_list();
    let mut w: usize = 0;
    while w < words.len()
        invariant
            w <= words@.len(),
            strings_view(words@) == excluded_words(),
            upper@ == uppercase(trim_seq(label@)),
            forall|j: int| 0 <= j < w ==> !contains_seq(upper@, #[trigger] excluded_words()[j]),
        decreases words@.len() - w,
    {
        let word = chars_of(words[w].as_str());
        assert(word@ == excluded_words()[w as int]);
        if contains_chars(&upper, &word) {
            return false;
        }
        w = w + 1;
    }
    true
}

/// The provinces a faction's label is laid out over: for each path id of
/// the faction, in order, the province with that id, if there is one.
pub open spec fn label_province_indices(paths: Seq<Seq<char>>, index: Map<Seq<char>, usize>) -> Seq<int>
    decreases paths.len(),
{
    if paths.len() == 0 {
        seq![]
    } else {
        let prev = label_province_indices(paths.drop_last(), index);
        if index.contains_key(paths.last()) {
            prev.push(index[paths.last()] as int)
        } else {
            prev
        }
    }
}

/// The indices of the provinces of faction `group` that exist, in the
/// order of its paths, looked up through the id index of the provinces.
pub fn nation_label_provinces(group: &MapGroup, id_to_index: &StringHashMap<usize>) -> (r: Vec<usize>)
    ensures
        r@.map_values(|u: usize| u as int) == label_province_indices(strings_view(group.paths@), id_to_index@),
{
    let ghost paths = strings_view(group.paths@);
    let mut r: Vec<usize> = Vec::new();
    let mut i: usize = 0;
    while i < group.paths.len()
        invariant
            i <= group.paths@.len(),
            paths == strings_view(group.paths@),
            r@.map_values(|u: usize| u as int) == label_province_indices(paths.take(i as int), id_to_index@),
        decreases group.paths@.len() - i,
    {
        assert(paths.take(i + 1).drop_last() =~= paths.take(i as int));
        assert(paths.take(i + 1).last() == group.paths@[i as int]@);
        let ghost before = r@;
        match id_to_index.get(group.paths[i].as_str()) {
            Some(idx) => {
                r.push(*idx);
                assert(r@.map_values(|u: usize| u as int) =~= before.map_values(|u: usize| u as int).push(*idx as int));
            },
            None => {},
        }
        i = i + 1;
    }
    assert(paths.take(i as int) =~= paths);
    r
}

/// How widely a nation label is shown across zoom levels, by the number of
/// provinces of the nation.
#[derive(Clone, Copy, PartialEq, Eq, Debug, Structural)]
pub enum LabelTier {
    /// 200 provinces or more.
    Continental,
    /// 80 to 199.
    Large,
    /// 20 to 79.
    Regional,
    /// 6 to 19.
    Minor,
    /// Fewer than 6.
    Micro,
}

/// The label tier of a nation with `count` provinces.
pub open spec fn label_tier_of(count: int) -> LabelTier {
    if count >= 200 {
        LabelTier::Continental
    } else if count >= 80 {
        LabelTier::Large
    } else if count >= 20 {
        LabelTier::Regional
    } else if count >= 6 {
        LabelTier::Minor
    } else {
        LabelTier::Micro
    }
}

/// The label tier of a nation with `province_count` provinces.
pub fn label_tier(province_count: usize) -> (t: LabelTier)
    ensures
        t == label_tier_of(province_count as int),
{
    if province_count >= 200 {
        LabelTier::Continental
    } else if province_count >= 80 {
        LabelTier::Large
    } else if province_count >= 20 {
        LabelTier::Regional
    } else if province_count >= 6 {
        LabelTier::Minor
    } else {
        LabelTier::Micro
    }
}


/// The factions that get a nation label, in order, each with the provinces
/// its label is laid out over: an eligible label and at least one of its
/// paths naming an existing province.
pub open spec fn labelled_factions_of(gs: Seq<MapGroup>, index: Map<Seq<char>, usize>) -> Seq<(int, Seq<int>)>
    decreases gs.len(),
{
    if gs.len() == 0 {
        seq![]
    } else {
        let prev = labelled_factions_of(gs.drop_last(), index);
        let g = gs.last();
        let members = label_province_indices(strings_view(g.paths@), index);
        if is_labelled_nation(g.label@) && members.len() > 0 {
            prev.push((gs.len() - 1, members))
        } else {
            prev
        }
    }
}

/// A faction that gets a nation label: its position among the factions and
/// the provinces the label is laid out over.
pub struct LabelledFaction {
    pub group: usize,
    pub provinces: Vec<usize>,
}

/// The positions and provinces of a list of labelled factions.
pub open spec fn labelled_view(v: Seq<LabelledFaction>) -> Seq<(int, Seq<int>)> {
    v.map_values(|f: LabelledFaction| (f.group as int, f.provinces@.map_values(|u: usize| u as int)))
}

/// Picks the factions that get a nation label, in order, with the provinces
/// of each (looked up through the id index of the provinces).
pub fn labelled_factions(groups: &Vec<MapGroup>, id_to_index: &StringHashMap<usize>) -> (r: Vec<LabelledFaction>)
    ensures
        labelled_view(r@) == labelled_factions_of(groups@, id_to_index@),
{
    let mut r: Vec<LabelledFaction> = Vec::new();
    let mut i: usize = 0;
    while i < groups.len()
        invariant
            i <= groups@.len(),
            labelled_view(r@) == labelled_factions_of(groups@.take(i as int), id_to_index@),
        decreases groups@.len() - i,
    {
        assert(groups@.take(i + 1).drop_last() =~= groups@.take(i as int));
        assert(groups@.take(i + 1).last() == groups@[i as int]);
        let provinces = nation_label_provinces(&groups[i], id_to_index);
        let ghost members = label_province_indices(strings_view(groups@[i as int].paths@), id_to_index@);
        assert(provinces@.map_values(|u: usize| u as int).len() == provinces@.len());
        if provinces.len() > 0 && nation_label_eligible(groups[i].label.as_str()) {
            let ghost before = r@;
            r.push(LabelledFaction { group: i, provinces });
            assert(labelled_view(r@) =~= labelled_view(before).push((i as int, members)));
        }
        i = i + 1;
    }
    assert(groups@.take(i as int) =~= groups@);
    r
}

} // verus!
