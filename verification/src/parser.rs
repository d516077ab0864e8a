//! SVG path extraction, path-data tokenizing, colour keys, province
//! construction and the MapChart scenario configuration.

use vstd::prelude::*;
use vstd::hash_map::StringHashMap;
use crate::types::{BiomeType, ConfigGroup, MapConfig, MapGroup, Province};
use crate::text::{
    contains_seq, lowercase, replace_char, replace_char_seq, str_contains, to_lowercase, 
    chars_of, find_char_from, find_first_from, first_occurrence, index_of_char, lemma_index_of_char_bounds,
    lemma_index_of_char_first, matches_at,
    occurs_at, string_from_range,
};

verus! {

/// The colour given to provinces and keys that carry no colour of their own (`#d1dbdd`).
pub open spec fn default_color() -> [u8; 3] {
    [209u8, 219u8, 221u8]
}

/// The value of a hexadecimal digit.
pub open spec fn hex_digit_value(c: char) -> Option<int> {
    if '0' <= c <= '9' {
        Some(c as int - '0' as int)
    } else if 'a' <= c <= 'f' {
        Some(c as int - 'a' as int + 10)
    } else if 'A' <= c <= 'F' {
        Some(c as int - 'A' as int + 10)
    } else {
        None
    }
}

/// The value of a string of hexadecimal digits, most significant first.
pub open spec fn hex_digits_value(s: Seq<char>) -> Option<int>
    decreases s.len(),
{
    if s.len() == 0 {
        Some(0)
    } else {
        match (hex_digits_value(s.drop_last()), hex_digit_value(s.last())) {
            (Some(a), Some(d)) => Some(a * 16 + d),
            _ => None,
        }
    }
}

/// What `u32::from_str_radix(s, 16)` accepts and returns: an optional `+`
/// followed by at least one hexadecimal digit, with a value that fits in `u32`.
pub open spec fn hex_u32_value(s: Seq<char>) -> Option<int> {
    let digits = if s.len() > 0 && s[0] == '+' { s.drop_first() } else { s };
    if digits.len() == 0 {
        None
    } else {
        match hex_digits_value(digits) {
            Some(v) => if v <= u32::MAX { Some(v) } else { None },
            None => None,
        }
    }
}

/// The red, green and blue bytes of a 24-bit colour value.
pub open spec fn rgb_of(v: int) -> [u8; 3] {
    [((v / 65536) % 256) as u8, ((v / 256) % 256) as u8, (v % 256) as u8]
}

/// The text between the first `_` of `s` and the next `_` (or the end), as
/// the second item of `s.split('_')`.
pub open spec fn second_underscore_field(s: Seq<char>) -> Option<Seq<char>> {
    match index_of_char(s, '_') {
        None => None,
        Some(k) => {
            let rest = s.skip(k + 1);
            match index_of_char(rest, '_') {
                Some(m) => Some(rest.take(m)),
                None => Some(rest),
            }
        },
    }
}

/// `s` starts with a MapChart pattern fill name.
pub open spec fn is_pattern_key(s: Seq<char>) -> bool {
    occurs_at(s, "diagonal"@, 0) || occurs_at(s, "horizontal"@, 0) || occurs_at(s, "vertical"@, 0)
}

/// The colour a MapChart group key stands for: `#rrggbb`, or the background
/// colour of a `diagonal_`/`horizontal_`/`vertical_` pattern key, else the default.
pub open spec fn hex_color_of(s: Seq<char>) -> [u8; 3] {
    if s.len() == 7 && s[0] == '#' {
        match hex_u32_value(s.skip(1)) {
            Some(v) => rgb_of(v),
            None => default_color(),
        }
    } else if is_pattern_key(s) {
        match second_underscore_field(s) {
            Some(bg) => if bg.len() == 6 {
                match hex_u32_value(bg) {
                    Some(v) => rgb_of(v),
                    None => default_color(),
                }
            } else {
                default_color()
            },
            None => default_color(),
        }
    } else {
        default_color()
    }
}

fn hex_digit(c: char) -> (r: Option<u32>)
    ensures
        match hex_digit_value(c) {
            Some(v) => r matches Some(x) && x == v,
            None => r is None,
        },
{
    if '0' <= c && c <= '9' {
        Some(c as u32 - '0' as u32)
    } else if 'a' <= c && c <= 'f' {
        Some(c as u32 - 'a' as u32 + 10)
    } else if 'A' <= c && c <= 'F' {
        Some(c as u32 - 'A' as u32 + 10)
    } else {
        None
    }
}

proof fn lemma_hex_digits_bound(s: Seq<char>)
    ensures
        hex_digits_value(s) matches Some(v) ==> 0 <= v < pow16(s.len()),
    decreases s.len(),
{
    if s.len() > 0 {
        lemma_hex_digits_bound(s.drop_last());
    }
}

/// 16 to the power `n`.
pub open spec fn pow16(n: nat) -> int
    decreases n,
{
    if n == 0 { 1 } else { 16 * pow16((n - 1) as nat) }
}

/// The three colour bytes of a 24-bit value: shifted and masked red, green and blue.
fn rgb_bytes(val: u32) -> (c: [u8; 3])
    requires
        val <= 0xFFFFFF,
    ensures
        c == rgb_of(val as int),
{
    let r = ((val >> 16) & 0xFF) as u8;
    let g = ((val >> 8) & 0xFF) as u8;
    let b = (val & 0xFF) as u8;
    assert((val >> 16) & 0xFF == (val / 65536) % 256) by (bit_vector);
    assert((val >> 8) & 0xFF == (val / 256) % 256) by (bit_vector);
    assert(val & 0xFF == val % 256) by (bit_vector);
    [r, g, b]
}

/// `u32::from_str_radix(&s[from..to], 16)` for a range of at most six characters.
fn hex_value_of_range(s: &Vec<char>, from: usize, to: usize) -> (r: Option<u32>)
    requires
        from <= to <= s.len(),
        to - from <= 6,
    ensures
        match hex_u32_value(s@.subrange(from as int, to as int)) {
            Some(v) => r matches Some(x) && x == v,
            None => r is None,
        },
        r matches Some(v) ==> v < pow16((to - from) as nat),
{
    let ghost t = s@.subrange(from as int, to as int);
    let mut i = from;
    if i < to && s[i] == '+' {
        i = i + 1;
    }
    let ghost digits = s@.subrange(i as int, to as int);
    assert(digits == (if t.len() > 0 && t[0] == '+' { t.drop_first() } else { t }));
    if i == to {
        assert(digits.len() == 0);
        return None;
    }
    let mut acc: u32 = 0;
    let start = i;
    while i < to
        invariant
            start <= i <= to <= s.len(),
            to - start <= 6,
            digits == s@.subrange(start as int, to as int),
            t == s@.subrange(from as int, to as int),
            digits == (if t.len() > 0 && t[0] == '+' { t.drop_first() } else { t }),
            digits.len() > 0,
            hex_digits_value(s@.subrange(start as int, i as int)) == Some(acc as int),
            acc < pow16((i - start) as nat),
        decreases to - i,
    {
        let d = hex_digit(s[i]);
        assert(s@.subrange(start as int, i + 1).drop_last() =~= s@.subrange(start as int, i as int));
        match d {
            Some(dv) => {
                assert(pow16((i - start) as nat) <= 0x100000) by {
                    reveal_with_fuel(pow16, 7);
                    lemma_pow16_mono((i - start) as nat, 5);
                }
                acc = acc * 16 + dv;
                i = i + 1;
            },
            None => {
                proof {
                    assert(digits[(i - start) as int] == s@[i as int]);
                    lemma_hex_digits_prefix_none(digits, (i - start) as int);
                }
                return None;
            },
        }
    }
    proof {
        assert(s@.subrange(start as int, i as int) =~= digits);
        lemma_hex_digits_bound(digits);
        reveal_with_fuel(pow16, 7);
        lemma_pow16_mono(digits.len(), 6);
        lemma_pow16_mono(digits.len(), (to - from) as nat);
    }
    Some(acc)
}

proof fn lemma_pow16_mono(a: nat, b: nat)
    requires
        a <= b,
    ensures
        pow16(a) <= pow16(b),
        pow16(a) >= 1,
    decreases b,
{
    if b > a {
        lemma_pow16_mono(a, (b - 1) as nat);
    } else if a > 0 {
        lemma_pow16_mono((a - 1) as nat, (a - 1) as nat);
    }
}

proof fn lemma_hex_digits_prefix_none(s: Seq<char>, k: int)
    requires
        0 <= k < s.len(),
        hex_digit_value(s[k]) is None,
    ensures
        hex_digits_value(s) is None,
    decreases s.len(),
{
    if k < s.len() - 1 {
        lemma_hex_digits_prefix_none(s.drop_last(), k);
    }
}

/// Parses a MapChart group key into the colour it stands for: `#rrggbb`
/// gives that colour, `diagonal_rrggbb_...`, `horizontal_...` and
/// `vertical_...` give the pattern's background colour, and anything else
/// gives the default `#d1dbdd`.
pub fn parse_hex_color(hex: &str) -> (c: [u8; 3])
    ensures
        c == hex_color_of(hex@),
{
    let s = chars_of(hex);
    if s.len() == 7 && s[0] == '#' {
        assert(s@.subrange(1, 7) =~= s@.skip(1));
        match hex_value_of_range(&s, 1, 7) {
            Some(val) => {
                assert(pow16(6) == 0x1000000) by {
                    reveal_with_fuel(pow16, 7);
                }
                return rgb_bytes(val);
            },
            None => {},
        }
    } else {
        let diagonal = chars_of("diagonal");
        let horizontal = chars_of("horizontal");
        let vertical = chars_of("vertical");
        if matches_at(&s, &diagonal, 0) || matches_at(&s, &horizontal, 0) || matches_at(&s, &vertical, 0) {
            match find_char_from(&s, '_', 0) {
                Some(k) => {
                    assert(s@.skip(0) =~= s@);
                    let second = find_char_from(&s, '_', k + 1);
                    let end = match second {
                        Some(e) => e,
                        None => s.len(),
                    };
                    proof {
                        let rest = s@.skip(k + 1);
                        assert(second_underscore_field(s@) == Some(
                            s@.subrange(k + 1, end as int),
                        )) by {
                            match index_of_char(rest, '_') {
                                Some(m) => {
                                    assert(end == k + 1 + m);
                                    assert(rest.take(m) =~= s@.subrange(k + 1, end as int));
                                },
                                None => {
                                    assert(rest =~= s@.subrange(k + 1, end as int));
                                },
                            }
                        }
                    }
                    if end - (k + 1) == 6 {
                        match hex_value_of_range(&s, k + 1, end) {
                            Some(val) => {
                                assert(pow16(6) == 0x1000000) by {
                                    reveal_with_fuel(pow16, 7);
                                }
                                return rgb_bytes(val);
                            },
                            None => {},
                        }
                    }
                },
                None => {
                    assert(s@.skip(0) =~= s@);
                },
            }
        }
    }
    [209, 219, 221]
}

} // verus!

verus! {

/// A `<path>` element of the map SVG: its `id` and its path data `d`.
pub struct RawPath {
    pub id: String,
    pub d: String,
}

impl View for RawPath {
    type V = (Seq<char>, Seq<char>);

    open spec fn view(&self) -> (Seq<char>, Seq<char>) {
        (self.id@, self.d@)
    }
}

/// The separator that opens the `p`-th attribute pattern tried: space,
/// newline, tab, first with double and then with single quotes.
pub open spec fn attr_separator(p: int) -> char {
    if p % 3 == 0 {
        ' '
    } else if p % 3 == 1 {
        '\n'
    } else {
        '\t'
    }
}

/// The quote that closes the `p`-th attribute pattern.
pub open spec fn attr_quote(p: int) -> char {
    if p < 3 { '"' } else { '\'' }
}

/// The `p`-th attribute pattern for `name`, such as ` name="`.
pub open spec fn attr_pattern(name: Seq<char>, p: int) -> Seq<char> {
    seq![attr_separator(p)] + name + seq!['=', attr_quote(p)]
}

/// The value of attribute `name` in `tag`, trying the six patterns in order:
/// the first pattern that occurs and whose value is closed by its quote wins.
pub open spec fn attr_value_from(tag: Seq<char>, name: Seq<char>, p: int) -> Option<Seq<char>>
    decreases 6 - p,
{
    if p < 0 || p >= 6 {
        None
    } else {
        let pat = attr_pattern(name, p);
        match first_occurrence(tag, pat) {
            Some(st) => {
                let vs = st + pat.len();
                match index_of_char(tag.skip(vs), attr_quote(p)) {
                    Some(e) => Some(tag.subrange(vs, vs + e)),
                    None => attr_value_from(tag, name, p + 1),
                }
            },
            None => attr_value_from(tag, name, p + 1),
        }
    }
}

/// The value of attribute `name` in an SVG tag.
pub open spec fn attr_value(tag: Seq<char>, name: Seq<char>) -> Option<Seq<char>> {
    attr_value_from(tag, name, 0)
}

fn attr_pattern_chars(name: &Vec<char>, p: usize) -> (v: Vec<char>)
    requires
        p < 6,
    ensures
        v@ == attr_pattern(name@, p as int),
{
    let mut v: Vec<char> = Vec::new();
    if p % 3 == 0 {
        v.push(' ');
    } else if p % 3 == 1 {
        v.push('\n');
    } else {
        v.push('\t');
    }
    let mut i: usize = 0;
    while i < name.len()
        invariant
            i <= name.len(),
            v@ == seq![attr_separator(p as int)] + name@.take(i as int),
        decreases name.len() - i,
    {
        v.push(name[i]);
        assert(name@.take(i + 1) =~= name@.take(i as int).push(name@[i as int]));
        i = i + 1;
    }
    v.push('=');
    if p < 3 {
        v.push('"');
    } else {
        v.push('\'');
    }
    assert(name@.take(name.len() as int) =~= name@);
    assert(v@ =~= attr_pattern(name@, p as int));
    v
}

/// The value of attribute `name` in `tag`, as characters.
fn attr_value_chars(tag: &Vec<char>, name: &Vec<char>) -> (r: Option<String>)
    ensures
        match attr_value(tag@, name@) {
            Some(v) => r matches Some(s) && s@ == v,
            None => r is None,
        },
{
    let mut p: usize = 0;
    while p < 6
        invariant
            p <= 6,
            attr_value(tag@, name@) == attr_value_from(tag@, name@, p as int),
        decreases 6 - p,
    {
        let pat = attr_pattern_chars(name, p);
        let quote = if p < 3 { '"' } else { '\'' };
        match find_first_from(tag, &pat, 0) {
            Some(st) => {
                let vs = st + pat.len();
                match find_char_from(tag, quote, vs) {
                    Some(e) => {
                        return Some(string_from_range(tag, vs, e));
                    },
                    None => {},
                }
            },
            None => {},
        }
        p = p + 1;
    }
    None
}

/// Extracts the value of attribute `attr_name` from the text of one SVG tag,
/// accepting the attribute after a space, newline or tab and quoted with
/// double or single quotes.
pub fn extract_attr(tag_str: &str, attr_name: &str) -> (r: Option<String>)
    ensures
        match attr_value(tag_str@, attr_name@) {
            Some(v) => r matches Some(s) && s@ == v,
            None => r is None,
        },
{
    let tag = chars_of(tag_str);
    let name = chars_of(attr_name);
    attr_value_chars(&tag, &name)
}

} // verus!

verus! {

/// The paths kept from one `<path ...>` tag: its `id` and `d` when both are
/// present and the id does not start with `pattern` (fill patterns are not provinces).
pub open spec fn paths_of_tag(tag: Seq<char>) -> Seq<(Seq<char>, Seq<char>)> {
    match (attr_value(tag, "id"@), attr_value(tag, "d"@)) {
        (Some(id), Some(d)) => if occurs_at(id, "pattern"@, 0) {
            seq![]
        } else {
            seq![(id, d)]
        },
        _ => seq![],
    }
}

/// The `(id, d)` pairs of the `<path>` tags of `c` found by scanning from position `i`.
pub open spec fn svg_paths_from(c: Seq<char>, i: int) -> Seq<(Seq<char>, Seq<char>)>
    decreases c.len() - i,
{
    if i < 0 || i + 5 >= c.len() {
        seq![]
    } else if occurs_at(c, "<path"@, i) {
        match index_of_char(c.skip(i + 5), '>') {
            Some(k) => {
                proof {
                    lemma_index_of_char_bounds(c.skip(i + 5), '>');
                }
                let end = i + 5 + k;
                paths_of_tag(c.subrange(i, end + 1)) + svg_paths_from(c, end + 1)
            },
            None => svg_paths_from(c, i + 1),
        }
    } else {
        svg_paths_from(c, i + 1)
    }
}

/// The `(id, d)` pairs of the province paths of an SVG document, in document order.
pub open spec fn svg_paths(c: Seq<char>) -> Seq<(Seq<char>, Seq<char>)> {
    svg_paths_from(c, 0)
}

/// Every `<path` opening in `a` is closed by a `>` later in `a`.
pub open spec fn path_tags_closed(a: Seq<char>) -> bool {
    forall|i: int| #[trigger] occurs_at(a, "<path"@, i) ==> exists|k: int| i + 5 <= k < a.len() && a[k] == '>'
}

proof fn lemma_index_of_char_prefix(x: Seq<char>, y: Seq<char>, ch: char)
    requires
        index_of_char(x, ch) is Some,
    ensures
        index_of_char(x + y, ch) == index_of_char(x, ch),
{
    lemma_index_of_char_bounds(x, ch);
    let k = index_of_char(x, ch)->0;
    assert((x + y)[k] == ch);
    assert forall|j: int| 0 <= j < k implies (x + y)[j] != ch by {
        assert((x + y)[j] == x[j]);
    }
    lemma_index_of_char_first(x + y, ch, k);
}

proof fn lemma_index_of_char_some(s: Seq<char>, ch: char, k: int)
    requires
        0 <= k < s.len(),
        s[k] == ch,
    ensures
        index_of_char(s, ch) is Some,
{
    if index_of_char(s, ch) is None {
        lemma_index_of_char_none_means_absent(s, ch);
    }
}

proof fn lemma_index_of_char_none_means_absent(s: Seq<char>, ch: char)
    requires
        index_of_char(s, ch) is None,
    ensures
        forall|j: int| 0 <= j < s.len() ==> s[j] != ch,
    decreases s.len(),
{
    if s.len() > 0 {
        lemma_index_of_char_none_means_absent(s.drop_first(), ch);
        assert forall|j: int| 0 <= j < s.len() implies s[j] != ch by {
            if j > 0 {
                assert(s[j] == s.drop_first()[j - 1]);
            }
        }
    }
}

/// Scanning `a + b` from inside `b` is scanning `b`.
proof fn lemma_svg_paths_shift(a: Seq<char>, b: Seq<char>, j: int)
    requires
        0 <= j,
    ensures
        svg_paths_from(a + b, a.len() + j) == svg_paths_from(b, j),
    decreases b.len() - j,
{
    let c = a + b;
    let i = a.len() + j;
    if i + 5 >= c.len() {
    } else {
        assert(c.subrange(i, i + 5) =~= b.subrange(j, j + 5));
        assert(c.skip(i + 5) =~= b.skip(j + 5));
        if occurs_at(c, "<path"@, i) {
            match index_of_char(c.skip(i + 5), '>') {
                Some(k) => {
                    lemma_index_of_char_bounds(c.skip(i + 5), '>');
                    assert(c.subrange(i, i + 5 + k + 1) =~= b.subrange(j, j + 5 + k + 1));
                    lemma_svg_paths_shift(a, b, j + 5 + k + 1);
                },
                None => {
                    lemma_svg_paths_shift(a, b, j + 1);
                },
            }
        } else {
            lemma_svg_paths_shift(a, b, j + 1);
        }
    }
}

proof fn lemma_svg_paths_concat_from(a: Seq<char>, b: Seq<char>, i: int)
    requires
        0 <= i <= a.len(),
        a.len() > 0,
        a.last() == '>',
        path_tags_closed(a),
    ensures
        svg_paths_from(a + b, i) == svg_paths_from(a, i) + svg_paths_from(b, 0),
    decreases a.len() - i,
{
    reveal_strlit("<path");
    let c = a + b;
    if i == a.len() {
        lemma_svg_paths_shift(a, b, 0);
        assert(svg_paths_from(a, i) =~= Seq::<(Seq<char>, Seq<char>)>::empty());
    } else if i + 5 >= a.len() {
        assert(svg_paths_from(a, i) =~= Seq::<(Seq<char>, Seq<char>)>::empty());
        if i + 5 >= c.len() {
            assert(svg_paths_from(b, 0) =~= Seq::<(Seq<char>, Seq<char>)>::empty());
        } else {
            assert(!occurs_at(c, "<path"@, i)) by {
                if occurs_at(c, "<path"@, i) {
                    let t = a.len() - 1 - i;
                    assert(0 <= t < 5);
                    assert(c.subrange(i, i + 5)[t] == c[a.len() - 1]);
                    assert(c[a.len() - 1] == '>');
                }
            }
            lemma_svg_paths_concat_from(a, b, i + 1);
        }
    } else {
        assert(c.subrange(i, i + 5) =~= a.subrange(i, i + 5));
        if occurs_at(a, "<path"@, i) {
            assert(occurs_at(c, "<path"@, i));
            let k0 = choose|k: int| i + 5 <= k < a.len() && a[k] == '>';
            assert(a.skip(i + 5)[k0 - i - 5] == '>');
            lemma_index_of_char_some(a.skip(i + 5), '>', k0 - i - 5);
            assert(c.skip(i + 5) =~= a.skip(i + 5) + b);
            lemma_index_of_char_prefix(a.skip(i + 5), b, '>');
            lemma_index_of_char_bounds(a.skip(i + 5), '>');
            let k = index_of_char(a.skip(i + 5), '>')->0;
            let end = i + 5 + k;
            assert(c.subrange(i, end + 1) =~= a.subrange(i, end + 1));
            lemma_svg_paths_concat_from(a, b, end + 1);
            assert(svg_paths_from(c, i) == paths_of_tag(a.subrange(i, end + 1)) + svg_paths_from(c, end + 1));
            assert(svg_paths_from(a, i) == paths_of_tag(a.subrange(i, end + 1)) + svg_paths_from(a, end + 1));
            assert(svg_paths_from(c, i) =~= svg_paths_from(a, i) + svg_paths_from(b, 0));
        } else {
            assert(!occurs_at(c, "<path"@, i));
            lemma_svg_paths_concat_from(a, b, i + 1);
        }
    }
}

/// Parsing two SVG fragments one after the other gives the paths of the
/// first followed by those of the second, when the first ends with a `>`
/// and closes every `<path` tag it opens.
pub proof fn lemma_svg_paths_concat(a: Seq<char>, b: Seq<char>)
    requires
        a.len() > 0,
        a.last() == '>',
        path_tags_closed(a),
    ensures
        svg_paths(a + b) == svg_paths(a) + svg_paths(b),
{
    lemma_svg_paths_concat_from(a, b, 0);
}

/// Scans an SVG document for `<path ...>` tags and returns, in document
/// order, the `id` and `d` of each one that has both, leaving out ids that
/// start with `pattern`.
pub fn parse_svg_paths(svg_content: &str) -> (paths: Vec<RawPath>)
    ensures
        paths@.map_values(|p: RawPath| p@) == svg_paths(svg_content@),
{
    let c = chars_of(svg_content);
    let open_tag = chars_of("<path");
    let id_name = chars_of("id");
    let d_name = chars_of("d");
    let pattern = chars_of("pattern");
    let mut paths: Vec<RawPath> = Vec::new();
    let mut i: usize = 0;
    while i < c.len() && c.len() - i > 5
        invariant
            c@ == svg_content@,
            open_tag@ == "<path"@,
            id_name@ == "id"@,
            d_name@ == "d"@,
            pattern@ == "pattern"@,
            i <= c.len(),
            paths@.map_values(|p: RawPath| p@) + svg_paths_from(c@, i as int) == svg_paths(c@),
        decreases c.len() - i,
    {
        let ghost before = paths@.map_values(|p: RawPath| p@);
        if matches_at(&c, &open_tag, i) {
            match find_char_from(&c, '>', i + 5) {
                Some(end) => {
                    let tag = copy_range(&c, i, end + 1);
                    let id = attr_value_chars(&tag, &id_name);
                    let d = attr_value_chars(&tag, &d_name);
                    match (id, d) {
                        (Some(id), Some(d)) => {
                            let idv = chars_of(id.as_str());
                            if !matches_at(&idv, &pattern, 0) {
                                paths.push(RawPath { id, d });
                                proof {
                                    assert(paths@.map_values(|p: RawPath| p@) =~= before
                                        + paths_of_tag(tag@));
                                }
                            } else {
                                assert(paths_of_tag(tag@) =~= seq![]);
                            }
                        },
                        _ => {
                            assert(paths_of_tag(tag@) =~= seq![]);
                        },
                    }
                    proof {
                        assert(paths@.map_values(|p: RawPath| p@) =~= before + paths_of_tag(tag@));
                        assert(before + svg_paths_from(c@, i as int) == svg_paths(c@));
                        assert(svg_paths_from(c@, i as int) == paths_of_tag(tag@) + svg_paths_from(
                            c@,
                            end + 1,
                        ));
                        assert(before + (paths_of_tag(tag@) + svg_paths_from(c@, end + 1)) =~= (
                        before + paths_of_tag(tag@)) + svg_paths_from(c@, end + 1));
                    }
                    i = end + 1;
                    continue;
                },
                None => {},
            }
        }
        i = i + 1;
    }
    proof {
        assert(svg_paths_from(c@, i as int) =~= seq![]);
        assert(paths@.map_values(|p: RawPath| p@) + seq![] =~= paths@.map_values(|p: RawPath| p@));
    }
    paths
}

/// A copy of `c[from..to]`.
fn copy_range(c: &Vec<char>, from: usize, to: usize) -> (v: Vec<char>)
    requires
        from <= to <= c.len(),
    ensures
        v@ == c@.subrange(from as int, to as int),
{
    let mut v: Vec<char> = Vec::new();
    let mut i = from;
    while i < to
        invariant
            from <= i <= to <= c.len(),
            v@ == c@.subrange(from as int, i as int),
        decreases to - i,
    {
        v.push(c[i]);
        i = i + 1;
    }
    v
}

} // verus!

verus! {

/// The label of a province that belongs to no faction.
pub open spec fn unassigned_label() -> Seq<char> {
    "Unassigned"@
}

/// `p` is province number `i` freshly built from a path with id `id`:
/// unassigned, default-coloured grassland without a settlement, named after
/// its id with underscores read as spaces.
pub open spec fn is_fresh_province(p: Province, i: int, id: Seq<char>) -> bool {
    &&& p.index == i
    &&& p.id@ == id
    &&& p.name@ == replace_char_seq(id, '_', ' ')
    &&& p.group_key@ == Seq::<char>::empty()
    &&& p.group_label@ == unassigned_label()
    &&& p.color == default_color()
    &&& !p.is_wasteland
    &&& p.settlement is None
    &&& p.biome == BiomeType::Grassland
}

/// `m` maps each id of `ids` to the last position holding it, and nothing else.
pub open spec fn is_id_index(m: Map<Seq<char>, usize>, ids: Seq<Seq<char>>) -> bool {
    &&& forall|k: Seq<char>| #[trigger] m.contains_key(k) <==> exists|i: int| 0 <= i < ids.len() && ids[i] == k
    &&& forall|k: Seq<char>| #[trigger] m.contains_key(k) ==> {
        &&& m[k] < ids.len()
        &&& ids[m[k] as int] == k
        &&& forall|j: int| m[k] < j < ids.len() ==> ids[j] != k
    }
}

/// The index from province path ids to province positions that
/// `build_provinces` returns.
pub type IdIndex = StringHashMap<usize>;

/// The ids of a sequence of raw paths.
pub open spec fn path_ids(paths: Seq<RawPath>) -> Seq<Seq<char>> {
    paths.map_values(|p: RawPath| p.id@)
}

/// Builds one unassigned province per raw path, in order, and the map from
/// each path id to the index of the (last) province with that id.
pub fn build_provinces(raw_paths: &[RawPath]) -> (res: (Vec<Province>, StringHashMap<usize>))
    ensures
        res.0@.len() == raw_paths@.len(),
        forall|i: int| 0 <= i < raw_paths@.len() ==> is_fresh_province(#[trigger] res.0@[i], i, raw_paths@[i].id@),
        is_id_index(res.1@, path_ids(raw_paths@)),
{
    let mut provinces: Vec<Province> = Vec::new();
    let mut id_to_index: StringHashMap<usize> = StringHashMap::new();
    let ghost ids = path_ids(raw_paths@);
    let mut index: usize = 0;
    while index < raw_paths.len()
        invariant
            index <= raw_paths@.len(),
            ids == path_ids(raw_paths@),
            provinces@.len() == index,
            forall|i: int| 0 <= i < index ==> is_fresh_province(#[trigger] provinces@[i], i, raw_paths@[i].id@),
            is_id_index(id_to_index@, ids.take(index as int)),
        decreases raw_paths@.len() - index,
    {
        let p = &raw_paths[index];
        let name = replace_char(p.id.as_str(), '_', ' ');
        let province = Province {
            index,
            id: p.id.clone(),
            name,
            group_key: String::new(),
            group_label: "Unassigned".to_owned(),
            color: [209, 219, 221],
            is_wasteland: false,
            settlement: None,
            biome: BiomeType::Grassland,
        };
        provinces.push(province);
        let ghost old_map = id_to_index@;
        id_to_index.insert(p.id.clone(), index);
        proof {
            let prev = ids.take(index as int);
            let next = ids.take(index + 1);
            assert(next == prev.push(p.id@));
            assert forall|k: Seq<char>| #[trigger] id_to_index@.contains_key(k) <==> exists|i: int| 0 <= i < next.len() && next[i] == k by {
                if id_to_index@.contains_key(k) && k != p.id@ {
                    let i = choose|i: int| 0 <= i < prev.len() && prev[i] == k;
                    assert(next[i] == k);
                }
                if k == p.id@ {
                    assert(next[index as int] == k);
                }
                if exists|i: int| 0 <= i < next.len() && next[i] == k {
                    let i = choose|i: int| 0 <= i < next.len() && next[i] == k;
                    if i < prev.len() {
                        assert(prev[i] == k);
                    }
                }
            }
            assert forall|k: Seq<char>| #[trigger] id_to_index@.contains_key(k) implies {
                &&& id_to_index@[k] < next.len()
                &&& next[id_to_index@[k] as int] == k
                &&& forall|j: int| id_to_index@[k] < j < next.len() ==> next[j] != k
            } by {
                if k != p.id@ {
                    assert(old_map.contains_key(k));
                }
            }
        }
        index = index + 1;
    }
    assert(ids.take(index as int) =~= ids);
    (provinces, id_to_index)
}

} // verus!

verus! {

/// The character sequences of a sequence of strings.
pub open spec fn strings_view(v: Seq<String>) -> Seq<Seq<char>> {
    v.map_values(|s: String| s@)
}

/// No character sequence occurs twice in `v`.
pub open spec fn all_distinct(v: Seq<Seq<char>>) -> bool {
    forall|a: int, b: int| 0 <= a < b < v.len() ==> #[trigger] v[a] != #[trigger] v[b]
}

/// One of `paths` names, through the id index `m`, province `i` of `n`.
pub open spec fn claims(paths: Seq<Seq<char>>, m: Map<Seq<char>, usize>, n: int, i: int) -> bool {
    exists|j: int| 0 <= j < paths.len() && #[trigger] m.contains_key(paths[j]) && m[paths[j]] == i && i < n
}

/// The last configuration group that claims province `i`, if any.
pub open spec fn last_claiming_group(
    groups: Seq<(String, ConfigGroup)>,
    m: Map<Seq<char>, usize>,
    n: int,
    i: int,
) -> Option<int>
    decreases groups.len(),
{
    if groups.len() == 0 {
        None
    } else if claims(strings_view(groups.last().1.paths@), m, n, i) {
        Some(groups.len() - 1)
    } else {
        last_claiming_group(groups.drop_last(), m, n, i)
    }
}

/// The last claiming group is one of the groups.
pub proof fn lemma_last_claiming_group_bounds(
    groups: Seq<(String, ConfigGroup)>,
    m: Map<Seq<char>, usize>,
    n: int,
    i: int,
)
    ensures
        last_claiming_group(groups, m, n, i) matches Some(h) ==> 0 <= h < groups.len(),
    decreases groups.len(),
{
    if groups.len() > 0 {
        lemma_last_claiming_group_bounds(groups.drop_last(), m, n, i);
    }
}

/// Whether a faction label marks wasteland.
pub open spec fn is_wasteland_label(label: Seq<char>) -> bool {
    contains_seq(lowercase(label), "wasteland"@)
}

/// `p` is `q` handed to the faction with key `key` and label `label`.
pub open spec fn owned_by(p: Province, q: Province, key: Seq<char>, label: Seq<char>) -> bool {
    &&& p.group_key@ == key
    &&& p.group_label@ == label
    &&& p.color == hex_color_of(key)
    &&& p.is_wasteland == is_wasteland_label(label)
    &&& p.index == q.index
    &&& p.id == q.id
    &&& p.name == q.name
    &&& p.settlement == q.settlement
    &&& p.biome == q.biome
}

/// Province `p` is what `q` (province `i` of `n`) becomes under the configuration groups.
pub open spec fn configured(
    p: Province,
    q: Province,
    groups: Seq<(String, ConfigGroup)>,
    m: Map<Seq<char>, usize>,
    n: int,
    i: int,
) -> bool {
    match last_claiming_group(groups, m, n, i) {
        Some(g) => owned_by(p, q, groups[g].0@, groups[g].1.label@),
        None => p == q,
    }
}

/// `g` is the faction built from configuration group `(key, cg)`.
pub open spec fn is_group_of_config(g: MapGroup, key: Seq<char>, cg: ConfigGroup) -> bool {
    &&& g.key@ == key
    &&& g.label@ == cg.label@
    &&& g.color == hex_color_of(key)
    &&& all_distinct(strings_view(g.paths@))
    &&& strings_view(g.paths@).to_set() == strings_view(cg.paths@).to_set()
    &&& g.capital_province_id is None
    &&& g.capital_name is None
}

/// The paths of `paths` without repeats, in order of first occurrence.
fn distinct_paths(paths: &Vec<String>) -> (r: Vec<String>)
    ensures
        all_distinct(strings_view(r@)),
        strings_view(r@).to_set() == strings_view(paths@).to_set(),
{
    let mut seen: StringHashMap<bool> = StringHashMap::new();
    let mut r: Vec<String> = Vec::new();
    let mut k: usize = 0;
    while k < paths.len()
        invariant
            k <= paths.len(),
            all_distinct(strings_view(r@)),
            strings_view(r@).to_set() == strings_view(paths@.take(k as int)).to_set(),
            seen@.dom() == strings_view(r@).to_set(),
        decreases paths.len() - k,
    {
        let path = &paths[k];
        let ghost old_r = strings_view(r@);
        assert(strings_view(paths@.take(k + 1)) =~= strings_view(paths@.take(k as int)).push(path@));
        if !seen.contains_key(path.as_str()) {
            seen.insert(path.clone(), true);
            r.push(path.clone());
            assert(strings_view(r@) =~= old_r.push(path@));
            assert(!old_r.contains(path@)) by {
                if old_r.contains(path@) {
                    let j = choose|j: int| 0 <= j < old_r.len() && old_r[j] == path@;
                    assert(old_r.to_set().contains(path@));
                }
            }
            assert forall|a: int, b: int| 0 <= a < b < strings_view(r@).len() implies #[trigger] strings_view(r@)[a] != #[trigger] strings_view(r@)[b] by {
                if b == old_r.len() {
                    assert(old_r[a] == strings_view(r@)[a]);
                }
            }
            proof {
                old_r.lemma_push_to_set_commute(path@);
                strings_view(paths@.take(k as int)).lemma_push_to_set_commute(path@);
            }
        } else {
            proof {
                strings_view(paths@.take(k as int)).lemma_push_to_set_commute(path@);
            }
            assert(strings_view(r@).to_set().contains(path@));
            assert(strings_view(paths@.take(k + 1)).to_set() =~= strings_view(paths@.take(k as int)).to_set());
        }
        k = k + 1;
    }
    assert(paths@.take(k as int) =~= paths@);
    r
}

/// Applies a MapChart configuration: every province named by a group's
/// paths takes that group's key, label, colour and wasteland flag (the last
/// group naming it wins), and one faction is built per group.
pub fn apply_config(
    config: &MapConfig,
    provinces: &mut Vec<Province>,
    id_to_index: &StringHashMap<usize>,
) -> (groups: Vec<MapGroup>)
    ensures
        final(provinces)@.len() == old(provinces)@.len(),
        forall|i: int| 0 <= i < old(provinces)@.len() ==> configured(
            #[trigger] final(provinces)@[i],
            old(provinces)@[i],
            config.groups@,
            id_to_index@,
            old(provinces)@.len() as int,
            i,
        ),
        groups@.len() == config.groups@.len(),
        forall|g: int| 0 <= g < groups@.len() ==> is_group_of_config(
            #[trigger] groups@[g],
            config.groups@[g].0@,
            config.groups@[g].1,
        ),
{
    let ghost initial = provinces@;
    let ghost n = provinces@.len() as int;
    let ghost m = id_to_index@;
    let ghost cfg = config.groups@;
    let mut groups: Vec<MapGroup> = Vec::new();
    let mut g: usize = 0;
    while g < config.groups.len()
        invariant
            g <= cfg.len(),
            cfg == config.groups@,
            m == id_to_index@,
            provinces@.len() == n,
            n == initial.len(),
            forall|i: int| 0 <= i < n ==> configured(#[trigger] provinces@[i], initial[i], cfg.take(g as int), m, n, i),
            groups@.len() == g,
            forall|h: int| 0 <= h < g ==> is_group_of_config(#[trigger] groups@[h], cfg[h].0@, cfg[h].1),
        decreases cfg.len() - g,
    {
        let key = &config.groups[g].0;
        let grp = &config.groups[g].1;
        let color = parse_hex_color(key.as_str());
        let lowered = to_lowercase(grp.label.as_str());
        let is_wasteland = str_contains(lowered.as_str(), "wasteland");
        let ghost gpaths = strings_view(grp.paths@);
        let mut k: usize = 0;
        while k < grp.paths.len()
            invariant
                g < cfg.len(),
                cfg == config.groups@,
                key == &cfg[g as int].0,
                grp == &cfg[g as int].1,
                gpaths == strings_view(grp.paths@),
                color == hex_color_of(key@),
                is_wasteland == is_wasteland_label(grp.label@),
                m == id_to_index@,
                k <= grp.paths.len(),
                provinces@.len() == n,
                n == initial.len(),
                forall|i: int| 0 <= i < n ==> if claims(gpaths.take(k as int), m, n, i) {
                    owned_by(#[trigger] provinces@[i], initial[i], key@, grp.label@)
                } else {
                    configured(provinces@[i], initial[i], cfg.take(g as int), m, n, i)
                },
            decreases grp.paths.len() - k,
        {
            let path = &grp.paths[k];
            let ghost before = provinces@;
            assert(gpaths.take(k + 1) =~= gpaths.take(k as int).push(path@));
            match id_to_index.get(path.as_str()) {
                Some(idx) => {
                    let idx = *idx;
                    if idx < provinces.len() {
                        provinces[idx].group_key = key.clone();
                        provinces[idx].group_label = grp.label.clone();
                        provinces[idx].color = color;
                        provinces[idx].is_wasteland = is_wasteland;
                        proof {
                            assert(gpaths.take(k + 1)[k as int] == path@);
                            assert(claims(gpaths.take(k + 1), m, n, idx as int));
                            assert forall|i: int| 0 <= i < n && i != idx implies claims(gpaths.take(k + 1), m, n, i) == claims(gpaths.take(k as int), m, n, i) by {
                                if claims(gpaths.take(k + 1), m, n, i) {
                                    let j = choose|j: int| 0 <= j < k + 1 && #[trigger] m.contains_key(gpaths.take(k + 1)[j]) && m[gpaths.take(k + 1)[j]] == i && i < n;
                                    assert(gpaths.take(k as int)[j] == gpaths.take(k + 1)[j]);
                                }
                                if claims(gpaths.take(k as int), m, n, i) {
                                    let j = choose|j: int| 0 <= j < k && #[trigger] m.contains_key(gpaths.take(k as int)[j]) && m[gpaths.take(k as int)[j]] == i && i < n;
                                    assert(gpaths.take(k + 1)[j] == gpaths.take(k as int)[j]);
                                }
                            }
                            assert(owned_by(provinces@[idx as int], initial[idx as int], key@, grp.label@));
                        }
                    } else {
                        proof {
                            assert forall|i: int| 0 <= i < n implies claims(gpaths.take(k + 1), m, n, i) == claims(gpaths.take(k as int), m, n, i) by {
                                if claims(gpaths.take(k + 1), m, n, i) {
                                    let j = choose|j: int| 0 <= j < k + 1 && #[trigger] m.contains_key(gpaths.take(k + 1)[j]) && m[gpaths.take(k + 1)[j]] == i && i < n;
                                    if j < k {
                                        assert(gpaths.take(k as int)[j] == gpaths.take(k + 1)[j]);
                                    }
                                }
                                if claims(gpaths.take(k as int), m, n, i) {
                                    let j = choose|j: int| 0 <= j < k && #[trigger] m.contains_key(gpaths.take(k as int)[j]) && m[gpaths.take(k as int)[j]] == i && i < n;
                                    assert(gpaths.take(k + 1)[j] == gpaths.take(k as int)[j]);
                                }
                            }
                        }
                    }
                },
                None => {
                    proof {
                        assert forall|i: int| 0 <= i < n implies claims(gpaths.take(k + 1), m, n, i) == claims(gpaths.take(k as int), m, n, i) by {
                            if claims(gpaths.take(k + 1), m, n, i) {
                                let j = choose|j: int| 0 <= j < k + 1 && #[trigger] m.contains_key(gpaths.take(k + 1)[j]) && m[gpaths.take(k + 1)[j]] == i && i < n;
                                if j < k {
                                    assert(gpaths.take(k as int)[j] == gpaths.take(k + 1)[j]);
                                }
                            }
                            if claims(gpaths.take(k as int), m, n, i) {
                                let j = choose|j: int| 0 <= j < k && #[trigger] m.contains_key(gpaths.take(k as int)[j]) && m[gpaths.take(k as int)[j]] == i && i < n;
                                assert(gpaths.take(k + 1)[j] == gpaths.take(k as int)[j]);
                            }
                        }
                    }
                },
            }
            k = k + 1;
        }
        proof {
            assert(gpaths.take(k as int) =~= gpaths);
            assert(cfg.take(g + 1).drop_last() =~= cfg.take(g as int));
            assert(cfg.take(g + 1).last() == cfg[g as int]);
            assert forall|i: int| 0 <= i < n implies configured(#[trigger] provinces@[i], initial[i], cfg.take(g + 1), m, n, i) by {
                let unfolded = last_claiming_group(cfg.take(g + 1), m, n, i);
                let pi = provinces@[i];
                assert(cfg.take(g + 1)[g as int] == cfg[g as int]);
                assert(gpaths == strings_view(cfg.take(g + 1).last().1.paths@));
                if claims(gpaths, m, n, i) {
                    assert(claims(gpaths.take(k as int), m, n, i));
                    assert(owned_by(pi, initial[i], key@, grp.label@));
                    assert(unfolded == Some(g as int));
                    assert(key@ == cfg.take(g + 1)[g as int].0@);
                    assert(grp.label@ == cfg.take(g + 1)[g as int].1.label@);
                    assert(owned_by(pi, initial[i], cfg.take(g + 1)[g as int].0@, cfg.take(g + 1)[g as int].1.label@));
                } else {
                    assert(!claims(gpaths.take(k as int), m, n, i));
                    assert(configured(pi, initial[i], cfg.take(g as int), m, n, i));
                    assert(unfolded == last_claiming_group(cfg.take(g as int), m, n, i));
                    lemma_last_claiming_group_bounds(cfg.take(g as int), m, n, i);
                    if let Some(h) = unfolded {
                        assert(cfg.take(g + 1)[h] == cfg.take(g as int)[h]);
                    }
                    assert(unfolded == last_claiming_group(cfg.take(g as int), m, n, i));
                    lemma_last_claiming_group_bounds(cfg.take(g as int), m, n, i);
                    if let Some(h) = unfolded {
                        assert(cfg.take(g + 1)[h] == cfg.take(g as int)[h]);
                    }
                }
            }
        }
        let paths = distinct_paths(&grp.paths);
        groups.push(MapGroup {
            key: key.clone(),
            label: grp.label.clone(),
            paths,
            color,
            capital_province_id: None,
            capital_name: None,
        });
        g = g + 1;
    }
    assert(cfg.take(g as int) =~= cfg);
    groups
}

} // verus!

verus! {

/// The distinct non-empty faction keys of `ps`, in order of first appearance.
pub open spec fn key_order(ps: Seq<Province>) -> Seq<Seq<char>>
    decreases ps.len(),
{
    if ps.len() == 0 {
        seq![]
    } else {
        let prev = key_order(ps.drop_last());
        let k = ps.last().group_key@;
        if k.len() == 0 || prev.contains(k) {
            prev
        } else {
            prev.push(k)
        }
    }
}

/// The ids of the provinces of `ps` whose faction key is `k`, in order.
pub open spec fn ids_with_key(ps: Seq<Province>, k: Seq<char>) -> Seq<Seq<char>>
    decreases ps.len(),
{
    if ps.len() == 0 {
        seq![]
    } else {
        let prev = ids_with_key(ps.drop_last(), k);
        if ps.last().group_key@ == k {
            prev.push(ps.last().id@)
        } else {
            prev
        }
    }
}

/// The label of the first faction of `gs` with key `k`, or `Faction`.
pub open spec fn label_for_key(gs: Seq<MapGroup>, k: Seq<char>) -> Seq<char>
    decreases gs.len(),
{
    if gs.len() == 0 {
        "Faction"@
    } else if gs[0].key@ == k {
        gs[0].label@
    } else {
        label_for_key(gs.drop_first(), k)
    }
}

/// `key_order` lists distinct, non-empty keys, exactly those of the provinces.
pub proof fn lemma_key_order(ps: Seq<Province>)
    ensures
        all_distinct(key_order(ps)),
        forall|j: int| 0 <= j < key_order(ps).len() ==> #[trigger] key_order(ps)[j].len() > 0,
        forall|k: Seq<char>| #[trigger] key_order(ps).contains(k) <==> (k.len() > 0 && exists|i: int| 0 <= i < ps.len() && ps[i].group_key@ == k),
    decreases ps.len(),
{
    if ps.len() > 0 {
        let prev = ps.drop_last();
        lemma_key_order(prev);
        let k0 = ps.last().group_key@;
        assert forall|k: Seq<char>| #[trigger] key_order(ps).contains(k) <==> (k.len() > 0 && exists|i: int| 0 <= i < ps.len() && ps[i].group_key@ == k) by {
            if k.len() > 0 && exists|i: int| 0 <= i < ps.len() && ps[i].group_key@ == k {
                let i = choose|i: int| 0 <= i < ps.len() && ps[i].group_key@ == k;
                if i < ps.len() - 1 {
                    assert(prev[i] == ps[i]);
                    assert(key_order(prev).contains(k));
                    if !(k0.len() == 0 || key_order(prev).contains(k0)) {
                        assert(key_order(prev).push(k0)[key_order(prev).index_of(k)] == k);
                    }
                } else {
                    if !(k0.len() == 0 || key_order(prev).contains(k0)) {
                        assert(key_order(prev).push(k0)[key_order(prev).len() as int] == k);
                    }
                }
            }
            if key_order(ps).contains(k) {
                if key_order(prev).contains(k) {
                    let i = choose|i: int| 0 <= i < prev.len() && prev[i].group_key@ == k;
                    assert(ps[i] == prev[i]);
                } else {
                    assert(k == k0);
                    assert(ps[ps.len() - 1].group_key@ == k);
                }
            }
        }
        if !(k0.len() == 0 || key_order(prev).contains(k0)) {
            assert forall|a: int, b: int| 0 <= a < b < key_order(ps).len() implies #[trigger] key_order(ps)[a] != #[trigger] key_order(ps)[b] by {
                if b == key_order(prev).len() {
                    assert(key_order(prev)[a] == key_order(ps)[a]);
                }
            }
        }
    }
}

fn label_for(groups: &Vec<MapGroup>, key: &String) -> (label: String)
    ensures
        label@ == label_for_key(groups@, key@),
{
    let mut i: usize = 0;
    assert(groups@.skip(0) =~= groups@);
    while i < groups.len()
        invariant
            i <= groups.len(),
            label_for_key(groups@, key@) == label_for_key(groups@.skip(i as int), key@),
        decreases groups.len() - i,
    {
        assert(groups@.skip(i as int).drop_first() =~= groups@.skip(i + 1));
        if groups[i].key == *key {
            return groups[i].label.clone();
        }
        i = i + 1;
    }
    assert(groups@.skip(i as int) =~= Seq::<MapGroup>::empty());
    "Faction".to_owned()
}

/// The MapChart configuration of the current scenario: one group per
/// faction key in use, listing the ids of its provinces in order and
/// labelled after the faction (or `Faction` when no faction has the key),
/// with the engine's title, colours and border setting.
pub fn export_config(provinces: &Vec<Province>, groups: &Vec<MapGroup>) -> (config: MapConfig)
    ensures
        config.wf(),
        config.groups@.len() == key_order(provinces@).len(),
        forall|j: int| 0 <= j < config.groups@.len() ==> {
            &&& (#[trigger] config.groups@[j]).0@ == key_order(provinces@)[j]
            &&& strings_view(config.groups@[j].1.paths@) == ids_with_key(provinces@, key_order(provinces@)[j])
            &&& config.groups@[j].1.label@ == label_for_key(groups@, key_order(provinces@)[j])
        },
        config.title matches Some(t) && t@ == "World 1450 Grand Strategy"@,
        config.background matches Some(t) && t@ == "#013f3f"@,
        config.borders matches Some(t) && t@ == "#000"@,
        config.default_color matches Some(t) && t@ == "#d1dbdd"@,
        config.are_borders_shown == Some(true),
{
    let mut entries: Vec<(String, ConfigGroup)> = Vec::new();
    let mut slots: StringHashMap<usize> = StringHashMap::new();
    let ghost ps = provinces@;
    let mut i: usize = 0;
    while i < provinces.len()
        invariant
            i <= provinces.len(),
            ps == provinces@,
            entries@.len() == key_order(ps.take(i as int)).len(),
            forall|j: int| 0 <= j < entries@.len() ==> {
                &&& (#[trigger] entries@[j]).0@ == key_order(ps.take(i as int))[j]
                &&& strings_view(entries@[j].1.paths@) == ids_with_key(ps.take(i as int), key_order(ps.take(i as int))[j])
                &&& entries@[j].1.label@ == label_for_key(groups@, key_order(ps.take(i as int))[j])
            },
            forall|k: Seq<char>| #[trigger] slots@.contains_key(k) <==> key_order(ps.take(i as int)).contains(k),
            forall|k: Seq<char>| #[trigger] slots@.contains_key(k) ==> slots@[k] < entries@.len() && key_order(ps.take(i as int))[slots@[k] as int] == k,
        decreases provinces.len() - i,
    {
        let p = &provinces[i];
        let ghost prev = ps.take(i as int);
        let ghost next = ps.take(i + 1);
        assert(next.drop_last() =~= prev);
        assert(next.last() == ps[i as int]);
        proof {
            lemma_key_order(prev);
            lemma_key_order(next);
        }
        let ghost old_entries = entries@;
        if p.group_key.as_str().is_empty() {
            assert(key_order(next) == key_order(prev));
            assert forall|j: int| 0 <= j < entries@.len() implies ids_with_key(next, key_order(prev)[j]) == ids_with_key(prev, key_order(prev)[j]) by {
                assert(key_order(prev)[j].len() > 0);
            }
        } else {
            match slots.get(p.group_key.as_str()) {
                Some(slot) => {
                    let slot = *slot;
                    assert(key_order(next) == key_order(prev));
                    entries[slot].1.paths.push(p.id.clone());
                    proof {
                        assert forall|j: int| 0 <= j < entries@.len() implies {
                            &&& (#[trigger] entries@[j]).0@ == key_order(next)[j]
                            &&& strings_view(entries@[j].1.paths@) == ids_with_key(next, key_order(next)[j])
                            &&& entries@[j].1.label@ == label_for_key(groups@, key_order(next)[j])
                        } by {
                            if j == slot {
                                assert(strings_view(entries@[j].1.paths@) =~= strings_view(old_entries[j].1.paths@).push(p.id@));
                            } else {
                                assert(entries@[j] == old_entries[j]);
                                assert(key_order(prev)[j] != key_order(prev)[slot as int]);
                            }
                        }
                    }
                },
                None => {
                    let label = label_for(groups, &p.group_key);
                    let mut paths: Vec<String> = Vec::new();
                    paths.push(p.id.clone());
                    let slot = entries.len();
                    entries.push((p.group_key.clone(), ConfigGroup { label, paths }));
                    slots.insert(p.group_key.clone(), slot);
                    proof {
                        assert(!key_order(prev).contains(p.group_key@));
                        assert(key_order(next) == key_order(prev).push(p.group_key@));
                        assert forall|j: int| 0 <= j < entries@.len() implies {
                            &&& (#[trigger] entries@[j]).0@ == key_order(next)[j]
                            &&& strings_view(entries@[j].1.paths@) == ids_with_key(next, key_order(next)[j])
                            &&& entries@[j].1.label@ == label_for_key(groups@, key_order(next)[j])
                        } by {
                            if j == slot {
                                lemma_ids_with_key_absent(prev, p.group_key@);
                                assert(strings_view(entries@[j].1.paths@) =~= seq![p.id@]);
                                assert(ids_with_key(next, p.group_key@) =~= seq![p.id@]);
                            } else {
                                assert(entries@[j] == old_entries[j]);
                                assert(key_order(prev)[j] != p.group_key@) by {
                                    assert(key_order(prev).contains(key_order(prev)[j]));
                                }
                            }
                        }
                    }
                },
            }
        }
        i = i + 1;
    }
    proof {
        assert(ps.take(i as int) =~= ps);
        lemma_key_order(ps);
    }
    MapConfig {
        groups: entries,
        title: Some("World 1450 Grand Strategy".to_owned()),
        background: Some("#013f3f".to_owned()),
        borders: Some("#000".to_owned()),
        default_color: Some("#d1dbdd".to_owned()),
        are_borders_shown: Some(true),
    }
}

/// A key that no province carries lists no ids.
pub proof fn lemma_ids_with_key_absent(ps: Seq<Province>, k: Seq<char>)
    requires
        forall|i: int| 0 <= i < ps.len() ==> ps[i].group_key@ != k,
    ensures
        ids_with_key(ps, k) == Seq::<Seq<char>>::empty(),
    decreases ps.len(),
{
    if ps.len() > 0 {
        lemma_ids_with_key_absent(ps.drop_last(), k);
    }
}

} // verus!

verus! {

/// `cfg` lists, for every faction key in use among `ps`, the ids of the
/// provinces with that key, labelled after `gs`: the groups `export_config` builds.
pub open spec fn is_export_of(cfg: Seq<(String, ConfigGroup)>, ps: Seq<Province>, gs: Seq<MapGroup>) -> bool {
    &&& cfg.len() == key_order(ps).len()
    &&& forall|j: int| 0 <= j < cfg.len() ==> {
        &&& (#[trigger] cfg[j]).0@ == key_order(ps)[j]
        &&& strings_view(cfg[j].1.paths@) == ids_with_key(ps, key_order(ps)[j])
        &&& cfg[j].1.label@ == label_for_key(gs, key_order(ps)[j])
    }
}

/// The ids of the provinces of a scenario.
pub open spec fn province_ids(ps: Seq<Province>) -> Seq<Seq<char>> {
    ps.map_values(|p: Province| p.id@)
}

/// An id is listed under key `k` exactly when a province with key `k` has it.
pub proof fn lemma_ids_with_key_contains(ps: Seq<Province>, k: Seq<char>, x: Seq<char>)
    ensures
        ids_with_key(ps, k).contains(x) <==> exists|i: int| 0 <= i < ps.len() && ps[i].group_key@ == k && ps[i].id@ == x,
    decreases ps.len(),
{
    if ps.len() > 0 {
        let prev = ps.drop_last();
        lemma_ids_with_key_contains(prev, k, x);
        if ids_with_key(ps, k).contains(x) {
            if ids_with_key(prev, k).contains(x) {
                let i = choose|i: int| 0 <= i < prev.len() && prev[i].group_key@ == k && prev[i].id@ == x;
                assert(ps[i] == prev[i]);
            } else {
                let idx = ids_with_key(ps, k).index_of(x);
                assert(ps[ps.len() - 1].group_key@ == k && ps[ps.len() - 1].id@ == x);
            }
        }
        if exists|i: int| 0 <= i < ps.len() && ps[i].group_key@ == k && ps[i].id@ == x {
            let i = choose|i: int| 0 <= i < ps.len() && ps[i].group_key@ == k && ps[i].id@ == x;
            if i < ps.len() - 1 {
                assert(prev[i] == ps[i]);
                assert(ids_with_key(prev, k).contains(x));
                let idx = ids_with_key(prev, k).index_of(x);
                if ps.last().group_key@ == k {
                    assert(ids_with_key(ps, k)[idx] == x);
                }
            } else {
                assert(ids_with_key(ps, k)[ids_with_key(prev, k).len() as int] == x);
            }
        }
    }
}

/// Exactly one group claims province `i`: it is the last claiming group.
pub proof fn lemma_last_claiming_unique(
    groups: Seq<(String, ConfigGroup)>,
    m: Map<Seq<char>, usize>,
    n: int,
    i: int,
    j: int,
)
    requires
        0 <= j < groups.len(),
        claims(strings_view(groups[j].1.paths@), m, n, i),
        forall|h: int| 0 <= h < groups.len() && h != j ==> !claims(#[trigger] strings_view(groups[h].1.paths@), m, n, i),
    ensures
        last_claiming_group(groups, m, n, i) == Some(j),
    decreases groups.len(),
{
    if j < groups.len() - 1 {
        let prev = groups.drop_last();
        assert forall|h: int| 0 <= h < prev.len() && h != j implies !claims(#[trigger] strings_view(prev[h].1.paths@), m, n, i) by {
            assert(prev[h] == groups[h]);
        }
        assert(prev[j] == groups[j]);
        lemma_last_claiming_unique(prev, m, n, i, j);
    }
}

/// No group claims province `i`: there is no claiming group.
pub proof fn lemma_last_claiming_none(groups: Seq<(String, ConfigGroup)>, m: Map<Seq<char>, usize>, n: int, i: int)
    requires
        forall|h: int| 0 <= h < groups.len() ==> !claims(#[trigger] strings_view(groups[h].1.paths@), m, n, i),
    ensures
        last_claiming_group(groups, m, n, i) is None,
    decreases groups.len(),
{
    if groups.len() > 0 {
        let prev = groups.drop_last();
        assert forall|h: int| 0 <= h < prev.len() implies !claims(#[trigger] strings_view(prev[h].1.paths@), m, n, i) by {
            assert(prev[h] == groups[h]);
        }
        lemma_last_claiming_none(prev, m, n, i);
    }
}

/// Exporting a scenario and applying the exported configuration to the
/// same provinces gives every province back its faction: a province with a
/// faction key is handed to that key (with the exported label and the key's
/// colour), and an unassigned province is left as it is. The province ids
/// must be distinct and `m` their id index.
pub proof fn lemma_export_then_apply_restores_factions(
    ps: Seq<Province>,
    gs: Seq<MapGroup>,
    cfg: Seq<(String, ConfigGroup)>,
    m: Map<Seq<char>, usize>,
    i: int,
    p: Province,
    q: Province,
)
    requires
        all_distinct(province_ids(ps)),
        is_id_index(m, province_ids(ps)),
        is_export_of(cfg, ps, gs),
        0 <= i < ps.len(),
        configured(p, q, cfg, m, ps.len() as int, i),
    ensures
        ps[i].group_key@.len() > 0 ==> owned_by(p, q, ps[i].group_key@, label_for_key(gs, ps[i].group_key@)),
        ps[i].group_key@.len() == 0 ==> p == q,
{
    let n = ps.len() as int;
    let k = ps[i].group_key@;
    let ids = province_ids(ps);
    lemma_key_order(ps);
    assert(ids[i] == ps[i].id@);
    assert(m.contains_key(ps[i].id@));
    assert(m[ps[i].id@] == i) by {
        let mi = m[ps[i].id@] as int;
        if mi != i {
            if mi < i {
                assert(ids[mi] == ids[i]);
            } else {
                assert(ids[mi] == ids[i]);
            }
        }
    }
    // a group claims i only if its key is i's key
    assert forall|h: int| 0 <= h < cfg.len() && #[trigger] claims(strings_view(cfg[h].1.paths@), m, n, i) implies cfg[h].0@ == k by {
        let paths = strings_view(cfg[h].1.paths@);
        let j = choose|j: int| 0 <= j < paths.len() && #[trigger] m.contains_key(paths[j]) && m[paths[j]] == i && i < n;
        let x = paths[j];
        assert(ids_with_key(ps, key_order(ps)[h]).contains(x));
        lemma_ids_with_key_contains(ps, key_order(ps)[h], x);
        let i2 = choose|i2: int| 0 <= i2 < ps.len() && ps[i2].group_key@ == key_order(ps)[h] && ps[i2].id@ == x;
        assert(ids[i2] == x);
        assert(m[x] == i2) by {
            let mx = m[x] as int;
            assert(ids[mx] == x);
            if mx != i2 {
                assert(ids[mx] == ids[i2]);
            }
        }
    }
    if k.len() > 0 {
        assert(key_order(ps).contains(k));
        let j = key_order(ps).index_of(k);
        assert(cfg[j].0@ == k);
        lemma_ids_with_key_contains(ps, k, ps[i].id@);
        let paths = strings_view(cfg[j].1.paths@);
        assert(paths.contains(ps[i].id@));
        let jj = paths.index_of(ps[i].id@);
        assert(m.contains_key(paths[jj]) && m[paths[jj]] == i);
        assert(claims(paths, m, n, i));
        assert forall|h: int| 0 <= h < cfg.len() && h != j implies !claims(#[trigger] strings_view(cfg[h].1.paths@), m, n, i) by {
            if claims(strings_view(cfg[h].1.paths@), m, n, i) {
                assert(cfg[h].0@ == k);
                assert(key_order(ps)[h] == key_order(ps)[j]);
            }
        }
        lemma_last_claiming_unique(cfg, m, n, i, j);
    } else {
        assert forall|h: int| 0 <= h < cfg.len() implies !claims(#[trigger] strings_view(cfg[h].1.paths@), m, n, i) by {
            if claims(strings_view(cfg[h].1.paths@), m, n, i) {
                assert(cfg[h].0@ == k);
                assert(key_order(ps)[h].len() > 0);
            }
        }
        lemma_last_claiming_none(cfg, m, n, i);
    }
}

} // verus!
