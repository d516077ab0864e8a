//! Tokenizing SVG path data (`d` attributes) into commands and the number
//! tokens that follow each command letter.

use vstd::prelude::*;
use crate::text::{chars_of, string_from_range};

verus! {

/// One path command letter with the number tokens written after it, in order.
pub struct PathCommandTokens {
    pub cmd: char,
    pub params: Vec<String>,
}

impl View for PathCommandTokens {
    type V = (char, Seq<Seq<char>>);

    open spec fn view(&self) -> (char, Seq<Seq<char>>) {
        (self.cmd, self.params@.map_values(|s: String| s@))
    }
}

/// An ASCII letter: a path command.
pub open spec fn is_command_letter(c: char) -> bool {
    ('a' <= c <= 'z') || ('A' <= c <= 'Z')
}

/// A character that starts a number token.
pub open spec fn is_number_start(c: char) -> bool {
    c == '-' || c == '+' || ('0' <= c <= '9') || c == '.'
}

/// Where a number token that continues at position `i` ends: digits, at
/// most one `.`, and exponent markers `e`/`E` each optionally followed by a
/// sign; a sign elsewhere, a second `.` or any other character ends it.
pub open spec fn number_end(c: Seq<char>, i: int, has_dot: bool) -> int
    decreases c.len() - i,
{
    if i < 0 || i >= c.len() {
        i
    } else if '0' <= c[i] <= '9' {
        number_end(c, i + 1, has_dot)
    } else if c[i] == '.' {
        if has_dot {
            i
        } else {
            number_end(c, i + 1, true)
        }
    } else if c[i] == 'e' || c[i] == 'E' {
        if i + 1 < c.len() && (c[i + 1] == '-' || c[i + 1] == '+') {
            number_end(c, i + 2, has_dot)
        } else {
            number_end(c, i + 1, has_dot)
        }
    } else {
        i
    }
}

/// The commands of `c` from position `i` on, given the command being read
/// (if any) and the number tokens read for it so far. Number tokens read
/// before the first command letter are kept for that first command.
pub open spec fn commands_from(
    c: Seq<char>,
    i: int,
    cur: Option<char>,
    params: Seq<Seq<char>>,
) -> Seq<(char, Seq<Seq<char>>)>
    decreases c.len() - i,
{
    if i < 0 || i >= c.len() {
        match cur {
            Some(cmd) => seq![(cmd, params)],
            None => seq![],
        }
    } else if is_command_letter(c[i]) {
        match cur {
            Some(cmd) => seq![(cmd, params)] + commands_from(c, i + 1, Some(c[i]), seq![]),
            None => commands_from(c, i + 1, Some(c[i]), params),
        }
    } else if is_number_start(c[i]) {
        proof {
            lemma_number_end_bounds(c, i + 1, c[i] == '.');
        }
        let e = number_end(c, i + 1, c[i] == '.');
        if e <= i {
            seq![]
        } else {
            commands_from(c, e, cur, params.push(c.subrange(i, e)))
        }
    } else {
        commands_from(c, i + 1, cur, params)
    }
}

/// The commands of path data `d`, each with its number tokens.
pub open spec fn path_commands(d: Seq<char>) -> Seq<(char, Seq<Seq<char>>)> {
    commands_from(d, 0, None, seq![])
}

/// A number token ends at or after where it continues, and within the text.
pub proof fn lemma_number_end_bounds(c: Seq<char>, i: int, has_dot: bool)
    requires
        0 <= i <= c.len(),
    ensures
        i <= number_end(c, i, has_dot) <= c.len(),
    decreases c.len() - i,
{
    if i < c.len() {
        if '0' <= c[i] <= '9' {
            lemma_number_end_bounds(c, i + 1, has_dot);
        } else if c[i] == '.' {
            if !has_dot {
                lemma_number_end_bounds(c, i + 1, true);
            }
        } else if c[i] == 'e' || c[i] == 'E' {
            if i + 1 < c.len() && (c[i + 1] == '-' || c[i + 1] == '+') {
                lemma_number_end_bounds(c, i + 2, has_dot);
            } else {
                lemma_number_end_bounds(c, i + 1, has_dot);
            }
        }
    }
}

fn scan_number(c: &Vec<char>, start: usize) -> (e: usize)
    requires
        start < c.len(),
    ensures
        e == number_end(c@, start + 1, c@[start as int] == '.'),
        start < e <= c.len(),
{
    let mut has_dot = c[start] == '.';
    let mut i = start + 1;
    proof {
        lemma_number_end_bounds(c@, i as int, has_dot);
    }
    while i < c.len()
        invariant
            start < i <= c.len(),
            number_end(c@, i as int, has_dot) == number_end(c@, start + 1, c@[start as int] == '.'),
        ensures
            start < i <= c.len(),
            number_end(c@, i as int, has_dot) == number_end(c@, start + 1, c@[start as int] == '.'),
            number_end(c@, i as int, has_dot) == i,
        decreases c.len() - i,
    {
        let nb = c[i];
        if '0' <= nb && nb <= '9' {
            i = i + 1;
        } else if nb == '.' {
            if has_dot {
                break;
            }
            has_dot = true;
            i = i + 1;
        } else if nb == '-' || nb == '+' {
            break;
        } else if nb == 'e' || nb == 'E' {
            i = i + 1;
            if i < c.len() && (c[i] == '-' || c[i] == '+') {
                i = i + 1;
            }
        } else {
            break;
        }
    }
    i
}

proof fn lemma_tokens_push(s: Seq<PathCommandTokens>, x: PathCommandTokens)
    ensures
        s.push(x).map_values(|t: PathCommandTokens| t@) =~= s.map_values(|t: PathCommandTokens| t@).push(x@),
{
    assert(s.push(x).map_values(|t: PathCommandTokens| t@) =~= s.map_values(|t: PathCommandTokens| t@).push(x@));
}

fn is_command_letter_char(c: char) -> (b: bool)
    ensures
        b == is_command_letter(c),
{
    ('a' <= c && c <= 'z') || ('A' <= c && c <= 'Z')
}

/// Splits SVG path data into commands: each command letter with the number
/// tokens that follow it, up to the next letter. Separators and other
/// characters between tokens are skipped.
pub fn tokenize_svg_commands(d: &str) -> (cmds: Vec<PathCommandTokens>)
    ensures
        cmds@.map_values(|t: PathCommandTokens| t@) == path_commands(d@),
{
    let c = chars_of(d);
    let mut commands: Vec<PathCommandTokens> = Vec::new();
    let mut current_cmd: Option<char> = None;
    let mut current_params: Vec<String> = Vec::new();
    let mut i: usize = 0;
    assert(current_params@.map_values(|s: String| s@) =~= seq![]);
    assert(commands@.map_values(|t: PathCommandTokens| t@) =~= seq![]);
    while i < c.len()
        invariant
            c@ == d@,
            i <= c.len(),
            commands@.map_values(|t: PathCommandTokens| t@) + commands_from(
                c@,
                i as int,
                current_cmd,
                current_params@.map_values(|s: String| s@),
            ) == path_commands(c@),
        decreases c.len() - i,
    {
        let b = c[i];
        let ghost before = commands@.map_values(|t: PathCommandTokens| t@);
        let ghost old_params = current_params@.map_values(|s: String| s@);
        if is_command_letter_char(b) {
            match current_cmd {
                Some(cmd) => {
                    let mut params: Vec<String> = Vec::new();
                    std::mem::swap(&mut params, &mut current_params);
                    let tok = PathCommandTokens { cmd, params };
                    let ghost old_cmds = commands@;
                    assert(tok@ == (cmd, old_params));
                    commands.push(tok);
                    proof {
                        assert(commands@ == old_cmds.push(tok));
                        lemma_tokens_push(old_cmds, tok);
                        assert(commands@.map_values(|t: PathCommandTokens| t@) =~= before + seq![
                            (cmd, old_params),
                        ]);
                        assert(current_params@.map_values(|s: String| s@) =~= seq![]);
                    }
                },
                None => {},
            }
            current_cmd = Some(b);
            i = i + 1;
        } else if b == ' ' || b == ',' || b == '\n' || b == '\r' || b == '\t' {
            i = i + 1;
        } else if b == '-' || b == '+' || ('0' <= b && b <= '9') || b == '.' {
            let e = scan_number(&c, i);
            let tok = string_from_range(&c, i, e);
            current_params.push(tok);
            proof {
                assert(current_params@.map_values(|s: String| s@) =~= old_params.push(
                    c@.subrange(i as int, e as int),
                ));
            }
            i = e;
        } else {
            i = i + 1;
        }
    }
    match current_cmd {
        Some(cmd) => {
            let ghost before = commands@.map_values(|t: PathCommandTokens| t@);
            let ghost old_params = current_params@.map_values(|s: String| s@);
            let tok = PathCommandTokens { cmd, params: current_params };
            let ghost old_cmds = commands@;
            assert(tok@ == (cmd, old_params));
            commands.push(tok);
            proof {
                lemma_tokens_push(old_cmds, tok);
                assert(commands@.map_values(|t: PathCommandTokens| t@) =~= before + seq![
                    (cmd, old_params),
                ]);
            }
        },
        None => {
            assert(commands@.map_values(|t: PathCommandTokens| t@) + seq![] =~= commands@.map_values(
                |t: PathCommandTokens| t@,
            ));
        },
    }
    commands
}

} // verus!
