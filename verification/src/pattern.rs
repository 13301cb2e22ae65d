//! The patterns of the format, matched by the `regex` crate, and what a
//! match of each holds.

use vstd::prelude::*;
use regex::Regex;
use crate::text::{str_trim, trim};

verus! {

/// `regex::Regex`, a compiled pattern. Nothing of its inside is known here.
#[verifier::external_type_specification]
#[verifier::external_body]
pub struct ExRegex(Regex);

/// A section header: `[ name ]`, with an optional comment behind it.
pub const SECTION_PATTERN: &'static str = r"^\[\s*(\w+)\s*\](\s*[#;].*)?$";

/// An option: a key alone, or a key, `:` or `=`, and a value.
pub const OPTION_PATTERN: &'static str = r"^(\w+)(\s*[:=]\s*(.*))?$";

/// A reference to another option inside a value: `%(name)s`.
pub const PLACEHOLDER_PATTERN: &'static str = r"(%\(\s*(\w+)\s*\)s)";

/// A path that begins with `~` and an optional user name.
pub const HOME_PATTERN: &'static str = r"^\s*~(\w*)/(.*)$";

/// The pattern text that a compiled pattern was made from.
pub uninterp spec fn pattern_text(re: Regex) -> Seq<char>;

/// What `Regex::captures` finds for a pattern in a haystack: nothing, or
/// for the leftmost match the text of each group, group 0 being the whole
/// match and a group that took no part being `None`.
pub uninterp spec fn captures_of(pattern: Seq<char>, haystack: Seq<char>) -> Option<
    Seq<Option<Seq<char>>>,
>;

/// Whether `p` is one of the patterns of this module.
pub open spec fn is_builtin_pattern(p: Seq<char>) -> bool {
    ||| p == SECTION_PATTERN@
    ||| p == OPTION_PATTERN@
    ||| p == PLACEHOLDER_PATTERN@
    ||| p == HOME_PATTERN@
}

/// The groups of a match as plain text.
pub open spec fn groups_view(groups: Seq<Option<String>>) -> Seq<Option<Seq<char>>> {
    Seq::new(
        groups.len(),
        |i: int|
            match groups[i] {
                Some(s) => Some(s@),
                None => None,
            },
    )
}

/// What a search found, as plain text.
pub open spec fn match_view(found: Option<Vec<Option<String>>>) -> Option<Seq<Option<Seq<char>>>> {
    match found {
        Some(groups) => Some(groups_view(groups@)),
        None => None,
    }
}

/// `Regex::new` with the error unwrapped. The four patterns of this module
/// are valid and small, so that for them `Regex::new` succeeds; the value it
/// gives remembers the pattern text.
#[verifier::external_body]
pub(crate) fn compile(pattern: &str) -> (re: Regex)
    requires
        is_builtin_pattern(pattern@),
    ensures
        pattern_text(re) == pattern@,
{
    Regex::new(pattern).unwrap()
}

/// `Regex::captures`, each group of the match copied out as a string. For
/// a pattern that `compile` made, with the settings that `Regex::new`
/// gives, the result depends on the pattern text and the haystack alone.
#[verifier::external_body]
pub(crate) fn captures(re: &Regex, haystack: &str) -> (found: Option<Vec<Option<String>>>)
    requires
        is_builtin_pattern(pattern_text(*re)),
    ensures
        match_view(found) == captures_of(pattern_text(*re), haystack@),
{
    re.captures(haystack).map(
        |c| (0..c.len()).map(|i| c.get(i).map(|m| m.as_str().to_string())).collect(),
    )
}

/// Group `i` of a match, where it exists and took part.
pub open spec fn group(groups: Seq<Option<Seq<char>>>, i: int) -> Option<Seq<char>> {
    if 0 <= i < groups.len() {
        groups[i]
    } else {
        None
    }
}

/// The name that a match of the section pattern holds.
pub open spec fn captured_name(groups: Seq<Option<Seq<char>>>) -> Option<Seq<char>> {
    group(groups, 1)
}

/// The key and value that a match of the option pattern holds. A key
/// without a separator has the empty value.
pub open spec fn captured_kv(groups: Seq<Option<Seq<char>>>) -> Option<(Seq<char>, Seq<char>)> {
    if groups.len() < 2 {
        None
    } else {
        match group(groups, 1) {
            Some(key) => match group(groups, 3) {
                Some(value) => Some((key, value)),
                None => Some((key, Seq::empty())),
            },
            None => None,
        }
    }
}

/// The placeholder text and the option name in it that a match of the
/// placeholder pattern holds.
pub open spec fn captured_placeholder(groups: Seq<Option<Seq<char>>>) -> Option<
    (Seq<char>, Seq<char>),
> {
    match group(groups, 1) {
        Some(text) => match group(groups, 2) {
            Some(name) => Some((text, name)),
            None => None,
        },
        None => None,
    }
}

/// The section that the line `line` opens, if it is a section header.
pub open spec fn section_of(line: Seq<char>) -> Option<Seq<char>> {
    match captures_of(SECTION_PATTERN@, trim(line)) {
        Some(groups) => captured_name(groups),
        None => None,
    }
}

/// The key and value that the line `line` sets, if it is an option line.
pub open spec fn option_of(line: Seq<char>) -> Option<(Seq<char>, Seq<char>)> {
    match captures_of(OPTION_PATTERN@, trim(line)) {
        Some(groups) => captured_kv(groups),
        None => None,
    }
}

/// The first placeholder in `value`: its text and the name it refers to.
pub open spec fn placeholder_of(value: Seq<char>) -> Option<(Seq<char>, Seq<char>)> {
    match captures_of(PLACEHOLDER_PATTERN@, value) {
        Some(groups) => captured_placeholder(groups),
        None => None,
    }
}

/// The text of a string, where there is one.
pub open spec fn text_view(s: Option<String>) -> Option<Seq<char>> {
    match s {
        Some(s) => Some(s@),
        None => None,
    }
}

/// The texts of a pair of strings, where there is one.
pub open spec fn pair_view(p: Option<(String, String)>) -> Option<(Seq<char>, Seq<char>)> {
    match p {
        Some((a, b)) => Some((a@, b@)),
        None => None,
    }
}

fn group_at(groups: &Vec<Option<String>>, i: usize) -> (r: Option<String>)
    ensures
        text_view(r) == group(groups_view(groups@), i as int),
{
    if i < groups.len() {
        match &groups[i] {
            Some(s) => Some(s.clone()),
            None => None,
        }
    } else {
        None
    }
}

/// The section name out of a match of the section pattern.
pub fn get_captured_name(groups: &Vec<Option<String>>) -> (r: Option<String>)
    ensures
        text_view(r) == captured_name(groups_view(groups@)),
{
    group_at(groups, 1)
}

/// The key and value out of a match of the option pattern.
pub fn get_captured_kv(groups: &Vec<Option<String>>) -> (r: Option<(String, String)>)
    ensures
        pair_view(r) == captured_kv(groups_view(groups@)),
{
    if groups.len() < 2 {
        return None;
    }
    match group_at(groups, 1) {
        Some(key) => match group_at(groups, 3) {
            Some(value) => Some((key, value)),
            None => Some((key, String::new())),
        },
        None => None,
    }
}

/// The placeholder and its name out of a match of the placeholder pattern.
pub fn get_captured_placeholder(groups: &Vec<Option<String>>) -> (r: Option<(String, String)>)
    ensures
        pair_view(r) == captured_placeholder(groups_view(groups@)),
{
    match group_at(groups, 1) {
        Some(text) => match group_at(groups, 2) {
            Some(name) => Some((text, name)),
            None => None,
        },
        None => None,
    }
}

/// The compiled patterns of the format.
pub struct Grammar {
    s_re: Regex,
    o_re: Regex,
    i_re: Regex,
}

impl Grammar {
    /// The pattern texts that the grammar was compiled from: that of section
    /// headers, that of option lines and that of placeholders.
    pub closed spec fn patterns(&self) -> (Seq<char>, Seq<char>, Seq<char>) {
        (pattern_text(self.s_re), pattern_text(self.o_re), pattern_text(self.i_re))
    }

    /// Each field holds the pattern it is named for.
    #[verifier::type_invariant]
    pub closed spec fn inv(&self) -> bool {
        self.patterns() == (SECTION_PATTERN@, OPTION_PATTERN@, PLACEHOLDER_PATTERN@)
    }

    /// The patterns of the format, compiled: the section pattern, the option
    /// pattern and the placeholder pattern, in that order.
    pub fn new() -> (g: Grammar)
        ensures
            g.patterns() == (SECTION_PATTERN@, OPTION_PATTERN@, PLACEHOLDER_PATTERN@),
    {
        Grammar {
            s_re: compile(SECTION_PATTERN),
            o_re: compile(OPTION_PATTERN),
            i_re: compile(PLACEHOLDER_PATTERN),
        }
    }

    /// The section that `s` opens, if it is a section header.
    pub fn section_name(&self, s: &str) -> (r: Option<String>)
        ensures
            text_view(r) == section_of(s@),
    {
        proof {
            use_type_invariant(self);
        }
        let t = str_trim(s);
        match captures(&self.s_re, t.as_str()) {
            Some(groups) => get_captured_name(&groups),
            None => None,
        }
    }

    /// The key and value that `s` sets, if it is an option line.
    pub fn option_kv(&self, s: &str) -> (r: Option<(String, String)>)
        ensures
            pair_view(r) == option_of(s@),
    {
        proof {
            use_type_invariant(self);
        }
        let t = str_trim(s);
        match captures(&self.o_re, t.as_str()) {
            Some(groups) => get_captured_kv(&groups),
            None => None,
        }
    }

    /// The first placeholder in `value`.
    pub fn placeholder(&self, value: &str) -> (r: Option<(String, String)>)
        ensures
            pair_view(r) == placeholder_of(value@),
    {
        proof {
            use_type_invariant(self);
        }
        match captures(&self.i_re, value) {
            Some(groups) => get_captured_placeholder(&groups),
            None => None,
        }
    }
}

} // verus!
