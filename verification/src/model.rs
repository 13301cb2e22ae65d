//! The store as a mathematical value, and what each operation means on it.

use vstd::prelude::*;
use vstd::set_lib::lemma_len_subset;
use crate::error::FetchErrorKind;
use crate::pattern::{option_of, placeholder_of, section_of};
use crate::text::{isize_of, lower, replace_all, sorted_keys, trim_end, usize_of};

verus! {

pub type Text = Seq<char>;

/// The options of one section: raw values by option name.
pub type Options = Map<Seq<char>, Seq<char>>;

/// What a lookup gives: a text, or the kind of its failure.
pub type Lookup = Result<Seq<char>, FetchErrorKind>;

/// Sections by name, and the defaults that a lookup falls back on.
pub struct Store {
    pub sections: Map<Seq<char>, Options>,
    pub defaults: Options,
}

/// How many of `names` are not among `expanded`.
pub open spec fn pending(names: Set<Text>, expanded: Set<Text>) -> nat {
    names.difference(expanded).len()
}

/// A name that is marked as replaced is pending no longer.
pub proof fn lemma_pending_insert(names: Set<Text>, expanded: Set<Text>, name: Text)
    requires
        names.finite(),
        names.contains(name),
        !expanded.contains(name),
    ensures
        pending(names, expanded.insert(name)) < pending(names, expanded),
{
    assert(names.difference(expanded.insert(name)) =~= names.difference(expanded).remove(name));
}

/// The more names are replaced, the fewer are pending.
pub proof fn lemma_pending_grows(names: Set<Text>, a: Set<Text>, b: Set<Text>)
    requires
        names.finite(),
        a.subset_of(b),
    ensures
        pending(names, b) <= pending(names, a),
{
    lemma_len_subset(names.difference(b), names.difference(a));
}

/// A failure met while resolving a placeholder: circularity stays what it
/// is, anything else is an interpolation error.
pub open spec fn interpolation_failure(k: FetchErrorKind) -> FetchErrorKind {
    if k == FetchErrorKind::InterpolationCircularity {
        k
    } else {
        FetchErrorKind::InterpolationError
    }
}

/// The defaults that the pairs `pairs` give: a later pair overrides an
/// earlier one with the same key.
pub open spec fn defaults_of(pairs: Seq<(Text, Text)>) -> Options
    decreases pairs.len(),
{
    if pairs.len() == 0 {
        Map::empty()
    } else {
        defaults_of(pairs.drop_last()).insert(pairs.last().0, pairs.last().1)
    }
}

/// What a value means as a truth value, if anything.
pub open spec fn truth_of(v: Text) -> Option<bool> {
    let l = lower(v);
    if l == "true"@ || l == "yes"@ || l == "on"@ || l == "1"@ || l == ""@ {
        Some(true)
    } else if l == "false"@ || l == "no"@ || l == "off"@ || l == "0"@ {
        Some(false)
    } else {
        None
    }
}

/// What a value means as an unsigned number: the empty value counts as 1.
pub open spec fn uint_of(v: Text) -> Option<usize> {
    if v.len() == 0 {
        Some(1usize)
    } else {
        usize_of(v)
    }
}

/// What a value means as a signed number: the empty value counts as 1.
pub open spec fn int_of(v: Text) -> Option<isize> {
    if v.len() == 0 {
        Some(1isize)
    } else {
        isize_of(v)
    }
}

/// The text that stands for a value read as a floating-point number: the
/// empty value counts as `1.0`.
pub open spec fn float_text_of(v: Text) -> Text {
    if v.len() == 0 {
        "1.0"@
    } else {
        v
    }
}

/// The options with their values, in rising order of their keys.
pub open spec fn listing(opts: Options) -> Seq<(Text, Text)> {
    Seq::new(
        sorted_keys(opts.dom()).len(),
        |i: int| (sorted_keys(opts.dom())[i], opts[sorted_keys(opts.dom())[i]]),
    )
}

/// The lines `key : value` of the keys `keys`, in their order.
pub open spec fn render_options(opts: Options, keys: Seq<Text>) -> Text
    decreases keys.len(),
{
    if keys.len() == 0 {
        Seq::empty()
    } else {
        keys[0] + " : "@ + opts[keys[0]] + "\n"@ + render_options(opts, keys.skip(1))
    }
}

/// A section as text: its header, its options in rising order of their
/// keys, and an empty line.
pub open spec fn render_section(name: Text, opts: Options) -> Text {
    "["@ + name + "]\n"@ + render_options(opts, sorted_keys(opts.dom())) + "\n"@
}

/// The header line of the section `name`.
pub open spec fn header_line(name: Text) -> Text {
    "["@ + name + "]\n"@
}

/// The line that sets `key` to `value`.
pub open spec fn setting_line(key: Text, value: Text) -> Text {
    key + " : "@ + value + "\n"@
}

/// The lines of the options `keys`, in their order.
pub open spec fn options_lines(opts: Options, keys: Seq<Text>) -> Seq<Text>
    decreases keys.len(),
{
    if keys.len() == 0 {
        Seq::empty()
    } else {
        seq![setting_line(keys[0], opts[keys[0]])] + options_lines(opts, keys.skip(1))
    }
}

/// The lines of a section: its header, its options in rising order of
/// their keys, and an empty line.
pub open spec fn section_lines(name: Text, opts: Options) -> Seq<Text> {
    seq![header_line(name)] + options_lines(opts, sorted_keys(opts.dom())) + seq!["\n"@]
}

/// The lines one after another as one text.
pub open spec fn flatten(lines: Seq<Text>) -> Text
    decreases lines.len(),
{
    if lines.len() == 0 {
        Seq::empty()
    } else {
        lines[0] + flatten(lines.skip(1))
    }
}

/// Whether `t` holds no newline.
pub open spec fn one_line(t: Text) -> bool {
    forall|i: int| 0 <= i < t.len() ==> t[i] != '\n'
}

/// Whether the header line of `name` is read as the header of `name`.
pub open spec fn header_reads(name: Text) -> bool {
    &&& name.len() > 0
    &&& one_line(name)
    &&& section_of(trim_end(header_line(name))) == Some(name)
}

/// Whether the line that sets `key` to `value` is read as setting `key` to
/// `value`: it is one line, no comment, goes on to no further line, and the
/// patterns take it for this option and for no header.
pub open spec fn setting_reads(key: Text, value: Text) -> bool {
    &&& one_line(key)
    &&& one_line(value)
    &&& !(key.len() > 0 && (key[0] == '#' || key[0] == ';'))
    &&& !(value.len() > 0 && value.last() == '\\')
    &&& section_of(trim_end(setting_line(key, value))) is None
    &&& option_of(trim_end(setting_line(key, value))) == Some((key, value))
}

/// Whether the empty line is passed over.
pub open spec fn blank_reads() -> bool {
    &&& section_of(trim_end("\n"@)) is None
    &&& option_of(trim_end("\n"@)) is None
}

impl Store {
    /// The store without sections.
    pub open spec fn empty(defaults: Options) -> Store {
        Store { sections: Map::empty(), defaults }
    }

    /// Whether the store holds `section`.
    pub open spec fn has_section(self, section: Text) -> bool {
        self.sections.contains_key(section)
    }

    /// The options of `section`; none where there is no such section.
    pub open spec fn options_of(self, section: Text) -> Options {
        if self.sections.contains_key(section) {
            self.sections[section]
        } else {
            Map::empty()
        }
    }

    /// The store with `section` present and empty.
    pub open spec fn add_section(self, section: Text) -> Store {
        Store { sections: self.sections.insert(section, Map::empty()), ..self }
    }

    /// The store without `section`.
    pub open spec fn remove_section(self, section: Text) -> Store {
        Store { sections: self.sections.remove(section), ..self }
    }

    /// The store with `option` of `section` set to `value`; the section is
    /// made where it is missing.
    pub open spec fn set(self, section: Text, option: Text, value: Text) -> Store {
        Store {
            sections: self.sections.insert(section, self.options_of(section).insert(option, value)),
            ..self
        }
    }

    /// The store without `option` in `section`.
    pub open spec fn remove_option(self, section: Text, option: Text) -> Store {
        Store {
            sections: self.sections.insert(section, self.options_of(section).remove(option)),
            ..self
        }
    }

    /// What adding `section` gives: the store with it, or the failure where
    /// the store holds a section of that name already.
    pub open spec fn try_add_section(self, section: Text) -> (Store, Result<(), FetchErrorKind>) {
        if self.has_section(section) {
            (self, Err(FetchErrorKind::DuplicateSection))
        } else {
            (self.add_section(section), Ok(()))
        }
    }

    /// What removing `section` gives: the store without it, or the failure
    /// where the store holds no section of that name.
    pub open spec fn try_remove_section(self, section: Text) -> (
        Store,
        Result<(), FetchErrorKind>,
    ) {
        if self.has_section(section) {
            (self.remove_section(section), Ok(()))
        } else {
            (self, Err(FetchErrorKind::NoSuchSection))
        }
    }

    /// What removing `option` from `section` gives: the store without it,
    /// or the failure where the section or the option in it is missing.
    pub open spec fn try_remove_option(self, section: Text, option: Text) -> (
        Store,
        Result<(), FetchErrorKind>,
    ) {
        if !self.has_section(section) {
            (self, Err(FetchErrorKind::NoSuchSection))
        } else if !self.sections[section].contains_key(option) {
            (self, Err(FetchErrorKind::NoSuchOption))
        } else {
            (self.remove_option(section, option), Ok(()))
        }
    }

    /// The default of `option`, or the failure `missing`.
    pub open spec fn default_or(self, option: Text, missing: FetchErrorKind) -> Lookup {
        if self.defaults.contains_key(option) {
            Ok(self.defaults[option])
        } else {
            Err(missing)
        }
    }

    /// The raw value of `option` in `section`, or else its default.
    pub open spec fn get_raw(self, section: Text, option: Text) -> Lookup {
        if self.sections.contains_key(section) {
            if self.sections[section].contains_key(option) {
                Ok(self.sections[section][option])
            } else {
                self.default_or(option, FetchErrorKind::NoSuchOption)
            }
        } else {
            self.default_or(option, FetchErrorKind::NoSuchSection)
        }
    }

    /// Whether `section` or the defaults hold `option`.
    pub open spec fn has_option(self, section: Text, option: Text) -> Result<bool, FetchErrorKind> {
        if self.sections.contains_key(section) {
            Ok(self.sections[section].contains_key(option) || self.defaults.contains_key(option))
        } else {
            Err(FetchErrorKind::NoSuchSection)
        }
    }

    /// The names that a placeholder in `section` can refer to.
    pub open spec fn names(self, section: Text) -> Set<Text> {
        self.options_of(section).dom().union(self.defaults.dom())
    }

    /// Replaces the placeholders of `value`, the first one first, until none
    /// is left. `value` belongs to `option` of `section`; `expanded` holds the
    /// names replaced so far. A placeholder that names `option` or a member
    /// of `expanded` is circular. The raw value of a name is looked up as
    /// `get_raw` does, among the options of `section` and else among the
    /// defaults, and is expanded in turn before it is put in. Gives the text
    /// or the failure, and the names replaced by then.
    pub open spec fn expand(self, section: Text, option: Text, value: Text, expanded: Set<Text>) -> (
        Lookup,
        Set<Text>,
    )
        decreases pending(self.names(section), expanded),
        when self.names(section).finite()
    {
        match placeholder_of(value) {
            None => (Ok(value), expanded),
            Some((text, name)) => {
                if name == option || expanded.contains(name) {
                    (Err(FetchErrorKind::InterpolationCircularity), expanded)
                } else {
                    let marked = expanded.insert(name);
                    match self.get_raw(section, name) {
                        Ok(raw) => {
                            proof {
                                lemma_pending_insert(self.names(section), expanded, name);
                            }
                            let inner = self.expand(section, name, raw, marked);
                            match inner.0 {
                                Ok(v) => {
                                    proof {
                                        lemma_pending_grows(
                                            self.names(section),
                                            marked,
                                            marked.union(inner.1),
                                        );
                                    }
                                    self.expand(
                                        section,
                                        option,
                                        replace_all(value, text, v),
                                        marked.union(inner.1),
                                    )
                                },
                                Err(k) => (Err(interpolation_failure(k)), inner.1),
                            }
                        },
                        Err(k) => (Err(interpolation_failure(k)), marked),
                    }
                }
            },
        }
    }

    /// The value of `option` in `section`, or else its default, with the
    /// placeholders replaced.
    pub open spec fn resolve(self, section: Text, option: Text, expanded: Set<Text>) -> (
        Lookup,
        Set<Text>,
    ) {
        match self.get_raw(section, option) {
            Ok(raw) => self.expand(section, option, raw, expanded),
            Err(k) => (Err(k), expanded),
        }
    }

    /// Replaces one placeholder of `value`: `text`, which refers to `name`.
    pub open spec fn expand_step(
        self,
        section: Text,
        option: Text,
        value: Text,
        text: Text,
        name: Text,
        expanded: Set<Text>,
    ) -> (Lookup, Set<Text>) {
        if name == option || expanded.contains(name) {
            (Err(FetchErrorKind::InterpolationCircularity), expanded)
        } else {
            let inner = self.resolve(section, name, expanded.insert(name));
            match inner.0 {
                Ok(v) => (Ok(replace_all(value, text, v)), inner.1),
                Err(k) => (Err(interpolation_failure(k)), inner.1),
            }
        }
    }

    /// The value of `option` in `section` as a caller reads it.
    pub open spec fn get(self, section: Text, option: Text) -> Lookup {
        self.resolve(section, option, Set::empty()).0
    }

    /// The value of `option` in `section` as a truth value.
    pub open spec fn getboolean(self, section: Text, option: Text) -> Result<bool, FetchErrorKind> {
        match self.get(section, option) {
            Ok(v) => match truth_of(v) {
                Some(b) => Ok(b),
                None => Err(FetchErrorKind::InvalidLiteral),
            },
            Err(k) => Err(k),
        }
    }

    /// The value of `option` in `section` as an unsigned number.
    pub open spec fn getuint(self, section: Text, option: Text) -> Result<usize, FetchErrorKind> {
        match self.get(section, option) {
            Ok(v) => match uint_of(v) {
                Some(n) => Ok(n),
                None => Err(FetchErrorKind::InvalidLiteral),
            },
            Err(k) => Err(k),
        }
    }

    /// The value of `option` in `section` as a signed number.
    pub open spec fn getint(self, section: Text, option: Text) -> Result<isize, FetchErrorKind> {
        match self.get(section, option) {
            Ok(v) => match int_of(v) {
                Some(n) => Ok(n),
                None => Err(FetchErrorKind::InvalidLiteral),
            },
            Err(k) => Err(k),
        }
    }

    /// The value of `option` in `section` as the text of a floating-point number.
    pub open spec fn getfloat_text(self, section: Text, option: Text) -> Lookup {
        match self.get(section, option) {
            Ok(v) => Ok(float_text_of(v)),
            Err(k) => Err(k),
        }
    }

    /// The sections `names` as text, in their order.
    pub open spec fn render_sections(self, names: Seq<Text>) -> Text
        decreases names.len(),
    {
        if names.len() == 0 {
            Seq::empty()
        } else {
            render_section(names[0], self.sections[names[0]]) + self.render_sections(
                names.skip(1),
            )
        }
    }

    /// The store as text: its sections in rising order of their names.
    pub open spec fn render(self) -> Text {
        self.render_sections(sorted_keys(self.sections.dom()))
    }

    /// The lines of the sections `names`, in their order.
    pub open spec fn lines_of(self, names: Seq<Text>) -> Seq<Text>
        decreases names.len(),
    {
        if names.len() == 0 {
            Seq::empty()
        } else {
            section_lines(names[0], self.sections[names[0]]) + self.lines_of(names.skip(1))
        }
    }

    /// Whether the store holds finitely many sections, and finitely many
    /// options in each; every store that is held in memory does.
    pub open spec fn finite(self) -> bool {
        &&& self.sections.dom().finite()
        &&& forall|s: Text| #[trigger] self.sections.contains_key(s) ==> self.sections[s].dom().finite()
    }

    /// Whether every line that the store is written as is read as what it
    /// was written for.
    pub open spec fn reads_back(self) -> bool {
        &&& blank_reads()
        &&& forall|s: Text| #[trigger] self.sections.contains_key(s) ==> header_reads(s)
        &&& forall|s: Text, k: Text|
            self.sections.contains_key(s) && #[trigger] self.sections[s].contains_key(k)
                ==> setting_reads(k, self.sections[s][k])
    }

    /// The store with `section` open: made where the store has none of
    /// that name, and left as it is where it has.
    pub open spec fn open_section(self, section: Text) -> Store {
        if self.has_section(section) {
            self
        } else {
            self.add_section(section)
        }
    }

    /// The store with `key` set to `value` in the open section `current`;
    /// the store as it is where no section is open, or where the store
    /// holds no section of that name.
    pub open spec fn set_open(self, current: Text, key: Text, value: Text) -> Store {
        if current.len() > 0 && self.has_section(current) {
            self.set(current, key, value)
        } else {
            self
        }
    }

    /// What one logical line does to the store, `current` being the section
    /// that is open (none where it is empty). A header opens its section,
    /// and makes it where the store has none of that name. An option line
    /// sets its option in the open section; where none is open it is passed
    /// over, as is any other line.
    pub open spec fn parse_line(self, current: Text, line: Text) -> (Store, Text) {
        let tl = trim_end(line);
        match section_of(tl) {
            Some(name) => (self.open_section(name), name),
            None => match option_of(tl) {
                Some((key, value)) => (self.set_open(current, key, value), current),
                None => (self, current),
            },
        }
    }

    /// The option that the line `line` holds but that is passed over,
    /// because no section is open for it.
    pub open spec fn passed_over_line(self, current: Text, line: Text) -> Option<(Text, Text)> {
        let tl = trim_end(line);
        match section_of(tl) {
            Some(_) => None,
            None => match option_of(tl) {
                Some((key, value)) => if current.len() > 0 && self.has_section(current) {
                    None
                } else {
                    Some((key, value))
                },
                None => None,
            },
        }
    }

    /// The options that are passed over while the lines `lines` are read,
    /// in their order.
    pub open spec fn passed_over(self, current: Text, lines: Seq<Text>) -> Seq<(Text, Text)>
        decreases lines.len(),
    {
        if lines.len() == 0 {
            Seq::empty()
        } else {
            let next = self.parse_line(current, lines[0]);
            let rest = next.0.passed_over(next.1, lines.skip(1));
            match self.passed_over_line(current, lines[0]) {
                Some(option) => seq![option] + rest,
                None => rest,
            }
        }
    }

    /// What the logical lines `lines` do to the store, one after another.
    pub open spec fn parse_lines(self, current: Text, lines: Seq<Text>) -> (Store, Text)
        decreases lines.len(),
    {
        if lines.len() == 0 {
            (self, current)
        } else {
            let next = self.parse_line(current, lines[0]);
            next.0.parse_lines(next.1, lines.skip(1))
        }
    }

    /// What one source does to the store: its lines, with no section open
    /// at its start.
    pub open spec fn parse_source(self, lines: Seq<Text>) -> Store {
        self.parse_lines(Seq::empty(), lines).0
    }

    /// What the sources `sources` do to the store, in their order.
    pub open spec fn parse_sources(self, sources: Seq<Seq<Text>>) -> Store
        decreases sources.len(),
    {
        if sources.len() == 0 {
            self
        } else {
            self.parse_source(sources[0]).parse_sources(sources.skip(1))
        }
    }
}

/// The names replaced only grow.
pub proof fn lemma_expand_grows(
    st: Store,
    section: Text,
    option: Text,
    value: Text,
    expanded: Set<Text>,
)
    requires
        st.names(section).finite(),
    ensures
        expanded.subset_of(st.expand(section, option, value, expanded).1),
    decreases pending(st.names(section), expanded),
{
    match placeholder_of(value) {
        None => {},
        Some((text, name)) => {
            if !(name == option || expanded.contains(name)) {
                let marked = expanded.insert(name);
                match st.get_raw(section, name) {
                    Ok(raw) => {
                        lemma_pending_insert(st.names(section), expanded, name);
                        lemma_expand_grows(st, section, name, raw, marked);
                        let inner = st.expand(section, name, raw, marked);
                        match inner.0 {
                            Ok(v) => {
                                lemma_pending_grows(
                                    st.names(section),
                                    marked,
                                    marked.union(inner.1),
                                );
                                lemma_expand_grows(
                                    st,
                                    section,
                                    option,
                                    replace_all(value, text, v),
                                    marked.union(inner.1),
                                );
                            },
                            Err(k) => {},
                        }
                    },
                    Err(k) => {},
                }
            }
        },
    }
}

/// Expanding a value is replacing its first placeholder and expanding what
/// that gives; a step that succeeds leaves fewer names pending.
pub proof fn lemma_expand_unfold(
    st: Store,
    section: Text,
    option: Text,
    value: Text,
    expanded: Set<Text>,
)
    requires
        st.names(section).finite(),
    ensures
        match placeholder_of(value) {
            None => st.expand(section, option, value, expanded) == (
                Ok::<Text, FetchErrorKind>(value),
                expanded,
            ),
            Some((text, name)) => {
                let step = st.expand_step(section, option, value, text, name, expanded);
                match step.0 {
                    Ok(next) => {
                        &&& st.expand(section, option, value, expanded) == st.expand(
                            section,
                            option,
                            next,
                            step.1,
                        )
                        &&& pending(st.names(section), step.1) < pending(
                            st.names(section),
                            expanded,
                        )
                    },
                    Err(_) => st.expand(section, option, value, expanded) == step,
                }
            },
        },
{
    match placeholder_of(value) {
        None => {},
        Some((text, name)) => {
            if !(name == option || expanded.contains(name)) {
                let marked = expanded.insert(name);
                match st.get_raw(section, name) {
                    Ok(raw) => {
                        lemma_pending_insert(st.names(section), expanded, name);
                        lemma_expand_grows(st, section, name, raw, marked);
                        let inner = st.expand(section, name, raw, marked);
                        assert(marked.union(inner.1) =~= inner.1);
                        lemma_pending_grows(st.names(section), marked, inner.1);
                    },
                    Err(k) => {},
                }
            }
        },
    }
}

} // verus!
