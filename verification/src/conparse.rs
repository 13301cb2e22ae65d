//! The configuration store: sections of options, read from text, changed
//! in place, looked up with interpolation, and written out again.

use vstd::prelude::*;
use vstd::string::{StrSliceExecFns, StringExecFns};
use vstd::utf8::encode_utf8;
use crate::error::{fe_error, FetchError, FetchErrorKind, WriteError};
use crate::model::{
    defaults_of, float_text_of, int_of, lemma_expand_unfold, lemma_pending_insert, listing,
    pending, render_options, truth_of, uint_of,
    render_section, Store, Text,
};
use crate::pattern::{option_of, pair_view, section_of, text_view, Grammar};
use crate::reader::{logical_lines, ContinuationReader, MemReader, ReadError};
use crate::strmap::StrMap;
use crate::model::{header_reads, one_line, setting_reads};
use crate::roundtrip::lemma_reads_back;
use crate::text::{
    chars_of, lower_is, parse_isize, parse_usize, sorted_keys, str_eq,
    str_replace, str_trim_end,
};

verus! {

/// The value of an option as it was written, placeholders and all.
#[derive(Debug, Clone, PartialEq, Eq)]
pub struct InterpString {
    raw_string: String,
}

impl View for InterpString {
    type V = Seq<char>;

    closed spec fn view(&self) -> Seq<char> {
        self.raw_string@
    }
}

/// The options of one section.
pub type Props = StrMap<InterpString>;

/// A structure for storing INI style key,value pairs
/// within a set of named sections
pub struct ConfigParser {
    /// defaults - set of default values provided at construction time
    defaults: StrMap<String>,
    /// sections - the options of each section, by section name
    sections: StrMap<Props>,
    /// the compiled line patterns
    grammar: Grammar,
}

/// The kind of a failure, where the result is one.
pub open spec fn kind_of<T>(r: Result<T, FetchError>) -> Result<T, FetchErrorKind> {
    match r {
        Ok(v) => Ok(v),
        Err(e) => Err(e.spec_kind()),
    }
}

/// Whether the failure, where the result is one, reads as its kind does.
pub open spec fn plain<T>(r: Result<T, FetchError>) -> bool {
    r matches Err(e) ==> e.is_plain()
}

/// The text of a result and the kind of its failure.
pub open spec fn lookup_view(r: Result<String, FetchError>) -> Result<Seq<char>, FetchErrorKind> {
    match r {
        Ok(v) => Ok(v@),
        Err(e) => Err(e.spec_kind()),
    }
}

/// The pairs as text.
pub open spec fn pairs_view(pairs: Seq<(&str, &str)>) -> Seq<(Text, Text)> {
    Seq::new(pairs.len(), |i: int| (pairs[i].0@, pairs[i].1@))
}

/// The pairs as text.
pub open spec fn owned_pairs_view(pairs: Seq<(String, String)>) -> Seq<(Text, Text)> {
    Seq::new(pairs.len(), |i: int| (pairs[i].0@, pairs[i].1@))
}

/// The names as text.
pub open spec fn names_view(names: Seq<String>) -> Seq<Text> {
    Seq::new(names.len(), |i: int| names[i]@)
}

/// The options as text.
pub open spec fn options_view(options: Seq<(String, InterpString)>) -> Seq<(Text, Text)> {
    Seq::new(options.len(), |i: int| (options[i].0@, options[i].1@))
}

impl InterpString {
    /// The value that holds the raw text `s`.
    pub fn new(s: &str) -> (r: InterpString)
        ensures
            r@ == s@,
    {
        InterpString { raw_string: String::from_str(s) }
    }

    /// Replaces the raw text by `s`.
    pub fn set(&mut self, s: &str)
        ensures
            final(self)@ == s@,
    {
        self.raw_string = String::from_str(s);
    }

    /// The raw text, placeholders and all.
    pub fn get_raw(&self) -> (r: String)
        ensures
            r@ == self@,
    {
        self.raw_string.clone()
    }
}

impl View for ConfigParser {
    type V = Store;

    closed spec fn view(&self) -> Store {
        Store { sections: self.sections@, defaults: self.defaults@ }
    }
}

impl ConfigParser {
    /// Every section held keeps its options in order.
    #[verifier::type_invariant]
    pub closed spec fn inv(&self) -> bool {
        &&& self.sections.inv()
        &&& self.defaults.inv()
        &&& forall|p: Props| #[trigger] self.sections.spec_values().contains(p) ==> p.inv()
    }

    /// A store holds finitely many sections, options and defaults.
    pub proof fn lemma_finite(&self)
        requires
            self.inv(),
        ensures
            self@.sections.dom().finite(),
            self@.defaults.dom().finite(),
            forall|s: Text| #[trigger]
                self@.sections.contains_key(s) ==> self@.sections[s].dom().finite(),
            forall|s: Text| #[trigger] self@.names(s).finite(),
            self@.finite(),
    {
        self.sections.lemma_listing();
        self.defaults.lemma_listing();
        assert forall|s: Text| #[trigger] self@.sections.contains_key(s) implies self@.sections[s].dom().finite() by {
            let keys = self.sections.spec_keys();
            assert(keys.contains(s));
            let i = choose|i: int| 0 <= i < keys.len() && keys[i] == s;
            let p = self.sections.spec_values()[i];
            assert(self.sections.spec_values().contains(p));
            p.lemma_listing();
        }
        assert forall|s: Text| #[trigger] self@.names(s).finite() by {
            if !self@.sections.contains_key(s) {
                assert(self@.options_of(s).dom() =~= Set::<Text>::empty());
            }
        }
    }

    ///
    /// Creates an empty ConfigParser with default key,value pairs
    ///
    pub fn new(kvdefaults: &[(&str, &str)]) -> (cp: ConfigParser)
        ensures
            cp@ == Store::empty(defaults_of(pairs_view(kvdefaults@))),
    {
        let mut df: StrMap<String> = StrMap::new();
        let mut i: usize = 0;
        while i < kvdefaults.len()
            invariant
                i <= kvdefaults.len(),
                df@ == defaults_of(pairs_view(kvdefaults@).take(i as int)),
            decreases kvdefaults.len() - i,
        {
            let ghost upto = pairs_view(kvdefaults@).take(i + 1);
            assert(upto.drop_last() == pairs_view(kvdefaults@).take(i as int));
            let (k, v) = kvdefaults[i];
            df.insert(String::from_str(k), String::from_str(v));
            i += 1;
        }
        assert(pairs_view(kvdefaults@).take(i as int) == pairs_view(kvdefaults@));
        let sections: StrMap<Props> = StrMap::new();
        proof {
            use_type_invariant(&sections);
            use_type_invariant(&df);
        }
        ConfigParser { defaults: df, sections, grammar: Grammar::new() }
    }

    /// The section that the line `s` opens, if it is a section header.
    pub fn section_name(&self, s: &str) -> (r: Option<String>)
        ensures
            text_view(r) == section_of(s@),
    {
        self.grammar.section_name(s)
    }

    /// The key and value that the line `s` sets, if it is an option line.
    pub fn option_kv(&self, s: &str) -> (r: Option<(String, String)>)
        ensures
            pair_view(r) == option_of(s@),
    {
        self.grammar.option_kv(s)
    }

    ///
    /// Adds an (empty) section to a mutable `ConfigParser` object.
    /// If the section already exists, a
    /// `FetchError::DuplicateSection` error is returned, otherwise
    /// `()` is returned as an `Ok` value.
    ///
    pub fn add_section(&mut self, s: &str) -> (r: Result<(), FetchError>)
        ensures
            (final(self)@, kind_of(r)) == old(self)@.try_add_section(s@),
            plain(r),
    {
        proof {
            use_type_invariant(&*self);
        }
        if self.sections.contains_key(s) {
            return Err(fe_error(FetchErrorKind::DuplicateSection));
        }
        let props: Props = StrMap::new();
        proof {
            use_type_invariant(&props);
        }
        let mut sections: StrMap<Props> = StrMap::new();
        core::mem::swap(&mut self.sections, &mut sections);
        sections.insert(String::from_str(s), props);
        proof {
            use_type_invariant(&sections);
        }
        self.sections = sections;
        Ok(())
    }

    /// Zaps a section from a `ConfigParser`. If the section does not
    /// exist, a `FetchError::NoSuchSection` is returned as error.
    /// Otherwise `()` is returned as an `Ok` value. Note that this
    /// deletes all options contained within the section.
    pub fn remove_section(&mut self, s: &str) -> (r: Result<(), FetchError>)
        ensures
            (final(self)@, kind_of(r)) == old(self)@.try_remove_section(s@),
            plain(r),
    {
        proof {
            use_type_invariant(&*self);
        }
        let mut sections: StrMap<Props> = StrMap::new();
        core::mem::swap(&mut self.sections, &mut sections);
        let removed = sections.remove(s);
        proof {
            use_type_invariant(&sections);
        }
        self.sections = sections;
        match removed {
            Some(_) => Ok(()),
            None => Err(fe_error(FetchErrorKind::NoSuchSection)),
        }
    }

    ///
    /// Returns a boolean as to whether a given section exists or not
    ///
    pub fn has_section(&self, s: &str) -> (r: bool)
        ensures
            r == self@.has_section(s@),
    {
        self.sections.contains_key(s)
    }

    ///
    /// sets an option to a given value, inside a given section
    /// if the section does not exist, it will be created. If the
    /// option within the section already exists, it will be
    /// overwritten. Returns no result.
    ///
    pub fn set(&mut self, section: &str, option: &str, value: &str)
        ensures
            final(self)@ == old(self)@.set(section@, option@, value@),
    {
        proof {
            use_type_invariant(&*self);
        }
        let mut sections: StrMap<Props> = StrMap::new();
        core::mem::swap(&mut self.sections, &mut sections);
        let ghost before = sections@;
        let mut opts: Props = match sections.remove(section) {
            Some(o) => o,
            None => StrMap::new(),
        };
        opts.insert(String::from_str(option), InterpString::new(value));
        proof {
            use_type_invariant(&opts);
        }
        sections.insert(String::from_str(section), opts);
        proof {
            use_type_invariant(&sections);
            assert(sections@ =~= before.insert(
                section@,
                old(self)@.options_of(section@).insert(option@, value@),
            ));
        }
        self.sections = sections;
    }

    ///
    /// Deletes an option from a given section
    /// If the option does not exist, `FetchError::NoSuchOption` is returned as error
    /// If the section does not exist, `FetchError::NoSuchSection` is
    /// returned as error
    /// On successful completion, `()` is returned as `Ok` value
    ///
    pub fn remove_option(&mut self, section: &str, option: &str) -> (r: Result<(), FetchError>)
        ensures
            (final(self)@, kind_of(r)) == old(self)@.try_remove_option(section@, option@),
            plain(r),
    {
        proof {
            use_type_invariant(&*self);
        }
        let mut sections: StrMap<Props> = StrMap::new();
        core::mem::swap(&mut self.sections, &mut sections);
        let ghost before = sections@;
        let result = match sections.remove(section) {
            Some(mut opts) => {
                let removed = opts.remove(option);
                proof {
                    use_type_invariant(&opts);
                }
                sections.insert(String::from_str(section), opts);
                match removed {
                    Some(_) => {
                        assert(sections@ =~= before.insert(
                            section@,
                            before[section@].remove(option@),
                        ));
                        Ok(())
                    },
                    None => {
                        assert(sections@ =~= before);
                        Err(fe_error(FetchErrorKind::NoSuchOption))
                    },
                }
            },
            None => Err(fe_error(FetchErrorKind::NoSuchSection)),
        };
        proof {
            use_type_invariant(&sections);
        }
        self.sections = sections;
        result
    }

    /// The default of `option`, or the failure of kind `fe`.
    fn get_default(&self, option: &str, fe: FetchErrorKind) -> (r: Result<String, FetchError>)
        ensures
            lookup_view(r) == self@.default_or(option@, fe),
            plain(r),
    {
        match self.defaults.get(option) {
            Some(v) => Ok(v.clone()),
            None => Err(fe_error(fe)),
        }
    }

    ///
    /// Fetches a given option from a given section, and returns the
    /// value of the option *without* interpolation. If the section
    /// does not exist `FetchError::NoSuchSection` is returned as
    /// error; if the option does not exist,
    /// `FetchError::NoSuchOption` is returned as error. Otherwise the
    /// raw option is returned as a `String`. Either failure gives way
    /// to a default of the option's name, where there is one.
    ///
    pub fn get_raw(&self, section: &str, option: &str) -> (r: Result<String, FetchError>)
        ensures
            lookup_view(r) == self@.get_raw(section@, option@),
            plain(r),
    {
        match self.sections.get(section) {
            Some(opts) => match opts.get(option) {
                Some(v) => Ok(v.get_raw()),
                None => self.get_default(option, FetchErrorKind::NoSuchOption),
            },
            None => self.get_default(option, FetchErrorKind::NoSuchSection),
        }
    }

    ///
    /// Returns true if section `section` contains an option `option`
    /// (or if there is a default option called `option`). If the
    /// section does not exist, `FetchError::NoSuchSection` is
    /// returned as an error.
    ///
    pub fn has_option(&self, section: &str, option: &str) -> (r: Result<bool, FetchError>)
        ensures
            kind_of(r) == self@.has_option(section@, option@),
            plain(r),
    {
        match self.sections.get(section) {
            Some(opts) => Ok(opts.contains_key(option) || self.defaults.contains_key(option)),
            None => Err(fe_error(FetchErrorKind::NoSuchSection)),
        }
    }

    /// The defaults with their values, in rising order of their names.
    pub fn defaults(&self) -> (list: Vec<(String, String)>)
        ensures
            owned_pairs_view(list@) == listing(self@.defaults),
    {
        proof {
            use_type_invariant(self);
            self.defaults.lemma_listing();
        }
        let mut list: Vec<(String, String)> = Vec::new();
        let mut i: usize = 0;
        while i < self.defaults.len()
            invariant
                i <= self.defaults.spec_keys().len(),
                self.defaults.spec_values().len() == self.defaults.spec_keys().len(),
                list@.len() == i,
                forall|j: int|
                    0 <= j < i ==> (#[trigger] list@[j]).0@ == self.defaults.spec_keys()[j]
                        && list@[j].1@ == self.defaults.spec_values()[j]@,
            decreases self.defaults.spec_keys().len() - i,
        {
            list.push((self.defaults.key_at(i).clone(), self.defaults.value_at(i).clone()));
            i += 1;
        }
        assert(owned_pairs_view(list@) =~= listing(self@.defaults));
        list
    }

    /// The names of the sections, in rising order.
    pub fn sections(&self) -> (names: Vec<String>)
        ensures
            names_view(names@) == sorted_keys(self@.sections.dom()),
    {
        proof {
            use_type_invariant(self);
            self.sections.lemma_listing();
        }
        let mut names: Vec<String> = Vec::new();
        let mut i: usize = 0;
        while i < self.sections.len()
            invariant
                i <= self.sections.spec_keys().len(),
                names@.len() == i,
                forall|j: int| 0 <= j < i ==> names@[j]@ == self.sections.spec_keys()[j],
            decreases self.sections.spec_keys().len() - i,
        {
            names.push(self.sections.key_at(i).clone());
            i += 1;
        }
        assert(names_view(names@) =~= self.sections.spec_keys());
        names
    }

    /// The options of `section` with their raw values, in rising order of
    /// their names.
    pub fn options(&self, section: &str) -> (r: Result<Vec<(String, InterpString)>, FetchError>)
        ensures
            match r {
                Ok(list) => self@.has_section(section@) && options_view(list@) == listing(
                    self@.sections[section@],
                ),
                Err(e) => !self@.has_section(section@) && e.kind() == FetchErrorKind::NoSuchSection,
            },
            plain(r),
    {
        match self.sections.get(section) {
            Some(opts) => {
                proof {
                    use_type_invariant(opts);
                    opts.lemma_listing();
                }
                let mut list: Vec<(String, InterpString)> = Vec::new();
                let mut i: usize = 0;
                while i < opts.len()
                    invariant
                        i <= opts.spec_keys().len(),
                        opts.spec_values().len() == opts.spec_keys().len(),
                        list@.len() == i,
                        forall|j: int|
                            0 <= j < i ==> (#[trigger] list@[j]).0@ == opts.spec_keys()[j]
                                && list@[j].1@ == opts.spec_values()[j]@,
                    decreases opts.spec_keys().len() - i,
                {
                    let value = InterpString::new(opts.value_at(i).get_raw().as_str());
                    list.push((opts.key_at(i).clone(), value));
                    i += 1;
                }
                assert(options_view(list@) =~= listing(opts@));
                Ok(list)
            },
            None => Err(fe_error(FetchErrorKind::NoSuchSection)),
        }
    }
}

/// What the value `v` means as a truth value: `true`, `yes`, `on`, `1` and
/// the empty value are true, `false`, `no`, `off` and `0` are false, in
/// capital or small letters; nothing else is a truth value.
pub fn truth_value(v: &str) -> (r: Option<bool>)
    ensures
        r == truth_of(v@),
{
    if lower_is(v, "true") || lower_is(v, "yes") || lower_is(v, "on") || lower_is(v, "1")
        || lower_is(v, "") {
        Some(true)
    } else if lower_is(v, "false") || lower_is(v, "no") || lower_is(v, "off") || lower_is(v, "0") {
        Some(false)
    } else {
        None
    }
}

/// What the value `v` means as an unsigned number; the empty value counts
/// as 1.
pub fn uint_value(v: &str) -> (r: Option<usize>)
    ensures
        r == uint_of(v@),
{
    if v.is_empty() {
        Some(1)
    } else {
        parse_usize(v)
    }
}

/// What the value `v` means as a signed number; the empty value counts
/// as 1.
pub fn int_value(v: &str) -> (r: Option<isize>)
    ensures
        r == int_of(v@),
{
    if v.is_empty() {
        Some(1)
    } else {
        parse_isize(v)
    }
}

/// The text that stands for the value `v` read as a floating-point number;
/// the empty value counts as `1.0`.
pub fn float_text(v: String) -> (r: String)
    ensures
        r@ == float_text_of(v@),
{
    if v.as_str().is_empty() {
        String::from_str("1.0")
    } else {
        v
    }
}

/// The names in `list` as a set.
pub open spec fn names_set(list: Seq<String>) -> Set<Text> {
    Set::new(|k: Text| exists|i: int| 0 <= i < list.len() && (#[trigger] list[i])@ == k)
}

/// Whether `list` holds `name`.
fn list_contains(list: &Vec<String>, name: &str) -> (r: bool)
    ensures
        r == names_set(list@).contains(name@),
{
    let mut i: usize = 0;
    while i < list.len()
        invariant
            i <= list.len(),
            forall|j: int| 0 <= j < i ==> (#[trigger] list@[j])@ != name@,
        decreases list.len() - i,
    {
        if str_eq(list[i].as_str(), name) {
            return true;
        }
        i += 1;
    }
    false
}

/// What bounds the work of looking `option` up with interpolation: nothing
/// where neither `section` nor the defaults hold it, else one more than the
/// names still pending.
pub open spec fn lookup_bound(st: Store, section: Text, option: Text, expanded: Set<Text>) -> nat {
    if st.get_raw(section, option) is Ok {
        pending(st.names(section), expanded) + 1
    } else {
        0
    }
}

impl InterpString {
    /// Replaces in `res` the placeholder `text`, which refers to `oname`.
    pub fn expand_one(
        &self,
        oname: &str,
        text: &str,
        res: &String,
        sec: &str,
        option: &str,
        cp: &ConfigParser,
        expanded: &mut Vec<String>,
    ) -> (r: Result<String, FetchError>)
        ensures
            ({
                let step = cp@.expand_step(
                    sec@,
                    option@,
                    res@,
                    text@,
                    oname@,
                    names_set(old(expanded)@),
                );
                lookup_view(r) == step.0 && names_set(final(expanded)@) == step.1
            }),
            plain(r),
        decreases pending(cp@.names(sec@), names_set(old(expanded)@)), 2int,
    {
        if str_eq(oname, option) || list_contains(expanded, oname) {
            return Err(fe_error(FetchErrorKind::InterpolationCircularity));
        }
        let ghost before = names_set(expanded@);
        let ghost held = expanded@;
        expanded.push(String::from_str(oname));
        proof {
            use_type_invariant(cp);
            cp.lemma_finite();
            assert(names_set(expanded@) =~= before.insert(oname@)) by {
                assert forall|k: Text| names_set(expanded@).contains(k) implies before.insert(
                    oname@,
                ).contains(k) by {
                    let i = choose|i: int| 0 <= i < expanded@.len() && (#[trigger] expanded@[i])@ == k;
                    if i < held.len() {
                        assert(held[i]@ == k);
                    }
                }
                assert forall|k: Text| before.insert(oname@).contains(k) implies names_set(
                    expanded@,
                ).contains(k) by {
                    if k == oname@ {
                        assert(expanded@[held.len() as int]@ == k);
                    } else {
                        let i = choose|i: int| 0 <= i < held.len() && (#[trigger] held[i])@ == k;
                        assert(expanded@[i]@ == k);
                    }
                }
            }
            if cp@.get_raw(sec@, oname@) is Ok {
                lemma_pending_insert(cp@.names(sec@), before, oname@);
            }
        }
        match cp.get_interp(sec, oname, expanded) {
            Ok(v) => Ok(str_replace(res.as_str(), text, v.as_str())),
            Err(e) => {
                if e.kind() == FetchErrorKind::InterpolationCircularity {
                    Err(e)
                } else {
                    Err(fe_error(FetchErrorKind::InterpolationError))
                }
            },
        }
    }

    /// Interpolate any values in the string via the
    /// options inside the specified section
    pub fn get(&self, sec: &str, option: &str, cp: &ConfigParser, expanded: &mut Vec<String>) -> (r:
        Result<String, FetchError>)
        ensures
            ({
                let out = cp@.expand(sec@, option@, self@, names_set(old(expanded)@));
                lookup_view(r) == out.0 && names_set(final(expanded)@) == out.1
            }),
            plain(r),
        decreases pending(cp@.names(sec@), names_set(old(expanded)@)), 3int,
    {
        let mut res = self.raw_string.clone();
        proof {
            use_type_invariant(cp);
            cp.lemma_finite();
        }
        loop
            invariant
                cp@.names(sec@).finite(),
                cp@.expand(sec@, option@, self@, names_set(old(expanded)@)) == cp@.expand(
                    sec@,
                    option@,
                    res@,
                    names_set(expanded@),
                ),
                pending(cp@.names(sec@), names_set(expanded@)) <= pending(
                    cp@.names(sec@),
                    names_set(old(expanded)@),
                ),
            decreases pending(cp@.names(sec@), names_set(expanded@)),
        {
            proof {
                lemma_expand_unfold(cp@, sec@, option@, res@, names_set(expanded@));
            }
            match cp.grammar.placeholder(res.as_str()) {
                None => {
                    return Ok(res);
                },
                Some((text, oname)) => {
                    match self.expand_one(
                        oname.as_str(),
                        text.as_str(),
                        &res,
                        sec,
                        option,
                        cp,
                        expanded,
                    ) {
                        Ok(v) => {
                            res = v;
                        },
                        Err(e) => {
                            return Err(e);
                        },
                    }
                },
            }
        }
    }
}

impl ConfigParser {
    /// The default of `option` with its placeholders replaced as for an
    /// option of `section`, or the failure of kind `fe`.
    fn get_default_interp(
        &self,
        section: &str,
        option: &str,
        fe: FetchErrorKind,
        expanded: &mut Vec<String>,
    ) -> (r: Result<String, FetchError>)
        requires
            !self@.options_of(section@).contains_key(option@),
            fe == (if self@.has_section(section@) {
                FetchErrorKind::NoSuchOption
            } else {
                FetchErrorKind::NoSuchSection
            }),
        ensures
            ({
                let out = self@.resolve(section@, option@, names_set(old(expanded)@));
                lookup_view(r) == out.0 && names_set(final(expanded)@) == out.1
            }),
            plain(r),
        decreases lookup_bound(self@, section@, option@, names_set(old(expanded)@)), 0int,
    {
        match self.defaults.get(option) {
            Some(v) => InterpString::new(v.as_str()).get(section, option, self, expanded),
            None => Err(fe_error(fe)),
        }
    }

    /// The value of `option` in `section`, or else its default, with its
    /// placeholders replaced, `expanded` holding the names replaced so far.
    fn get_interp(&self, section: &str, option: &str, expanded: &mut Vec<String>) -> (r: Result<
        String,
        FetchError,
    >)
        ensures
            ({
                let out = self@.resolve(section@, option@, names_set(old(expanded)@));
                lookup_view(r) == out.0 && names_set(final(expanded)@) == out.1
            }),
            plain(r),
        decreases lookup_bound(self@, section@, option@, names_set(old(expanded)@)), 1int,
    {
        match self.sections.get(section) {
            Some(opts) => match opts.get(option) {
                Some(v) => v.get(section, option, self, expanded),
                None => self.get_default_interp(
                    section,
                    option,
                    FetchErrorKind::NoSuchOption,
                    expanded,
                ),
            },
            None => self.get_default_interp(
                section,
                option,
                FetchErrorKind::NoSuchSection,
                expanded,
            ),
        }
    }

    /// The value of `option` in `section`, each placeholder `%(name)s` in
    /// it replaced by the value of the option `name`.
    pub fn get(&self, section: &str, option: &str) -> (r: Result<String, FetchError>)
        ensures
            lookup_view(r) == self@.get(section@, option@),
            plain(r),
    {
        let mut expanded: Vec<String> = Vec::new();
        assert(names_set(expanded@) =~= Set::<Text>::empty());
        self.get_interp(section, option, &mut expanded)
    }

    /// The value of `option` in `section` as a truth value: `true`, `yes`,
    /// `on`, `1` and the empty value are true, `false`, `no`, `off` and `0`
    /// are false, in capital or small letters.
    pub fn getboolean(&self, section: &str, option: &str) -> (r: Result<bool, FetchError>)
        ensures
            kind_of(r) == self@.getboolean(section@, option@),
            plain(r),
    {
        match self.get(section, option) {
            Err(e) => Err(e),
            Ok(v) => match truth_value(v.as_str()) {
                Some(b) => Ok(b),
                None => Err(fe_error(FetchErrorKind::InvalidLiteral)),
            },
        }
    }

    /// The value of `option` in `section` as an unsigned number; the empty
    /// value counts as 1.
    pub fn getuint(&self, section: &str, option: &str) -> (r: Result<usize, FetchError>)
        ensures
            kind_of(r) == self@.getuint(section@, option@),
            plain(r),
    {
        match self.get(section, option) {
            Err(e) => Err(e),
            Ok(v) => match uint_value(v.as_str()) {
                Some(u) => Ok(u),
                None => Err(fe_error(FetchErrorKind::InvalidLiteral)),
            },
        }
    }

    /// The value of `option` in `section` as the text of a floating-point
    /// number, for the caller to read; the empty value counts as `1.0`.
    pub fn getfloat_text(&self, section: &str, option: &str) -> (r: Result<String, FetchError>)
        ensures
            lookup_view(r) == self@.getfloat_text(section@, option@),
            plain(r),
    {
        match self.get(section, option) {
            Err(e) => Err(e),
            Ok(v) => Ok(float_text(v)),
        }
    }

    /// The value of `option` in `section` as a signed number; the empty
    /// value counts as 1.
    pub fn getint(&self, section: &str, option: &str) -> (r: Result<isize, FetchError>)
        ensures
            kind_of(r) == self@.getint(section@, option@),
            plain(r),
    {
        match self.get(section, option) {
            Err(e) => Err(e),
            Ok(v) => match int_value(v.as_str()) {
                Some(i) => Ok(i),
                None => Err(fe_error(FetchErrorKind::InvalidLiteral)),
            },
        }
    }
}

/// The logical lines of each source in turn.
pub open spec fn sources_of<T: ContinuationReader>(readers: Seq<T>) -> Seq<Seq<Text>> {
    Seq::new(readers.len(), |i: int| readers[i].lines())
}

/// The logical lines of each text in turn.
pub open spec fn texts_of(texts: Seq<&str>) -> Seq<Seq<Text>> {
    Seq::new(texts.len(), |i: int| logical_lines(texts[i]@))
}

/// The logical lines of each file that could be read, in turn; a file that
/// could not be read gives none.
pub open spec fn files_of(contents: Seq<Option<&str>>) -> Seq<Seq<Text>> {
    Seq::new(
        contents.len(),
        |i: int|
            match contents[i] {
                Some(text) => logical_lines(text@),
                None => Seq::empty(),
            },
    )
}

/// What the option line `tl` does to the store while `curr_sect` is open.
pub open spec fn option_line(st: Store, tl: Text, curr_sect: Text) -> Store {
    match option_of(tl) {
        Some((key, value)) => st.set_open(curr_sect, key, value),
        None => st,
    }
}

/// Opens the section `name`: makes it where the store has none of that
/// name, and leaves the store as it is where it has.
pub fn open_section(cp: &mut ConfigParser, name: &str)
    ensures
        final(cp)@ == old(cp)@.open_section(name@),
{
    // a section that is there already stays as it is
    let _ = cp.add_section(name);
}

/// Sets `key` to `value` in the open section `curr_sect`, and says whether
/// it did. Where no section is open, or the store holds none of that name,
/// nothing is set.
pub fn set_open(cp: &mut ConfigParser, curr_sect: &str, key: &str, value: &str) -> (done: bool)
    ensures
        final(cp)@ == old(cp)@.set_open(curr_sect@, key@, value@),
        done == (curr_sect@.len() > 0 && old(cp)@.has_section(curr_sect@)),
{
    if !curr_sect.is_empty() && cp.has_section(curr_sect) {
        cp.set(curr_sect, key, value);
        true
    } else {
        false
    }
}

/// The option that the option line `tl` holds but that is passed over
/// while `curr_sect` is open.
pub open spec fn option_passed_over(st: Store, tl: Text, curr_sect: Text) -> Option<(Text, Text)> {
    match option_of(tl) {
        Some((key, value)) => if curr_sect.len() > 0 && st.has_section(curr_sect) {
            None
        } else {
            Some((key, value))
        },
        None => None,
    }
}

/// Sets the option that the line `tl` holds, if it is an option line and a
/// section is open. Hands back the option where the line holds one and no
/// section is open for it, for the caller to report.
pub fn try_option_kv(cp: &mut ConfigParser, tl: &str, curr_sect: &String) -> (skipped: Option<
    (String, String),
>)
    ensures
        final(cp)@ == option_line(old(cp)@, tl@, curr_sect@),
        pair_view(skipped) == option_passed_over(old(cp)@, tl@, curr_sect@),
{
    match cp.option_kv(tl) {
        Some((opt, val)) => {
            if set_open(cp, curr_sect.as_str(), opt.as_str(), val.as_str()) {
                None
            } else {
                Some((opt, val))
            }
        },
        None => None,
    }
}

/// What reading a source left aside: the options that stood before any
/// section header, in their order, and the failure that ended the reading.
pub struct SourceReport {
    pub ignored: Vec<(String, String)>,
    pub ended: ReadError,
}

/// Reads `r` to its end into `cp`, and reports what was passed over.
pub fn read_source<T: ContinuationReader>(cp: &mut ConfigParser, r: &mut T) -> (report:
    SourceReport)
    ensures
        final(cp)@ == old(cp)@.parse_source(old(r).lines()),
        owned_pairs_view(report.ignored@) == old(cp)@.passed_over(Seq::empty(), old(r).lines()),
{
    let mut curr_sect = String::new();
    let mut ignored: Vec<(String, String)> = Vec::new();
    let ghost all = r.lines();
    assert(owned_pairs_view(ignored@) =~= Seq::<(Text, Text)>::empty());
    loop
        invariant
            all == old(r).lines(),
            old(cp)@.parse_lines(Seq::empty(), all) == cp@.parse_lines(curr_sect@, r.lines()),
            old(cp)@.passed_over(Seq::empty(), all) == owned_pairs_view(ignored@)
                + cp@.passed_over(curr_sect@, r.lines()),
        decreases r.lines().len(),
    {
        let ghost before = owned_pairs_view(ignored@);
        let ghost st = cp@;
        let ghost cur = curr_sect@;
        let ghost lines = r.lines();
        match r.read_continued_line() {
            Ok(l) => {
                let tl = str_trim_end(l.as_str());
                match cp.section_name(tl.as_str()) {
                    Some(s) => {
                        open_section(cp, s.as_str());
                        curr_sect = s;
                    },
                    None => {
                        match try_option_kv(cp, tl.as_str(), &curr_sect) {
                            Some(option) => {
                                ignored.push(option);
                                assert(owned_pairs_view(ignored@) =~= before + seq![
                                    st.passed_over_line(cur, lines[0])->0,
                                ]);
                            },
                            None => {},
                        }
                    },
                }
                assert(before + st.passed_over(cur, lines) =~= owned_pairs_view(ignored@)
                    + cp@.passed_over(curr_sect@, lines.skip(1)));
            },
            Err(e) => {
                assert(before + st.passed_over(cur, lines) =~= before);
                return SourceReport { ignored, ended: e };
            },
        }
    }
}

/// Reads `r` to its end into `cp`.
pub fn from_reader_helper<T: ContinuationReader>(cp: &mut ConfigParser, r: &mut T)
    ensures
        final(cp)@ == old(cp)@.parse_source(old(r).lines()),
{
    let _ = read_source(cp, r);
}

impl ConfigParser {
    ///
    /// Create a new ConfigParser from sources of logical lines, read one
    /// after the other to their ends.
    ///
    pub fn from_readers<T: ContinuationReader>(rs: &mut Vec<T>, kvdefaults: &[(&str, &str)]) -> (cp:
        ConfigParser)
        ensures
            cp@ == Store::empty(defaults_of(pairs_view(kvdefaults@))).parse_sources(
                sources_of(old(rs)@),
            ),
            final(rs)@.len() == old(rs)@.len(),
    {
        let mut cp = ConfigParser::new(kvdefaults);
        let ghost start = cp@;
        let ghost all = sources_of(rs@);
        let mut i: usize = 0;
        assert(all.skip(0) == all);
        while i < rs.len()
            invariant
                i <= rs.len(),
                rs@.len() == old(rs)@.len(),
                all == sources_of(old(rs)@),
                forall|j: int| i <= j < rs@.len() ==> rs@[j] == old(rs)@[j],
                start.parse_sources(all) == cp@.parse_sources(all.skip(i as int)),
            decreases rs.len() - i,
        {
            assert(all.skip(i as int)[0] == rs@[i as int].lines());
            assert(all.skip(i as int).skip(1) == all.skip(i + 1));
            from_reader_helper(&mut cp, &mut rs[i]);
            i += 1;
        }
        cp
    }

    ///
    /// Create a new ConfigParser from a string specification
    ///
    pub fn from_str(s: &str, kvdefaults: &[(&str, &str)]) -> (cp: ConfigParser)
        ensures
            cp@ == Store::empty(defaults_of(pairs_view(kvdefaults@))).parse_source(
                logical_lines(s@),
            ),
    {
        let mut cp = ConfigParser::new(kvdefaults);
        let mut v = MemReader::new(s);
        from_reader_helper(&mut cp, &mut v);
        cp
    }

    ///
    /// Create a new ConfigParser from a list of string contents
    ///
    pub fn from_strs(ss: &[&str], kvdefaults: &[(&str, &str)]) -> (cp: ConfigParser)
        ensures
            cp@ == Store::empty(defaults_of(pairs_view(kvdefaults@))).parse_sources(texts_of(ss@)),
    {
        let mut cp = ConfigParser::new(kvdefaults);
        let ghost start = cp@;
        let ghost all = texts_of(ss@);
        let mut i: usize = 0;
        assert(all.skip(0) == all);
        while i < ss.len()
            invariant
                i <= ss.len(),
                all == texts_of(ss@),
                start.parse_sources(all) == cp@.parse_sources(all.skip(i as int)),
            decreases ss.len() - i,
        {
            assert(all.skip(i as int)[0] == logical_lines(ss@[i as int]@));
            assert(all.skip(i as int).skip(1) == all.skip(i + 1));
            let mut v = MemReader::new(ss[i]);
            from_reader_helper(&mut cp, &mut v);
            i += 1;
        }
        cp
    }

    ///
    /// Create a new ConfigParser from what a list of files held, in their
    /// order. A file that could not be opened or read is handed in as
    /// `None` and contributes nothing.
    ///
    pub fn from_files(contents: &[Option<&str>], kvdefaults: &[(&str, &str)]) -> (cp: ConfigParser)
        ensures
            cp@ == Store::empty(defaults_of(pairs_view(kvdefaults@))).parse_sources(
                files_of(contents@),
            ),
    {
        let mut cp = ConfigParser::new(kvdefaults);
        let ghost start = cp@;
        let ghost all = files_of(contents@);
        let mut i: usize = 0;
        assert(all.skip(0) == all);
        while i < contents.len()
            invariant
                i <= contents.len(),
                all == files_of(contents@),
                start.parse_sources(all) == cp@.parse_sources(all.skip(i as int)),
            decreases contents.len() - i,
        {
            assert(all.skip(i as int).skip(1) == all.skip(i + 1));
            match contents[i] {
                Some(text) => {
                    assert(all.skip(i as int)[0] == logical_lines(text@));
                    let mut v = MemReader::new(text);
                    from_reader_helper(&mut cp, &mut v);
                },
                None => {
                    assert(all.skip(i as int)[0] == Seq::<Text>::empty());
                },
            }
            i += 1;
        }
        cp
    }

    ///
    /// Create a new ConfigParser from what one file held
    ///
    pub fn from_file(content: Option<&str>, kvdefaults: &[(&str, &str)]) -> (cp: ConfigParser)
        ensures
            cp@ == Store::empty(defaults_of(pairs_view(kvdefaults@))).parse_sources(
                files_of(seq![content]),
            ),
    {
        let one = [content];
        assert(one@ =~= seq![content]);
        ConfigParser::from_files(&one, kvdefaults)
    }

    /// Appends the lines of the options `opts` to `out`.
    fn write_options(out: &mut String, opts: &Props)
        ensures
            final(out)@ == old(out)@ + render_options(opts@, sorted_keys(opts@.dom())),
    {
        proof {
            use_type_invariant(opts);
            opts.lemma_listing();
        }
        let ghost keys = opts.spec_keys();
        let mut i: usize = 0;
        assert(keys.skip(0) == keys);
        while i < opts.len()
            invariant
                i <= keys.len(),
                keys == opts.spec_keys(),
                opts.spec_values().len() == keys.len(),
                forall|j: int|
                    0 <= j < keys.len() ==> opts@[#[trigger] keys[j]] == opts.spec_values()[j]@,
                old(out)@ + render_options(opts@, keys) == out@ + render_options(
                    opts@,
                    keys.skip(i as int),
                ),
            decreases keys.len() - i,
        {
            let ghost rest = keys.skip(i as int);
            assert(rest[0] == keys[i as int]);
            assert(rest.skip(1) == keys.skip(i + 1));
            let ghost line = keys[i as int] + " : "@ + opts@[keys[i as int]] + "\n"@;
            let ghost so_far = out@;
            out.append(opts.key_at(i).as_str());
            out.append(" : ");
            out.append(opts.value_at(i).raw_string.as_str());
            out.append("\n");
            assert(out@ =~= so_far + line);
            assert(so_far + line + render_options(opts@, rest.skip(1)) =~= so_far + (line
                + render_options(opts@, rest.skip(1))));
            i += 1;
        }
        assert(render_options(opts@, keys.skip(i as int)) =~= Seq::<char>::empty());
    }

    /// The store as text: each section in rising order of the names, with
    /// its options in rising order of their names as lines `key : value`
    /// with the raw value, and an empty line after each section.
    pub fn to_string(&self) -> (r: Result<String, WriteError>)
        ensures
            r matches Ok(text) && text@ == self@.render(),
    {
        proof {
            use_type_invariant(self);
            self.sections.lemma_listing();
        }
        let ghost names = self.sections.spec_keys();
        let mut out = String::new();
        let mut i: usize = 0;
        assert(names.skip(0) == names);
        while i < self.sections.len()
            invariant
                i <= names.len(),
                names == self.sections.spec_keys(),
                self.sections.spec_values().len() == names.len(),
                forall|j: int|
                    0 <= j < names.len() ==> self@.sections[#[trigger] names[j]]
                        == self.sections.spec_values()[j]@,
                self@.render_sections(names) == out@ + self@.render_sections(names.skip(i as int)),
            decreases names.len() - i,
        {
            let ghost rest = names.skip(i as int);
            assert(rest[0] == names[i as int]);
            assert(rest.skip(1) == names.skip(i + 1));
            let ghost so_far = out@;
            let opts = self.sections.value_at(i);
            out.append("[");
            out.append(self.sections.key_at(i).as_str());
            out.append("]\n");
            ConfigParser::write_options(&mut out, opts);
            out.append("\n");
            assert(out@ =~= so_far + render_section(names[i as int], opts@));
            assert(so_far + render_section(names[i as int], opts@) + self@.render_sections(
                rest.skip(1),
            ) =~= so_far + (render_section(names[i as int], opts@) + self@.render_sections(
                rest.skip(1),
            )));
            i += 1;
        }
        assert(self@.render_sections(names.skip(i as int)) =~= Seq::<char>::empty());
        Ok(out)
    }

    /// Appends the store as text, in UTF-8, to `w`.
    pub fn to_writer(&self, w: &mut Vec<u8>) -> (r: Result<(), WriteError>)
        ensures
            r is Ok,
            final(w)@ == old(w)@ + encode_utf8(self@.render()),
    {
        match self.to_string() {
            Ok(text) => {
                let mut bytes = text.as_str().as_bytes_vec();
                w.append(&mut bytes);
                Ok(())
            },
            Err(e) => Err(e),
        }
    }
}

/// Whether `s` holds no newline.
fn is_one_line(s: &str) -> (r: bool)
    ensures
        r == one_line(s@),
{
    let v = chars_of(s);
    let mut i: usize = 0;
    while i < v.len()
        invariant
            i <= v.len(),
            v@ == s@,
            forall|j: int| 0 <= j < i ==> v@[j] != '\n',
        decreases v.len() - i,
    {
        if v[i] == '\n' {
            return false;
        }
        i += 1;
    }
    true
}

impl ConfigParser {
    /// Whether the header line of `name` is read as the header of `name`.
    fn header_reads_back(&self, name: &str) -> (r: bool)
        ensures
            r == header_reads(name@),
    {
        if name.is_empty() || !is_one_line(name) {
            return false;
        }
        let mut line = String::from_str("[");
        line.append(name);
        line.append("]\n");
        let tl = str_trim_end(line.as_str());
        match self.section_name(tl.as_str()) {
            Some(found) => str_eq(found.as_str(), name),
            None => false,
        }
    }

    /// Whether the line that sets `key` to `value` is read as doing so.
    fn setting_reads_back(&self, key: &str, value: &str) -> (r: bool)
        ensures
            r == setting_reads(key@, value@),
    {
        if !is_one_line(key) || !is_one_line(value) {
            return false;
        }
        let k = chars_of(key);
        let v = chars_of(value);
        if k.len() > 0 && (k[0] == '#' || k[0] == ';') {
            return false;
        }
        if v.len() > 0 && v[v.len() - 1] == '\\' {
            return false;
        }
        let mut line = String::from_str(key);
        line.append(" : ");
        line.append(value);
        line.append("\n");
        let tl = str_trim_end(line.as_str());
        if self.section_name(tl.as_str()).is_some() {
            return false;
        }
        match self.option_kv(tl.as_str()) {
            Some((fk, fv)) => str_eq(fk.as_str(), key) && str_eq(fv.as_str(), value),
            None => false,
        }
    }

    /// Whether each line that the store is written as is read as what it
    /// was written for. Where that is so, the text of the store gives the
    /// store again when it is read.
    pub fn reads_back(&self) -> (r: bool)
        ensures
            r == self@.reads_back(),
            r ==> Store::empty(self@.defaults).parse_source(logical_lines(self@.render()))
                == self@,
    {
        proof {
            use_type_invariant(self);
            self.lemma_finite();
            self.sections.lemma_listing();
        }
        let blank = str_trim_end("\n");
        if self.section_name(blank.as_str()).is_some() || self.option_kv(blank.as_str()).is_some() {
            return false;
        }
        let ghost names = self.sections.spec_keys();
        let mut i: usize = 0;
        while i < self.sections.len()
            invariant
                i <= names.len(),
                names == self.sections.spec_keys(),
                self.sections.spec_values().len() == names.len(),
                forall|j: int|
                    0 <= j < names.len() ==> self@.sections.contains_key(#[trigger] names[j])
                        && self@.sections[names[j]] == self.sections.spec_values()[j]@,
                forall|j: int| 0 <= j < i ==> header_reads(#[trigger] names[j]),
                forall|j: int, k: Text|
                    0 <= j < i && #[trigger] self@.sections[names[j]].contains_key(k)
                        ==> setting_reads(k, self@.sections[names[j]][k]),
            decreases names.len() - i,
        {
            let name = self.sections.key_at(i);
            if !self.header_reads_back(name.as_str()) {
                return false;
            }
            let opts = self.sections.value_at(i);
            proof {
                use_type_invariant(opts);
                opts.lemma_listing();
            }
            let ghost keys = opts.spec_keys();
            let mut j: usize = 0;
            while j < opts.len()
                invariant
                    j <= keys.len(),
                    keys == opts.spec_keys(),
                    opts.spec_values().len() == keys.len(),
                    opts@ == self@.sections[names[i as int]],
                    self@.sections.contains_key(names[i as int]),
                    forall|n: int|
                        0 <= n < keys.len() ==> opts@.contains_key(#[trigger] keys[n]) && opts@[keys[n]]
                            == opts.spec_values()[n]@,
                    forall|n: int| 0 <= n < j ==> setting_reads(#[trigger] keys[n], opts@[keys[n]]),
                decreases keys.len() - j,
            {
                let key = opts.key_at(j);
                let value = opts.value_at(j);
                if !self.setting_reads_back(key.as_str(), value.raw_string.as_str()) {
                    assert(self@.sections[names[i as int]].contains_key(keys[j as int]));
                    return false;
                }
                j += 1;
            }
            proof {
                assert forall|k: Text| #[trigger]
                    self@.sections[names[i as int]].contains_key(k) implies setting_reads(
                    k,
                    self@.sections[names[i as int]][k],
                ) by {
                    assert(keys.contains(k));
                    let n = choose|n: int| 0 <= n < keys.len() && keys[n] == k;
                    assert(setting_reads(keys[n], opts@[keys[n]]));
                }
            }
            i += 1;
        }
        proof {
            assert forall|s: Text| #[trigger] self@.sections.contains_key(s) implies header_reads(
                s,
            ) by {
                assert(names.contains(s));
                let n = choose|n: int| 0 <= n < names.len() && names[n] == s;
                assert(header_reads(names[n]));
            }
            assert forall|s: Text, k: Text|
                self@.sections.contains_key(s) && #[trigger] self@.sections[s].contains_key(
                    k,
                ) implies setting_reads(k, self@.sections[s][k]) by {
                assert(names.contains(s));
                let n = choose|n: int| 0 <= n < names.len() && names[n] == s;
                assert(self@.sections[names[n]].contains_key(k));
            }
            lemma_reads_back(self@);
        }
        true
    }
}

} // verus!
