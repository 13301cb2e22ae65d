//! A store that is written out and read in again.

use vstd::prelude::*;
use crate::model::{
    blank_reads, flatten, header_line, header_reads, one_line, options_lines, render_options,
    render_section, section_lines, setting_line, setting_reads, Options, Store, Text,
};
use crate::reader::{
    assemble, is_comment, lemma_line_len_append, lemma_line_len_bounds, line_len, logical_lines,
};
use crate::text::{is_sorted_listing, lemma_sorted_keys_lists, sorted_keys, strictly_sorted};

verus! {

/// A line of its own: it ends in its only newline, is no comment, and does
/// not go on to the next line.
pub open spec fn is_whole_line(l: Text) -> bool {
    &&& l.len() > 0
    &&& l.last() == '\n'
    &&& forall|i: int| 0 <= i < l.len() - 1 ==> l[i] != '\n'
    &&& !is_comment(l)
    &&& !(l.len() >= 2 && l[l.len() - 2] == '\\')
}

proof fn lemma_flatten_concat(a: Seq<Text>, b: Seq<Text>)
    ensures
        flatten(a + b) == flatten(a) + flatten(b),
    decreases a.len(),
{
    if a.len() == 0 {
        assert(a + b =~= b);
        assert(flatten(a) + flatten(b) =~= flatten(b));
    } else {
        assert((a + b).skip(1) =~= a.skip(1) + b);
        lemma_flatten_concat(a.skip(1), b);
        assert(flatten(a + b) =~= flatten(a) + flatten(b));
    }
}

proof fn lemma_flatten_one(l: Text)
    ensures
        flatten(seq![l]) == l,
{
    assert(seq![l].skip(1) =~= Seq::<Text>::empty());
    assert(flatten(seq![l].skip(1)) =~= Seq::<char>::empty());
    assert(flatten(seq![l]) =~= l);
}

proof fn lemma_line_len_whole(l: Text)
    requires
        l.len() > 0,
        l.last() == '\n',
        forall|i: int| 0 <= i < l.len() - 1 ==> l[i] != '\n',
    ensures
        line_len(l) == l.len(),
{
    lemma_line_len_bounds(l);
    if line_len(l) < l.len() {
        assert(l[line_len(l) - 1] == '\n');
    }
}

/// Lines of their own, written one after another, are read as they are.
pub proof fn lemma_whole_lines_read_back(lines: Seq<Text>)
    requires
        forall|i: int| 0 <= i < lines.len() ==> is_whole_line(#[trigger] lines[i]),
    ensures
        logical_lines(flatten(lines)) == lines,
    decreases lines.len(),
{
    if lines.len() == 0 {
        assert(logical_lines(flatten(lines)) =~= lines);
    } else {
        let first = lines[0];
        let rest = lines.skip(1);
        let text = flatten(lines);
        let n = first.len() as int;
        assert(is_whole_line(first));
        lemma_line_len_whole(first);
        lemma_line_len_append(first, flatten(rest));
        assert(text.take(n) =~= first);
        assert(text.skip(n) =~= flatten(rest));
        assert(Seq::<char>::empty() + first.take(n - 1) + seq!['\n'] =~= first);
        assert(assemble(text, Seq::empty(), false) == Some((first, flatten(rest))));
        assert forall|i: int| 0 <= i < rest.len() implies is_whole_line(#[trigger] rest[i]) by {
            assert(rest[i] == lines[i + 1]);
        }
        lemma_whole_lines_read_back(rest);
        assert(seq![first] + rest =~= lines);
    }
}

proof fn lemma_render_options_flat(opts: Options, keys: Seq<Text>)
    ensures
        render_options(opts, keys) == flatten(options_lines(opts, keys)),
    decreases keys.len(),
{
    if keys.len() > 0 {
        lemma_render_options_flat(opts, keys.skip(1));
        let line = setting_line(keys[0], opts[keys[0]]);
        let tail = options_lines(opts, keys.skip(1));
        assert((seq![line] + tail).skip(1) =~= tail);
        assert(render_options(opts, keys) =~= line + render_options(opts, keys.skip(1)));
    }
}

proof fn lemma_render_section_flat(name: Text, opts: Options)
    ensures
        render_section(name, opts) == flatten(section_lines(name, opts)),
{
    let keys = sorted_keys(opts.dom());
    lemma_render_options_flat(opts, keys);
    lemma_flatten_concat(seq![header_line(name)] + options_lines(opts, keys), seq!["\n"@]);
    lemma_flatten_concat(seq![header_line(name)], options_lines(opts, keys));
    lemma_flatten_one(header_line(name));
    lemma_flatten_one("\n"@);
}

proof fn lemma_render_sections_flat(st: Store, names: Seq<Text>)
    ensures
        st.render_sections(names) == flatten(st.lines_of(names)),
    decreases names.len(),
{
    if names.len() > 0 {
        lemma_render_sections_flat(st, names.skip(1));
        lemma_render_section_flat(names[0], st.sections[names[0]]);
        lemma_flatten_concat(
            section_lines(names[0], st.sections[names[0]]),
            st.lines_of(names.skip(1)),
        );
    }
}

proof fn lemma_header_whole(name: Text)
    requires
        one_line(name),
    ensures
        is_whole_line(header_line(name)),
{
    reveal_strlit("[");
    reveal_strlit("]\n");
    let l = header_line(name);
    assert(l.len() == name.len() + 3);
    assert(l[0] == '[');
    assert(l[l.len() - 1] == '\n');
    assert(l[l.len() - 2] == ']');
    assert forall|i: int| 0 <= i < l.len() - 1 implies l[i] != '\n' by {
        if 1 <= i <= name.len() {
            assert(l[i] == name[i - 1]);
        }
    }
}

proof fn lemma_setting_whole(key: Text, value: Text)
    requires
        one_line(key),
        one_line(value),
        !(key.len() > 0 && (key[0] == '#' || key[0] == ';')),
        !(value.len() > 0 && value.last() == '\\'),
    ensures
        is_whole_line(setting_line(key, value)),
{
    reveal_strlit(" : ");
    reveal_strlit("\n");
    let l = setting_line(key, value);
    let k = key.len() as int;
    let v = value.len() as int;
    assert(l.len() == k + 3 + v + 1);
    assert forall|i: int| 0 <= i < l.len() implies l[i] == (if i < k {
        key[i]
    } else if i == k {
        ' '
    } else if i == k + 1 {
        ':'
    } else if i == k + 2 {
        ' '
    } else if i < k + 3 + v {
        value[i - k - 3]
    } else {
        '\n'
    }) by {}
    assert(l[0] != '#' && l[0] != ';');
    assert(l[l.len() - 2] != '\\') by {
        if v > 0 {
            assert(l[l.len() - 2] == value[v - 1]);
        }
    }
}

proof fn lemma_blank_whole()
    ensures
        is_whole_line("\n"@),
{
    reveal_strlit("\n");
}

/// The store with the options `keys` of `opts` set in `section`, one after
/// another.
spec fn with_options(st: Store, section: Text, opts: Options, keys: Seq<Text>) -> Store
    decreases keys.len(),
{
    if keys.len() == 0 {
        st
    } else {
        with_options(st.set(section, keys[0], opts[keys[0]]), section, opts, keys.skip(1))
    }
}

proof fn lemma_with_options(st: Store, section: Text, opts: Options, keys: Seq<Text>)
    requires
        st.has_section(section),
    ensures
        with_options(st, section, opts, keys).defaults == st.defaults,
        with_options(st, section, opts, keys).sections == st.sections.insert(
            section,
            Map::new(
                |k: Text| st.sections[section].contains_key(k) || keys.contains(k),
                |k: Text|
                    if keys.contains(k) {
                        opts[k]
                    } else {
                        st.sections[section][k]
                    },
            ),
        ),
    decreases keys.len(),
{
    let held = st.sections[section];
    let merged = Map::new(
        |k: Text| held.contains_key(k) || keys.contains(k),
        |k: Text|
            if keys.contains(k) {
                opts[k]
            } else {
                held[k]
            },
    );
    if keys.len() == 0 {
        assert(merged =~= held);
        assert(st.sections.insert(section, merged) =~= st.sections);
    } else {
        let next = st.set(section, keys[0], opts[keys[0]]);
        let rest = keys.skip(1);
        lemma_with_options(next, section, opts, rest);
        let held1 = next.sections[section];
        let merged1 = Map::new(
            |k: Text| held1.contains_key(k) || rest.contains(k),
            |k: Text|
                if rest.contains(k) {
                    opts[k]
                } else {
                    held1[k]
                },
        );
        assert forall|k: Text| keys.contains(k) <==> (k == keys[0] || rest.contains(k)) by {
            if keys.contains(k) {
                let i = choose|i: int| 0 <= i < keys.len() && keys[i] == k;
                if i > 0 {
                    assert(rest[i - 1] == k);
                }
            }
            if rest.contains(k) {
                let i = choose|i: int| 0 <= i < rest.len() && rest[i] == k;
                assert(keys[i + 1] == k);
            }
        }
        assert(merged1 =~= merged);
        assert(next.sections.insert(section, merged1) =~= st.sections.insert(section, merged));
    }
}

proof fn lemma_parse_concat(st: Store, current: Text, a: Seq<Text>, b: Seq<Text>)
    ensures
        st.parse_lines(current, a + b) == st.parse_lines(current, a).0.parse_lines(
            st.parse_lines(current, a).1,
            b,
        ),
    decreases a.len(),
{
    if a.len() == 0 {
        assert(a + b =~= b);
    } else {
        let next = st.parse_line(current, a[0]);
        assert((a + b).skip(1) =~= a.skip(1) + b);
        assert((a + b)[0] == a[0]);
        lemma_parse_concat(next.0, next.1, a.skip(1), b);
    }
}

proof fn lemma_parse_options(st: Store, section: Text, opts: Options, keys: Seq<Text>)
    requires
        st.has_section(section),
        section.len() > 0,
        forall|i: int| 0 <= i < keys.len() ==> setting_reads(#[trigger] keys[i], opts[keys[i]]),
    ensures
        st.parse_lines(section, options_lines(opts, keys)) == (
            with_options(st, section, opts, keys),
            section,
        ),
    decreases keys.len(),
{
    if keys.len() > 0 {
        let line = setting_line(keys[0], opts[keys[0]]);
        let lines = options_lines(opts, keys);
        assert(setting_reads(keys[0], opts[keys[0]]));
        assert(lines[0] == line);
        assert(lines.skip(1) =~= options_lines(opts, keys.skip(1)));
        let next = st.set(section, keys[0], opts[keys[0]]);
        assert(st.parse_line(section, line) == (next, section));
        assert forall|i: int| 0 <= i < keys.skip(1).len() implies setting_reads(
            #[trigger] keys.skip(1)[i],
            opts[keys.skip(1)[i]],
        ) by {
            assert(keys.skip(1)[i] == keys[i + 1]);
        }
        lemma_parse_options(next, section, opts, keys.skip(1));
    }
}

proof fn lemma_parse_section(st: Store, current: Text, name: Text, opts: Options)
    requires
        !st.has_section(name),
        header_reads(name),
        blank_reads(),
        is_sorted_listing(sorted_keys(opts.dom()), opts.dom()),
        forall|k: Text| opts.contains_key(k) ==> setting_reads(k, #[trigger] opts[k]),
    ensures
        st.parse_lines(current, section_lines(name, opts)).0.sections == st.sections.insert(
            name,
            opts,
        ),
        st.parse_lines(current, section_lines(name, opts)).0.defaults == st.defaults,
{
    let keys = sorted_keys(opts.dom());
    let head = seq![header_line(name)];
    let body = options_lines(opts, keys);
    let foot = seq!["\n"@];
    let opened = st.add_section(name);
    assert(st.parse_line(current, header_line(name)) == (opened, name));
    assert(head.skip(1) =~= Seq::<Text>::empty());
    assert(st.parse_lines(current, head) == (opened, name)) by {
        assert(opened.parse_lines(name, head.skip(1)) == (opened, name));
    }
    assert forall|i: int| 0 <= i < keys.len() implies setting_reads(
        #[trigger] keys[i],
        opts[keys[i]],
    ) by {
        assert(keys.contains(keys[i]));
    }
    lemma_parse_options(opened, name, opts, keys);
    lemma_with_options(opened, name, opts, keys);
    let filled = with_options(opened, name, opts, keys);
    assert(filled.sections =~= st.sections.insert(name, opts)) by {
        let merged = Map::new(
            |k: Text| opened.sections[name].contains_key(k) || keys.contains(k),
            |k: Text|
                if keys.contains(k) {
                    opts[k]
                } else {
                    opened.sections[name][k]
                },
        );
        assert(merged =~= opts);
        assert(opened.sections.insert(name, merged) =~= st.sections.insert(name, opts));
    }
    assert(foot.skip(1) =~= Seq::<Text>::empty());
    assert(filled.parse_line(name, "\n"@) == (filled, name));
    assert(filled.parse_lines(name, foot) == (filled, name)) by {
        assert(filled.parse_lines(name, foot.skip(1)) == (filled, name));
    }
    lemma_parse_concat(st, current, head, body);
    lemma_parse_concat(st, current, head + body, foot);
}

proof fn lemma_parse_sections(st: Store, target: Store, current: Text, names: Seq<Text>)
    requires
        target.reads_back(),
        strictly_sorted(names),
        forall|i: int| 0 <= i < names.len() ==> target.sections.contains_key(#[trigger] names[i]),
        forall|i: int| 0 <= i < names.len() ==> !st.sections.contains_key(#[trigger] names[i]),
        forall|s: Text| #[trigger]
            target.sections.contains_key(s) ==> is_sorted_listing(
                sorted_keys(target.sections[s].dom()),
                target.sections[s].dom(),
            ),
    ensures
        st.parse_lines(current, target.lines_of(names)).0.defaults == st.defaults,
        st.parse_lines(current, target.lines_of(names)).0.sections == Map::new(
            |s: Text| st.sections.contains_key(s) || names.contains(s),
            |s: Text|
                if names.contains(s) {
                    target.sections[s]
                } else {
                    st.sections[s]
                },
        ),
    decreases names.len(),
{
    let all = Map::new(
        |s: Text| st.sections.contains_key(s) || names.contains(s),
        |s: Text|
            if names.contains(s) {
                target.sections[s]
            } else {
                st.sections[s]
            },
    );
    if names.len() == 0 {
        assert(all =~= st.sections);
    } else {
        let name = names[0];
        let opts = target.sections[name];
        let rest = names.skip(1);
        assert(target.sections.contains_key(name));
        assert(!st.sections.contains_key(name));
        assert(header_reads(name));
        assert forall|k: Text| opts.contains_key(k) implies setting_reads(k, #[trigger] opts[k]) by {
            assert(target.sections[name].contains_key(k));
        }
        lemma_parse_section(st, current, name, opts);
        let first = st.parse_lines(current, section_lines(name, opts));
        lemma_parse_concat(st, current, section_lines(name, opts), target.lines_of(rest));
        assert forall|i: int, j: int| 0 <= i < j < rest.len() implies crate::text::text_lt(
            #[trigger] rest[i],
            #[trigger] rest[j],
        ) by {
            assert(crate::text::text_lt(names[i + 1], names[j + 1]));
        }
        assert forall|i: int| 0 <= i < rest.len() implies target.sections.contains_key(
            #[trigger] rest[i],
        ) && !first.0.sections.contains_key(rest[i]) by {
            assert(rest[i] == names[i + 1]);
            assert(crate::text::text_lt(names[0], names[i + 1]));
            crate::text::lemma_text_lt_asymmetric(names[0], names[0]);
        }
        lemma_parse_sections(first.0, target, first.1, rest);
        let later = Map::new(
            |s: Text| first.0.sections.contains_key(s) || rest.contains(s),
            |s: Text|
                if rest.contains(s) {
                    target.sections[s]
                } else {
                    first.0.sections[s]
                },
        );
        assert forall|s: Text| names.contains(s) <==> (s == name || rest.contains(s)) by {
            if names.contains(s) {
                let i = choose|i: int| 0 <= i < names.len() && names[i] == s;
                if i > 0 {
                    assert(rest[i - 1] == s);
                }
            }
            if rest.contains(s) {
                let i = choose|i: int| 0 <= i < rest.len() && rest[i] == s;
                assert(names[i + 1] == s);
            }
        }
        assert(later =~= all);
    }
}

/// A store whose lines are read as what they were written for is the store
/// that its text gives when read: writing and reading leave it as it was.
pub proof fn lemma_reads_back(st: Store)
    requires
        st.finite(),
        st.reads_back(),
    ensures
        Store::empty(st.defaults).parse_source(logical_lines(st.render())) == st,
{
    lemma_sorted_keys_lists(st.sections.dom());
    assert forall|s: Text| #[trigger] st.sections.contains_key(s) implies is_sorted_listing(
        sorted_keys(st.sections[s].dom()),
        st.sections[s].dom(),
    ) by {
        lemma_sorted_keys_lists(st.sections[s].dom());
    }
    let names = sorted_keys(st.sections.dom());
    let lines = st.lines_of(names);
    lemma_render_sections_flat(st, names);
    lemma_lines_whole(st, names);
    lemma_whole_lines_read_back(lines);
    assert forall|i: int| 0 <= i < names.len() implies st.sections.contains_key(
        #[trigger] names[i],
    ) by {
        assert(names.contains(names[i]));
    }
    let start = Store::empty(st.defaults);
    lemma_parse_sections(start, st, Seq::empty(), names);
    let read = start.parse_lines(Seq::empty(), lines).0;
    assert(read.sections =~= st.sections);
}

proof fn lemma_options_whole(opts: Options, keys: Seq<Text>)
    requires
        forall|i: int| 0 <= i < keys.len() ==> setting_reads(#[trigger] keys[i], opts[keys[i]]),
    ensures
        forall|i: int|
            0 <= i < options_lines(opts, keys).len() ==> is_whole_line(
                #[trigger] options_lines(opts, keys)[i],
            ),
    decreases keys.len(),
{
    if keys.len() > 0 {
        assert(setting_reads(keys[0], opts[keys[0]]));
        lemma_setting_whole(keys[0], opts[keys[0]]);
        assert forall|i: int| 0 <= i < keys.skip(1).len() implies setting_reads(
            #[trigger] keys.skip(1)[i],
            opts[keys.skip(1)[i]],
        ) by {
            assert(keys.skip(1)[i] == keys[i + 1]);
        }
        lemma_options_whole(opts, keys.skip(1));
        let lines = options_lines(opts, keys);
        let tail = options_lines(opts, keys.skip(1));
        assert forall|i: int| 0 <= i < lines.len() implies is_whole_line(#[trigger] lines[i]) by {
            if i > 0 {
                assert(lines[i] == tail[i - 1]);
            }
        }
    }
}

proof fn lemma_lines_whole(st: Store, names: Seq<Text>)
    requires
        st.reads_back(),
        forall|i: int| 0 <= i < names.len() ==> st.sections.contains_key(#[trigger] names[i]),
        forall|s: Text| #[trigger]
            st.sections.contains_key(s) ==> is_sorted_listing(
                sorted_keys(st.sections[s].dom()),
                st.sections[s].dom(),
            ),
    ensures
        forall|i: int|
            0 <= i < st.lines_of(names).len() ==> is_whole_line(#[trigger] st.lines_of(names)[i]),
    decreases names.len(),
{
    if names.len() > 0 {
        let name = names[0];
        let opts = st.sections[name];
        let keys = sorted_keys(opts.dom());
        assert(st.sections.contains_key(name));
        assert(header_reads(name));
        lemma_header_whole(name);
        lemma_blank_whole();
        assert forall|i: int| 0 <= i < keys.len() implies setting_reads(
            #[trigger] keys[i],
            opts[keys[i]],
        ) by {
            assert(keys.contains(keys[i]));
            assert(st.sections[name].contains_key(keys[i]));
        }
        lemma_options_whole(opts, keys);
        assert forall|i: int| 0 <= i < names.skip(1).len() implies st.sections.contains_key(
            #[trigger] names.skip(1)[i],
        ) by {
            assert(names.skip(1)[i] == names[i + 1]);
        }
        lemma_lines_whole(st, names.skip(1));
        let head = section_lines(name, opts);
        let body = options_lines(opts, keys);
        let tail = st.lines_of(names.skip(1));
        let lines = st.lines_of(names);
        assert forall|i: int| 0 <= i < lines.len() implies is_whole_line(#[trigger] lines[i]) by {
            if i == 0 {
                assert(lines[i] == header_line(name));
            } else if i < 1 + body.len() {
                assert(lines[i] == body[i - 1]);
            } else if i == 1 + body.len() {
                assert(lines[i] == "\n"@);
            } else {
                assert(lines[i] == tail[i - head.len()]);
            }
        }
    }
}

proof fn lemma_parse_keeps(st: Store, current: Text, lines: Seq<Text>)
    requires
        st.finite(),
    ensures
        st.parse_lines(current, lines).0.finite(),
        st.parse_lines(current, lines).0.defaults == st.defaults,
    decreases lines.len(),
{
    if lines.len() > 0 {
        let next = st.parse_line(current, lines[0]);
        assert(next.0.finite()) by {
            assert forall|s: Text| #[trigger] next.0.sections.contains_key(s) implies next.0.sections[s].dom().finite() by {
                if st.sections.contains_key(s) {
                    assert(st.sections[s].dom().finite());
                }
            }
        }
        lemma_parse_keeps(next.0, next.1, lines.skip(1));
    }
}

/// Text that is read, written out and read again gives the store that it
/// gave at first, where each line written is read as what it was written
/// for.
pub proof fn lemma_text_round_trip(defaults: Options, text: Text)
    requires
        Store::empty(defaults).parse_source(logical_lines(text)).reads_back(),
    ensures
        ({
            let st = Store::empty(defaults).parse_source(logical_lines(text));
            Store::empty(defaults).parse_source(logical_lines(st.render())) == st
        }),
{
    let start = Store::empty(defaults);
    assert(start.finite());
    lemma_parse_keeps(start, Seq::empty(), logical_lines(text));
    lemma_reads_back(start.parse_source(logical_lines(text)));
}

} // verus!
