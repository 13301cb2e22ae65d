//! What holds of the operations together.

use vstd::prelude::*;
use crate::conparse::ConfigParser;
use crate::error::FetchErrorKind;
use crate::model::{int_of, truth_of, uint_of, Store, Text};
use crate::pattern::placeholder_of;
use crate::reader::{
    assemble, is_comment, lemma_line_len_append, lemma_line_len_bounds, line_len, logical_lines,
    piece,
};

verus! {

/// A value that was set is the raw value that is read back, placeholders
/// and all.
pub proof fn lemma_set_then_get_raw(st: Store, section: Text, option: Text, value: Text)
    ensures
        st.set(section, option, value).get_raw(section, option) == Ok::<Text, FetchErrorKind>(
            value,
        ),
{
}

/// Setting an option leaves every other option as it reads.
pub proof fn lemma_set_keeps_others(
    st: Store,
    section: Text,
    option: Text,
    value: Text,
    s: Text,
    k: Text,
)
    requires
        s != section || k != option,
        st.has_section(section) || s != section,
    ensures
        st.set(section, option, value).get_raw(s, k) == st.get_raw(s, k),
{
}

/// A section cannot be added twice: the second time fails, and changes
/// nothing.
pub proof fn lemma_add_section_twice(st: Store, section: Text)
    ensures
        ({
            let first = st.try_add_section(section);
            first.0.try_add_section(section) == (
                first.0,
                Err::<(), FetchErrorKind>(FetchErrorKind::DuplicateSection),
            )
        }),
{
}

/// Removing a section that the store does not hold fails, and changes
/// nothing.
pub proof fn lemma_remove_unknown_section(st: Store, section: Text)
    requires
        !st.has_section(section),
    ensures
        st.try_remove_section(section) == (
            st,
            Err::<(), FetchErrorKind>(FetchErrorKind::NoSuchSection),
        ),
{
}

/// A section that was added is there, and one that was removed is not.
pub proof fn lemma_add_then_remove_section(st: Store, section: Text)
    ensures
        st.try_add_section(section).0.has_section(section),
        !st.try_remove_section(section).0.has_section(section),
{
}

proof fn lemma_render_sections_same(a: Store, b: Store, names: Seq<Text>)
    requires
        a.sections == b.sections,
    ensures
        a.render_sections(names) == b.render_sections(names),
    decreases names.len(),
{
    if names.len() > 0 {
        lemma_render_sections_same(a, b, names.skip(1));
    }
}

/// Two stores with the same sections and options are the same text,
/// however each came about.
pub proof fn lemma_same_content_same_text(a: ConfigParser, b: ConfigParser)
    requires
        a@.sections == b@.sections,
    ensures
        a@.render() == b@.render(),
{
    lemma_render_sections_same(a@, b@, crate::text::sorted_keys(a@.sections.dom()));
}

/// Options set in either order give the same store, and so the same text.
pub proof fn lemma_set_order_irrelevant(
    st: Store,
    s1: Text,
    k1: Text,
    v1: Text,
    s2: Text,
    k2: Text,
    v2: Text,
)
    requires
        s1 != s2 || k1 != k2,
    ensures
        st.set(s1, k1, v1).set(s2, k2, v2) == st.set(s2, k2, v2).set(s1, k1, v1),
        st.set(s1, k1, v1).set(s2, k2, v2).render() == st.set(s2, k2, v2).set(s1, k1, v1).render(),
{
    let a = st.set(s1, k1, v1).set(s2, k2, v2);
    let b = st.set(s2, k2, v2).set(s1, k1, v1);
    assert forall|s: Text| a.sections.contains_key(s) implies #[trigger] a.sections[s]
        =~= b.sections[s] by {}
    assert(a.sections =~= b.sections);
    lemma_render_sections_same(a, b, crate::text::sorted_keys(a.sections.dom()));
}

/// The logical lines of `s` where `acc` has been gathered already.
spec fn lines_from(s: Seq<char>, acc: Seq<char>, continuing: bool) -> Seq<Seq<char>> {
    match assemble(s, acc, continuing) {
        None => Seq::empty(),
        Some((line, rest)) => seq![line] + logical_lines(rest),
    }
}

proof fn lemma_comment_from(
    pre: Seq<char>,
    comment: Seq<char>,
    post: Seq<char>,
    acc: Seq<char>,
    continuing: bool,
)
    requires
        pre.len() == 0 || pre.last() == '\n',
        is_comment(comment),
        line_len(comment) == comment.len(),
        comment.last() == '\n' || post.len() == 0,
    ensures
        lines_from(pre + comment + post, acc, continuing) == lines_from(
            pre + post,
            acc,
            continuing,
        ),
    decreases pre.len(),
{
    let with = pre + comment + post;
    let without = pre + post;
    if pre.len() == 0 {
        assert(with =~= comment + post);
        assert(without =~= post);
        let n = comment.len() as int;
        if post.len() == 0 {
            assert(comment + post =~= comment);
        } else {
            lemma_line_len_append(comment, post);
        }
        assert(line_len(with) == n);
        assert(with.take(n) =~= comment);
        assert(with.skip(n) =~= post);
    } else {
        lemma_line_len_bounds(pre);
        let n = line_len(pre) as int;
        assert(pre[n - 1] == '\n');
        assert(with =~= pre + (comment + post));
        lemma_line_len_append(pre, comment + post);
        lemma_line_len_append(pre, post);
        let line = pre.take(n);
        let tail = pre.skip(n);
        assert(with.take(n) =~= line);
        assert(without.take(n) =~= line);
        assert(with.skip(n) =~= tail + comment + post);
        assert(without.skip(n) =~= tail + post);
        assert(line.last() == '\n');
        if tail.len() > 0 {
            assert(tail.last() == pre.last());
        }
        if is_comment(line) {
            lemma_comment_from(tail, comment, post, acc, continuing);
        } else if n >= 2 && line[n - 2] == '\\' {
            lemma_comment_from(
                tail,
                comment,
                post,
                acc + piece(line.take(n - 2), continuing),
                true,
            );
        } else {
            lemma_comment_from(tail, comment, post, Seq::empty(), false);
        }
    }
}

/// A comment line leaves no trace: the logical lines of a text are those of
/// the text without the comment line, wherever the line stands, between
/// the parts of a continued line too. `pre` is what stands before the
/// comment line, whole lines only, and `post` what stands behind it.
pub proof fn lemma_comment_lines_vanish(pre: Seq<char>, comment: Seq<char>, post: Seq<char>)
    requires
        pre.len() == 0 || pre.last() == '\n',
        is_comment(comment),
        line_len(comment) == comment.len(),
        comment.last() == '\n' || post.len() == 0,
    ensures
        logical_lines(pre + comment + post) == logical_lines(pre + post),
{
    lemma_comment_from(pre, comment, post, Seq::empty(), false);
}

/// Whether `b` holds every section of `a`, and every option of `a` with
/// the value it has in `a`.
spec fn covers(b: Store, a: Store) -> bool {
    &&& forall|s: Text| #[trigger] a.sections.contains_key(s) ==> b.sections.contains_key(s)
    &&& forall|s: Text, k: Text|
        a.sections.contains_key(s) && #[trigger] a.sections[s].contains_key(k)
            ==> b.sections[s].contains_key(k) && b.sections[s][k] == a.sections[s][k]
}

proof fn lemma_parse_line_covers(a: Store, b: Store, current: Text, line: Text)
    requires
        covers(b, a),
    ensures
        covers(b.parse_line(current, line).0, a.parse_line(current, line).0),
        b.parse_line(current, line).1 == a.parse_line(current, line).1,
{
}

proof fn lemma_parse_lines_covers(a: Store, b: Store, current: Text, lines: Seq<Text>)
    requires
        covers(b, a),
    ensures
        covers(b.parse_lines(current, lines).0, a.parse_lines(current, lines).0),
    decreases lines.len(),
{
    if lines.len() > 0 {
        lemma_parse_line_covers(a, b, current, lines[0]);
        lemma_parse_lines_covers(
            a.parse_line(current, lines[0]).0,
            b.parse_line(current, lines[0]).0,
            a.parse_line(current, lines[0]).1,
            lines.skip(1),
        );
    }
}

proof fn lemma_parse_sources_last(st: Store, sources: Seq<Seq<Text>>)
    requires
        sources.len() > 0,
    ensures
        st.parse_sources(sources) == st.parse_sources(sources.drop_last()).parse_source(
            sources.last(),
        ),
    decreases sources.len(),
{
    let next = st.parse_source(sources[0]);
    assert(st.parse_sources(sources) == next.parse_sources(sources.skip(1)));
    if sources.len() == 1 {
        assert(sources.skip(1).len() == 0);
        assert(sources.drop_last().len() == 0);
        assert(next.parse_sources(sources.skip(1)) == next);
        assert(st.parse_sources(sources.drop_last()) == st);
    } else {
        lemma_parse_sources_last(next, sources.skip(1));
        assert(sources.skip(1).drop_last() =~= sources.drop_last().skip(1));
        assert(sources.drop_last()[0] == sources[0]);
        assert(sources.skip(1).last() == sources.last());
        assert(st.parse_sources(sources.drop_last()) == next.parse_sources(
            sources.drop_last().skip(1),
        ));
    }
}

/// The last source has the last word: an option that the last source sets
/// when read alone has that value in the store read from all the sources.
pub proof fn lemma_later_source_wins(
    st: Store,
    sources: Seq<Seq<Text>>,
    section: Text,
    option: Text,
)
    requires
        sources.len() > 0,
        Store::empty(st.defaults).parse_source(sources.last()).has_section(section),
        Store::empty(st.defaults).parse_source(sources.last()).sections[section].contains_key(
            option,
        ),
    ensures
        st.parse_sources(sources).get_raw(section, option) == Store::empty(
            st.defaults,
        ).parse_source(sources.last()).get_raw(section, option),
{
    let alone = Store::empty(st.defaults);
    let before = st.parse_sources(sources.drop_last());
    lemma_parse_sources_last(st, sources);
    lemma_parse_lines_covers(alone, before, Seq::empty(), sources.last());
    let a = alone.parse_source(sources.last());
    let b = before.parse_source(sources.last());
    assert(a.sections.contains_key(section));
    assert(a.sections[section].contains_key(option));
}

/// A value without a placeholder reads as it is written, be it an option
/// of the section or a default.
pub proof fn lemma_plain_value_reads_raw(st: Store, section: Text, option: Text)
    requires
        st.names(section).finite(),
        st.get_raw(section, option) matches Ok(raw) && placeholder_of(raw) is None,
    ensures
        st.get(section, option) == st.get_raw(section, option),
{
}

/// A value that refers to its own option is circular.
pub proof fn lemma_self_reference_is_circular(st: Store, section: Text, option: Text)
    requires
        st.names(section).finite(),
        st.get_raw(section, option) matches Ok(raw) && placeholder_of(raw) matches Some(
            (_, name),
        ) && name == option,
    ensures
        st.get(section, option) == Err::<Text, FetchErrorKind>(
            FetchErrorKind::InterpolationCircularity,
        ),
{
}

/// What `get` gives is what `get_raw` gives with its placeholders replaced:
/// it fails where `get_raw` fails, and as `get_raw` does.
pub proof fn lemma_get_resolves_get_raw(st: Store, section: Text, option: Text)
    ensures
        match st.get_raw(section, option) {
            Ok(raw) => st.get(section, option) == st.expand(
                section,
                option,
                raw,
                Set::empty(),
            ).0,
            Err(k) => st.get(section, option) == Err::<Text, FetchErrorKind>(k),
        },
{
}

/// The empty value, which a key alone has, is true and is the number 1.
pub proof fn lemma_empty_value()
    ensures
        truth_of(Seq::empty()) == Some(true),
        uint_of(Seq::empty()) == Some(1usize),
        int_of(Seq::empty()) == Some(1isize),
{
    reveal_strlit("");
    assert(crate::text::lower(Seq::<char>::empty()) =~= ""@);
}

} // verus!
