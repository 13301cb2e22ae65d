use conparse::conparse::{
    float_text, from_reader_helper, int_value, open_section, read_source, set_open, truth_value,
    try_option_kv, uint_value, ConfigParser, InterpString,
};
use conparse::error::{fe_error, FetchError, FetchErrorKind};
use conparse::pattern::{
    get_captured_kv, get_captured_name, get_captured_placeholder, Grammar,
};
use conparse::reader::{ContinuationReader, MemReader, ReadErrorKind};

fn lines_of(text: &str) -> Vec<String> {
    let mut r = MemReader::new(text);
    let mut out = Vec::new();
    loop {
        match r.read_continued_line() {
            Ok(l) => out.push(l),
            Err(e) => {
                assert_eq!(e.kind, ReadErrorKind::EndOfFile);
                break;
            }
        }
    }
    assert!(r.eof());
    out
}

#[test]
fn continuation_joins_lines() {
    assert_eq!(lines_of("One \\\n\\\n     Two\n"), vec!["One Two\n"]);
}

#[test]
fn first_part_keeps_its_leading_space() {
    assert_eq!(lines_of("  a\\\n  b\\\n\tc\n"), vec!["  abc\n"]);
}

#[test]
fn every_line_ends_in_one_newline() {
    assert_eq!(lines_of("a\n\nb"), vec!["a\n", "\n", "b\n"]);
    assert_eq!(lines_of("a\r\n"), vec!["a\r\n"]);
}

#[test]
fn comment_lines_leave_no_trace() {
    assert_eq!(lines_of("#one\n;two\na\n# three"), vec!["a\n"]);
    assert_eq!(lines_of("One \\\n#comment \\\n;other\n  Two\n"), vec!["One Two\n"]);
    assert_eq!(lines_of("One \\\n  Two\n"), vec!["One Two\n"]);
    assert_eq!(lines_of(" #not a comment\n"), vec![" #not a comment\n"]);
}

#[test]
fn trailing_continuation_is_dropped() {
    assert_eq!(lines_of("a\nb \\"), vec!["a\n"]);
    assert_eq!(lines_of("a\nb \\\n"), vec!["a\n"]);
    assert_eq!(lines_of("a\nb \\\nc\\"), vec!["a\n"]);
    let empty: Vec<String> = Vec::new();
    assert_eq!(lines_of(""), empty);
}

#[test]
fn reader_reports_end() {
    let mut r = MemReader::new("x");
    assert!(!r.eof());
    assert_eq!(r.read_continued_line().unwrap(), "x\n");
    assert!(r.eof());
    assert_eq!(r.read_continued_line().err().unwrap().kind, ReadErrorKind::EndOfFile);
    assert_eq!(r.read_continued_line().err().unwrap().kind, ReadErrorKind::EndOfFile);
    assert!(MemReader::new("").eof());
}

#[test]
fn grammar_classifies_lines() {
    let g = Grammar::new();
    assert_eq!(g.section_name("  [ Alpha ] ; alpha section"), Some("Alpha".to_string()));
    assert_eq!(g.section_name("[sec1]"), Some("sec1".to_string()));
    assert_eq!(g.section_name("[sec1] # c"), Some("sec1".to_string()));
    assert_eq!(g.section_name("[sec1] trailing"), None);
    assert_eq!(g.section_name("[two words]"), None);
    assert_eq!(g.section_name("[]"), None);
    assert_eq!(g.section_name("foo = bar"), None);
    assert_eq!(
        g.option_kv("foo =  bar  "),
        Some(("foo".to_string(), "bar".to_string()))
    );
    assert_eq!(
        g.option_kv("foo:wibble = x"),
        Some(("foo".to_string(), "wibble = x".to_string()))
    );
    assert_eq!(g.option_kv("standalone"), Some(("standalone".to_string(), "".to_string())));
    assert_eq!(g.option_kv("key ="), Some(("key".to_string(), "".to_string())));
    assert_eq!(g.option_kv("two words"), None);
    assert_eq!(g.option_kv(""), None);
    assert_eq!(g.option_kv("= value"), None);
    assert_eq!(
        g.placeholder("x %( b )s y %(c)s"),
        Some(("%( b )s".to_string(), "b".to_string()))
    );
    assert_eq!(g.placeholder("x %(b) y"), None);
    assert_eq!(g.placeholder("%()s"), None);
}

#[test]
fn parser_forwards_to_grammar() {
    let cp = ConfigParser::new(&[]);
    assert_eq!(cp.section_name(" [ Zulu ] "), Some("Zulu".to_string()));
    assert_eq!(cp.section_name("Zulu"), None);
    assert_eq!(cp.option_kv(" a : b "), Some(("a".to_string(), "b".to_string())));
    assert_eq!(cp.option_kv("[a]"), None);
}

#[test]
fn captured_groups_become_values() {
    let s = |t: &str| Some(t.to_string());
    assert_eq!(get_captured_name(&vec![s("[a]"), s("a"), None]), s("a"));
    assert_eq!(get_captured_name(&vec![s("[a]")]), None);
    assert_eq!(get_captured_name(&vec![s("[a]"), None]), None);
    assert_eq!(
        get_captured_kv(&vec![s("k = v"), s("k"), s(" = v"), s("v")]),
        Some(("k".to_string(), "v".to_string()))
    );
    assert_eq!(
        get_captured_kv(&vec![s("k"), s("k"), None, None]),
        Some(("k".to_string(), "".to_string()))
    );
    assert_eq!(
        get_captured_kv(&vec![s("k"), s("k")]),
        Some(("k".to_string(), "".to_string()))
    );
    assert_eq!(get_captured_kv(&vec![s("k")]), None);
    assert_eq!(get_captured_kv(&vec![s("k"), None, None, s("v")]), None);
    assert_eq!(
        get_captured_placeholder(&vec![s("%(a)s"), s("%(a)s"), s("a")]),
        Some(("%(a)s".to_string(), "a".to_string()))
    );
    assert_eq!(get_captured_placeholder(&vec![s("%(a)s"), s("%(a)s")]), None);
    assert_eq!(get_captured_placeholder(&vec![s("%(a)s"), None, s("a")]), None);
}

#[test]
fn set_then_get_raw_gives_the_value() {
    let mut cp = ConfigParser::new(&[("b", "default")]);
    cp.set("s", "a", "x %(b)s y");
    assert_eq!(cp.get_raw("s", "a").ok().unwrap(), "x %(b)s y");
    assert_eq!(cp.get("s", "a").ok().unwrap(), "x default y");
    cp.set("s", "a", "second");
    assert_eq!(cp.get_raw("s", "a").ok().unwrap(), "second");
    cp.set("two words", "#k", " v\n");
    assert_eq!(cp.get_raw("two words", "#k").ok().unwrap(), " v\n");
    assert_eq!(cp.get_raw("s", "a").ok().unwrap(), "second");
}

#[test]
fn get_raw_falls_back_on_defaults() {
    let mut cp = ConfigParser::new(&[("t1", "v1"), ("t1", "later"), ("t2", "%(t1)s")]);
    assert_eq!(cp.get_raw("nowhere", "t1").ok().unwrap(), "later");
    assert_eq!(cp.get_raw("nowhere", "t3").err().unwrap().kind(), FetchErrorKind::NoSuchSection);
    cp.add_section("s").ok().unwrap();
    assert_eq!(cp.get_raw("s", "t1").ok().unwrap(), "later");
    assert_eq!(cp.get_raw("s", "t3").err().unwrap().kind(), FetchErrorKind::NoSuchOption);
    assert_eq!(cp.get_raw("s", "t2").ok().unwrap(), "%(t1)s");
    assert_eq!(cp.get("s", "t2").ok().unwrap(), "later");
    assert_eq!(cp.get("nowhere", "t2").ok().unwrap(), "later");
    assert_eq!(cp.defaults(), vec![
        ("t1".to_string(), "later".to_string()),
        ("t2".to_string(), "%(t1)s".to_string()),
    ]);
}

#[test]
fn has_option_looks_at_defaults() {
    let mut cp = ConfigParser::new(&[("d", "1")]);
    assert_eq!(cp.has_option("s", "d").err().unwrap().kind(), FetchErrorKind::NoSuchSection);
    cp.add_section("s").ok().unwrap();
    assert!(cp.has_option("s", "d").ok().unwrap());
    assert!(!cp.has_option("s", "e").ok().unwrap());
    cp.set("s", "e", "");
    assert!(cp.has_option("s", "e").ok().unwrap());
}

#[test]
fn remove_option_reports_what_is_missing() {
    let mut cp = ConfigParser::new(&[("d", "1")]);
    assert_eq!(cp.remove_option("s", "k").err().unwrap().kind(), FetchErrorKind::NoSuchSection);
    cp.set("s", "k", "v");
    cp.set("s", "l", "w");
    assert_eq!(cp.remove_option("s", "d").err().unwrap().kind(), FetchErrorKind::NoSuchOption);
    assert!(cp.remove_option("s", "k").is_ok());
    assert_eq!(cp.get_raw("s", "k").err().unwrap().kind(), FetchErrorKind::NoSuchOption);
    assert_eq!(cp.get_raw("s", "l").ok().unwrap(), "w");
    assert!(cp.has_section("s"));
}

#[test]
fn remove_section_takes_its_options() {
    let mut cp = ConfigParser::from_str("[foo]\nbar = quux\n\n[wibble]\nbar2 = quux2\n", &[]);
    assert!(cp.has_section("foo"));
    assert!(cp.remove_section("foo").is_ok());
    assert!(!cp.has_section("foo"));
    assert_eq!(cp.get("foo", "bar").err().unwrap().kind(), FetchErrorKind::NoSuchSection);
    assert_eq!(cp.get("wibble", "bar2").ok().unwrap(), "quux2");
    assert!(cp.add_section("foo").is_ok());
    assert_eq!(cp.options("foo").ok().unwrap().len(), 0);
}

#[test]
fn sections_and_options_come_in_order() {
    let mut cp = ConfigParser::new(&[]);
    cp.set("zulu", "b", "2");
    cp.set("alpha", "z", "26");
    cp.set("Zulu", "a", "1");
    cp.set("zulu", "a", "1");
    cp.set("alpha", "a", "1");
    assert_eq!(cp.sections(), vec!["Zulu", "alpha", "zulu"]);
    let names: Vec<String> = cp.options("zulu").ok().unwrap().iter().map(|(k, _)| k.clone()).collect();
    assert_eq!(names, vec!["a", "b"]);
}

#[test]
fn text_is_the_same_in_any_order() {
    let mut a = ConfigParser::new(&[]);
    a.set("s", "k", "1");
    a.set("t", "l", "2");
    a.set("s", "j", "3");
    let mut b = ConfigParser::new(&[("unused", "x")]);
    b.set("s", "j", "3");
    b.set("t", "l", "0");
    b.set("s", "k", "1");
    b.set("t", "l", "2");
    assert_eq!(a.to_string().ok().unwrap(), b.to_string().ok().unwrap());
    assert_eq!(a.to_string().ok().unwrap(), "[s]\nj : 3\nk : 1\n\n[t]\nl : 2\n\n");
}

#[test]
fn text_reads_back_as_the_same_store() {
    let cp1 = ConfigParser::from_str(
        "[b]\nx = 1\ny: two words\nflag\n[a]\nhost : h\nuri = http://%(host)s/\n[empty]\n",
        &[],
    );
    let text = cp1.to_string().ok().unwrap();
    assert_eq!(
        text,
        "[a]\nhost : h\nuri : http://%(host)s/\n\n[b]\nflag : \nx : 1\ny : two words\n\n[empty]\n\n"
    );
    let cp2 = ConfigParser::from_str(text.as_str(), &[]);
    assert_eq!(cp1.sections(), cp2.sections());
    for s in cp1.sections().iter() {
        let o1: Vec<(String, String)> =
            cp1.options(s).ok().unwrap().iter().map(|(k, v)| (k.clone(), v.get_raw())).collect();
        let o2: Vec<(String, String)> =
            cp2.options(s).ok().unwrap().iter().map(|(k, v)| (k.clone(), v.get_raw())).collect();
        assert_eq!(o1, o2);
    }
    assert_eq!(cp2.to_string().ok().unwrap(), text);
}

#[test]
fn empty_store_is_empty_text() {
    let cp = ConfigParser::new(&[("a", "b")]);
    assert_eq!(cp.to_string().ok().unwrap(), "");
    let mut w = vec![b'#'];
    assert!(cp.to_writer(&mut w).is_ok());
    assert_eq!(w, vec![b'#']);
}

#[test]
fn writer_gets_utf8_after_what_it_held() {
    let mut cp = ConfigParser::new(&[]);
    cp.set("s", "k", "caf\u{e9}");
    let mut w = b"# head\n".to_vec();
    assert!(cp.to_writer(&mut w).is_ok());
    assert_eq!(w, "# head\n[s]\nk : caf\u{e9}\n\n".as_bytes().to_vec());
}

#[test]
fn later_source_wins() {
    let cp = ConfigParser::from_strs(
        &["[s]\nk = first\nonly = here\n", "[s]\nk = second\n[t]\nk = other\n"],
        &[],
    );
    assert_eq!(cp.get_raw("s", "k").ok().unwrap(), "second");
    assert_eq!(cp.get_raw("s", "only").ok().unwrap(), "here");
    assert_eq!(cp.get_raw("t", "k").ok().unwrap(), "other");
    let alone = ConfigParser::from_str("[s]\nk = second\n[t]\nk = other\n", &[]);
    assert_eq!(alone.get_raw("s", "k").ok().unwrap(), cp.get_raw("s", "k").ok().unwrap());
}

#[test]
fn each_source_starts_outside_any_section() {
    let cp = ConfigParser::from_strs(&["[s]\nk = 1\n", "k = 2\n"], &[]);
    assert_eq!(cp.get_raw("s", "k").ok().unwrap(), "1");
}

#[test]
fn unread_files_are_passed_over() {
    let cp = ConfigParser::from_files(
        &[None, Some("[s]\nk = 1\n"), None, Some("[s]\nk = 2\nl = 3\n")],
        &[("d", "0")],
    );
    assert_eq!(cp.get_raw("s", "k").ok().unwrap(), "2");
    assert_eq!(cp.get_raw("s", "l").ok().unwrap(), "3");
    assert_eq!(cp.get_raw("s", "d").ok().unwrap(), "0");
    let none = ConfigParser::from_files(&[], &[]);
    assert!(none.sections().is_empty());
}

#[test]
fn readers_are_read_in_turn() {
    let mut rs = vec![MemReader::new("[a]\nk = 1\n"), MemReader::new("[a]\nk = 2\n[b]\n")];
    let cp = ConfigParser::from_readers(&mut rs, &[]);
    assert_eq!(cp.sections(), vec!["a", "b"]);
    assert_eq!(cp.get_raw("a", "k").ok().unwrap(), "2");
    assert!(rs[0].eof() && rs[1].eof());
}

#[test]
fn reader_helper_adds_to_the_store() {
    let mut cp = ConfigParser::new(&[]);
    cp.set("s", "old", "kept");
    let mut r = MemReader::new("stray = 1\n[s]\nnew = 2\n[s]\nmore = 3\nnot an option\n");
    from_reader_helper(&mut cp, &mut r);
    assert_eq!(cp.get_raw("s", "old").ok().unwrap(), "kept");
    assert_eq!(cp.get_raw("s", "new").ok().unwrap(), "2");
    assert_eq!(cp.get_raw("s", "more").ok().unwrap(), "3");
    assert_eq!(cp.options("s").ok().unwrap().len(), 3);
    assert_eq!(cp.sections(), vec!["s"]);
}

#[test]
fn option_line_needs_an_open_section() {
    let mut cp = ConfigParser::new(&[]);
    let skipped = Some(("k".to_string(), "v".to_string()));
    assert_eq!(try_option_kv(&mut cp, "k = v", &"".to_string()), skipped);
    assert!(cp.sections().is_empty());
    assert_eq!(try_option_kv(&mut cp, "k = v", &"s".to_string()), skipped);
    assert!(cp.sections().is_empty());
    cp.add_section("s").ok().unwrap();
    assert_eq!(try_option_kv(&mut cp, "k = v", &"s".to_string()), None);
    assert_eq!(cp.get_raw("s", "k").ok().unwrap(), "v");
    assert_eq!(try_option_kv(&mut cp, "[k]", &"s".to_string()), None);
    assert_eq!(cp.options("s").ok().unwrap().len(), 1);
}

#[test]
fn bare_key_is_empty_and_true() {
    let cp = ConfigParser::from_str("[s]\nstandalone\n", &[]);
    assert_eq!(cp.get_raw("s", "standalone").ok().unwrap(), "");
    assert_eq!(cp.getboolean("s", "standalone").ok().unwrap(), true);
}

#[test]
fn truth_values_in_any_case() {
    let cp = ConfigParser::from_str(
        "[s]\na = TRUE\nb = Yes\nc = oN\nd = 1\ne = FALSE\nf = No\ng = OFF\nh = 0\ni = maybe\nj = 2\n",
        &[],
    );
    for k in ["a", "b", "c", "d"].iter() {
        assert_eq!(cp.getboolean("s", k).ok().unwrap(), true);
    }
    for k in ["e", "f", "g", "h"].iter() {
        assert_eq!(cp.getboolean("s", k).ok().unwrap(), false);
    }
    for k in ["i", "j"].iter() {
        assert_eq!(cp.getboolean("s", k).err().unwrap().kind(), FetchErrorKind::InvalidLiteral);
    }
    assert_eq!(cp.getboolean("s", "zz").err().unwrap().kind(), FetchErrorKind::NoSuchOption);
    assert_eq!(cp.getboolean("t", "a").err().unwrap().kind(), FetchErrorKind::NoSuchSection);
}

#[test]
fn numbers_pass_lookup_failures_on() {
    let cp = ConfigParser::from_str("[s]\na = %(a)s\nb = %(c)s\nn = %(m)s\nm = 42\n", &[]);
    assert_eq!(cp.getuint("s", "a").err().unwrap().kind(), FetchErrorKind::InterpolationCircularity);
    assert_eq!(cp.getint("s", "b").err().unwrap().kind(), FetchErrorKind::InterpolationError);
    assert_eq!(cp.getuint("s", "x").err().unwrap().kind(), FetchErrorKind::NoSuchOption);
    assert_eq!(cp.getuint("s", "n").ok().unwrap(), 42);
    assert_eq!(cp.getint("s", "n").ok().unwrap(), 42);
    assert_eq!(cp.getfloat_text("s", "n").ok().unwrap(), "42");
    assert_eq!(cp.getfloat_text("s", "x").err().unwrap().kind(), FetchErrorKind::NoSuchOption);
}

#[test]
fn float_text_of_bare_key() {
    let cp = ConfigParser::from_str("[s]\nt5\nt4 : 12E+99\n", &[]);
    assert_eq!(cp.getfloat_text("s", "t5").ok().unwrap(), "1.0");
    assert_eq!(cp.getfloat_text("s", "t4").ok().unwrap(), "12E+99");
}

#[test]
fn interpolation_replaces_every_occurrence() {
    let cp = ConfigParser::from_str(
        "[s]\nhost : h\nport : 1\nuri : http://%(host)s:%(port)s/%(host)s\nspaced : %( host )s\n",
        &[],
    );
    assert_eq!(cp.get("s", "uri").ok().unwrap(), "http://h:1/h");
    assert_eq!(cp.get("s", "spaced").ok().unwrap(), "h");
}

#[test]
fn same_name_written_differently_is_circular() {
    let cp = ConfigParser::from_str("[s]\nhost : h\nuri : %(host)s/%( host )s\n", &[]);
    assert_eq!(
        cp.get("s", "uri").err().unwrap().kind(),
        FetchErrorKind::InterpolationCircularity
    );
}

#[test]
fn defaults_are_resolved_like_options() {
    let cp = ConfigParser::from_str("[s]\na : 1\nb : <%(d)s>\n", &[("d", "%(a)s")]);
    assert_eq!(cp.get_raw("s", "d").ok().unwrap(), "%(a)s");
    assert_eq!(cp.get("s", "d").ok().unwrap(), "1");
    assert_eq!(cp.get("s", "b").ok().unwrap(), "<1>");
    let mut set = ConfigParser::new(&[("d", "%(x)s")]);
    set.set("s", "x", "1");
    assert_eq!(set.get("s", "d").ok().unwrap(), "1");
    assert_eq!(set.get("t", "d").err().unwrap().kind(), FetchErrorKind::InterpolationError);
}

#[test]
fn defaults_can_be_circular() {
    let cp = ConfigParser::new(&[("a", "%(b)s"), ("b", "%(a)s"), ("c", "%(c)s")]);
    assert_eq!(cp.get("s", "a").err().unwrap().kind(), FetchErrorKind::InterpolationCircularity);
    assert_eq!(cp.get("s", "c").err().unwrap().kind(), FetchErrorKind::InterpolationCircularity);
    assert_eq!(cp.get_raw("s", "a").ok().unwrap(), "%(b)s");
}

#[test]
fn skipped_options_are_reported() {
    let mut cp = ConfigParser::new(&[]);
    cp.set("s", "old", "kept");
    let mut r = MemReader::new("stray = 1\nflag\n# c\n[s]\nnew = 2\nnot an option\n");
    let report = read_source(&mut cp, &mut r);
    assert_eq!(
        report.ignored,
        vec![("stray".to_string(), "1".to_string()), ("flag".to_string(), "".to_string())]
    );
    assert_eq!(report.ended.kind, ReadErrorKind::EndOfFile);
    assert_eq!(cp.get_raw("s", "new").ok().unwrap(), "2");
    assert_eq!(cp.get_raw("s", "old").ok().unwrap(), "kept");
    assert_eq!(cp.options("s").ok().unwrap().len(), 2);
    let mut clean = MemReader::new("[t]\nk = v\n");
    assert!(read_source(&mut cp, &mut clean).ignored.is_empty());
}

#[test]
fn a_name_is_replaced_once_in_a_lookup() {
    let cp = ConfigParser::from_str("[s]\na : %(b)s %(c)s\nb : %(d)s\nc : %(d)s\nd : x\n", &[]);
    assert_eq!(cp.get("s", "b").ok().unwrap(), "x");
    assert_eq!(
        cp.get("s", "a").err().unwrap().kind(),
        FetchErrorKind::InterpolationCircularity
    );
}

#[test]
fn self_reference_is_circular() {
    let cp = ConfigParser::from_str("[s]\na : x%(a)sy\n", &[]);
    assert_eq!(
        cp.get("s", "a").err().unwrap().kind(),
        FetchErrorKind::InterpolationCircularity
    );
    assert_eq!(cp.get_raw("s", "a").ok().unwrap(), "x%(a)sy");
}

#[test]
fn interp_string_holds_raw_text() {
    let mut v = InterpString::new("x %(a)s");
    assert_eq!(v.get_raw(), "x %(a)s");
    v.set("y");
    assert_eq!(v.get_raw(), "y");
}

#[test]
fn interp_string_expands_against_a_store() {
    let cp = ConfigParser::from_str("[s]\na : 1\nb : %(a)s%(a)s\n", &[("d", "plain")]);
    let v = InterpString::new("<%(b)s|%(d)s>");
    let mut expanded: Vec<String> = Vec::new();
    assert_eq!(v.get("s", "me", &cp, &mut expanded).ok().unwrap(), "<11|plain>");
    assert_eq!(expanded, vec!["b", "a", "d"]);
    let mut seen = vec!["b".to_string()];
    assert_eq!(
        v.get("s", "me", &cp, &mut seen).err().unwrap().kind(),
        FetchErrorKind::InterpolationCircularity
    );
    assert_eq!(seen, vec!["b"]);
    let mut fresh: Vec<String> = Vec::new();
    assert_eq!(
        v.get("s", "d", &cp, &mut fresh).err().unwrap().kind(),
        FetchErrorKind::InterpolationCircularity
    );
    let mut other: Vec<String> = Vec::new();
    assert_eq!(
        v.get("nowhere", "me", &cp, &mut other).err().unwrap().kind(),
        FetchErrorKind::InterpolationError
    );
    assert_eq!(other, vec!["b"]);
    let plain = InterpString::new("no placeholder");
    let mut none: Vec<String> = Vec::new();
    assert_eq!(plain.get("s", "me", &cp, &mut none).ok().unwrap(), "no placeholder");
    assert!(none.is_empty());
}

#[test]
fn errors_read_as_text() {
    let e = fe_error(FetchErrorKind::NoSuchSection);
    assert_eq!(e.kind(), FetchErrorKind::NoSuchSection);
    assert_eq!(e.description(), "No such configuration section");
    assert_eq!(e.detail(), None);
    assert_eq!(e.to_string(), "No such configuration section");
    let d = FetchError::new(FetchErrorKind::InvalidLiteral, "Bad value", Some("t3".to_string()));
    assert_eq!(d.kind(), FetchErrorKind::InvalidLiteral);
    assert_eq!(d.detail(), Some("t3".to_string()));
    assert_eq!(d.to_string(), "Bad value (t3)");
    assert_eq!(fe_error(FetchErrorKind::NoSuchOption).to_string(), "No such configuration option");
    assert_eq!(fe_error(FetchErrorKind::DuplicateSection).to_string(), "Section already exists");
    assert_eq!(
        fe_error(FetchErrorKind::InterpolationError).to_string(),
        "Interpolation into option failed"
    );
    assert_eq!(
        fe_error(FetchErrorKind::InterpolationCircularity).to_string(),
        "Interpolation is infinitely recursive"
    );
    assert_eq!(
        fe_error(FetchErrorKind::InvalidLiteral).to_string(),
        "Value cannot be parsed into desired type"
    );
}

#[test]
fn repeated_header_reopens_the_section() {
    let cp = ConfigParser::from_str("[s]\na = 1\n[t]\nb = 2\n[s]\nc = 3\na = 4\n", &[]);
    assert_eq!(cp.get_raw("s", "a").ok().unwrap(), "4");
    assert_eq!(cp.get_raw("s", "c").ok().unwrap(), "3");
    assert_eq!(cp.options("s").ok().unwrap().len(), 2);
}

#[test]
fn continued_option_value() {
    let cp = ConfigParser::from_str(
        "[default]\ngreeting : Hello, and welcome to \\\n           my new application, version \\\n           %(appver)s\nappver = 0.1.0\n",
        &[],
    );
    assert_eq!(
        cp.get("default", "greeting").ok().unwrap(),
        "Hello, and welcome to my new application, version 0.1.0"
    );
}

#[test]
fn store_that_reads_back_round_trips() {
    let cp = ConfigParser::from_str(
        "[b]\nx = 1\ny: two words\nflag\n[a]\nuri = http://%(host)s/\n[empty]\n",
        &[("host", "h")],
    );
    assert!(cp.reads_back());
    let again = ConfigParser::from_str(cp.to_string().ok().unwrap().as_str(), &[("host", "h")]);
    assert_eq!(again.sections(), cp.sections());
    assert_eq!(again.to_string().ok().unwrap(), cp.to_string().ok().unwrap());
    assert!(ConfigParser::new(&[]).reads_back());
}

#[test]
fn store_that_does_not_read_back() {
    let mut spaced = ConfigParser::new(&[]);
    spaced.set("two words", "k", "v");
    assert!(!spaced.reads_back());
    let mut unnamed = ConfigParser::new(&[]);
    unnamed.add_section("").ok().unwrap();
    assert!(!unnamed.reads_back());
    let mut padded = ConfigParser::new(&[]);
    padded.set("s", "k", " v");
    assert!(!padded.reads_back());
    let mut broken = ConfigParser::new(&[]);
    broken.set("s", "k", "a\nb");
    assert!(!broken.reads_back());
    let mut comment = ConfigParser::new(&[]);
    comment.set("s", "#k", "v");
    assert!(!comment.reads_back());
    let mut odd_key = ConfigParser::new(&[]);
    odd_key.set("s", "a-b", "v");
    assert!(!odd_key.reads_back());
}

#[test]
fn value_ending_in_backslash_joins_the_next_line() {
    let cp = ConfigParser::from_str("[s]\nk = a\\ \nl = b\n", &[]);
    assert_eq!(cp.get_raw("s", "k").ok().unwrap(), "a\\");
    assert!(!cp.reads_back());
    let text = cp.to_string().ok().unwrap();
    assert_eq!(text, "[s]\nk : a\\\nl : b\n\n");
    let again = ConfigParser::from_str(text.as_str(), &[]);
    assert_eq!(again.get_raw("s", "k").ok().unwrap(), "al : b");
    assert!(!again.has_option("s", "l").ok().unwrap());
}

#[test]
fn values_as_truth() {
    for v in ["true", "yes", "on", "1", "", "TRUE", "On", "yEs"].iter() {
        assert_eq!(truth_value(v), Some(true));
    }
    for v in ["false", "no", "off", "0", "FALSE", "Off", "nO"].iter() {
        assert_eq!(truth_value(v), Some(false));
    }
    for v in ["2", "y", "n", " true", "true ", "t", "\u{130}"].iter() {
        assert_eq!(truth_value(v), None);
    }
}

#[test]
fn values_as_numbers() {
    assert_eq!(uint_value(""), Some(1));
    assert_eq!(uint_value("123456"), Some(123456));
    assert_eq!(uint_value("-1234"), None);
    assert_eq!(uint_value("12E+99"), None);
    assert_eq!(int_value(""), Some(1));
    assert_eq!(int_value("123456"), Some(123456));
    assert_eq!(int_value("-1234"), Some(-1234));
    assert_eq!(int_value("12E+99"), None);
    assert_eq!(float_text("".to_string()), "1.0");
    assert_eq!(float_text("12E+99".to_string()), "12E+99");
    assert_eq!(float_text("1.0".parse::<f64>().unwrap().to_string()), "1");
}

#[test]
fn opening_a_section_keeps_what_it_holds() {
    let mut cp = ConfigParser::new(&[]);
    open_section(&mut cp, "s");
    assert!(cp.has_section("s"));
    cp.set("s", "k", "v");
    open_section(&mut cp, "s");
    assert_eq!(cp.get_raw("s", "k").ok().unwrap(), "v");
    assert_eq!(cp.sections(), vec!["s"]);
}

#[test]
fn setting_in_the_open_section() {
    let mut cp = ConfigParser::new(&[]);
    assert!(!set_open(&mut cp, "", "k", "v"));
    assert!(!set_open(&mut cp, "s", "k", "v"));
    assert!(cp.sections().is_empty());
    open_section(&mut cp, "s");
    assert!(set_open(&mut cp, "s", "k", "v"));
    assert!(set_open(&mut cp, "s", "k", "w"));
    assert!(!set_open(&mut cp, "t", "k", "x"));
    assert_eq!(cp.get_raw("s", "k").ok().unwrap(), "w");
    assert_eq!(cp.sections(), vec!["s"]);
}

#[test]
fn one_placeholder_at_a_time() {
    let cp = ConfigParser::from_str("[s]\nfrob : Option\n", &[("d", "dv")]);
    let v = InterpString::new("My %(frob)s %(frob)s");
    let res = "My %(frob)s %(frob)s".to_string();
    let mut expanded: Vec<String> = Vec::new();
    assert_eq!(
        v.expand_one("frob", "%(frob)s", &res, "s", "foo", &cp, &mut expanded).ok().unwrap(),
        "My Option Option"
    );
    assert_eq!(expanded, vec!["frob"]);
    assert_eq!(
        v.expand_one("frob", "%(frob)s", &res, "s", "foo", &cp, &mut expanded)
            .err()
            .unwrap()
            .kind(),
        FetchErrorKind::InterpolationCircularity
    );
    assert_eq!(expanded, vec!["frob"]);
    assert_eq!(
        v.expand_one("foo", "%(foo)s", &res, "s", "foo", &cp, &mut expanded).err().unwrap().kind(),
        FetchErrorKind::InterpolationCircularity
    );
    assert_eq!(
        v.expand_one("d", "My", &res, "s", "foo", &cp, &mut expanded).ok().unwrap(),
        "dv %(frob)s %(frob)s"
    );
    assert_eq!(
        v.expand_one("none", "My", &res, "s", "foo", &cp, &mut expanded).err().unwrap().kind(),
        FetchErrorKind::InterpolationError
    );
    assert_eq!(expanded, vec!["frob", "d", "none"]);
}
