use conparse::conparse::{ConfigParser, InterpString};
use conparse::error::FetchErrorKind;
use conparse::reader::{ContinuationReader, MemReader, ReadErrorKind};
use std::str::from_utf8;

fn sorted_options(cp: &ConfigParser, section: &str) -> Vec<(String, String)> {
    let mut opts: Vec<(String, InterpString)> = cp.options(section).unwrap();
    opts.sort_by(|(k1, _), (k2, _)| k1.cmp(k2));
    opts.iter().map(|(k, v)| (k.clone(), v.get_raw())).collect()
}

fn getfloat(cp: &ConfigParser, section: &str, option: &str) -> Result<f64, FetchErrorKind> {
    match cp.getfloat_text(section, option) {
        Err(e) => Err(e.kind()),
        Ok(v) => match v.parse::<f64>() {
            Ok(f) => Ok(f),
            Err(_) => Err(FetchErrorKind::InvalidLiteral),
        },
    }
}

#[test]
fn check_default() {
    let rp = ConfigParser::new(&[("t1", "v1"), ("t2", "v2")]);
    let defaults = rp.defaults();
    assert!(defaults.iter().any(|(k, _)| k == "t1"));
    assert_eq!(
        defaults.iter().find(|(k, _)| k == "t1").unwrap().1.as_str(),
        "v1"
    );
    assert_eq!(defaults.len(), 2)
}

#[test]
fn set_option() {
    let mut rp = ConfigParser::new(&[("t1", "v1"), ("t2", "v2")]);
    rp.set("global", "t1", "sv1");
    assert_eq!(rp.get("global", "t1").ok().unwrap(), "sv1");
    assert_eq!(rp.get("global", "t2").ok().unwrap(), "v2");
    let mut r = rp.get("no-section", "t3");
    assert!(r.is_err() && r.err().unwrap().kind() == FetchErrorKind::NoSuchSection);
    r = rp.get("global", "t3");
    assert!(r.is_err() && r.err().unwrap().kind() == FetchErrorKind::NoSuchOption);
}

#[test]
fn read_strings() {
    let tinput = "One \\\n\\\n     Two\n\n#comment \nThree\nFour";
    let mut v = MemReader::new(tinput);
    assert!(!v.eof());
    let br = v.read_continued_line();
    assert_eq!(br.unwrap().as_str().trim(), "One Two");
    let br = v.read_continued_line();
    assert_eq!(br.unwrap().as_str().trim(), "");
    let br = v.read_continued_line();
    assert_eq!(br.unwrap().as_str().trim(), "Three");
    let br = v.read_continued_line();
    assert_eq!(br.unwrap().as_str().trim(), "Four");
    let br = v.read_continued_line();
    assert_eq!(br.err().unwrap().kind, ReadErrorKind::EndOfFile);
}

#[test]
fn read_iterated_strings() {
    let cp = ConfigParser::from_strs(
        &["foo = quux\n  [sec1] \nfoo =  bar", "[sec2]\nfoo : wibble"],
        &[],
    );
    assert!(cp.has_section("sec1"));
    assert!(cp.has_section("sec2"));
    let ocs = cp.options("sec1");
    assert!(ocs.is_ok());
    let cs = ocs.unwrap();
    assert!(cs.iter().any(|(k, _)| k == "foo"));
    let ocv = cs.iter().find(|(k, _)| k == "foo");
    assert!(ocv.is_some());
    let cv = &ocv.unwrap().1;
    assert_eq!("bar", cv.get_raw().as_str());
    let ocv2 = cp.get("sec2", "foo");
    assert!(ocv2.is_ok());
    let cv2 = ocv2.unwrap();
    assert_eq!("wibble", cv2.as_str());
}

#[test]
fn read_sections() {
    let cp = ConfigParser::from_str(
        "foo = quux\n  [Zulu] \n\
                 foo =  bar\n  [ Alpha ] \nfoo : wibble",
        &[],
    );
    let mut ks: Vec<String> = cp.sections();
    ks.sort();

    assert_eq!(ks, vec!["Alpha", "Zulu"]);
}

#[test]
fn read_options() {
    let cp = ConfigParser::from_str(
        "foo = quux\n  \
             [Zulu] \n\
             foo =  bar\n\
             [ Alpha ] \n\
             foo : wibble\n\
             standalone\n\
             \n\
             bar = quux  ",
        &[],
    );
    let os = cp.options("NotHere");
    assert!(os.is_err() && os.err().unwrap().kind() == FetchErrorKind::NoSuchSection);
    let os2 = cp.options("Alpha");
    assert!(os2.is_ok());
    assert!(cp.has_option("Alpha", "standalone").unwrap());
    let mut opts: Vec<(String, InterpString)> = os2.unwrap();
    opts.sort_by(|(k1, _), (k2, _)| k1.cmp(k2));

    let ev = [("bar", "quux"), ("foo", "wibble"), ("standalone", "")];
    assert_eq!(opts.len(), ev.len());
    for ((k1, v1), &(k2, v2)) in opts.iter().zip(ev.iter()) {
        assert_eq!(k1.as_str(), k2);
        assert_eq!(v1.get_raw().as_str(), v2);
    }
}

#[test]
fn read_file() {
    let content = "foo = quux\n  [Zulu] \n\
             foo =  bar\n  [ Alpha ] \nfoo : wibble";
    let cp = ConfigParser::from_file(Some(content), &[]);
    assert_eq!(cp.sections(), vec!["Alpha", "Zulu"]);
    assert_eq!(cp.get("Zulu", "foo").unwrap(), "bar");
    assert_eq!(cp.get("Alpha", "foo").unwrap(), "wibble");
    let absent = ConfigParser::from_file(None, &[]);
    assert!(absent.sections().is_empty());
}

#[test]
fn test_write() {
    let cp = ConfigParser::from_str(
        "foo = quux\n  [Zulu] \nfoo =  bar\n\
                  a_quuxly = barly\n  [ Alpha ] ; alpha section\nfoo : wibble",
        &[],
    );

    let mut w = Vec::new();
    match cp.to_writer(&mut w) {
        Ok(_) => {
            let out = from_utf8(w.as_slice()).unwrap();
            assert_eq!(
                out,
                "[Alpha]\nfoo : wibble\n\n[Zulu]\na_quuxly : barly\nfoo : bar\n\n"
            )
        }
        Err(_) => assert!(false),
    }
}

#[test]
fn test_read_write_file() {
    let content = "foo = quux\n  [Zulu] \nfoo =  bar\n\
                  [ Alpha ] \nfoo : wibble\nquux : wibble2";
    let cp1 = ConfigParser::from_file(Some(content), &[]);
    assert_eq!(cp1.sections(), vec!["Alpha", "Zulu"]);
    let written = match cp1.to_string() {
        Ok(text) => text,
        Err(_) => {
            assert!(false);
            String::new()
        }
    };
    let cp2 = ConfigParser::from_file(Some(written.as_str()), &[]);
    assert!(!written.is_empty());
    // now validate that cp1 and cp2 are identical
    let mut sec1: Vec<String> = cp1.sections();
    let mut sec2: Vec<String> = cp2.sections();
    sec1.sort();
    sec2.sort();
    assert_eq!(sec1, sec2);
    for s in sec1.iter() {
        let o1 = sorted_options(&cp1, s.as_str());
        let o2 = sorted_options(&cp2, s.as_str());
        assert_eq!(o1, o2);
    }
}

#[test]
fn test_write_to_string() {
        let cp = ConfigParser::from_str("foo = quux\n  [Zulu] ; Zulu section\n \
                                         foo =  bar\n  [ Alpha ] \n`
                                         foo : wibble\n\nbar = quux  ", &[]);
        match cp.to_string() {
            Ok(s) => assert_eq!(s, "[Alpha]\nbar : quux\nfoo : wibble\n\n[Zulu]\nfoo : bar\n\n"),
            Err(_) => assert!(false)
        }
}

#[test]
fn test_null_interp() {
    let cp = ConfigParser::from_str(
        "foo = quux\n  [Zulu] \nfoo =  bar\n\
                a_quuxly = barly\n  [ Alpha ] ; alpha section\nfoo : wibble",
        &[],
    );

    match cp.get("Alpha", "foo") {
        Ok(v) => assert_eq!(v, "wibble"),
        Err(_) => assert!(false),
    }
    match cp.get("No-Such-Section", "foo") {
        Ok(_) => assert!(false),
        Err(e) => assert_eq!(e.kind(), FetchErrorKind::NoSuchSection),
    }
    match cp.get("Alpha", "No-Such-Option") {
        Ok(_) => assert!(false),
        Err(e) => assert_eq!(e.kind(), FetchErrorKind::NoSuchOption),
    }
}

#[test]
fn test_simple_interp() {
    let cp = ConfigParser::from_str(
        "[Section1]\nfoo =  My %(frob)s\nfrob : Option\n\
              double : %(frob)s %(frob)s\nquux : The %(bar)s",
        &[("bar", "wibble")],
    );
    match cp.get("Section1", "frob") {
        Ok(v) => assert_eq!(v, "Option"),
        Err(_) => assert!(false),
    }
    match cp.get("Section1", "foo") {
        Ok(v) => assert_eq!(v, "My Option"),
        Err(_) => assert!(false),
    }
    match cp.get("Section1", "double") {
        Ok(v) => assert_eq!(v, "Option Option"),
        Err(_) => assert!(false),
    }
    match cp.get("Section1", "quux") {
        Ok(v) => assert_eq!(v, "The wibble"),
        Err(_) => assert!(false),
    }
}

#[test]
fn test_bad_interp() {
    let cp = ConfigParser::from_str("[Section1]\nfoo =  My %(nofrob)s\nfrob : Option\n", &[]);
    match cp.get("Section1", "frob") {
        Ok(v) => assert_eq!(v, "Option"),
        Err(_) => assert!(false),
    }
    match cp.get("Section1", "foo") {
        Ok(_) => assert!(false),
        Err(e) => assert_eq!(e.kind(), FetchErrorKind::InterpolationError),
    }
}

#[test]
fn test_multi_level_interp() {
    let cp = ConfigParser::from_str(
        "[Section1]\nfoo =  My %(frob)s\n\
                       frob : Option\nquux : This is %(foo)s text\n",
        &[],
    );
    match cp.get("Section1", "frob") {
        Ok(v) => assert_eq!(v, "Option"),
        Err(_) => assert!(false),
    }
    match cp.get("Section1", "quux") {
        Ok(v) => assert_eq!(v, "This is My Option text"),
        Err(_) => assert!(false),
    }
}

#[test]
fn test_circular_interp() {
    let cp = ConfigParser::from_str("[Section1]\na : x%(b)sy\nb : x%(c)sy\nc: x%(a)sy\n", &[]);
    match cp.get("Section1", "c") {
        Ok(_) => assert!(false),
        Err(e) => assert_eq!(e.kind(), FetchErrorKind::InterpolationCircularity),
    }
}

#[test]
fn test_section_manipulation() {
    let mut cp = ConfigParser::new(&[]);

    assert!(cp.add_section("foo").is_ok());
    match cp.add_section("foo") {
        Ok(_) => assert!(false),
        Err(e) => assert_eq!(e.kind(), FetchErrorKind::DuplicateSection),
    }
    assert!(cp.has_section("foo"));
    assert!(cp.remove_section("foo").is_ok());
    assert!(!cp.has_section("foo"));
    match cp.remove_section("foo") {
        Ok(_) => assert!(false),
        Err(e) => assert_eq!(e.kind(), FetchErrorKind::NoSuchSection),
    }
}

#[test]
fn test_option_manipulation() {
    let mut cp = ConfigParser::new(&[]);
    assert!(cp.add_section("foo").is_ok());
    cp.set("foo", "bar", "quux");
    assert!(cp.has_option("foo", "bar").unwrap());
    assert!(!cp.has_option("foo", "wibble").unwrap());
    match cp.remove_option("foo", "bar") {
        Ok(_) => assert!(!cp.has_option("foo", "bar").unwrap()),
        Err(_) => assert!(false),
    }
    match cp.remove_option("foo", "bar") {
        Ok(_) => assert!(false),
        Err(e) => assert_eq!(e.kind(), FetchErrorKind::NoSuchOption),
    }
}

#[test]
fn test_num_parsing() {
    let cp = ConfigParser::from_str(
        "[global]\n\
             t1 : 123456\n\
             t2 : -1234\n\
             t3 : not-a-good-number\n\
             t4 : 12E+99\n\
             t5",
        &[],
    );

    // unsigned tests first
    match cp.getuint("global", "t1") {
        Ok(u) => assert_eq!(u, 123456),
        Err(_) => assert!(false),
    }
    match cp.getuint("global", "t2") {
        Ok(_) => assert!(false),
        Err(e) => assert_eq!(e.kind(), FetchErrorKind::InvalidLiteral),
    }
    match cp.getuint("global", "t3") {
        Ok(_) => assert!(false),
        Err(e) => assert_eq!(e.kind(), FetchErrorKind::InvalidLiteral),
    }
    match cp.getuint("global", "t4") {
        Ok(_) => assert!(false),
        Err(e) => assert_eq!(e.kind(), FetchErrorKind::InvalidLiteral),
    }
    match cp.getuint("global", "t5") {
        Ok(u) => assert_eq!(u, 1),
        Err(_) => assert!(false),
    }

    // now signed
    match cp.getint("global", "t1") {
        Ok(i) => assert_eq!(i, 123456),
        Err(_) => assert!(false),
    }
    match cp.getint("global", "t2") {
        Ok(i) => assert_eq!(i, -1234),
        Err(_) => assert!(false),
    }
    match cp.getint("global", "t3") {
        Ok(_) => assert!(false),
        Err(e) => assert_eq!(e.kind(), FetchErrorKind::InvalidLiteral),
    }
    match cp.getuint("global", "t4") {
        Ok(_) => assert!(false),
        Err(e) => assert_eq!(e.kind(), FetchErrorKind::InvalidLiteral),
    }
    match cp.getint("global", "t5") {
        Ok(i) => assert_eq!(i, 1),
        Err(_) => assert!(false),
    }

    // now float
    match getfloat(&cp, "global", "t1") {
        Ok(f) => assert_eq!(f, 123456.0),
        Err(_) => assert!(false),
    }
    match getfloat(&cp, "global", "t2") {
        Ok(f) => assert_eq!(f, -1234.0),
        Err(_) => assert!(false),
    }
    match getfloat(&cp, "global", "t3") {
        Ok(_) => assert!(false),
        Err(e) => assert_eq!(e, FetchErrorKind::InvalidLiteral),
    }
    match getfloat(&cp, "global", "t4") {
        Ok(f) => assert_eq!(f, 12E+99f64),
        Err(_) => assert!(false),
    }
    match getfloat(&cp, "global", "t5") {
        Ok(f) => assert_eq!(f, 1.0f64),
        Err(_) => assert!(false),
    }
}

#[test]
fn test_bool_parsing() {
    let cp = ConfigParser::from_str(
        "[global]\n\
             t1 : true\n\
             t2 : yes\n\
             t3 : false\n\
             t4 : no\n\
             t5 : 0\n\
             t6 : 1\n\
             t7\n",
        &[],
    );

    // check that we got all the options we thought we
    // should have
    for t in &["t1", "t2", "t3", "t4", "t5", "t6", "t7"] {
        match cp.has_option("global", t) {
            Ok(r) => assert!(r),
            _ => assert!(false),
        }
    }

    // true tests
    for t in &["t1", "t2", "t6", "t7"] {
        match cp.getboolean("global", t) {
            Ok(r) => assert!(r),
            _ => assert!(false),
        }
    }

    // false tests
    for t in &["t3", "t4", "t5"] {
        match cp.getboolean("global", t) {
            Ok(r) => assert!(!r),
            _ => assert!(false),
        }
    }
}
