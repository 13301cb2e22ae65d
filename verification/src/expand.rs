//! Paths that begin with `~` or `~user`: which home directory they ask
//! for, and what they become once that directory is known.

use vstd::prelude::*;
use vstd::string::StringExecFns;
use crate::pattern::{captures, captures_of, compile, group, groups_view, HOME_PATTERN};
use crate::text::{chars_of, push_all, string_of};

verus! {

/// A more rusty representation of the pwd structure
pub struct Pwd {
    /// name of user in passwd db
    pub pw_name: String,
    /// encoded passwd (probably `*` because of shadow db)
    pub pw_passwd: String,
    /// user ID
    pub pw_uid: usize,
    /// primary group ID
    pub pw_gid: usize,
    /// Gecos/Full Name field
    pub pw_gecos: String,
    /// home directory
    pub pw_dir: String,
    /// account shell
    pub pw_shell: String,
}

/// The ways in which a path cannot be expanded.
#[derive(Debug, Clone, Copy, PartialEq, Eq, Structural)]
pub enum ExpandErrorKind {
    /// The path is empty
    EmptyPath,
    /// The match holds no user name
    NoUserCapture,
    /// The match holds no remainder
    NoPathCapture,
}

/// Why a path could not be expanded.
#[derive(Debug, Clone, Copy, PartialEq, Eq, Structural)]
pub struct ExpandError {
    pub kind: ExpandErrorKind,
}

/// The user name and the remainder that a match of the home pattern holds.
pub open spec fn captured_home(groups: Seq<Option<Seq<char>>>) -> Result<
    (Seq<char>, Seq<char>),
    ExpandErrorKind,
> {
    match group(groups, 1) {
        Some(user) => match group(groups, 2) {
            Some(rest) => Ok((user, rest)),
            None => Err(ExpandErrorKind::NoPathCapture),
        },
        None => Err(ExpandErrorKind::NoUserCapture),
    }
}

/// What the path `p` asks for: nothing, or the home directory of a user
/// (of the current user where the name is empty) and a remainder below it.
pub open spec fn home_request(p: Seq<char>) -> Result<
    Option<(Seq<char>, Seq<char>)>,
    ExpandErrorKind,
> {
    if p.len() == 0 {
        Err(ExpandErrorKind::EmptyPath)
    } else {
        match captures_of(HOME_PATTERN@, p) {
            Some(groups) => match captured_home(groups) {
                Ok(found) => Ok(Some(found)),
                Err(k) => Err(k),
            },
            None => Ok(None),
        }
    }
}

/// `rest` below the directory `base`: an absolute `rest` stands for
/// itself, and a `/` goes between the two where `base` does not end in one.
pub open spec fn join_path(base: Seq<char>, rest: Seq<char>) -> Seq<char> {
    if rest.len() > 0 && rest[0] == '/' {
        rest
    } else if base.len() == 0 || base.last() == '/' {
        base + rest
    } else {
        base + seq!['/'] + rest
    }
}

/// What the path `p` becomes, `home` being the home directory that it
/// asks for.
pub open spec fn expanded_path(p: Seq<char>, home: Seq<char>) -> Result<Seq<char>, ExpandErrorKind> {
    match home_request(p) {
        Ok(Some((_, rest))) => Ok(join_path(home, rest)),
        Ok(None) => Ok(p),
        Err(k) => Err(k),
    }
}

/// What a request holds, as plain text.
pub open spec fn request_view(r: Result<Option<(String, String)>, ExpandError>) -> Result<
    Option<(Seq<char>, Seq<char>)>,
    ExpandErrorKind,
> {
    match r {
        Ok(Some((user, rest))) => Ok(Some((user@, rest@))),
        Ok(None) => Ok(None),
        Err(e) => Err(e.kind),
    }
}

///
/// Returns the home directory of a user from the user's entry in the
/// password database, or `'/'` if the entry could not be had.
///
pub fn get_homedir(entry: Option<Pwd>) -> (home: String)
    ensures
        home@ == match entry {
            Some(pwd) => pwd.pw_dir@,
            None => "/"@,
        },
{
    match entry {
        Some(pwd) => pwd.pw_dir,
        None => String::from_str("/"),
    }
}

/// The user name and the remainder out of a match of the home pattern.
pub fn get_captured_home(groups: &Vec<Option<String>>) -> (r: Result<(String, String), ExpandError>)
    ensures
        match r {
            Ok((user, rest)) => captured_home(groups_view(groups@)) == Ok::<
                (Seq<char>, Seq<char>),
                ExpandErrorKind,
            >((user@, rest@)),
            Err(e) => captured_home(groups_view(groups@)) == Err::<
                (Seq<char>, Seq<char>),
                ExpandErrorKind,
            >(e.kind),
        },
{
    if groups.len() > 1 {
        match &groups[1] {
            Some(user) => {
                if groups.len() > 2 {
                    match &groups[2] {
                        Some(rest) => {
                            return Ok((user.clone(), rest.clone()));
                        },
                        None => {},
                    }
                }
                return Err(ExpandError { kind: ExpandErrorKind::NoPathCapture });
            },
            None => {},
        }
    }
    Err(ExpandError { kind: ExpandErrorKind::NoUserCapture })
}

/// Which home directory the path `p` asks for: `None` where it does not
/// begin with `~`, else the user name, empty for the current user, and the
/// remainder of the path.
pub fn home_request_of(p: &str) -> (r: Result<Option<(String, String)>, ExpandError>)
    ensures
        request_view(r) == home_request(p@),
{
    if p.is_empty() {
        return Err(ExpandError { kind: ExpandErrorKind::EmptyPath });
    }
    let u_re = compile(HOME_PATTERN);
    match captures(&u_re, p) {
        Some(groups) => match get_captured_home(&groups) {
            Ok(found) => Ok(Some(found)),
            Err(e) => Err(e),
        },
        None => Ok(None),
    }
}

/// `rest` below the directory `base`.
pub fn join(base: &str, rest: &str) -> (r: String)
    ensures
        r@ == join_path(base@, rest@),
{
    let b = chars_of(base);
    let t = chars_of(rest);
    if t.len() > 0 && t[0] == '/' {
        return String::from_str(rest);
    }
    let mut out: Vec<char> = Vec::new();
    push_all(&mut out, &b);
    if b.len() > 0 && b[b.len() - 1] != '/' {
        out.push('/');
    }
    push_all(&mut out, &t);
    string_of(&out)
}

/// Equivalent to python os.expanduser(), to expand a path of
/// the form `~<username>/path/to/file` into the full absolute
/// file system path, `home` being the home directory of the user that
/// the path names. A path that does not begin with `~` stays as it is.
pub fn expand_homedir(p: &str, home: &str) -> (r: Result<String, ExpandError>)
    ensures
        match r {
            Ok(path) => expanded_path(p@, home@) == Ok::<Seq<char>, ExpandErrorKind>(path@),
            Err(e) => expanded_path(p@, home@) == Err::<Seq<char>, ExpandErrorKind>(e.kind),
        },
{
    match home_request_of(p) {
        Ok(Some((_, rest))) => Ok(join(home, rest.as_str())),
        Ok(None) => Ok(String::from_str(p)),
        Err(e) => Err(e),
    }
}

} // verus!
