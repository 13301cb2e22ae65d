//! Logical lines: physical lines joined across backslash continuations,
//! with comment lines left out.

use vstd::prelude::*;
use crate::text::{chars_of, push_range, skip_spaces, string_of, trim_start};

verus! {

/// The ways in which a source gives no line.
#[derive(Debug, Clone, Copy, PartialEq, Eq, Structural)]
pub enum ReadErrorKind {
    /// The source has no further line to give.
    EndOfFile,
    /// The source failed for a reason of its own.
    OtherIoError,
}

/// Why a source gave no line.
#[derive(Debug, Clone, Copy, PartialEq, Eq, Structural)]
pub struct ReadError {
    pub kind: ReadErrorKind,
}

/// The length of the first physical line of `s`: up to and including its
/// first newline, or all of `s` where it has none.
pub open spec fn line_len(s: Seq<char>) -> nat
    decreases s.len(),
{
    if s.len() == 0 {
        0
    } else if s[0] == '\n' {
        1
    } else {
        1 + line_len(s.skip(1))
    }
}

/// The first physical line is a part of the text, has no newline before
/// its end, and ends in one where text follows it.
pub proof fn lemma_line_len_bounds(s: Seq<char>)
    ensures
        line_len(s) <= s.len(),
        s.len() > 0 ==> line_len(s) >= 1,
        forall|i: int| 0 <= i < line_len(s) - 1 ==> s[i] != '\n',
        line_len(s) < s.len() ==> s[line_len(s) - 1] == '\n',
    decreases s.len(),
{
    if s.len() > 0 && s[0] != '\n' {
        lemma_line_len_bounds(s.skip(1));
        assert forall|i: int| 0 <= i < line_len(s) - 1 implies s[i] != '\n' by {
            if i > 0 {
                assert(s[i] == s.skip(1)[i - 1]);
            }
        }
    }
}

/// The first physical line of a text that goes on after a line's newline
/// is that line.
pub proof fn lemma_line_len_append(a: Seq<char>, b: Seq<char>)
    requires
        a.len() > 0,
        a[line_len(a) - 1] == '\n',
    ensures
        line_len(a + b) == line_len(a),
    decreases a.len(),
{
    lemma_line_len_bounds(a);
    if a[0] != '\n' {
        lemma_line_len_bounds(a.skip(1));
        assert((a + b).skip(1) == a.skip(1) + b);
        assert(a.skip(1)[line_len(a.skip(1)) - 1] == a[line_len(a) - 1]);
        lemma_line_len_append(a.skip(1), b);
    }
}

/// Whether the physical line `line` is a comment.
pub open spec fn is_comment(line: Seq<char>) -> bool {
    line.len() > 0 && (line[0] == '#' || line[0] == ';')
}

/// What a physical line contributes: all of `part`, or, while a continuation
/// is in progress, `part` without its leading whitespace.
pub open spec fn piece(part: Seq<char>, continuing: bool) -> Seq<char> {
    if continuing {
        trim_start(part)
    } else {
        part
    }
}

/// Reads physical lines off `s` until a logical line is complete, starting
/// with `acc` already gathered. Gives the logical line and the text left, or
/// `None` where the text ends first.
pub open spec fn assemble(s: Seq<char>, acc: Seq<char>, continuing: bool) -> Option<
    (Seq<char>, Seq<char>),
>
    decreases s.len(),
{
    if s.len() == 0 {
        None
    } else {
        proof {
            lemma_line_len_bounds(s);
        }
        let n = line_len(s) as int;
        let line = s.take(n);
        let rest = s.skip(n);
        if is_comment(line) {
            assemble(rest, acc, continuing)
        } else if line.last() != '\n' {
            if line.last() == '\\' {
                None
            } else {
                Some((acc + piece(line, continuing) + seq!['\n'], rest))
            }
        } else if n >= 2 && line[n - 2] == '\\' {
            assemble(rest, acc + piece(line.take(n - 2), continuing), true)
        } else {
            Some((acc + piece(line.take(n - 1), continuing) + seq!['\n'], rest))
        }
    }
}

/// A logical line, once read, leaves strictly less text.
pub proof fn lemma_assemble_shrinks(s: Seq<char>, acc: Seq<char>, continuing: bool)
    ensures
        assemble(s, acc, continuing) matches Some((line, rest)) ==> rest.len() < s.len(),
    decreases s.len(),
{
    if s.len() > 0 {
        lemma_line_len_bounds(s);
        let n = line_len(s) as int;
        let line = s.take(n);
        let rest = s.skip(n);
        if is_comment(line) {
            lemma_assemble_shrinks(rest, acc, continuing);
        } else if line.last() == '\n' && n >= 2 && line[n - 2] == '\\' {
            lemma_assemble_shrinks(rest, acc + piece(line.take(n - 2), continuing), true);
        }
    }
}

/// The logical lines of the text `s`, in order.
pub open spec fn logical_lines(s: Seq<char>) -> Seq<Seq<char>>
    decreases s.len(),
{
    match assemble(s, Seq::empty(), false) {
        None => Seq::empty(),
        Some((line, rest)) => {
            proof {
                lemma_assemble_shrinks(s, Seq::empty(), false);
            }
            seq![line] + logical_lines(rest)
        },
    }
}

/// A source of logical lines.
pub trait ContinuationReader {
    /// The logical lines that the source gives before it first fails.
    spec fn lines(&self) -> Seq<Seq<char>>;

    /// Reads the next logical line. It ends in exactly one newline.
    fn read_continued_line(&mut self) -> (r: Result<String, ReadError>)
        ensures
            match r {
                Ok(line) => {
                    &&& old(self).lines().len() > 0
                    &&& line@ == old(self).lines()[0]
                    &&& final(self).lines() == old(self).lines().skip(1)
                },
                Err(_) => old(self).lines().len() == 0,
            },
    ;
}

/// A source that reads from text held in memory.
pub struct MemReader {
    buf: Vec<char>,
    pos: usize,
}

impl MemReader {
    /// The text not read yet.
    pub closed spec fn remaining(&self) -> Seq<char> {
        if self.pos <= self.buf@.len() {
            self.buf@.skip(self.pos as int)
        } else {
            Seq::empty()
        }
    }

    /// A source that has all of `text` to read.
    pub fn new(text: &str) -> (r: MemReader)
        ensures
            r.remaining() == text@,
    {
        let buf = chars_of(text);
        assert(buf@.skip(0) == buf@);
        MemReader { buf, pos: 0 }
    }

    /// Whether all of the text has been read.
    pub fn eof(&self) -> (r: bool)
        ensures
            r == (self.remaining().len() == 0),
    {
        self.pos >= self.buf.len()
    }

    /// The index just after the physical line that starts at `pos`.
    fn line_end(&self) -> (end: usize)
        requires
            self.pos < self.buf.len(),
        ensures
            end - self.pos == line_len(self.remaining()),
            self.pos < end <= self.buf.len(),
    {
        let mut j: usize = self.pos;
        assert(self.buf@.skip(self.pos as int).skip(0) == self.buf@.skip(self.pos as int));
        while j < self.buf.len() && self.buf[j] != '\n'
            invariant
                self.pos <= j <= self.buf.len(),
                self.pos < self.buf.len(),
                line_len(self.remaining()) == (j - self.pos) + line_len(self.buf@.skip(j as int)),
            decreases self.buf.len() - j,
        {
            assert(self.buf@.skip(j as int).skip(1) == self.buf@.skip(j + 1));
            j += 1;
        }
        if j < self.buf.len() {
            j + 1
        } else {
            j
        }
    }
}

impl ContinuationReader for MemReader {
    open spec fn lines(&self) -> Seq<Seq<char>> {
        logical_lines(self.remaining())
    }

    fn read_continued_line(&mut self) -> (r: Result<String, ReadError>)
        ensures
            r matches Err(e) ==> e.kind == ReadErrorKind::EndOfFile,
            r is Err ==> final(self).remaining().len() == 0,
    {
        let mut acc: Vec<char> = Vec::new();
        let mut continuing = false;
        let ghost start_text = self.remaining();
        loop
            invariant_except_break
                start_text == old(self).remaining(),
                assemble(start_text, Seq::empty(), false) == assemble(
                    self.remaining(),
                    acc@,
                    continuing,
                ),
            ensures
                start_text == old(self).remaining(),
                assemble(start_text, Seq::empty(), false) == Some(
                    (acc@ + seq!['\n'], self.remaining()),
                ),
            decreases self.remaining().len(),
        {
            if self.pos >= self.buf.len() {
                return Err(ReadError { kind: ReadErrorKind::EndOfFile });
            }
            let ghost rem = self.remaining();
            let start = self.pos;
            let end = self.line_end();
            let ghost n = (end - start) as int;
            let ghost line = rem.take(n);
            proof {
                lemma_line_len_bounds(rem);
                assert(line == self.buf@.subrange(start as int, end as int));
                assert(rem.skip(n) == self.buf@.skip(end as int));
            }
            self.pos = end;
            let first = self.buf[start];
            assert(first == line[0] && self.buf@[end - 1] == line.last());
            if first == '#' || first == ';' {
                continue ;
            }
            let last = self.buf[end - 1];
            if last != '\n' {
                if last == '\\' {
                    return Err(ReadError { kind: ReadErrorKind::EndOfFile });
                }
                let from = if continuing {
                    skip_spaces(&self.buf, start, end)
                } else {
                    start
                };
                push_range(&mut acc, &self.buf, from, end);
                break ;
            }
            if end - start >= 2 && self.buf[end - 2] == '\\' {
                assert(line.take(n - 2) == self.buf@.subrange(start as int, end - 2));
                let from = if continuing {
                    skip_spaces(&self.buf, start, end - 2)
                } else {
                    start
                };
                push_range(&mut acc, &self.buf, from, end - 2);
                continuing = true;
            } else {
                assert(line.take(n - 1) == self.buf@.subrange(start as int, end - 1));
                let from = if continuing {
                    skip_spaces(&self.buf, start, end - 1)
                } else {
                    start
                };
                push_range(&mut acc, &self.buf, from, end - 1);
                break ;
            }
        }
        proof {
            lemma_assemble_shrinks(start_text, Seq::empty(), false);
        }
        acc.push('\n');
        Ok(string_of(&acc))
    }
}

} // verus!
