//! The rewindable character source and the allow-list check for inclusion.
//!
//! A `CharSource` owns one in-memory document: a character buffer, a read
//! cursor, an unbounded pushback stack, and line tracking.  Its one model is
//! `remaining()`, the characters still to be read (pushback first), with the
//! invariant that the line number reflects the line of the next character
//! that a forward read would return.

use vstd::prelude::*;
use crate::chars::{chars_eq, str_to_chars};
use crate::config::Options;

verus! {

/// `line + 1`, stopping at the greatest `usize` instead of overflowing.
pub open spec fn spec_line_inc(l: usize) -> usize {
    if l == usize::MAX {
        l
    } else {
        (l + 1) as usize
    }
}

/// `line - 1`, stopping at zero instead of underflowing.
pub open spec fn spec_line_dec(l: usize) -> usize {
    if l == 0 {
        0
    } else {
        (l - 1) as usize
    }
}

/// A buffered character source that supports pushback and line tracking.
pub struct CharSource {
    buffer: Vec<char>,
    pos: usize,
    pushback: Vec<char>,
    line: usize,
    at_line_start: bool,
}

impl CharSource {
    /// The characters still to be read, pushback first.
    pub closed spec fn remaining(self) -> Seq<char> {
        self.pushback@.reverse() + (if self.pos <= self.buffer.len() {
            self.buffer@.skip(self.pos as int)
        } else {
            Seq::empty()
        })
    }

    /// The line number of the next character a forward read would return.
    pub closed spec fn spec_line(self) -> usize {
        self.line
    }

    pub closed spec fn spec_at_line_start(self) -> bool {
        self.at_line_start
    }

    pub fn new(content: String) -> (r: CharSource)
        ensures
            r.remaining() == content@,
            r.spec_line() == 1,
            r.spec_at_line_start(),
    {
        CharSource::from_chars(str_to_chars(content.as_str()))
    }

    /// As `new`, from an already-split character vector.
    pub fn from_chars(buffer: Vec<char>) -> (r: CharSource)
        ensures
            r.remaining() == buffer@,
            r.spec_line() == 1,
            r.spec_at_line_start(),
    {
        let ghost b = buffer@;
        let r = CharSource { buffer, pos: 0, pushback: Vec::new(), line: 1, at_line_start: true };
        proof {
            assert(r.remaining() =~= b);
        }
        r
    }

    /// The line number of the next character to be read.
    pub fn line(&self) -> (r: usize)
        ensures
            r == self.spec_line(),
    {
        self.line
    }

    /// Whether the next character to be read starts a line.
    pub fn at_line_start(&self) -> (r: bool)
        ensures
            r == self.spec_at_line_start(),
    {
        self.at_line_start
    }

    /// Returns the next character without consuming it.
    pub fn peek(&self) -> (r: Option<char>)
        ensures
            self.remaining().len() == 0 ==> r is None,
            self.remaining().len() > 0 ==> r == Some(self.remaining()[0]),
    {
        if self.pushback.len() > 0 {
            Some(self.pushback[self.pushback.len() - 1])
        } else if self.pos < self.buffer.len() {
            Some(self.buffer[self.pos])
        } else {
            None
        }
    }

    /// Consumes and returns the next character, updating the line count and
    /// the start-of-line flag when it is a newline.
    pub fn next(&mut self) -> (r: Option<char>)
        ensures
            old(self).remaining().len() == 0 ==> r is None && *final(self) == *old(self),
            old(self).remaining().len() > 0 ==> {
                let c = old(self).remaining()[0];
                &&& r == Some(c)
                &&& final(self).remaining() == old(self).remaining().skip(1)
                &&& final(self).spec_line() == (if c == '\n' {
                    spec_line_inc(old(self).spec_line())
                } else {
                    old(self).spec_line()
                })
                &&& final(self).spec_at_line_start() == (c == '\n')
            },
    {
        let ghost pre = *self;
        let c: char;
        if self.pushback.len() > 0 {
            let x = self.pushback.pop().unwrap();
            c = x;
            proof {
                assert(self.remaining() =~= pre.remaining().skip(1));
            }
        } else if self.pos < self.buffer.len() {
            c = self.buffer[self.pos];
            self.pos = self.pos + 1;
            proof {
                assert(self.remaining() =~= pre.remaining().skip(1));
            }
        } else {
            proof {
                assert(pre.remaining().len() == 0);
            }
            return None;
        }
        if c == '\n' {
            if self.line < usize::MAX {
                self.line = self.line + 1;
            }
            self.at_line_start = true;
        } else {
            self.at_line_start = false;
        }
        Some(c)
    }

    /// Pushes a character back for re-reading; pushing back a newline
    /// reverses the line accounting of `next`.
    pub fn unget(&mut self, c: char)
        ensures
            final(self).remaining() == seq![c] + old(self).remaining(),
            final(self).spec_line() == (if c == '\n' {
                spec_line_dec(old(self).spec_line())
            } else {
                old(self).spec_line()
            }),
            final(self).spec_at_line_start() == (if c == '\n' {
                false
            } else {
                old(self).spec_at_line_start()
            }),
    {
        let ghost pre = *self;
        if c == '\n' {
            if self.line > 0 {
                self.line = self.line - 1;
            }
            self.at_line_start = false;
        }
        self.pushback.push(c);
        proof {
            assert(self.remaining() =~= seq![c] + pre.remaining());
        }
    }

    /// True when no character is left to read.
    pub fn is_eof(&self) -> (r: bool)
        ensures
            r == (self.remaining().len() == 0),
    {
        self.pushback.len() == 0 && self.pos >= self.buffer.len()
    }

    /// Up to `n` characters of lookahead, in reading order, without
    /// consuming anything.
    pub fn peek_ahead(&self, n: usize) -> (r: Vec<char>)
        ensures
            r@ == (if n as int <= self.remaining().len() {
                self.remaining().take(n as int)
            } else {
                self.remaining()
            }),
    {
        let mut out: Vec<char> = Vec::new();
        let mut i: usize = self.pushback.len();
        while i > 0 && out.len() < n
            invariant
                i <= self.pushback.len(),
                out.len() == self.pushback.len() - i,
                out.len() <= n,
                out.len() <= self.remaining().len(),
                out@ == self.remaining().take(out.len() as int),
            decreases i,
        {
            i = i - 1;
            let ghost k = out.len() as int;
            out.push(self.pushback[i]);
            proof {
                assert(self.remaining()[k] == self.pushback@.reverse()[k]);
                assert(out@ =~= self.remaining().take(k + 1));
            }
        }
        let mut j: usize = self.pos;
        while j < self.buffer.len() && out.len() < n
            invariant
                self.pos <= j,
                j <= self.buffer.len() || j == self.pos,
                out.len() <= n,
                out.len() < n ==> out.len() == self.pushback.len() + j - self.pos,
                out.len() <= self.remaining().len(),
                out@ == self.remaining().take(out.len() as int),
            decreases self.buffer.len() - j,
        {
            let ghost k = out.len() as int;
            out.push(self.buffer[j]);
            proof {
                assert(self.remaining()[k] == self.buffer@[j as int]);
                assert(out@ =~= self.remaining().take(k + 1));
            }
            j = j + 1;
        }
        proof {
            if (out.len() as int) < n as int {
                assert(out.len() == self.remaining().len());
                assert(out@ =~= self.remaining());
            }
        }
        out
    }
}

/// Index of the last occurrence of `c` in `s`, or `-1` when absent.
pub open spec fn last_index(s: Seq<char>, c: char) -> int
    decreases s.len(),
{
    if s.len() == 0 {
        -1
    } else if s[s.len() - 1] == c {
        s.len() - 1
    } else {
        last_index(s.take(s.len() - 1), c)
    }
}

pub proof fn lemma_last_index(s: Seq<char>, c: char)
    ensures
        -1 <= last_index(s, c) < s.len(),
        last_index(s, c) >= 0 ==> s[last_index(s, c)] == c,
        forall|j: int| last_index(s, c) < j < s.len() ==> s[j] != c,
    decreases s.len(),
{
    if s.len() > 0 && s[s.len() - 1] != c {
        lemma_last_index(s.take(s.len() - 1), c);
        assert forall|j: int| last_index(s, c) < j < s.len() implies s[j] != c by {
            if j < s.len() - 1 {
                assert(s.take(s.len() - 1)[j] == s[j]);
            }
        }
    }
}

/// The part of `s` after its last slash (the whole of `s` when there is
/// none).
pub open spec fn after_last_slash(s: Seq<char>) -> Seq<char> {
    s.skip(last_index(s, '/') + 1)
}

/// The base name of a path: the part after the last slash with a trailing
/// extension removed.  When that part is empty or is one of the two
/// relative-directory names, the whole input stands for itself.
pub open spec fn spec_file_stem(s: Seq<char>) -> Seq<char> {
    let t = after_last_slash(s);
    if t.len() == 0 || t == seq!['.'] || t == seq!['.', '.'] {
        s
    } else {
        let d = last_index(t, '.');
        if d > 0 {
            t.take(d)
        } else {
            t
        }
    }
}

/// True when the allow list is empty or contains the base name of `file`.
pub open spec fn spec_in_include_list(file: Seq<char>, opts: Options) -> bool {
    opts.include_list.deep_view().len() == 0 || opts.include_list.deep_view().contains(
        spec_file_stem(file),
    )
}

/// Copies `v[from..to]` into a fresh vector.
pub fn vec_slice(v: &Vec<char>, from: usize, to: usize) -> (r: Vec<char>)
    requires
        from <= to <= v@.len(),
    ensures
        r@ == v@.subrange(from as int, to as int),
{
    let mut r: Vec<char> = Vec::new();
    let mut i: usize = from;
    while i < to
        invariant
            from <= i <= to <= v@.len(),
            r@ == v@.subrange(from as int, i as int),
        decreases to - i,
    {
        r.push(v[i]);
        proof {
            assert(r@ =~= v@.subrange(from as int, i as int + 1));
        }
        i = i + 1;
    }
    proof {
        assert(r@ =~= v@.subrange(from as int, to as int));
    }
    r
}

/// Index just past the last occurrence of `c` in `v`, or 0 when absent:
/// `last_index(v@, c) + 1`.
pub fn scan_last_pub(v: &Vec<char>, c: char) -> (r: usize)
    ensures
        r as int == last_index(v@, c) + 1,
        r <= v@.len(),
{
    let mut i: usize = v.len();
    while i > 0
        invariant
            i <= v.len(),
            forall|j: int| i <= j < v@.len() ==> v@[j] != c,
        decreases i,
    {
        if v[i - 1] == c {
            proof {
                lemma_last_index(v@, c);
                assert(v@[i - 1] == c);
                if last_index(v@, c) > i - 1 {
                    assert(v@[last_index(v@, c)] != c);
                }
                if last_index(v@, c) < i - 1 {
                    assert(v@[i - 1] != c);
                }
            }
            return i;
        }
        i = i - 1;
    }
    proof {
        lemma_last_index(v@, c);
        if last_index(v@, c) >= 0 {
            assert(v@[last_index(v@, c)] != c);
        }
    }
    0
}

/// The base name of `v` as a fresh vector: `spec_file_stem(v@)`.
pub fn file_stem(v: &Vec<char>) -> (r: Vec<char>)
    ensures
        r@ == spec_file_stem(v@),
{
    let start = scan_last_pub(v, '/');
    let t = vec_slice(v, start, v.len());
    proof {
        assert(t@ =~= after_last_slash(v@));
    }
    if t.len() == 0 {
        return vec_slice(v, 0, v.len());
    }
    if t.len() == 1 && t[0] == '.' {
        proof {
            assert(t@ =~= seq!['.']);
        }
        return vec_slice(v, 0, v.len());
    }
    if t.len() == 2 && t[0] == '.' && t[1] == '.' {
        proof {
            assert(t@ =~= seq!['.', '.']);
        }
        return vec_slice(v, 0, v.len());
    }
    proof {
        assert(t@ != seq!['.'] && t@ != seq!['.', '.']) by {
            if t@.len() == 1 && t@ == seq!['.'] {
                assert(t@[0] == '.');
            }
            if t@.len() == 2 && t@ == seq!['.', '.'] {
                assert(t@[0] == '.' && t@[1] == '.');
            }
        }
        assert(v@.subrange(0, v@.len() as int) =~= v@);
    }
    let d = scan_last_pub(&t, '.');
    if d > 1 {
        vec_slice(&t, 0, d - 1)
    } else {
        vec_slice(&t, 0, t.len())
    }
}

/// Membership of `name` in a list of names, compared by characters.
pub fn name_list_contains(list: &Vec<Vec<char>>, name: &Vec<char>) -> (r: bool)
    ensures
        r == list.deep_view().contains(name@),
{
    let mut i: usize = 0;
    while i < list.len()
        invariant
            i <= list.len(),
            forall|j: int| 0 <= j < i ==> list.deep_view()[j] != name@,
        decreases list.len() - i,
    {
        if chars_eq(&list[i], name) {
            proof {
                assert(list.deep_view()[i as int] == name@);
            }
            return true;
        }
        proof {
            assert(list.deep_view()[i as int] == list@[i as int]@);
        }
        i = i + 1;
    }
    false
}

/// Checks whether a file is in the include-only allow list.  An empty list
/// allows every file.
pub fn in_include_list(filename: &str, opts: &Options) -> (r: bool)
    ensures
        r == spec_in_include_list(filename@, *opts),
{
    let name = str_to_chars(filename);
    in_include_list_chars(&name, opts)
}

/// As `in_include_list`, over an already-split character vector.
pub fn in_include_list_chars(filename: &Vec<char>, opts: &Options) -> (r: bool)
    ensures
        r == spec_in_include_list(filename@, *opts),
{
    if opts.include_list.len() == 0 {
        return true;
    }
    let base = file_stem(filename);
    name_list_contains(&opts.include_list, &base)
}

} // verus!
