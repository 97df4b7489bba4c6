//! The lexer state machine that strips TeX/LaTeX markup.
//!
//! A `Detex` value owns the scanning state: the current lexer state, the
//! stack of open character sources, the output buffer, the diagnostics
//! produced so far, and the in-memory store of named documents against which
//! inclusion directives are resolved.

use vstd::prelude::*;
use crate::chars::{is_alpha, is_cmd_char, is_digit, is_ws, spec_is_alpha, spec_is_cmd_char,
    spec_is_digit, spec_is_ws, ws_run, cmd_run, alpha_run, digit_run, is_suffix,
    lemma_ws_run_bounds, lemma_cmd_run_bounds, lemma_alpha_run_bounds, lemma_digit_run_bounds,
    lemma_suffix_trans, lemma_suffix_refl, lemma_suffix_skip, str_to_chars, chars_eq};
use crate::config::{Options, MAX_FILE_STACK};
use crate::file_handler::{CharSource, in_include_list_chars, last_index, name_list_contains, spec_in_include_list, vec_slice};

verus! {

/// Lexer states.  Exactly one is active at a time; argument nesting is
/// tracked by counters, not by a stack of states.
#[derive(Clone, Copy, Debug, PartialEq, Eq, Structural)]
pub(crate) enum State {
    /// Plain text.
    Normal,
    /// Inside a definition, waiting for its opening brace.
    Define,
    /// Inside `$$...$$` display math.
    Display,
    /// Parsing the brace list of the include-only directive.
    IncludeOnly,
    /// Parsing the file name after an input directive.
    Input,
    /// Inside `$...$` inline math.
    Math,
    /// Resynchronising after an unknown control sequence.
    Control,
    /// Inside `\[...\]` display math.
    LaDisplay,
    /// Parsing the environment name of an end directive.
    LaEnd,
    /// Absorbing the content of an ignored environment.
    LaEnv,
    /// Inside `\(...\)` inline math.
    LaFormula,
    /// Parsing the file name of an include or subfile directive.
    LaInclude,
    /// Consuming brace-delimited arguments and discarding them.
    LaMacro,
    /// Inside an optional bracket argument while discarding arguments.
    LaOptArg,
    /// Consuming arguments but keeping the last one visible.
    LaMacro2,
    /// Inside an optional bracket argument of the keeping variant.
    LaOptArg2,
    /// Inside a verbatim environment, echoing every character.
    LaVerbatim,
    /// Parsing the file name of a graphics directive.
    LaPicture,
}

/// A named document in the in-memory store used to resolve inclusion.
pub struct FileRecord {
    pub name: Vec<char>,
    pub content: Vec<char>,
}

/// One open source on the inclusion stack.
pub(crate) struct FileContext {
    pub(crate) source: CharSource,
    pub(crate) name: Vec<char>,
}

/// A non-fatal condition reported while scanning.
#[derive(Debug, Clone)]
pub enum Diag {
    /// An inclusion directive named a file that the store does not hold.
    CantOpen { name: Vec<char> },
    /// An inclusion would have exceeded the maximum stack depth.
    StackOverflow { name: Vec<char> },
}

/// The ghost image of a diagnostic, over character sequences.
pub enum DiagView {
    CantOpen(Seq<char>),
    StackOverflow(Seq<char>),
}

impl Diag {
    pub open spec fn view(self) -> DiagView {
        match self {
            Diag::CantOpen { name } => DiagView::CantOpen(name@),
            Diag::StackOverflow { name } => DiagView::StackOverflow(name@),
        }
    }
}

/// The one fatal error: an unterminated verb construct, or a top-level file
/// that the store does not hold.
#[derive(Debug, Clone, Copy, PartialEq, Eq, Structural)]
pub enum DetexError {
    /// The named top-level file is not in the store.
    CantOpen,
    /// A verb construct ran into a newline or the end of the input.
    UnterminatedVerb,
}

/// First content in the store under `name`, searching in order.
pub open spec fn store_lookup(store: Seq<(Seq<char>, Seq<char>)>, name: Seq<char>) -> Option<
    Seq<char>,
>
    decreases store.len(),
{
    if store.len() == 0 {
        None
    } else if store[0].0 == name {
        Some(store[0].1)
    } else {
        store_lookup(store.skip(1), name)
    }
}

/// The main processor.
pub struct Detex {
    pub(crate) opts: Options,
    pub(crate) state: State,
    pub(crate) output: Vec<char>,
    pub(crate) diags: Vec<Diag>,
    pub(crate) files: Vec<FileRecord>,
    pub(crate) file_stack: Vec<FileContext>,
    pub(crate) current_ignored_env: Vec<char>,
    pub(crate) open_braces: usize,
    pub(crate) args_count: usize,
    pub(crate) current_braces_level: usize,
    pub(crate) footnote_level: Option<usize>,
    pub(crate) at_column_zero: bool,
}

impl Detex {
    /// The output produced so far.
    pub open(crate) spec fn output_seq(self) -> Seq<char> {
        self.output@
    }

    /// The diagnostics produced so far.
    pub open(crate) spec fn diags_seq(self) -> Seq<DiagView> {
        self.diags@.map_values(|d: Diag| d.view())
    }

    /// The current options (the LaTeX flag and the allow list evolve while
    /// scanning).
    pub open(crate) spec fn opts_spec(self) -> Options {
        self.opts
    }

    /// The document store as pairs of name and content.
    pub open(crate) spec fn store(self) -> Seq<(Seq<char>, Seq<char>)> {
        self.files@.map_values(|f: FileRecord| (f.name@, f.content@))
    }

    /// Depth of the inclusion stack.
    pub open(crate) spec fn stack_len(self) -> nat {
        self.file_stack@.len()
    }

    /// The characters still to be read from the active source.
    pub open(crate) spec fn top_rem(self) -> Seq<char> {
        if self.file_stack@.len() > 0 {
            self.file_stack@.last().source.remaining()
        } else {
            Seq::empty()
        }
    }

    /// Whether the machine is in the plain-text state.
    pub open(crate) spec fn in_normal(self) -> bool {
        self.state == State::Normal
    }

    /// The display name of the active source (empty without one).
    pub open(crate) spec fn top_name(self) -> Seq<char> {
        if self.file_stack@.len() > 0 {
            self.file_stack@.last().name@
        } else {
            Seq::empty()
        }
    }

    /// A scanner context with nothing in flight: no ignored environment,
    /// zeroed brace and argument counters, no open footnote, and the next
    /// emission at the start of an output line.
    pub open(crate) spec fn fresh_scanner(self) -> bool {
        &&& self.current_ignored_env@ == Seq::<char>::empty()
        &&& self.open_braces == 0
        &&& self.args_count == 0
        &&& self.current_braces_level == 0
        &&& self.footnote_level is None
        &&& self.at_column_zero
    }

    /// Frame shared by the read-ahead helpers: only the top source and the
    /// column flag may change; everything else, including every lower stack
    /// entry and the top entry's name, stays.
    pub(crate) open spec fn reads_frame(pre: Detex, post: Detex) -> bool {
        &&& post == Detex { file_stack: post.file_stack, at_column_zero: post.at_column_zero, ..pre }
        &&& post.file_stack@.len() == pre.file_stack@.len()
        &&& pre.file_stack@.len() > 0 ==> {
            &&& post.file_stack@ == pre.file_stack@.update(
                pre.file_stack@.len() - 1,
                post.file_stack@.last(),
            )
            &&& post.file_stack@.last().name == pre.file_stack@.last().name
        }
        &&& pre.file_stack@.len() == 0 ==> post.file_stack@ == pre.file_stack@
    }

    /// Like the read frame, but the step may also have appended output.
    pub(crate) open spec fn reads_frame_out(pre: Detex, post: Detex) -> bool {
        &&& (post == Detex {
            file_stack: post.file_stack,
            at_column_zero: post.at_column_zero,
            output: post.output,
            ..pre
        })
        &&& pre.output@.is_prefix_of(post.output@)
        &&& post.file_stack@.len() == pre.file_stack@.len()
        &&& pre.file_stack@.len() > 0 ==> {
            &&& post.file_stack@ == pre.file_stack@.update(
                pre.file_stack@.len() - 1,
                post.file_stack@.last(),
            )
            &&& post.file_stack@.last().name == pre.file_stack@.last().name
        }
        &&& pre.file_stack@.len() == 0 ==> post.file_stack@ == pre.file_stack@
    }

    /// The options evolve monotonically while scanning: fixed flags stay,
    /// the LaTeX flag may only be switched on, and the allow list only
    /// grows.
    pub open spec fn opts_evolve(pre: Options, post: Options) -> bool {
        &&& post.cite == pre.cite
        &&& post.no_follow == pre.no_follow
        &&& post.space == pre.space
        &&& post.force_tex == pre.force_tex
        &&& post.word == pre.word
        &&& post.src_loc == pre.src_loc
        &&& post.show_pictures == pre.show_pictures
        &&& post.replace == pre.replace
        &&& post.env_ignore == pre.env_ignore
        &&& post.input_paths == pre.input_paths
        &&& (pre.latex ==> post.latex)
        &&& pre.include_list@.is_prefix_of(post.include_list@)
    }

    /// Frame of one processing step: options evolve, the store stays, output
    /// and diagnostics only grow, the stack grows by at most one entry and
    /// lower entries stay.
    pub(crate) open spec fn step_frame(pre: Detex, post: Detex) -> bool {
        &&& Detex::opts_evolve(pre.opts, post.opts)
        &&& post.files == pre.files
        &&& pre.output@.is_prefix_of(post.output@)
        &&& pre.diags_seq().is_prefix_of(post.diags_seq())
        &&& pre.file_stack@.len() <= post.file_stack@.len()
        &&& pre.file_stack@.len() > 0 ==> post.file_stack@.take(pre.file_stack@.len() - 1)
            == pre.file_stack@.take(pre.file_stack@.len() - 1)
        &&& pre.file_stack@.len() > 0 ==> post.file_stack@[pre.file_stack@.len() - 1].name
            == pre.file_stack@.last().name
    }

    /// A fresh processor over the given options, with an empty output, an
    /// empty store and an empty stack.
    pub fn new(opts: Options) -> (r: Detex)
        ensures
            r.opts_spec() == opts,
            r.output_seq() == Seq::<char>::empty(),
            r.diags_seq() == Seq::<DiagView>::empty(),
            r.store() == Seq::<(Seq<char>, Seq<char>)>::empty(),
            r.stack_len() == 0,
            r.in_normal(),
            r.fresh_scanner(),
    {
        let r = Detex {
            opts,
            state: State::Normal,
            output: Vec::new(),
            diags: Vec::new(),
            files: Vec::new(),
            file_stack: Vec::new(),
            current_ignored_env: Vec::new(),
            open_braces: 0,
            args_count: 0,
            current_braces_level: 0,
            footnote_level: None,
            at_column_zero: true,
        };
        proof {
            assert(r.diags_seq() =~= Seq::<DiagView>::empty());
            assert(r.store() =~= Seq::<(Seq<char>, Seq<char>)>::empty());
        }
        r
    }

    /// Adds a named document to the store that inclusion directives are
    /// resolved against.
    pub fn add_file(&mut self, name: &str, content: &str)
        ensures
            (final(self).store() == old(self).store().push((name@, content@))),
            final(self).output_seq() == old(self).output_seq(),
            final(self).diags_seq() == old(self).diags_seq(),
            (final(self).opts_spec() == old(self).opts_spec()),
            final(self).stack_len() == old(self).stack_len(),
            final(self).top_rem() == old(self).top_rem(),
            final(self).in_normal() == old(self).in_normal(),
    {
        let record = FileRecord { name: str_to_chars(name), content: str_to_chars(content) };
        self.files.push(record);
        proof {
            assert(self.store() =~= old(self).store().push((name@, content@)));
        }
    }

    /// The output as characters.
    pub fn output(&self) -> (r: &Vec<char>)
        ensures
            r@ == self.output_seq(),
    {
        &self.output
    }

    /// The diagnostics produced so far.
    pub fn diagnostics(&self) -> (r: &Vec<Diag>)
        ensures
            r@.map_values(|d: Diag| d.view()) == self.diags_seq(),
    {
        &self.diags
    }

    /// The current options.
    pub fn options(&self) -> (r: &Options)
        ensures
            *r == self.opts_spec(),
    {
        &self.opts
    }
}

// ========== Small spec helpers ==========

/// The decimal digit `d` as a character.
pub open spec fn digit_char(d: int) -> char {
    if d == 0 { '0' }
    else if d == 1 { '1' }
    else if d == 2 { '2' }
    else if d == 3 { '3' }
    else if d == 4 { '4' }
    else if d == 5 { '5' }
    else if d == 6 { '6' }
    else if d == 7 { '7' }
    else if d == 8 { '8' }
    else { '9' }
}

/// The decimal representation of `n`, most significant digit first.
pub open spec fn dec_rep(n: int) -> Seq<char>
    decreases n,
{
    if n < 10 {
        seq![digit_char(n)]
    } else {
        dec_rep(n / 10).push(digit_char(n % 10))
    }
}

/// Appends the characters of `s` to `out`.
pub(crate) fn push_all(out: &mut Vec<char>, s: &Vec<char>)
    ensures
        final(out)@ == old(out)@ + s@,
{
    let mut i: usize = 0;
    while i < s.len()
        invariant
            i <= s@.len(),
            out@ == old(out)@ + s@.take(i as int),
        decreases s@.len() - i,
    {
        out.push(s[i]);
        proof {
            assert(out@ =~= old(out)@ + s@.take(i as int + 1));
        }
        i = i + 1;
    }
    proof {
        assert(old(out)@ + s@.take(s@.len() as int) =~= old(out)@ + s@);
    }
}

/// Appends the decimal representation of `n` to `out`.
pub(crate) fn push_dec(out: &mut Vec<char>, n: usize)
    ensures
        final(out)@ == old(out)@ + dec_rep(n as int),
    decreases n,
{
    if n < 10 {
        let d = digit_of(n);
        out.push(d);
        proof {
            assert(out@ =~= old(out)@ + dec_rep(n as int));
        }
    } else {
        proof {
            assert(n / 10 < n) by (nonlinear_arith)
                requires n >= 10;
        }
        push_dec(out, n / 10);
        let d = digit_of(n % 10);
        out.push(d);
        proof {
            assert(out@ =~= old(out)@ + dec_rep(n as int));
        }
    }
}

/// The character for a digit below ten.
pub(crate) fn digit_of(d: usize) -> (r: char)
    requires
        d < 10,
    ensures
        r == digit_char(d as int),
{
    if d == 0 { '0' }
    else if d == 1 { '1' }
    else if d == 2 { '2' }
    else if d == 3 { '3' }
    else if d == 4 { '4' }
    else if d == 5 { '5' }
    else if d == 6 { '6' }
    else if d == 7 { '7' }
    else if d == 8 { '8' }
    else { '9' }
}

impl Detex {
    // ========== Stack primitives ==========

    /// Spec: the display name of the active source.
    pub(crate) open spec fn spec_filename(self) -> Seq<char> {
        if self.file_stack@.len() > 0 {
            self.file_stack@.last().name@
        } else {
            seq!['<', 'u', 'n', 'k', 'n', 'o', 'w', 'n', '>']
        }
    }

    /// Spec: the line number of the active source.
    pub(crate) open spec fn spec_line(self) -> usize {
        if self.file_stack@.len() > 0 {
            self.file_stack@.last().source.spec_line()
        } else {
            1
        }
    }

    /// The display name of the active source, for diagnostic prefixes.
    pub(crate) fn current_filename(&self) -> (r: Vec<char>)
        ensures
            r@ == self.spec_filename(),
    {
        if self.file_stack.len() > 0 {
            let name = &self.file_stack[self.file_stack.len() - 1].name;
            proof {
                assert(name@ == self.file_stack@.last().name@);
            }
            vec_slice(name, 0, name.len())
        } else {
            let r = vec!['<', 'u', 'n', 'k', 'n', 'o', 'w', 'n', '>'];
            proof {
                assert(r@ =~= self.spec_filename());
            }
            r
        }
    }

    /// The line number of the active source.
    pub(crate) fn current_line(&self) -> (r: usize)
        ensures
            r == self.spec_line(),
    {
        if self.file_stack.len() > 0 {
            self.file_stack[self.file_stack.len() - 1].source.line()
        } else {
            1
        }
    }

    /// Consumes one character from the active source.
    pub(crate) fn next_char(&mut self) -> (r: Option<char>)
        ensures
            Detex::reads_frame(*old(self), *final(self)),
            final(self).at_column_zero == old(self).at_column_zero,
            old(self).top_rem().len() == 0 ==> r is None && final(self).top_rem()
                == old(self).top_rem(),
            old(self).top_rem().len() > 0 ==> r == Some(old(self).top_rem()[0])
                && final(self).top_rem() == old(self).top_rem().skip(1),
            (is_suffix(final(self).top_rem(), old(self).top_rem())),
    {
        proof {
            lemma_suffix_refl(self.top_rem());
            if self.top_rem().len() > 0 {
                lemma_suffix_skip(self.top_rem(), 1);
            }
        }
        let n = self.file_stack.len();
        if n == 0 {
            proof {
                assert(Detex::reads_frame(*old(self), *self));
            }
            return None;
        }
        let mut ctx = self.file_stack.pop().unwrap();
        let r = ctx.source.next();
        self.file_stack.push(ctx);
        proof {
            assert(self.file_stack@ =~= old(self).file_stack@.update(
                old(self).file_stack@.len() - 1,
                self.file_stack@.last(),
            ));
            assert(*self == Detex { file_stack: self.file_stack, ..*old(self) });
        }
        r
    }

    /// Looks at the next character of the active source.
    pub(crate) fn peek_char(&self) -> (r: Option<char>)
        ensures
            self.top_rem().len() == 0 ==> r is None,
            self.top_rem().len() > 0 ==> r == Some(self.top_rem()[0]),
    {
        if self.file_stack.len() > 0 {
            self.file_stack[self.file_stack.len() - 1].source.peek()
        } else {
            None
        }
    }

    /// Pushes a character back onto the active source.
    pub(crate) fn unget_char(&mut self, c: char)
        ensures
            Detex::reads_frame(*old(self), *final(self)),
            final(self).at_column_zero == old(self).at_column_zero,
            old(self).stack_len() > 0 ==> final(self).top_rem() == seq![c]
                + old(self).top_rem(),
            old(self).stack_len() == 0 ==> *final(self) == *old(self),
    {
        let n = self.file_stack.len();
        if n == 0 {
            return;
        }
        let mut ctx = self.file_stack.pop().unwrap();
        ctx.source.unget(c);
        self.file_stack.push(ctx);
        proof {
            assert(self.file_stack@ =~= old(self).file_stack@.update(
                old(self).file_stack@.len() - 1,
                self.file_stack@.last(),
            ));
            assert(*self == Detex { file_stack: self.file_stack, ..*old(self) });
        }
    }

    // ========== Output helpers ==========

    /// Spec: the source-location prefix written at the start of an output
    /// line.
    pub(crate) open spec fn spec_prefix(self) -> Seq<char> {
        self.spec_filename() + seq![':'] + dec_rep(self.spec_line() as int) + seq![':', ' ']
    }

    /// Spec: `s` with the source-location prefix in front when one is due.
    pub(crate) open spec fn emit_pfx(pre: Detex, s: Seq<char>) -> Seq<char> {
        if pre.opts.src_loc && pre.at_column_zero {
            pre.spec_prefix() + s
        } else {
            s
        }
    }

    /// Writes the source-location prefix when annotation is on and nothing
    /// has been written on the current output line yet.
    pub(crate) fn print_prefix(&mut self)
        ensures
            (*final(self) == Detex {
                output: final(self).output,
                at_column_zero: final(self).at_column_zero,
                ..*old(self)
            }),
            final(self).output@ == old(self).output@ + Detex::emit_pfx(
                *old(self),
                Seq::empty(),
            ),
            final(self).at_column_zero == (old(self).at_column_zero && !old(self).opts.src_loc),
    {
        if self.opts.src_loc && self.at_column_zero {
            let name = self.current_filename();
            push_all(&mut self.output, &name);
            self.output.push(':');
            let line = self.current_line();
            push_dec(&mut self.output, line);
            self.output.push(':');
            self.output.push(' ');
            self.at_column_zero = false;
            proof {
                assert(self.output@ =~= old(self).output@ + Detex::emit_pfx(
                    *old(self),
                    Seq::empty(),
                ));
            }
        } else {
            proof {
                assert(self.output@ =~= old(self).output@ + Detex::emit_pfx(
                    *old(self),
                    Seq::empty(),
                ));
            }
        }
    }

    /// Writes one character, with the line prefix when due.
    pub(crate) fn echo(&mut self, c: char)
        ensures
            (*final(self) == Detex {
                output: final(self).output,
                at_column_zero: final(self).at_column_zero,
                ..*old(self)
            }),
            final(self).output@ == old(self).output@ + Detex::emit_pfx(*old(self), seq![c]),
            final(self).at_column_zero == (old(self).at_column_zero && !old(self).opts.src_loc),
    {
        self.print_prefix();
        self.output.push(c);
        proof {
            assert(self.output@ =~= old(self).output@ + Detex::emit_pfx(*old(self), seq![c]));
        }
    }

    /// Writes a run of characters, with the line prefix when due.
    pub(crate) fn echo_str(&mut self, s: &Vec<char>)
        ensures
            (*final(self) == Detex {
                output: final(self).output,
                at_column_zero: final(self).at_column_zero,
                ..*old(self)
            }),
            final(self).output@ == old(self).output@ + Detex::emit_pfx(*old(self), s@),
            final(self).at_column_zero == (old(self).at_column_zero && !old(self).opts.src_loc),
    {
        self.print_prefix();
        push_all(&mut self.output, s);
        proof {
            assert(self.output@ =~= old(self).output@ + Detex::emit_pfx(*old(self), s@));
        }
    }

    /// Writes a line break, unless word-only output is on; the next
    /// emission is at the start of an output line again.
    pub(crate) fn newline(&mut self)
        ensures
            old(self).opts.word ==> *final(self) == *old(self),
            !old(self).opts.word ==> {
                &&& (*final(self) == Detex {
                    output: final(self).output,
                    at_column_zero: final(self).at_column_zero,
                    ..*old(self)
                })
                &&& final(self).output@ == old(self).output@ + Detex::emit_pfx(
                    *old(self),
                    seq!['\n'],
                )
                &&& final(self).at_column_zero
            },
    {
        if self.opts.word {
            return;
        }
        self.print_prefix();
        self.output.push('\n');
        self.at_column_zero = true;
        proof {
            assert(self.output@ =~= old(self).output@ + Detex::emit_pfx(*old(self), seq!['\n']));
        }
    }

    /// Writes a plain space, unless word-only output is on.
    pub(crate) fn space(&mut self)
        ensures
            (*final(self) == Detex { output: final(self).output, ..*old(self) }),
            final(self).output@ == old(self).output@ + (if old(self).opts.word {
                Seq::<char>::empty()
            } else {
                seq![' ']
            }),
    {
        if !self.opts.word {
            self.output.push(' ');
        }
        proof {
            assert(self.output@ =~= old(self).output@ + (if old(self).opts.word {
                Seq::<char>::empty()
            } else {
                seq![' ']
            }));
        }
    }

    /// Spec: what stands in for suppressed math.
    pub(crate) open spec fn spec_noun(opts: Options) -> Seq<char> {
        if opts.space && !opts.word && !opts.replace {
            seq![' ']
        } else if opts.replace {
            seq!['n', 'o', 'u', 'n']
        } else {
            Seq::empty()
        }
    }

    /// Writes the placeholder for suppressed math: a space under the
    /// space-replacement flag, the word "noun" under the grammar flag.
    pub(crate) fn noun(&mut self)
        ensures
            (*final(self) == Detex { output: final(self).output, ..*old(self) }),
            final(self).output@ == old(self).output@ + Detex::spec_noun(old(self).opts),
    {
        if self.opts.space && !self.opts.word && !self.opts.replace {
            self.output.push(' ');
        } else if self.opts.replace {
            self.output.push('n');
            self.output.push('o');
            self.output.push('u');
            self.output.push('n');
        }
        proof {
            assert(self.output@ =~= old(self).output@ + Detex::spec_noun(old(self).opts));
        }
    }

    /// Spec: what stands in for a relational math symbol.
    pub(crate) open spec fn spec_verb_noun(opts: Options) -> Seq<char> {
        if opts.replace {
            seq![' ', 'v', 'e', 'r', 'b', 's', ' ', 'n', 'o', 'u', 'n']
        } else {
            Seq::empty()
        }
    }

    /// Writes the placeholder for a relational symbol in math under the
    /// grammar flag.
    pub(crate) fn verb_noun(&mut self)
        ensures
            (*final(self) == Detex { output: final(self).output, ..*old(self) }),
            final(self).output@ == old(self).output@ + Detex::spec_verb_noun(old(self).opts),
    {
        if self.opts.replace {
            self.output.push(' ');
            self.output.push('v');
            self.output.push('e');
            self.output.push('r');
            self.output.push('b');
            self.output.push('s');
            self.output.push(' ');
            self.output.push('n');
            self.output.push('o');
            self.output.push('u');
            self.output.push('n');
        }
        proof {
            assert(self.output@ =~= old(self).output@ + Detex::spec_verb_noun(old(self).opts));
        }
    }

    /// Spec: what stands in for an ignored construct.
    pub(crate) open spec fn spec_ignore(opts: Options) -> Seq<char> {
        if opts.space && !opts.word {
            seq![' ']
        } else {
            Seq::empty()
        }
    }

    /// Writes a space for an ignored construct under the space-replacement
    /// flag.
    pub(crate) fn ignore(&mut self)
        ensures
            (*final(self) == Detex { output: final(self).output, ..*old(self) }),
            final(self).output@ == old(self).output@ + Detex::spec_ignore(old(self).opts),
    {
        if self.opts.space && !self.opts.word {
            self.output.push(' ');
        }
        proof {
            assert(self.output@ =~= old(self).output@ + Detex::spec_ignore(old(self).opts));
        }
    }
}

impl Detex {
    // ========== Mode helpers ==========

    /// Spec: the state after a conditional transition that fires only in
    /// LaTeX mode.
    pub(crate) open spec fn spec_la_begin(self, new_state: State) -> State {
        if self.opts.spec_is_latex() {
            new_state
        } else {
            self.state
        }
    }

    /// Enters `new_state` only in LaTeX mode.
    pub(crate) fn la_begin(&mut self, new_state: State)
        ensures
            (*final(self) == Detex { state: final(self).state, ..*old(self) }),
            final(self).state == old(self).spec_la_begin(new_state),
    {
        if self.opts.is_latex() {
            self.state = new_state;
        }
    }

    /// Turns LaTeX mode on, unless TeX mode is forced.
    pub(crate) fn set_latex(&mut self)
        ensures
            (*final(self) == Detex { opts: final(self).opts, ..*old(self) }),
            (final(self).opts == Options {
                latex: old(self).opts.latex || !old(self).opts.force_tex,
                ..old(self).opts
            }),
    {
        if !self.opts.force_tex {
            self.opts.latex = true;
        }
    }

    /// Prepares to consume and discard `n` brace-delimited arguments.
    pub(crate) fn kill_args(&mut self, n: usize)
        ensures
            (*final(self) == Detex {
                state: final(self).state,
                args_count: n,
                open_braces: 0,
                ..*old(self)
            }),
            final(self).state == old(self).spec_la_begin(State::LaMacro),
    {
        self.args_count = n;
        self.open_braces = 0;
        self.la_begin(State::LaMacro);
    }

    /// Prepares to consume `n` arguments, keeping the last one visible.
    pub(crate) fn strip_args(&mut self, n: usize)
        ensures
            (*final(self) == Detex {
                state: final(self).state,
                args_count: n,
                open_braces: 0,
                ..*old(self)
            }),
            final(self).state == old(self).spec_la_begin(State::LaMacro2),
    {
        self.args_count = n;
        self.open_braces = 0;
        self.la_begin(State::LaMacro2);
    }

    /// Spec: an environment is suppressed when LaTeX mode is on and its
    /// name is in the ignore list.
    pub(crate) open spec fn spec_env_ignored(opts: Options, env: Seq<char>) -> bool {
        opts.spec_is_latex() && opts.env_ignore.deep_view().contains(env)
    }

    /// Checks the environment name against the ignore list; on a match it
    /// becomes the currently ignored environment.
    pub(crate) fn begin_env(&mut self, env: &Vec<char>) -> (r: bool)
        ensures
            r == Detex::spec_env_ignored(old(self).opts, env@),
            r ==> (*final(self) == Detex {
                current_ignored_env: final(self).current_ignored_env,
                ..*old(self)
            }) && final(self).current_ignored_env@ == env@,
            !r ==> *final(self) == *old(self),
    {
        if !self.opts.is_latex() {
            return false;
        }
        if name_list_contains(&self.opts.env_ignore, env) {
            self.current_ignored_env = vec_slice(env, 0, env.len());
            proof {
                assert(self.current_ignored_env@ =~= env@);
            }
            true
        } else {
            false
        }
    }

    /// Whether the given name closes the currently ignored environment.
    pub(crate) fn end_env(&mut self, env: &Vec<char>) -> (r: bool)
        ensures
            *final(self) == *old(self),
            r == (old(self).opts.spec_is_latex() && env@ == old(self).current_ignored_env@),
    {
        if !self.opts.is_latex() {
            return false;
        }
        chars_eq(env, &self.current_ignored_env)
    }

    // ========== Inclusion ==========

    /// Looks a name up in the document store, returning a copy of the
    /// first matching content.
    pub(crate) fn lookup_store(&self, name: &Vec<char>) -> (r: Option<Vec<char>>)
        ensures
            match store_lookup(self.store(), name@) {
                Option::None => r is None,
                Option::Some(c) => r is Some && r->0@ == c,
            },
    {
        let mut i: usize = 0;
        while i < self.files.len()
            invariant
                i <= self.files@.len(),
                forall|j: int| 0 <= j < i ==> self.store()[j].0 != name@,
            decreases self.files@.len() - i,
        {
            if chars_eq(&self.files[i].name, name) {
                let content = &self.files[i].content;
                let r = vec_slice(content, 0, content.len());
                proof {
                    assert(self.store()[i as int].0 == name@);
                    lemma_store_lookup_first(self.store(), name@, i as int);
                    assert(r@ =~= self.store()[i as int].1);
                }
                return Some(r);
            }
            proof {
                assert(self.store()[i as int].0 == self.files@[i as int].name@);
            }
            i = i + 1;
        }
        proof {
            lemma_store_lookup_none(self.store(), name@);
        }
        None
    }

    /// Spec: what remains of a path after stripping a trailing extension.
    pub(crate) open spec fn spec_strip_ext(s: Seq<char>) -> Seq<char> {
        if last_index(s, '.') >= 0 {
            s.take(last_index(s, '.'))
        } else {
            s
        }
    }

    /// Records a file name, extension stripped, on the allow list.
    pub(crate) fn add_include(&mut self, filename: &Vec<char>)
        ensures
            old(self).opts.no_follow ==> *final(self) == *old(self),
            !old(self).opts.no_follow ==> {
                &&& (*final(self) == Detex { opts: final(self).opts, ..*old(self) })
                &&& (final(self).opts == Options {
                    include_list: final(self).opts.include_list,
                    ..old(self).opts
                })
                &&& final(self).opts.include_list@.len() == old(self).opts.include_list@.len() + 1
                &&& old(self).opts.include_list@.is_prefix_of(final(self).opts.include_list@)
                &&& final(self).opts.include_list@.last()@ == Detex::spec_strip_ext(filename@)
            },
    {
        if self.opts.no_follow {
            return;
        }
        let d = scan_last_dot(filename);
        let base = if d > 0 {
            vec_slice(filename, 0, d - 1)
        } else {
            vec_slice(filename, 0, filename.len())
        };
        proof {
            if d == 0 {
                assert(filename@.subrange(0, filename@.len() as int) =~= filename@);
            }
        }
        self.opts.include_list.push(base);
    }

    /// Pushes the named document onto the inclusion stack, if the options,
    /// the depth bound, and the store allow it; a failed lookup or a full
    /// stack leaves a diagnostic and changes nothing else.
    pub fn input_file(&mut self, filename: &str) -> (found: bool)
        ensures
            final(self).output_seq() == old(self).output_seq(),
            (final(self).opts_spec() == old(self).opts_spec()),
            final(self).store() == old(self).store(),
            final(self).in_normal() == old(self).in_normal(),
            old(self).opts_spec().no_follow ==> final(self).stack_len() == old(self).stack_len()
                && final(self).top_rem() == old(self).top_rem() && final(self).diags_seq()
                == old(self).diags_seq(),
            !old(self).opts_spec().no_follow && old(self).stack_len() >= MAX_FILE_STACK ==> {
                &&& final(self).stack_len() == old(self).stack_len()
                &&& final(self).top_rem() == old(self).top_rem()
                &&& final(self).diags_seq() == old(self).diags_seq().push(
                    DiagView::StackOverflow(filename@),
                )
                &&& !found
            },
            !old(self).opts_spec().no_follow && old(self).stack_len() < MAX_FILE_STACK ==> match
                store_lookup(old(self).store(), filename@) {
                Option::None => {
                    &&& final(self).stack_len() == old(self).stack_len()
                    &&& final(self).top_rem() == old(self).top_rem()
                    &&& final(self).diags_seq() == old(self).diags_seq().push(
                        DiagView::CantOpen(filename@),
                    )
                    &&& !found
                },
                Option::Some(content) => {
                    &&& final(self).stack_len() == old(self).stack_len() + 1
                    &&& final(self).top_rem() == content
                    &&& final(self).top_name() == filename@
                    &&& final(self).diags_seq() == old(self).diags_seq()
                    &&& found
                },
            },
    {
        let name = str_to_chars(filename);
        self.input_file_chars(&name)
    }

    /// As `input_file`, over an already-split name.
    pub(crate) fn input_file_chars(&mut self, filename: &Vec<char>) -> (found: bool)
        ensures
            old(self).opts.no_follow ==> *final(self) == *old(self) && !found,
            !old(self).opts.no_follow && old(self).file_stack@.len() >= MAX_FILE_STACK ==> {
                &&& (*final(self) == Detex { diags: final(self).diags, ..*old(self) })
                &&& final(self).diags@.map_values(|d: Diag| d.view())
                    == old(self).diags@.map_values(|d: Diag| d.view()).push(
                    DiagView::StackOverflow(filename@),
                )
                &&& !found
            },
            !old(self).opts.no_follow && old(self).file_stack@.len() < MAX_FILE_STACK ==> match
                store_lookup(old(self).store(), filename@) {
                Option::None => {
                    &&& (*final(self) == Detex { diags: final(self).diags, ..*old(self) })
                    &&& final(self).diags@.map_values(|d: Diag| d.view())
                        == old(self).diags@.map_values(|d: Diag| d.view()).push(
                        DiagView::CantOpen(filename@),
                    )
                    &&& !found
                },
                Option::Some(content) => {
                    &&& (*final(self) == Detex { file_stack: final(self).file_stack, ..*old(self) })
                    &&& final(self).file_stack@.len() == old(self).file_stack@.len() + 1
                    &&& old(self).file_stack@.is_prefix_of(final(self).file_stack@)
                    &&& final(self).file_stack@.last().source.remaining() == content
                    &&& final(self).file_stack@.last().source.spec_line() == 1
                    &&& final(self).file_stack@.last().name@ == filename@
                    &&& found
                },
            },
    {
        if self.opts.no_follow {
            return false;
        }
        if self.file_stack.len() >= MAX_FILE_STACK {
            let name = vec_slice(filename, 0, filename.len());
            proof {
                assert(name@ =~= filename@);
            }
            let ghost pre = self.diags@.map_values(|d: Diag| d.view());
            self.diags.push(Diag::StackOverflow { name });
            proof {
                assert(self.diags@.map_values(|d: Diag| d.view()) =~= pre.push(
                    DiagView::StackOverflow(filename@),
                ));
            }
            return false;
        }
        match self.lookup_store(filename) {
            Some(content) => {
                let source = CharSource::from_chars(content);
                let name = vec_slice(filename, 0, filename.len());
                proof {
                    assert(name@ =~= filename@);
                }
                self.file_stack.push(FileContext { source, name });
                proof {
                    assert(old(self).file_stack@.is_prefix_of(self.file_stack@));
                }
                true
            },
            None => {
                let name = vec_slice(filename, 0, filename.len());
                proof {
                    assert(name@ =~= filename@);
                }
                let ghost pre = self.diags@.map_values(|d: Diag| d.view());
                self.diags.push(Diag::CantOpen { name });
                proof {
                    assert(self.diags@.map_values(|d: Diag| d.view()) =~= pre.push(
                        DiagView::CantOpen(filename@),
                    ));
                }
                false
            },
        }
    }

    /// Follows an include directive: the allow list is consulted first,
    /// and only listed files (or any file, when the list is empty) are
    /// pushed.
    pub(crate) fn include_file(&mut self, filename: &Vec<char>)
        ensures
            old(self).opts.no_follow ==> *final(self) == *old(self),
            !old(self).opts.no_follow && !spec_in_include_list(filename@, old(self).opts)
                ==> *final(self) == *old(self),
            !old(self).opts.no_follow && spec_in_include_list(filename@, old(self).opts)
                && old(self).file_stack@.len() >= MAX_FILE_STACK ==> {
                &&& (*final(self) == Detex { diags: final(self).diags, ..*old(self) })
                &&& final(self).diags_seq() == old(self).diags_seq().push(
                    DiagView::StackOverflow(filename@),
                )
            },
            !old(self).opts.no_follow && spec_in_include_list(filename@, old(self).opts)
                && old(self).file_stack@.len() < MAX_FILE_STACK ==> match store_lookup(
                old(self).store(),
                filename@,
            ) {
                Option::None => {
                    &&& (*final(self) == Detex { diags: final(self).diags, ..*old(self) })
                    &&& final(self).diags_seq() == old(self).diags_seq().push(
                        DiagView::CantOpen(filename@),
                    )
                },
                Option::Some(content) => {
                    &&& (*final(self) == Detex { file_stack: final(self).file_stack, ..*old(self) })
                    &&& final(self).file_stack@.len() == old(self).file_stack@.len() + 1
                    &&& old(self).file_stack@.is_prefix_of(final(self).file_stack@)
                    &&& final(self).file_stack@.last().source.remaining() == content
                    &&& final(self).file_stack@.last().name@ == filename@
                },
            },
    {
        if self.opts.no_follow {
            return;
        }
        if !in_include_list_chars(filename, &self.opts) {
            return;
        }
        let _ = self.input_file_chars(filename);
    }
}

/// When every name before `i` differs and `store[i]` matches, the lookup
/// returns `store[i]`'s content.
pub proof fn lemma_store_lookup_first(
    store: Seq<(Seq<char>, Seq<char>)>,
    name: Seq<char>,
    i: int,
)
    requires
        0 <= i < store.len(),
        forall|j: int| 0 <= j < i ==> store[j].0 != name,
        store[i].0 == name,
    ensures
        store_lookup(store, name) == Option::Some(store[i].1),
    decreases i,
{
    if i > 0 {
        lemma_store_lookup_first(store.skip(1), name, i - 1);
    }
}

/// When no name matches, the lookup fails.
pub proof fn lemma_store_lookup_none(store: Seq<(Seq<char>, Seq<char>)>, name: Seq<char>)
    requires
        forall|j: int| 0 <= j < store.len() ==> store[j].0 != name,
    ensures
        store_lookup(store, name) is None,
    decreases store.len(),
{
    if store.len() > 0 {
        lemma_store_lookup_none(store.skip(1), name);
    }
}

/// Index just past the last dot of `v`, or 0 when there is none.
pub(crate) fn scan_last_dot(v: &Vec<char>) -> (r: usize)
    ensures
        r as int == last_index(v@, '.') + 1,
        r <= v@.len(),
{
    crate::file_handler::scan_last_pub(v, '.')
}

/// Every sequence is a prefix of itself.
pub proof fn lemma_prefix_refl<A>(s: Seq<A>)
    ensures
        s.is_prefix_of(s),
{
    assert(s.take(s.len() as int) =~= s);
}

/// Pushing keeps the old sequence as a prefix.
pub proof fn lemma_prefix_push<A>(s: Seq<A>, x: A)
    ensures
        s.is_prefix_of(s.push(x)),
{
    assert(s.push(x).take(s.len() as int) =~= s);
}

/// The read-helper frame is reflexive.
pub(crate) proof fn lemma_reads_frame_refl(a: Detex)
    ensures
        Detex::reads_frame(a, a),
{
    if a.file_stack@.len() > 0 {
        assert(a.file_stack@ =~= a.file_stack@.update(
            a.file_stack@.len() - 1,
            a.file_stack@.last(),
        ));
    }
}

/// The read-helper frame composes.
pub(crate) proof fn lemma_reads_frame_trans(a: Detex, b: Detex, c: Detex)
    requires
        Detex::reads_frame(a, b),
        Detex::reads_frame(b, c),
    ensures
        Detex::reads_frame(a, c),
{
    assert(c == Detex { file_stack: c.file_stack, at_column_zero: c.at_column_zero, ..a });
    if a.file_stack@.len() > 0 {
        assert(c.file_stack@ =~= a.file_stack@.update(
            a.file_stack@.len() - 1,
            c.file_stack@.last(),
        ));
    }
}

impl Detex {
    // ========== Read helpers ==========

    /// Consumes leading whitespace; a consumed newline marks the next
    /// output emission as line-starting.
    pub(crate) fn skip_whitespace(&mut self)
        ensures
            Detex::reads_frame(*old(self), *final(self)),
            (final(self).top_rem() == old(self).top_rem().skip(ws_run(old(self).top_rem()))),
            (is_suffix(final(self).top_rem(), old(self).top_rem())),
    {
        let ghost pre = *self;
        let ghost rem0 = pre.top_rem();
        let ghost mut k: int = 0;
        proof {
            lemma_reads_frame_refl(pre);
            lemma_ws_run_bounds(rem0);
            lemma_suffix_skip(rem0, ws_run(rem0));
            assert(self.top_rem() =~= rem0.skip(0));
        }
        loop
            invariant
                pre == *old(self),
                rem0 == pre.top_rem(),
                Detex::reads_frame(pre, *self),
                0 <= k <= rem0.len(),
                self.top_rem() == rem0.skip(k),
                ws_run(rem0) == k + ws_run(self.top_rem()),
                (is_suffix(rem0.skip(ws_run(rem0)), rem0)),
            decreases rem0.len() - k,
        {
            let ghost mid = *self;
            match self.peek_char() {
                Some(c) => {
                    if is_ws(c) {
                        let ch = self.next_char();
                        if ch == Some('\n') {
                            self.at_column_zero = true;
                        }
                        proof {
                            lemma_reads_frame_trans(pre, mid, *self);
                            assert(self.top_rem() =~= rem0.skip(k + 1));
                            k = k + 1;
                        }
                    } else {
                        return;
                    }
                },
                None => {
                    return;
                },
            }
        }
    }

    /// Reads the longest run of name characters: the control-sequence name
    /// after a backslash.
    pub(crate) fn read_command_name(&mut self) -> (r: Vec<char>)
        ensures
            Detex::reads_frame(*old(self), *final(self)),
            final(self).at_column_zero == old(self).at_column_zero,
            (r@ == old(self).top_rem().take(cmd_run(old(self).top_rem()))),
            (final(self).top_rem() == old(self).top_rem().skip(cmd_run(old(self).top_rem()))),
            (is_suffix(final(self).top_rem(), old(self).top_rem())),
    {
        let ghost pre = *self;
        let ghost rem0 = pre.top_rem();
        let mut name: Vec<char> = Vec::new();
        let ghost mut k: int = 0;
        proof {
            lemma_reads_frame_refl(pre);
            lemma_cmd_run_bounds(rem0);
            lemma_suffix_skip(rem0, cmd_run(rem0));
            assert(self.top_rem() =~= rem0.skip(0));
            assert(name@ =~= rem0.take(0));
        }
        loop
            invariant
                pre == *old(self),
                rem0 == pre.top_rem(),
                Detex::reads_frame(pre, *self),
                self.at_column_zero == pre.at_column_zero,
                0 <= k <= rem0.len(),
                self.top_rem() == rem0.skip(k),
                name@ == rem0.take(k),
                cmd_run(rem0) == k + cmd_run(self.top_rem()),
                (is_suffix(rem0.skip(cmd_run(rem0)), rem0)),
            decreases rem0.len() - k,
        {
            let ghost mid = *self;
            match self.peek_char() {
                Some(c) => {
                    if is_cmd_char(c) {
                        let ch = self.next_char();
                        name.push(c);
                        proof {
                            lemma_reads_frame_trans(pre, mid, *self);
                            assert(self.top_rem() =~= rem0.skip(k + 1));
                            assert(name@ =~= rem0.take(k + 1));
                            k = k + 1;
                        }
                    } else {
                        return name;
                    }
                },
                None => {
                    return name;
                },
            }
        }
    }

    /// Tries to consume exactly the characters of `lit`; on a mismatch the
    /// source is restored and nothing is consumed.
    pub(crate) fn try_match(&mut self, lit: &Vec<char>) -> (r: bool)
        ensures
            Detex::reads_frame(*old(self), *final(self)),
            final(self).at_column_zero == old(self).at_column_zero,
            (lit@.is_prefix_of(old(self).top_rem()) ==> r && final(self).top_rem()
                == old(self).top_rem().skip(lit@.len() as int)),
            (!lit@.is_prefix_of(old(self).top_rem()) ==> !r && final(self).top_rem()
                == old(self).top_rem()),
            (is_suffix(final(self).top_rem(), old(self).top_rem())),
    {
        let ghost pre = *self;
        let ghost rem0 = pre.top_rem();
        let mut i: usize = 0;
        proof {
            lemma_reads_frame_refl(pre);
            assert(self.top_rem() =~= rem0.skip(0));
        }
        while i < lit.len()
            invariant
                pre == *old(self),
                rem0 == pre.top_rem(),
                Detex::reads_frame(pre, *self),
                self.at_column_zero == pre.at_column_zero,
                0 <= i <= lit@.len(),
                i <= rem0.len(),
                self.top_rem() == rem0.skip(i as int),
                (rem0.take(i as int) == lit@.take(i as int)),
                pre.file_stack@.len() == self.file_stack@.len(),
            decreases lit@.len() - i,
        {
            let ghost mid = *self;
            let expected = lit[i];
            match self.next_char() {
                Some(c) => {
                    proof {
                        lemma_reads_frame_trans(pre, mid, *self);
                    }
                    if c == expected {
                        proof {
                            assert(self.top_rem() =~= rem0.skip(i as int + 1));
                            assert(rem0.take(i as int + 1) =~= lit@.take(i as int + 1));
                        }
                        i = i + 1;
                    } else {
                        // restore: the mismatching character, then the match so far
                        let ghost mid3 = *self;
                        self.unget_char(c);
                        proof {
                            lemma_reads_frame_trans(pre, mid3, *self);
                            assert(self.top_rem() =~= rem0.skip(i as int));
                        }
                        let ghost target = rem0;
                        let mut j: usize = i;
                        while j > 0
                            invariant
                                pre == *old(self),
                                rem0 == pre.top_rem(),
                                Detex::reads_frame(pre, *self),
                                self.at_column_zero == pre.at_column_zero,
                                0 <= j <= i <= rem0.len(),
                                i <= lit@.len(),
                                self.top_rem() == rem0.skip(j as int),
                                (rem0.take(i as int) == lit@.take(i as int)),
                                pre.file_stack@.len() == self.file_stack@.len(),
                            decreases j,
                        {
                            let ghost mid2 = *self;
                            j = j - 1;
                            self.unget_char(lit[j]);
                            proof {
                                lemma_reads_frame_trans(pre, mid2, *self);
                                assert(rem0.take(i as int)[j as int] == lit@.take(
                                    i as int,
                                )[j as int]);
                                assert(lit@[j as int] == rem0[j as int]);
                                assert(self.top_rem() =~= rem0.skip(j as int));
                            }
                        }
                        proof {
                            assert(self.top_rem() =~= rem0);
                            lemma_suffix_refl(rem0);
                            if lit@.is_prefix_of(rem0) {
                                assert(lit@[i as int] == rem0[i as int]);
                            }
                        }
                        return false;
                    }
                },
                None => {
                    proof {
                        lemma_reads_frame_trans(pre, mid, *self);
                        assert(rem0.skip(i as int).len() == 0);
                    }
                    let mut j: usize = i;
                    while j > 0
                        invariant
                            pre == *old(self),
                            rem0 == pre.top_rem(),
                            Detex::reads_frame(pre, *self),
                            self.at_column_zero == pre.at_column_zero,
                            0 <= j <= i <= rem0.len(),
                            i <= lit@.len(),
                            self.top_rem() == rem0.skip(j as int),
                            (rem0.take(i as int) == lit@.take(i as int)),
                            pre.file_stack@.len() == self.file_stack@.len(),
                        decreases j,
                    {
                        let ghost mid2 = *self;
                        j = j - 1;
                        self.unget_char(lit[j]);
                        proof {
                            lemma_reads_frame_trans(pre, mid2, *self);
                            assert(rem0.take(i as int)[j as int] == lit@.take(i as int)[j as int]);
                            assert(lit@[j as int] == rem0[j as int]);
                            assert(self.top_rem() =~= rem0.skip(j as int));
                        }
                    }
                    proof {
                        assert(self.top_rem() =~= rem0);
                        lemma_suffix_refl(rem0);
                        if lit@.is_prefix_of(rem0) {
                            assert(rem0.len() >= lit@.len());
                        }
                    }
                    return false;
                },
            }
        }
        proof {
            assert(rem0.take(lit@.len() as int) =~= lit@.take(lit@.len() as int));
            assert(lit@.take(lit@.len() as int) =~= lit@);
            assert(lit@.is_prefix_of(rem0));
            lemma_suffix_skip(rem0, lit@.len() as int);
        }
        true
    }

    /// Consumes one star, when the next character is one.
    pub(crate) fn match_optional_star(&mut self)
        ensures
            Detex::reads_frame(*old(self), *final(self)),
            final(self).at_column_zero == old(self).at_column_zero,
            (old(self).top_rem().len() > 0 && old(self).top_rem()[0] == '*'
                ==> final(self).top_rem() == old(self).top_rem().skip(1)),
            (!(old(self).top_rem().len() > 0 && old(self).top_rem()[0] == '*')
                ==> final(self).top_rem() == old(self).top_rem()),
            (is_suffix(final(self).top_rem(), old(self).top_rem())),
    {
        let ghost pre = *self;
        proof {
            lemma_reads_frame_refl(pre);
            lemma_suffix_refl(pre.top_rem());
            if pre.top_rem().len() > 0 {
                lemma_suffix_skip(pre.top_rem(), 1);
            }
        }
        match self.peek_char() {
            Some(c) => {
                if c == '*' {
                    let _ = self.next_char();
                }
            },
            None => {},
        }
    }
}

// ========== Termination measure and progress ==========

/// `b` to the power `e`.
pub open spec fn pow_b(b: nat, e: nat) -> nat
    decreases e,
{
    if e == 0 {
        1
    } else {
        b * pow_b(b, (e - 1) as nat)
    }
}

/// The weight of the stack entry at depth `i` (0 is the bottom): deeper
/// entries weigh exponentially less, so that pushing a bounded source
/// while consuming at least one character makes the total fall.
pub open spec fn depth_weight(b: nat, i: int) -> nat {
    if 0 <= i <= MAX_FILE_STACK {
        pow_b(b, (MAX_FILE_STACK + 1 - i) as nat)
    } else {
        1
    }
}

/// The termination potential of an inclusion stack.
pub(crate) open spec fn stack_pot(stack: Seq<FileContext>, b: nat) -> nat
    decreases stack.len(),
{
    if stack.len() == 0 {
        0
    } else {
        stack_pot(stack.drop_last(), b) + stack.last().source.remaining().len() * depth_weight(
            b,
            stack.len() - 1,
        )
    }
}

/// The greatest content length in the store.
pub open spec fn max_content_len(store: Seq<(Seq<char>, Seq<char>)>) -> nat
    decreases store.len(),
{
    if store.len() == 0 {
        0
    } else if store.last().1.len() >= max_content_len(store.drop_last()) {
        store.last().1.len()
    } else {
        max_content_len(store.drop_last())
    }
}

/// A successful lookup returns content no longer than the store's maximum.
pub proof fn lemma_lookup_bounded(store: Seq<(Seq<char>, Seq<char>)>, name: Seq<char>)
    ensures
        (match store_lookup(store, name) {
            Option::Some(c) => c.len() <= max_content_len(store),
            Option::None => true,
        }),
    decreases store.len(),
{
    if store.len() > 0 {
        lemma_lookup_bounded(store.skip(1), name);
        lemma_max_content_skip(store);
    }
}

/// Dropping the first store entry does not raise the maximum.
pub proof fn lemma_max_content_skip(store: Seq<(Seq<char>, Seq<char>)>)
    requires
        store.len() > 0,
    ensures
        max_content_len(store.skip(1)) <= max_content_len(store),
        store[0].1.len() <= max_content_len(store),
    decreases store.len(),
{
    if store.len() == 1 {
        assert(store.skip(1) =~= Seq::<(Seq<char>, Seq<char>)>::empty());
    } else {
        lemma_max_content_skip(store.drop_last());
        assert(store.skip(1).drop_last() =~= store.drop_last().skip(1));
        assert(store.skip(1).last() == store.last());
        assert(store.drop_last()[0] == store[0]);
    }
}

/// Rank used to order the states for termination: a step that consumes
/// nothing must move strictly toward the plain-text state.
pub(crate) open spec fn state_rank(s: State) -> int {
    if s == State::Normal {
        0
    } else {
        1
    }
}

/// One processing step makes progress: it consumes at least one character
/// (possibly opening one bounded source), or it moves toward the
/// plain-text state without touching the stack.
pub(crate) open spec fn spec_progress(pre: Detex, post: Detex) -> bool {
    ||| {
        // consumed from the top source, stack shape unchanged
        &&& pre.file_stack@.len() > 0
        &&& post.file_stack@.len() == pre.file_stack@.len()
        &&& post.file_stack@ == pre.file_stack@.update(
            pre.file_stack@.len() - 1,
            post.file_stack@.last(),
        )
        &&& post.top_rem().len() < pre.top_rem().len()
    }
    ||| {
        // consumed from the old top and pushed one source from the store
        &&& pre.file_stack@.len() > 0
        &&& pre.file_stack@.len() < MAX_FILE_STACK
        &&& post.file_stack@.len() == pre.file_stack@.len() + 1
        &&& post.file_stack@.take(pre.file_stack@.len() - 1) == pre.file_stack@.take(
            pre.file_stack@.len() - 1,
        )
        &&& post.file_stack@[pre.file_stack@.len() - 1].source.remaining().len()
            < pre.top_rem().len()
        &&& post.top_rem().len() <= max_content_len(pre.store())
        &&& post.files == pre.files
    }
    ||| {
        // nothing consumed: the state rank fell and the stack kept its
        // shape and content
        &&& pre.file_stack@.len() > 0
        &&& post.file_stack@.len() == pre.file_stack@.len()
        &&& post.file_stack@ == pre.file_stack@.update(
            pre.file_stack@.len() - 1,
            post.file_stack@.last(),
        )
        &&& post.top_rem() == pre.top_rem()
        &&& state_rank(post.state) < state_rank(pre.state)
    }
}

/// Prefixes compose.
pub proof fn lemma_prefix_trans<A>(a: Seq<A>, b: Seq<A>, c: Seq<A>)
    requires
        a.is_prefix_of(b),
        b.is_prefix_of(c),
    ensures
        a.is_prefix_of(c),
{
    assert(c.take(a.len() as int) =~= b.take(a.len() as int));
    assert(b.take(a.len() as int) =~= a);
}

impl Detex {
    /// A read-helper change is one kind of processing step.
    pub(crate) proof fn lemma_reads_to_step(pre: Detex, post: Detex)
        requires
            Detex::reads_frame(pre, post),
        ensures
            Detex::step_frame(pre, post),
    {
        lemma_prefix_refl(pre.output@);
        lemma_prefix_refl(pre.diags_seq());
        lemma_prefix_refl(pre.opts.include_list@);
        if pre.file_stack@.len() > 0 {
            assert(post.file_stack@.take(pre.file_stack@.len() - 1) =~= pre.file_stack@.take(
                pre.file_stack@.len() - 1,
            ));
            assert(post.file_stack@[pre.file_stack@.len() - 1] == post.file_stack@.last());
        }
    }

    /// Step frames compose.
    pub(crate) proof fn lemma_step_frame_trans(a: Detex, b: Detex, c: Detex)
        requires
            Detex::step_frame(a, b),
            Detex::step_frame(b, c),
        ensures
            Detex::step_frame(a, c),
    {
        lemma_prefix_trans(a.output@, b.output@, c.output@);
        lemma_prefix_trans(a.diags_seq(), b.diags_seq(), c.diags_seq());
        lemma_prefix_trans(a.opts.include_list@, b.opts.include_list@, c.opts.include_list@);
        let n = a.file_stack@.len();
        let m = b.file_stack@.len();
        if n > 0 {
            if m == n {
                assert(c.file_stack@.take(n - 1) == b.file_stack@.take(n - 1));
                assert(c.file_stack@.take(n - 1) == a.file_stack@.take(n - 1));
                assert(c.file_stack@[n - 1].name == b.file_stack@.last().name);
            } else {
                // b gained entries; a's old top is inside the prefix of c
                // that the second step preserved
                assert(c.file_stack@.take(m - 1) == b.file_stack@.take(m - 1));
                assert(c.file_stack@.take(n - 1) =~= c.file_stack@.take(m - 1).take(n - 1));
                assert(b.file_stack@.take(n - 1) =~= b.file_stack@.take(m - 1).take(n - 1));
                assert(c.file_stack@.take(n - 1) == a.file_stack@.take(n - 1));
                assert(c.file_stack@[n - 1] == c.file_stack@.take(m - 1)[n - 1]);
                assert(b.file_stack@[n - 1] == b.file_stack@.take(m - 1)[n - 1]);
                assert(c.file_stack@[n - 1].name == a.file_stack@.last().name);
            }
        }
    }
}

impl Detex {
    /// Consumes a TeX glue specification: one dimension piece and any
    /// `plus`/`minus` stretch and shrink clauses after it.
    pub(crate) fn skip_glue(&mut self)
        ensures
            Detex::reads_frame(*old(self), *final(self)),
            (is_suffix(final(self).top_rem(), old(self).top_rem())),
            (final(self).top_rem() == old(self).top_rem().skip(glue_scan(old(self).top_rem()))),
    {
        let ghost pre = *self;
        let ghost rem0 = pre.top_rem();
        proof {
            lemma_reads_frame_refl(pre);
            lemma_suffix_refl(rem0);
            lemma_dim_len_bounds(rem0);
        }
        self.skip_sign_digits_unit();
        let ghost mut gpos: int = dim_len(rem0);
        let lit_plus = str_to_chars("plus");
        let lit_minus = str_to_chars("minus");
        proof {
            reveal_strlit("plus");
            reveal_strlit("minus");
        }
        loop
            invariant
                pre == *old(self),
                rem0 == pre.top_rem(),
                0 <= gpos <= rem0.len(),
                Detex::reads_frame(pre, *self),
                (is_suffix(self.top_rem(), rem0)),
                self.top_rem() == rem0.skip(gpos),
                (glue_scan(rem0) == gpos + glue_tail(self.top_rem())),
                lit_plus@ == "plus"@,
                lit_minus@ == "minus"@,
            decreases self.top_rem().len(),
        {
            let ghost cur = *self;
            let m1 = self.try_match(&lit_plus);
            let ghost s1 = *self;
            let m2 = if m1 {
                false
            } else {
                self.try_match(&lit_minus)
            };
            proof {
                reveal_strlit("plus");
                reveal_strlit("minus");
                lemma_reads_frame_refl(s1);
                lemma_suffix_refl(s1.top_rem());
                lemma_reads_frame_trans(cur, s1, *self);
                lemma_reads_frame_trans(pre, cur, *self);
                lemma_suffix_trans(self.top_rem(), s1.top_rem(), cur.top_rem());
                lemma_suffix_trans(self.top_rem(), cur.top_rem(), rem0);
            }
            if !(m1 || m2) {
                proof {
                    assert(glue_tail(cur.top_rem()) == 0) by {
                        if cur.top_rem().len() >= 4 && cur.top_rem().take(4) == "plus"@ {
                            assert(lit_plus@.is_prefix_of(cur.top_rem()));
                        }
                        if cur.top_rem().len() >= 5 && cur.top_rem().take(5) == "minus"@ {
                            assert(lit_minus@.is_prefix_of(cur.top_rem()));
                        }
                    }
                    assert(self.top_rem() == rem0.skip(glue_scan(rem0)));
                }
                return;
            }
            let ghost kw: int = if m1 {
                4int
            } else {
                5int
            };
            proof {
                assert(self.top_rem() == cur.top_rem().skip(kw));
                if m1 {
                    assert(cur.top_rem().take(4) == "plus"@);
                } else {
                    assert(!("plus"@.is_prefix_of(cur.top_rem())));
                    assert(cur.top_rem().take(5) == "minus"@);
                }
            }
            let ghost mid = *self;
            self.skip_sign_digits_unit();
            proof {
                lemma_reads_frame_trans(pre, mid, *self);
                lemma_suffix_trans(self.top_rem(), mid.top_rem(), cur.top_rem());
                lemma_suffix_trans(self.top_rem(), cur.top_rem(), rem0);
                lemma_dim_len_bounds(mid.top_rem());
                let d = dim_len(mid.top_rem());
                assert(glue_tail(cur.top_rem()) == kw + d + glue_tail(
                    cur.top_rem().skip(kw + d),
                )) by {
                    assert(cur.top_rem().skip(kw).skip(d) =~= cur.top_rem().skip(kw + d));
                }
                assert(self.top_rem() =~= rem0.skip(gpos + kw + d)) by {
                    assert(rem0.skip(gpos).skip(kw) =~= rem0.skip(gpos + kw));
                    assert(rem0.skip(gpos + kw).skip(d) =~= rem0.skip(gpos + kw + d));
                }
                gpos = gpos + kw + d;
            }
        }
    }

    /// One dimension piece of a glue specification: whitespace, an optional
    /// sign, digits and dots, a unit word, and trailing whitespace.
    pub(crate) fn skip_sign_digits_unit(&mut self)
        ensures
            Detex::reads_frame(*old(self), *final(self)),
            (is_suffix(final(self).top_rem(), old(self).top_rem())),
            (final(self).top_rem() == old(self).top_rem().skip(dim_len(old(self).top_rem()))),
    {
        let ghost pre = *self;
        let ghost rem0 = pre.top_rem();
        proof {
            lemma_reads_frame_refl(pre);
            lemma_suffix_refl(rem0);
            lemma_ws_run_bounds(rem0);
        }
        self.skip_whitespace();
        let ghost t1 = rem0.skip(ws_run(rem0));
        match self.peek_char() {
            Some(c) => {
                if c == '+' || c == '-' {
                    let ghost mid = *self;
                    let _ = self.next_char();
                    proof {
                        lemma_reads_frame_trans(pre, mid, *self);
                        lemma_suffix_trans(self.top_rem(), mid.top_rem(), rem0);
                    }
                }
            },
            None => {},
        }
        let ghost t2 = t1.skip(sign_skip(t1));
        proof {
            assert(self.top_rem() =~= t2);
        }
        let ghost mut k: int = 0;
        proof {
            lemma_digit_dot_run_bounds(t2);
        }
        loop
            invariant
                pre == *old(self),
                rem0 == pre.top_rem(),
                t1 == rem0.skip(ws_run(rem0)),
                t2 == t1.skip(sign_skip(t1)),
                0 <= k <= digit_dot_run(t2),
                Detex::reads_frame(pre, *self),
                (is_suffix(self.top_rem(), rem0)),
                self.top_rem() == t2.skip(k),
                digit_dot_run(t2) == k + digit_dot_run(self.top_rem()),
            ensures
                pre == *old(self),
                Detex::reads_frame(pre, *self),
                (is_suffix(self.top_rem(), rem0)),
                self.top_rem() == t2.skip(digit_dot_run(t2)),
            decreases self.top_rem().len(),
        {
            let ghost cur = *self;
            proof {
                lemma_digit_dot_run_bounds(t2);
            }
            match self.peek_char() {
                Some(c) => {
                    if is_digit(c) || c == '.' {
                        let _ = self.next_char();
                        proof {
                            lemma_reads_frame_trans(pre, cur, *self);
                            lemma_suffix_trans(self.top_rem(), cur.top_rem(), rem0);
                            assert(cur.top_rem() == t2.skip(k));
                            assert(t2.skip(k)[0] == c);
                            lemma_digit_dot_run_bounds(t2.skip(k + 1));
                            assert(self.top_rem() =~= t2.skip(k + 1));
                            k = k + 1;
                        }
                    } else {
                        proof {
                            assert(digit_dot_run(self.top_rem()) == 0);
                        }
                        break;
                    }
                },
                None => {
                    proof {
                        assert(digit_dot_run(self.top_rem()) == 0);
                    }
                    break;
                },
            }
        }
        let ghost t3 = t2.skip(digit_dot_run(t2));
        let ghost mid2 = *self;
        let _ = self.read_command_name();
        proof {
            lemma_reads_frame_trans(pre, mid2, *self);
            lemma_suffix_trans(self.top_rem(), mid2.top_rem(), rem0);
        }
        let ghost t4 = t3.skip(cmd_run(t3));
        let ghost mid3 = *self;
        self.skip_whitespace();
        proof {
            lemma_reads_frame_trans(pre, mid3, *self);
            lemma_suffix_trans(self.top_rem(), mid3.top_rem(), rem0);
            lemma_dim_len_bounds(rem0);
            assert(self.top_rem() == t4.skip(ws_run(t4)));
            assert(self.top_rem() =~= rem0.skip(dim_len(rem0)));
        }
    }

    /// Consumes a balanced brace group (after optional whitespace),
    /// honouring backslash escapes; unbalanced input ends at the end of the
    /// source.
    pub(crate) fn skip_brace_arg(&mut self)
        ensures
            Detex::reads_frame(*old(self), *final(self)),
            (is_suffix(final(self).top_rem(), old(self).top_rem())),
            ({
                let t = old(self).top_rem();
                let w = ws_run(t);
                &&& (w < t.len() && t[w] == '{' ==> final(self).top_rem() == t.skip(
                    w + 1 + brace_scan(t.skip(w + 1), 1),
                ))
                &&& (!(w < t.len() && t[w] == '{') ==> final(self).top_rem() == t.skip(w))
            }),
    {
        let ghost pre = *self;
        let ghost rem0 = pre.top_rem();
        proof {
            lemma_reads_frame_refl(pre);
            lemma_suffix_refl(rem0);
            lemma_ws_run_bounds(rem0);
        }
        self.skip_whitespace();
        let lit_open = str_to_chars("{");
        proof {
            reveal_strlit("{");
            if ws_run(rem0) < rem0.len() && rem0[ws_run(rem0)] == '{' {
                assert(lit_open@.is_prefix_of(self.top_rem())) by {
                    assert(lit_open@ =~= self.top_rem().take(1));
                }
            } else if ws_run(rem0) < rem0.len() {
                assert(!lit_open@.is_prefix_of(self.top_rem())) by {
                    if lit_open@.is_prefix_of(self.top_rem()) {
                        assert(self.top_rem().take(1)[0] == '{');
                    }
                }
            }
        }
        let ghost mid0 = *self;
        let matched = self.try_match(&lit_open);
        proof {
            lemma_reads_frame_trans(pre, mid0, *self);
            lemma_suffix_trans(self.top_rem(), mid0.top_rem(), rem0);
        }
        if matched {
            let ghost t1 = rem0.skip(ws_run(rem0) + 1);
            let ghost mut kk: int = 0;
            proof {
                assert(self.top_rem() =~= t1.skip(0));
                lemma_brace_scan_bounds(t1, 1);
            }
            let mut depth: u64 = 1;
            while depth > 0
                invariant
                    pre == *old(self),
                    rem0 == pre.top_rem(),
                    t1 == rem0.skip(ws_run(rem0) + 1),
                    ws_run(rem0) + 1 <= rem0.len(),
                    rem0[ws_run(rem0)] == '{',
                    0 <= kk <= t1.len(),
                    Detex::reads_frame(pre, *self),
                    (is_suffix(self.top_rem(), rem0)),
                    self.top_rem() == t1.skip(kk),
                    (brace_scan(t1, 1) == kk + brace_scan(self.top_rem(), depth as int)),
                ensures
                    pre == *old(self),
                    Detex::reads_frame(pre, *self),
                    (is_suffix(self.top_rem(), rem0)),
                    self.top_rem() == t1.skip(brace_scan(t1, 1)),
                decreases self.top_rem().len(), depth,
            {
                let ghost cur = *self;
                match self.next_char() {
                    Some(c) => {
                        proof {
                            lemma_reads_frame_trans(pre, cur, *self);
                            lemma_suffix_trans(self.top_rem(), cur.top_rem(), rem0);
                            assert(cur.top_rem() == t1.skip(kk));
                            assert(t1.skip(kk)[0] == c);
                            assert(self.top_rem() =~= t1.skip(kk + 1));
                            lemma_brace_scan_bounds(t1.skip(kk + 1), depth as int);
                        }
                        if c == '{' {
                            proof {
                                assert(brace_scan(cur.top_rem(), depth as int) == 1 + brace_scan(
                                    self.top_rem(),
                                    if (depth as int) < 0xffff_ffff_ffff_ffff {
                                        depth as int + 1
                                    } else {
                                        depth as int
                                    },
                                ));
                                kk = kk + 1;
                            }
                            if depth < u64::MAX {
                                depth = depth + 1;
                            }
                        } else if c == '}' {
                            proof {
                                assert(brace_scan(cur.top_rem(), depth as int) == 1 + brace_scan(
                                    self.top_rem(),
                                    depth as int - 1,
                                ));
                                kk = kk + 1;
                            }
                            depth = depth - 1;
                        } else if c == '\\' {
                            let ghost cur2 = *self;
                            let ch = self.next_char();
                            proof {
                                lemma_reads_frame_trans(pre, cur2, *self);
                                lemma_suffix_trans(self.top_rem(), cur2.top_rem(), rem0);
                                if cur2.top_rem().len() > 0 {
                                    assert(cur.top_rem().len() >= 2);
                                    assert(self.top_rem() =~= cur.top_rem().skip(2));
                                    assert(brace_scan(cur.top_rem(), depth as int) == 2 + brace_scan(
                                        self.top_rem(),
                                        depth as int,
                                    ));
                                    assert(self.top_rem() =~= t1.skip(kk + 2));
                                    kk = kk + 2;
                                } else {
                                    assert(brace_scan(cur.top_rem(), depth as int) == 1);
                                    assert(self.top_rem().len() == 0);
                                    kk = kk + 1;
                                }
                            }
                            if ch == Some('\n') {
                                self.at_column_zero = true;
                            }
                        } else {
                            proof {
                                assert(brace_scan(cur.top_rem(), depth as int) == 1 + brace_scan(
                                    self.top_rem(),
                                    depth as int,
                                ));
                                kk = kk + 1;
                            }
                            if c == '\n' {
                                self.at_column_zero = true;
                            }
                        }
                    },
                    None => {
                        proof {
                            lemma_reads_frame_trans(pre, cur, *self);
                            assert(brace_scan(self.top_rem(), depth as int) == 0);
                            lemma_ws_run_bounds(rem0);
                            assert(self.top_rem() =~= rem0.skip(
                                ws_run(rem0) + 1 + brace_scan(t1, 1),
                            ));
                        }
                        return;
                    },
                }
            }
            proof {
                lemma_ws_run_bounds(rem0);
                lemma_brace_scan_bounds(t1, 1);
                assert(self.top_rem() =~= rem0.skip(ws_run(rem0) + 1 + brace_scan(t1, 1)));
            }
        }
    }

    /// Consumes a balanced bracket group when one follows, honouring
    /// backslash escapes.
    pub(crate) fn skip_optional_bracket_arg(&mut self)
        ensures
            Detex::reads_frame(*old(self), *final(self)),
            (is_suffix(final(self).top_rem(), old(self).top_rem())),
            (!(old(self).top_rem().len() > 0 && old(self).top_rem()[0] == '[') ==> *final(self)
                == *old(self)),
            (old(self).top_rem().len() > 0 && old(self).top_rem()[0] == '[' ==> final(self).top_rem() == old(self).top_rem().skip(
                1 + bracket_scan(old(self).top_rem().skip(1), 1),
            ) && final(self).top_rem().len() < old(self).top_rem().len()),
    {
        let ghost pre = *self;
        let ghost rem0 = pre.top_rem();
        proof {
            lemma_reads_frame_refl(pre);
            lemma_suffix_refl(rem0);
        }
        let p = self.peek_char();
        if p != Some('[') {
            return;
        }
        let ghost mid0 = *self;
        let _ = self.next_char();
        proof {
            lemma_suffix_trans(self.top_rem(), mid0.top_rem(), rem0);
        }
        let ghost t1 = rem0.skip(1);
        let ghost mut kk: int = 0;
        proof {
            assert(self.top_rem() =~= t1.skip(0));
            lemma_bracket_scan_bounds(t1, 1);
        }
        let mut depth: u64 = 1;
        while depth > 0
            invariant
                pre == *old(self),
                rem0 == pre.top_rem(),
                rem0.len() > 0 && rem0[0] == '[',
                t1 == rem0.skip(1),
                0 <= kk <= t1.len(),
                Detex::reads_frame(pre, *self),
                (is_suffix(self.top_rem(), rem0)),
                self.top_rem() == t1.skip(kk),
                (bracket_scan(t1, 1) == kk + bracket_scan(self.top_rem(), depth as int)),
            ensures
                pre == *old(self),
                rem0.len() > 0 && rem0[0] == '[',
                Detex::reads_frame(pre, *self),
                (is_suffix(self.top_rem(), rem0)),
                self.top_rem() == t1.skip(bracket_scan(t1, 1)),
            decreases self.top_rem().len(), depth,
        {
            let ghost cur = *self;
            match self.next_char() {
                Some(c) => {
                    proof {
                        lemma_reads_frame_trans(pre, cur, *self);
                        lemma_suffix_trans(self.top_rem(), cur.top_rem(), rem0);
                        assert(cur.top_rem() == t1.skip(kk));
                        assert(t1.skip(kk)[0] == c);
                        assert(self.top_rem() =~= t1.skip(kk + 1));
                        lemma_bracket_scan_bounds(t1.skip(kk + 1), depth as int);
                    }
                    if c == '[' {
                        proof {
                            assert(bracket_scan(cur.top_rem(), depth as int) == 1 + bracket_scan(
                                self.top_rem(),
                                if (depth as int) < 0xffff_ffff_ffff_ffff {
                                    depth as int + 1
                                } else {
                                    depth as int
                                },
                            ));
                            kk = kk + 1;
                        }
                        if depth < u64::MAX {
                            depth = depth + 1;
                        }
                    } else if c == ']' {
                        proof {
                            assert(bracket_scan(cur.top_rem(), depth as int) == 1 + bracket_scan(
                                self.top_rem(),
                                depth as int - 1,
                            ));
                            kk = kk + 1;
                        }
                        depth = depth - 1;
                    } else if c == '\\' {
                        let ghost cur2 = *self;
                        let ch = self.next_char();
                        proof {
                            lemma_reads_frame_trans(pre, cur2, *self);
                            lemma_suffix_trans(self.top_rem(), cur2.top_rem(), rem0);
                            if cur2.top_rem().len() > 0 {
                                assert(cur.top_rem().len() >= 2);
                                assert(self.top_rem() =~= cur.top_rem().skip(2));
                                assert(bracket_scan(cur.top_rem(), depth as int) == 2
                                    + bracket_scan(self.top_rem(), depth as int));
                                assert(self.top_rem() =~= t1.skip(kk + 2));
                                kk = kk + 2;
                            } else {
                                assert(bracket_scan(cur.top_rem(), depth as int) == 1);
                                assert(self.top_rem().len() == 0);
                                kk = kk + 1;
                            }
                        }
                        if ch == Some('\n') {
                            self.at_column_zero = true;
                        }
                    } else {
                        proof {
                            assert(bracket_scan(cur.top_rem(), depth as int) == 1 + bracket_scan(
                                self.top_rem(),
                                depth as int,
                            ));
                            kk = kk + 1;
                        }
                        if c == '\n' {
                            self.at_column_zero = true;
                        }
                    }
                },
                None => {
                    proof {
                        lemma_reads_frame_trans(pre, cur, *self);
                        assert(bracket_scan(self.top_rem(), depth as int) == 0);
                    }
                    return;
                },
            }
        }
        proof {
            lemma_bracket_scan_bounds(t1, 1);
            assert(self.top_rem() =~= rem0.skip(1 + bracket_scan(t1, 1)));
        }
    }
}

/// Options evolve reflexively.
pub(crate) proof fn lemma_opts_evolve_refl(o: Options)
    ensures
        Detex::opts_evolve(o, o),
{
    lemma_prefix_refl(o.include_list@);
}

/// A step that keeps the stack's shape (only the top source may differ)
/// and grows output and diagnostics is a processing step.
pub(crate) proof fn lemma_step_shape(pre: Detex, post: Detex)
    requires
        Detex::opts_evolve(pre.opts, post.opts),
        post.files == pre.files,
        pre.output@.is_prefix_of(post.output@),
        pre.diags_seq().is_prefix_of(post.diags_seq()),
        post.file_stack@.len() == pre.file_stack@.len(),
        pre.file_stack@.len() > 0 ==> post.file_stack@ == pre.file_stack@.update(
            pre.file_stack@.len() - 1,
            post.file_stack@.last(),
        ) && post.file_stack@.last().name == pre.file_stack@.last().name,
    ensures
        Detex::step_frame(pre, post),
{
    if pre.file_stack@.len() > 0 {
        assert(post.file_stack@.take(pre.file_stack@.len() - 1) =~= pre.file_stack@.take(
            pre.file_stack@.len() - 1,
        ));
        assert(post.file_stack@[pre.file_stack@.len() - 1] == post.file_stack@.last());
    }
}

/// A pure read after output-extending steps keeps the extended frame.
pub(crate) proof fn lemma_rfo_step(a: Detex, b: Detex, c: Detex)
    requires
        Detex::reads_frame_out(a, b),
        Detex::reads_frame(b, c),
    ensures
        Detex::reads_frame_out(a, c),
{
    assert(c == Detex {
        file_stack: c.file_stack,
        at_column_zero: c.at_column_zero,
        output: c.output,
        ..a
    });
    if a.file_stack@.len() > 0 {
        assert(c.file_stack@ =~= a.file_stack@.update(
            a.file_stack@.len() - 1,
            c.file_stack@.last(),
        ));
    }
}

/// Powers of a positive base are positive.
pub proof fn lemma_pow_pos(b: nat, e: nat)
    requires
        b >= 1,
    ensures
        pow_b(b, e) >= 1,
    decreases e,
{
    if e > 0 {
        lemma_pow_pos(b, (e - 1) as nat);
        assert(b * pow_b(b, (e - 1) as nat) >= 1) by (nonlinear_arith)
            requires
                b >= 1,
                pow_b(b, (e - 1) as nat) >= 1,
        ;
    }
}

/// Replacing the top source with one whose remainder is no longer keeps
/// the potential in order; strictly shorter means strictly smaller.
pub(crate) proof fn lemma_pot_update(stack: Seq<FileContext>, e: FileContext, b: nat)
    requires
        stack.len() > 0,
        b >= 2,
    ensures
        e.source.remaining().len() < stack.last().source.remaining().len() ==> stack_pot(
            stack.update(stack.len() - 1, e),
            b,
        ) < stack_pot(stack, b),
        e.source.remaining().len() == stack.last().source.remaining().len() ==> stack_pot(
            stack.update(stack.len() - 1, e),
            b,
        ) == stack_pot(stack, b),
{
    let n = stack.len() as int;
    let s2 = stack.update(n - 1, e);
    assert(s2.drop_last() =~= stack.drop_last());
    assert(s2.last() == e);
    let w = depth_weight(b, n - 1);
    assert(w >= 1) by {
        if 0 <= n - 1 <= MAX_FILE_STACK {
            lemma_pow_pos(b, (MAX_FILE_STACK + 1 - (n - 1)) as nat);
        }
    }
    if e.source.remaining().len() < stack.last().source.remaining().len() {
        assert(e.source.remaining().len() * w < stack.last().source.remaining().len() * w)
            by (nonlinear_arith)
            requires
                w >= 1,
                e.source.remaining().len() < stack.last().source.remaining().len(),
        ;
    }
}

/// Popping an exhausted source keeps the potential.
pub(crate) proof fn lemma_pot_pop(stack: Seq<FileContext>, b: nat)
    requires
        stack.len() > 0,
        stack.last().source.remaining().len() == 0,
    ensures
        stack_pot(stack.drop_last(), b) == stack_pot(stack, b),
{
}

/// A step that makes progress drives the lexicographic measure of
/// potential, stack depth and state rank strictly down.
pub(crate) proof fn lemma_progress_decreases(pre: Detex, post: Detex, b: nat)
    requires
        spec_progress(pre, post),
        b >= max_content_len(pre.store()) + 2,
    ensures
        stack_pot(post.file_stack@, b) < stack_pot(pre.file_stack@, b) || (stack_pot(
            post.file_stack@,
            b,
        ) == stack_pot(pre.file_stack@, b) && post.file_stack@.len() == pre.file_stack@.len()
            && state_rank(post.state) < state_rank(pre.state)),
{
    let n = pre.file_stack@.len() as int;
    if post.file_stack@.len() == pre.file_stack@.len() && pre.file_stack@.len() > 0
        && post.file_stack@ == pre.file_stack@.update(n - 1, post.file_stack@.last()) {
        // the stack kept its shape: the top either shrank or stayed
        lemma_pot_update(pre.file_stack@, post.file_stack@.last(), b);
        if post.top_rem().len() >= pre.top_rem().len() {
            assert(post.top_rem() == pre.top_rem());
            assert(post.file_stack@.last().source.remaining().len()
                == pre.file_stack@.last().source.remaining().len());
        }
    } else {
        // one source was opened on top of a shrunken old top
        assert(post.file_stack@.len() == n + 1);
        let mid = post.file_stack@.drop_last();
        assert(mid.len() == n);
        assert(mid =~= pre.file_stack@.update(n - 1, post.file_stack@[n - 1])) by {
            assert(forall|i: int| 0 <= i < n - 1 ==> mid[i] == post.file_stack@.take(n - 1)[i]);
            assert(forall|i: int| 0 <= i < n - 1 ==> #[trigger] post.file_stack@.take(n - 1)[i]
                == pre.file_stack@.take(n - 1)[i]);
        }
        lemma_pot_update(pre.file_stack@, post.file_stack@[n - 1], b);
        assert(mid.last() == post.file_stack@[n - 1]);
        assert(stack_pot(mid, b) < stack_pot(pre.file_stack@, b));
        // the new top weighs so little that the whole sum still falls
        let wn = depth_weight(b, n);
        let wn1 = depth_weight(b, n - 1);
        assert(stack_pot(post.file_stack@, b) == stack_pot(mid, b)
            + post.top_rem().len() * wn) by {
            assert(post.file_stack@.last().source.remaining() == post.top_rem());
        }
        assert(0 <= n - 1 <= MAX_FILE_STACK && 0 <= n <= MAX_FILE_STACK);
        assert(wn1 == b * wn) by {
            assert(pow_b(b, (MAX_FILE_STACK + 1 - (n - 1)) as nat) == b * pow_b(
                b,
                (MAX_FILE_STACK + 1 - n) as nat,
            ));
        }
        lemma_pow_pos(b, (MAX_FILE_STACK + 1 - n) as nat);
        // the step consumed at least one character at the old depth, which
        // outweighs any stored document at the new depth
        let old_top = pre.file_stack@.last().source.remaining().len();
        let new_top = post.file_stack@[n - 1].source.remaining().len();
        assert(stack_pot(pre.file_stack@, b) == stack_pot(pre.file_stack@.drop_last(), b)
            + old_top * wn1);
        assert(stack_pot(mid, b) == stack_pot(pre.file_stack@.drop_last(), b) + new_top * wn1)
            by {
            assert(mid.drop_last() =~= pre.file_stack@.drop_last());
        }
        assert(new_top * wn1 + old_top * wn1 + post.top_rem().len() * wn < old_top * wn1
            + new_top * wn1 + b * wn) by (nonlinear_arith)
            requires
                wn >= 1,
                post.top_rem().len() + 2 <= b,
        ;
        assert(new_top * wn1 + post.top_rem().len() * wn < old_top * wn1) by (nonlinear_arith)
            requires
                wn >= 1,
                wn1 == b * wn,
                new_top < old_top,
                post.top_rem().len() + 2 <= b,
        ;
    }
}

/// Frame of a whole processing run: the stack may grow and shrink freely,
/// but the options only evolve, the store stays, and output and
/// diagnostics only grow.
pub(crate) open spec fn run_frame(pre: Detex, post: Detex) -> bool {
    &&& Detex::opts_evolve(pre.opts, post.opts)
    &&& post.files == pre.files
    &&& pre.output@.is_prefix_of(post.output@)
    &&& pre.diags_seq().is_prefix_of(post.diags_seq())
}

/// The run frame is reflexive.
pub(crate) proof fn lemma_run_frame_refl(a: Detex)
    ensures
        run_frame(a, a),
{
    lemma_opts_evolve_refl(a.opts);
    lemma_prefix_refl(a.output@);
    lemma_prefix_refl(a.diags_seq());
}

/// A processing step is also a run step, and run frames compose.
pub(crate) proof fn lemma_run_frame_step(a: Detex, b: Detex, c: Detex)
    requires
        run_frame(a, b),
        Detex::step_frame(b, c),
    ensures
        run_frame(a, c),
{
    lemma_prefix_trans(a.output@, b.output@, c.output@);
    lemma_prefix_trans(a.diags_seq(), b.diags_seq(), c.diags_seq());
    lemma_prefix_trans(a.opts.include_list@, b.opts.include_list@, c.opts.include_list@);
}

/// How many characters a balanced-group scan consumes from `s`, starting
/// `depth` groups deep: braces adjust the depth (the counter stops at the
/// machine bound), a backslash shields the next character, and the scan
/// ends on balance or at the end of the input.
pub open spec fn brace_scan(s: Seq<char>, depth: int) -> int
    decreases s.len(),
{
    if depth <= 0 || s.len() == 0 {
        0
    } else if s[0] == '{' {
        1 + brace_scan(s.skip(1), if depth < 0xffff_ffff_ffff_ffff { depth + 1 } else { depth })
    } else if s[0] == '}' {
        1 + brace_scan(s.skip(1), depth - 1)
    } else if s[0] == '\\' {
        if s.len() >= 2 {
            2 + brace_scan(s.skip(2), depth)
        } else {
            1
        }
    } else {
        1 + brace_scan(s.skip(1), depth)
    }
}

pub proof fn lemma_brace_scan_bounds(s: Seq<char>, depth: int)
    ensures
        0 <= brace_scan(s, depth) <= s.len(),
    decreases s.len(),
{
    if depth <= 0 || s.len() == 0 {
    } else if s[0] == '{' {
        lemma_brace_scan_bounds(
            s.skip(1),
            if depth < 0xffff_ffff_ffff_ffff {
                depth + 1
            } else {
                depth
            },
        );
    } else if s[0] == '}' {
        lemma_brace_scan_bounds(s.skip(1), depth - 1);
    } else if s[0] == '\\' {
        if s.len() >= 2 {
            lemma_brace_scan_bounds(s.skip(2), depth);
        }
    } else {
        lemma_brace_scan_bounds(s.skip(1), depth);
    }
}

/// The bracket form of the balanced-group scan.
pub open spec fn bracket_scan(s: Seq<char>, depth: int) -> int
    decreases s.len(),
{
    if depth <= 0 || s.len() == 0 {
        0
    } else if s[0] == '[' {
        1 + bracket_scan(s.skip(1), if depth < 0xffff_ffff_ffff_ffff { depth + 1 } else { depth })
    } else if s[0] == ']' {
        1 + bracket_scan(s.skip(1), depth - 1)
    } else if s[0] == '\\' {
        if s.len() >= 2 {
            2 + bracket_scan(s.skip(2), depth)
        } else {
            1
        }
    } else {
        1 + bracket_scan(s.skip(1), depth)
    }
}

pub proof fn lemma_bracket_scan_bounds(s: Seq<char>, depth: int)
    ensures
        0 <= bracket_scan(s, depth) <= s.len(),
    decreases s.len(),
{
    if depth <= 0 || s.len() == 0 {
    } else if s[0] == '[' {
        lemma_bracket_scan_bounds(
            s.skip(1),
            if depth < 0xffff_ffff_ffff_ffff {
                depth + 1
            } else {
                depth
            },
        );
    } else if s[0] == ']' {
        lemma_bracket_scan_bounds(s.skip(1), depth - 1);
    } else if s[0] == '\\' {
        if s.len() >= 2 {
            lemma_bracket_scan_bounds(s.skip(2), depth);
        }
    } else {
        lemma_bracket_scan_bounds(s.skip(1), depth);
    }
}

/// Length of the leading run of digits and dots in a dimension.
pub open spec fn digit_dot_run(s: Seq<char>) -> int
    decreases s.len(),
{
    if s.len() > 0 && (crate::chars::spec_is_digit(s[0]) || s[0] == '.') {
        1 + digit_dot_run(s.skip(1))
    } else {
        0
    }
}

pub proof fn lemma_digit_dot_run_bounds(s: Seq<char>)
    ensures
        0 <= digit_dot_run(s) <= s.len(),
    decreases s.len(),
{
    if s.len() > 0 && (crate::chars::spec_is_digit(s[0]) || s[0] == '.') {
        lemma_digit_dot_run_bounds(s.skip(1));
    }
}

/// One optional leading sign of a dimension.
pub open spec fn sign_skip(s: Seq<char>) -> int {
    if s.len() > 0 && (s[0] == '+' || s[0] == '-') {
        1
    } else {
        0
    }
}

/// How many characters one dimension piece of a glue specification
/// consumes: whitespace, an optional sign, digits and dots, a unit word,
/// and trailing whitespace.
pub open spec fn dim_len(s: Seq<char>) -> int {
    let a = ws_run(s);
    let s1 = s.skip(a);
    let b = sign_skip(s1);
    let s2 = s1.skip(b);
    let c = digit_dot_run(s2);
    let s3 = s2.skip(c);
    let d = cmd_run(s3);
    let s4 = s3.skip(d);
    a + b + c + d + ws_run(s4)
}

pub proof fn lemma_dim_len_bounds(s: Seq<char>)
    ensures
        0 <= dim_len(s) <= s.len(),
        (s.skip(ws_run(s)).skip(sign_skip(s.skip(ws_run(s)))).skip(
            digit_dot_run(s.skip(ws_run(s)).skip(sign_skip(s.skip(ws_run(s))))),
        ).skip(
            cmd_run(
                s.skip(ws_run(s)).skip(sign_skip(s.skip(ws_run(s)))).skip(
                    digit_dot_run(s.skip(ws_run(s)).skip(sign_skip(s.skip(ws_run(s))))),
                ),
            ),
        ).skip(
            ws_run(
                s.skip(ws_run(s)).skip(sign_skip(s.skip(ws_run(s)))).skip(
                    digit_dot_run(s.skip(ws_run(s)).skip(sign_skip(s.skip(ws_run(s))))),
                ).skip(
                    cmd_run(
                        s.skip(ws_run(s)).skip(sign_skip(s.skip(ws_run(s)))).skip(
                            digit_dot_run(s.skip(ws_run(s)).skip(sign_skip(s.skip(ws_run(s))))),
                        ),
                    ),
                ),
            ),
        ) =~= s.skip(dim_len(s))),
{
    lemma_ws_run_bounds(s);
    let s1 = s.skip(ws_run(s));
    let s2 = s1.skip(sign_skip(s1));
    lemma_digit_dot_run_bounds(s2);
    let s3 = s2.skip(digit_dot_run(s2));
    lemma_cmd_run_bounds(s3);
    let s4 = s3.skip(cmd_run(s3));
    lemma_ws_run_bounds(s4);
    assert(s4.skip(ws_run(s4)) =~= s.skip(dim_len(s)));
}

/// How many characters the stretch and shrink clauses of a glue
/// specification consume: each `plus` or `minus` keyword followed by one
/// dimension piece, as many times as they repeat.  (The clamps only guard
/// definedness; the bounds lemmas show they never apply.)
pub open spec fn glue_tail(s: Seq<char>) -> int
    decreases s.len(),
{
    if s.len() >= 4 && s.take(4) == "plus"@ {
        let d0 = dim_len(s.skip(4));
        let d = if 0 <= d0 <= s.len() - 4 {
            d0
        } else {
            0
        };
        4 + d + glue_tail(s.skip(4 + d))
    } else if s.len() >= 5 && s.take(5) == "minus"@ {
        let d0 = dim_len(s.skip(5));
        let d = if 0 <= d0 <= s.len() - 5 {
            d0
        } else {
            0
        };
        5 + d + glue_tail(s.skip(5 + d))
    } else {
        0
    }
}

pub proof fn lemma_glue_tail_bounds(s: Seq<char>)
    ensures
        0 <= glue_tail(s) <= s.len(),
    decreases s.len(),
{
    if s.len() >= 4 && s.take(4) == "plus"@ {
        lemma_dim_len_bounds(s.skip(4));
        lemma_glue_tail_bounds(s.skip(4 + dim_len(s.skip(4))));
    } else if s.len() >= 5 && s.take(5) == "minus"@ {
        lemma_dim_len_bounds(s.skip(5));
        lemma_glue_tail_bounds(s.skip(5 + dim_len(s.skip(5))));
    }
}

/// How many characters a whole glue specification consumes: one dimension
/// piece and the stretch and shrink clauses after it.
pub open spec fn glue_scan(s: Seq<char>) -> int {
    dim_len(s) + glue_tail(s.skip(dim_len(s)))
}

} // verus!
