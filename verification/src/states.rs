//! The per-state token consumers of the lexer state machine.
//!
//! Each `process_*` method handles one step in its state: it reads exactly
//! the characters of one construct, writes what that construct emits, and
//! moves to the next state.  Every step keeps the processing frame
//! (`step_frame`) and makes progress (`spec_progress`): it either consumes
//! input, or moves toward the plain-text state.

use vstd::prelude::*;
use crate::chars::{is_alpha, is_digit, is_ws, spec_is_alpha, ws_run, cmd_run, str_to_chars};
use crate::lexer::{Detex, DetexError, FileContext, State, lemma_opts_evolve_refl, lemma_prefix_refl, lemma_prefix_push,
    lemma_reads_frame_refl, lemma_reads_frame_trans, lemma_step_shape, spec_progress, state_rank,
    lemma_lookup_bounded, max_content_len, store_lookup, DiagView};
use crate::config::{MAX_FILE_STACK, Options};

verus! {

/// The relational math commands that may become a grammar placeholder.
pub(crate) fn is_verb_symbol(cmd: &Vec<char>) -> (r: bool)
    ensures
        r == spec_is_verb_symbol(cmd@),
{
    let names = ["leq", "geq", "in", "subseteq", "subset", "supset", "sim", "neq", "mapsto"];
    proof {
        reveal_strlit("leq");
        reveal_strlit("geq");
        reveal_strlit("in");
        reveal_strlit("subseteq");
        reveal_strlit("subset");
        reveal_strlit("supset");
        reveal_strlit("sim");
        reveal_strlit("neq");
        reveal_strlit("mapsto");
    }
    let c0 = str_to_chars(names[0]);
    if crate::chars::chars_eq(cmd, &c0) {
        return true;
    }
    let c1 = str_to_chars(names[1]);
    if crate::chars::chars_eq(cmd, &c1) {
        return true;
    }
    let c2 = str_to_chars(names[2]);
    if crate::chars::chars_eq(cmd, &c2) {
        return true;
    }
    let c3 = str_to_chars(names[3]);
    if crate::chars::chars_eq(cmd, &c3) {
        return true;
    }
    let c4 = str_to_chars(names[4]);
    if crate::chars::chars_eq(cmd, &c4) {
        return true;
    }
    let c5 = str_to_chars(names[5]);
    if crate::chars::chars_eq(cmd, &c5) {
        return true;
    }
    let c6 = str_to_chars(names[6]);
    if crate::chars::chars_eq(cmd, &c6) {
        return true;
    }
    let c7 = str_to_chars(names[7]);
    if crate::chars::chars_eq(cmd, &c7) {
        return true;
    }
    let c8 = str_to_chars(names[8]);
    if crate::chars::chars_eq(cmd, &c8) {
        return true;
    }
    false
}

/// The command names of the relational math symbols.
pub open spec fn spec_is_verb_symbol(cmd: Seq<char>) -> bool {
    ||| cmd == "leq"@
    ||| cmd == "geq"@
    ||| cmd == "in"@
    ||| cmd == "subseteq"@
    ||| cmd == "subset"@
    ||| cmd == "supset"@
    ||| cmd == "sim"@
    ||| cmd == "neq"@
    ||| cmd == "mapsto"@
}

impl Detex {
    /// Checks a consumed character for a relational math symbol (after a
    /// backslash, the following command name) and writes the grammar
    /// placeholder when one matches.
    pub(crate) fn check_verb_symbol(&mut self, c: char)
        ensures
            Detex::reads_frame_out(*old(self), *final(self)),
            (crate::chars::is_suffix(final(self).top_rem(), old(self).top_rem())),
            !old(self).opts_spec().replace ==> final(self).output@ == old(self).output@,
            (final(self).output@ == old(self).output@ || final(self).output@ == old(self).output@
                + Detex::spec_verb_noun(old(self).opts_spec())),
    {
        let ghost pre = *self;
        proof {
            lemma_reads_frame_refl(pre);
            crate::chars::lemma_suffix_refl(pre.top_rem());
        }
        if c == '=' || c == '>' || c == '<' {
            self.verb_noun();
        } else if c == '\\' {
            let cmd = self.read_command_name();
            if is_verb_symbol(&cmd) {
                self.verb_noun();
            }
        }
    }

    /// One step while waiting for the opening brace of a definition body:
    /// the brace returns to plain text, everything else is discarded.
    pub(crate) fn process_define(&mut self)
        requires
            old(self).stack_len() > 0,
            old(self).top_rem().len() > 0,
        ensures
            Detex::step_frame(*old(self), *final(self)),
            (spec_progress(*old(self), *final(self))),
            final(self).top_rem() == old(self).top_rem().skip(1),
            (old(self).top_rem()[0] == '{' ==> final(self).state == State::Normal && final(self).output@ == old(self).output@),
            (old(self).top_rem()[0] == '\n' && !old(self).opts_spec().word && !old(self).opts_spec().src_loc ==> final(self).output@ == old(self).output@ + seq!['\n']
                && final(self).state == old(self).state),
            (old(self).top_rem()[0] != '{' && old(self).top_rem()[0] != '\n' ==> final(self).output@ == old(self).output@ && final(self).state == old(self).state),
    {
        match self.next_char() {
            Some('{') => {
                self.state = State::Normal;
            },
            Some('\n') => {
                self.newline();
            },
            _ => {},
        }
        proof {
            assert(old(self).output@.is_prefix_of(self.output@)) by {
                assert(self.output@.take(old(self).output@.len() as int) =~= old(self).output@);
            }
            self.finish_consuming_step(*old(self));
        }
    }

    /// One step inside dollar-dollar display math: a second double dollar
    /// returns to plain text, newlines are kept, relational symbols may
    /// become placeholders, everything else is discarded.
    pub(crate) fn process_display(&mut self)
        requires
            old(self).stack_len() > 0,
            old(self).top_rem().len() > 0,
        ensures
            Detex::step_frame(*old(self), *final(self)),
            (spec_progress(*old(self), *final(self))),
            // a second double dollar ends display math
            (old(self).top_rem().len() >= 2 && old(self).top_rem()[0] == '$' && old(self).top_rem()[1] == '$' ==> final(self).state == State::Normal && final(self).top_rem()
                == old(self).top_rem().skip(2) && final(self).output@ == old(self).output@),
            // display math keeps newlines, unlike inline math
            (old(self).top_rem()[0] == '\n' && !old(self).opts_spec().word && !old(self).opts_spec().src_loc ==> final(self).state == old(self).state && final(self).top_rem()
                == old(self).top_rem().skip(1) && final(self).output@ == old(self).output@
                + seq!['\n']),
            // everything else writes nothing but the grammar placeholder
            (old(self).top_rem()[0] != '\n' ==> (final(self).output@ == old(self).output@ || (
            final(self).output@ == old(self).output@ + Detex::spec_verb_noun(
                old(self).opts_spec(),
            )))),
            (!old(self).opts_spec().replace && old(self).top_rem()[0] != '\n' ==> final(self).output@ == old(self).output@),
    {
        let ghost pre = *self;
        match self.next_char() {
            Some('$') => {
                if self.peek_char() == Some('$') {
                    let _ = self.next_char();
                    self.state = State::Normal;
                    proof {
                        assert(self.top_rem() =~= pre.top_rem().skip(2));
                    }
                } else {
                    self.check_verb_symbol('$');
                }
            },
            Some('\n') => {
                self.newline();
            },
            Some(c) => {
                self.check_verb_symbol(c);
            },
            None => {},
        }
        proof {
            assert(old(self).output@.is_prefix_of(self.output@)) by {
                assert(self.output@.take(old(self).output@.len() as int) =~= old(self).output@);
            }
            self.finish_consuming_step(*old(self));
        }
    }

    /// One step inside single-dollar inline math: the closing dollar
    /// returns to plain text, an escaped dollar is skipped, newlines are
    /// swallowed, relational symbols may become placeholders.
    pub(crate) fn process_math(&mut self)
        requires
            old(self).stack_len() > 0,
            old(self).top_rem().len() > 0,
        ensures
            Detex::step_frame(*old(self), *final(self)),
            (spec_progress(*old(self), *final(self))),
            // inline math writes nothing but the grammar placeholder
            (final(self).output@ == old(self).output@ || final(self).output@ == old(self).output@
                + Detex::spec_verb_noun(old(self).opts_spec())),
            !old(self).opts_spec().replace ==> final(self).output@ == old(self).output@,
            (old(self).top_rem()[0] == '$' ==> final(self).state == State::Normal && final(self).top_rem() == old(self).top_rem().skip(1) && final(self).output@ == old(self).output@),
            // an escaped dollar is a literal inside math, not a terminator
            (old(self).top_rem()[0] == '\\' && old(self).top_rem().len() >= 2 && old(self).top_rem()[1] == '$' ==> final(self).state == old(self).state && final(self).top_rem()
                == old(self).top_rem().skip(2) && final(self).output@ == old(self).output@),
            // newlines are swallowed, not echoed
            (old(self).top_rem()[0] == '\n' ==> final(self).state == old(self).state && final(self).top_rem() == old(self).top_rem().skip(1) && final(self).output@ == old(self).output@),
    {
        let ghost pre = *self;
        match self.next_char() {
            Some('$') => {
                self.state = State::Normal;
            },
            Some('\\') => {
                if self.peek_char() == Some('$') {
                    let _ = self.next_char();
                    proof {
                        assert(self.top_rem() =~= pre.top_rem().skip(2));
                    }
                } else {
                    let cmd = self.read_command_name();
                    if is_verb_symbol(&cmd) {
                        self.verb_noun();
                    }
                }
            },
            Some('\n') => {},
            Some(c) => {
                self.check_verb_symbol(c);
            },
            None => {},
        }
        proof {
            assert(old(self).output@.is_prefix_of(self.output@)) by {
                assert(self.output@.take(old(self).output@.len() as int) =~= old(self).output@);
            }
            self.finish_consuming_step(*old(self));
        }
    }

    /// One step inside backslash-bracket display math.
    pub(crate) fn process_la_display(&mut self)
        requires
            old(self).stack_len() > 0,
            old(self).top_rem().len() > 0,
        ensures
            Detex::step_frame(*old(self), *final(self)),
            (spec_progress(*old(self), *final(self))),
            // the closing delimiter returns to plain text
            (old(self).top_rem().len() >= 2 && old(self).top_rem()[0] == '\\' && old(self).top_rem()[1] == ']' ==> final(self).state == State::Normal && final(self).top_rem()
                == old(self).top_rem().skip(2) && final(self).output@ == old(self).output@),
            // newlines are kept; all else writes at most the placeholder
            (old(self).top_rem()[0] == '\n' && !old(self).opts_spec().word && !old(self).opts_spec().src_loc ==> final(self).state == old(self).state && final(self).top_rem()
                == old(self).top_rem().skip(1) && final(self).output@ == old(self).output@
                + seq!['\n']),
            (old(self).top_rem()[0] != '\n' ==> (final(self).output@ == old(self).output@ || (
            final(self).output@ == old(self).output@ + Detex::spec_verb_noun(
                old(self).opts_spec(),
            )))),
    {
        let ghost pre = *self;
        match self.next_char() {
            Some('\\') => {
                let close = str_to_chars("]");
                proof {
                    reveal_strlit("]");
                }
                let ghost mid = *self;
                let matched = self.try_match(&close);
                proof {
                    if pre.top_rem().len() >= 2 && pre.top_rem()[1] == ']' {
                        assert(close@.is_prefix_of(mid.top_rem())) by {
                            assert(close@ =~= mid.top_rem().take(1));
                        }
                        assert(self.top_rem() =~= pre.top_rem().skip(2));
                    }
                }
                if matched {
                    self.state = State::Normal;
                } else {
                    let cmd = self.read_command_name();
                    if is_verb_symbol(&cmd) {
                        self.verb_noun();
                    }
                }
            },
            Some('\n') => {
                self.newline();
            },
            Some(c) => {
                self.check_verb_symbol(c);
            },
            None => {},
        }
        proof {
            assert(old(self).output@.is_prefix_of(self.output@)) by {
                assert(self.output@.take(old(self).output@.len() as int) =~= old(self).output@);
            }
            self.finish_consuming_step(*old(self));
        }
    }

    /// One step inside backslash-parenthesis inline math.
    pub(crate) fn process_la_formula(&mut self)
        requires
            old(self).stack_len() > 0,
            old(self).top_rem().len() > 0,
        ensures
            Detex::step_frame(*old(self), *final(self)),
            (spec_progress(*old(self), *final(self))),
            // the closing delimiter returns to plain text
            (old(self).top_rem().len() >= 2 && old(self).top_rem()[0] == '\\' && old(self).top_rem()[1] == ')' ==> final(self).state == State::Normal && final(self).top_rem()
                == old(self).top_rem().skip(2) && final(self).output@ == old(self).output@),
            // newlines are kept; all else writes at most the placeholder
            (old(self).top_rem()[0] == '\n' && !old(self).opts_spec().word && !old(self).opts_spec().src_loc ==> final(self).state == old(self).state && final(self).top_rem()
                == old(self).top_rem().skip(1) && final(self).output@ == old(self).output@
                + seq!['\n']),
            (old(self).top_rem()[0] != '\n' ==> (final(self).output@ == old(self).output@ || (
            final(self).output@ == old(self).output@ + Detex::spec_verb_noun(
                old(self).opts_spec(),
            )))),
    {
        let ghost pre = *self;
        match self.next_char() {
            Some('\\') => {
                let close = str_to_chars(")");
                proof {
                    reveal_strlit(")");
                }
                let ghost mid = *self;
                let matched = self.try_match(&close);
                proof {
                    if pre.top_rem().len() >= 2 && pre.top_rem()[1] == ')' {
                        assert(close@.is_prefix_of(mid.top_rem())) by {
                            assert(close@ =~= mid.top_rem().take(1));
                        }
                        assert(self.top_rem() =~= pre.top_rem().skip(2));
                    }
                }
                if matched {
                    self.state = State::Normal;
                } else {
                    let cmd = self.read_command_name();
                    if is_verb_symbol(&cmd) {
                        self.verb_noun();
                    }
                }
            },
            Some('\n') => {
                self.newline();
            },
            Some(c) => {
                self.check_verb_symbol(c);
            },
            None => {},
        }
        proof {
            assert(old(self).output@.is_prefix_of(self.output@)) by {
                assert(self.output@.take(old(self).output@.len() as int) =~= old(self).output@);
            }
            self.finish_consuming_step(*old(self));
        }
    }

    /// One step while discarding brace-delimited arguments: braces adjust
    /// the open-brace count, the close of the last argument returns to
    /// plain text, consuming one directly following newline.
    pub(crate) fn process_la_macro(&mut self)
        requires
            old(self).stack_len() > 0,
            old(self).top_rem().len() > 0,
        ensures
            Detex::step_frame(*old(self), *final(self)),
            (spec_progress(*old(self), *final(self))),
            final(self).output@ == old(self).output@,
            (old(self).top_rem()[0] == '[' ==> final(self).state == State::LaOptArg && final(self).top_rem() == old(self).top_rem().skip(1) && final(self).open_braces == old(self).open_braces && final(self).args_count == old(self).args_count),
            (old(self).top_rem()[0] == '{' ==> final(self).state == old(self).state && final(self).top_rem() == old(self).top_rem().skip(1) && final(self).open_braces == (if old(self).open_braces < usize::MAX {
                (old(self).open_braces + 1) as usize
            } else {
                old(self).open_braces
            }) && final(self).args_count == old(self).args_count),
            // the close of the last argument's outermost brace consumes one
            // directly following newline and returns to plain text
            (old(self).top_rem()[0] == '}' ==> {
                let o2 = if old(self).open_braces > 0 {
                    (old(self).open_braces - 1) as usize
                } else {
                    0
                };
                let a2 = if o2 == 0 && old(self).args_count > 0 {
                    (old(self).args_count - 1) as usize
                } else {
                    old(self).args_count
                };
                &&& final(self).open_braces == o2
                &&& final(self).args_count == a2
                &&& (o2 == 0 && a2 == 0 ==> final(self).state == State::Normal && final(self).top_rem() == (if old(self).top_rem().len() >= 2 && old(self).top_rem()[1]
                    == '\n' {
                    old(self).top_rem().skip(2)
                } else {
                    old(self).top_rem().skip(1)
                }))
                &&& (!(o2 == 0 && a2 == 0) ==> final(self).state == old(self).state && final(self).top_rem() == old(self).top_rem().skip(1))
            }),
            (old(self).top_rem()[0] != '[' && old(self).top_rem()[0] != '{' && old(self).top_rem()[0] != '}' ==> final(self).state == old(self).state && final(self).top_rem()
                == old(self).top_rem().skip(1) && final(self).open_braces == old(self).open_braces
                && final(self).args_count == old(self).args_count),
    {
        match self.next_char() {
            Some('[') => {
                self.state = State::LaOptArg;
            },
            Some('{') => {
                if self.open_braces < usize::MAX {
                    self.open_braces = self.open_braces + 1;
                }
            },
            Some('}') => {
                if self.open_braces > 0 {
                    self.open_braces = self.open_braces - 1;
                }
                if self.open_braces == 0 {
                    if self.args_count > 0 {
                        self.args_count = self.args_count - 1;
                    }
                    if self.args_count == 0 {
                        if self.peek_char() == Some('\n') {
                            let _ = self.next_char();
                            self.at_column_zero = true;
                        }
                        self.state = State::Normal;
                    }
                }
            },
            Some('\n') => {
                self.at_column_zero = true;
            },
            _ => {},
        }
        proof {
            assert(old(self).output@.is_prefix_of(self.output@)) by {
                assert(self.output@.take(old(self).output@.len() as int) =~= old(self).output@);
            }
            self.finish_consuming_step(*old(self));
        }
    }

    /// One step inside an optional bracket argument of the discarding
    /// variant: the closing bracket returns to argument consumption.
    pub(crate) fn process_la_opt_arg(&mut self)
        requires
            old(self).stack_len() > 0,
            old(self).top_rem().len() > 0,
        ensures
            Detex::step_frame(*old(self), *final(self)),
            (spec_progress(*old(self), *final(self))),
            final(self).output@ == old(self).output@,
            final(self).top_rem() == old(self).top_rem().skip(1),
            final(self).open_braces == old(self).open_braces,
            final(self).args_count == old(self).args_count,
            final(self).state == (if old(self).top_rem()[0] == ']' {
                State::LaMacro
            } else {
                old(self).state
            }),
    {
        match self.next_char() {
            Some(']') => {
                self.state = State::LaMacro;
            },
            Some('\n') => {
                self.at_column_zero = true;
            },
            _ => {},
        }
        proof {
            assert(old(self).output@.is_prefix_of(self.output@)) by {
                assert(self.output@.take(old(self).output@.len() as int) =~= old(self).output@);
            }
            self.finish_consuming_step(*old(self));
        }
    }

    /// One step while consuming arguments but keeping the last: the
    /// opening brace of the last argument returns to plain text with the
    /// brace content left to be echoed.
    pub(crate) fn process_la_macro2(&mut self)
        requires
            old(self).stack_len() > 0,
            old(self).top_rem().len() > 0,
        ensures
            Detex::step_frame(*old(self), *final(self)),
            (spec_progress(*old(self), *final(self))),
            final(self).output@ == old(self).output@,
            final(self).top_rem() == old(self).top_rem().skip(1),
            (old(self).top_rem()[0] == '[' ==> final(self).state == State::LaOptArg2 && final(self).open_braces == old(self).open_braces && final(self).args_count == old(self).args_count),
            // the opening brace of the last required argument returns to
            // plain text with a zero net brace count, so the argument's own
            // content and closing brace are left visible
            (old(self).top_rem()[0] == '{' && old(self).open_braces == 0 && old(self).args_count
                <= 1 ==> final(self).state == State::Normal && final(self).open_braces == 0
                && final(self).args_count == 0),
            (old(self).top_rem()[0] == '{' && old(self).open_braces == 0 && old(self).args_count
                > 1 ==> final(self).state == old(self).state && final(self).open_braces == 1
                && final(self).args_count == (old(self).args_count - 1) as usize),
            (old(self).top_rem()[0] == '{' && old(self).open_braces > 0 ==> final(self).state
                == old(self).state && final(self).args_count == old(self).args_count && final(self).open_braces == (if old(self).open_braces < usize::MAX {
                (old(self).open_braces + 1) as usize
            } else {
                0
            })),
            (old(self).top_rem()[0] == '}' ==> final(self).state == old(self).state && final(self).args_count == old(self).args_count && final(self).open_braces == (if old(self).open_braces > 0 {
                (old(self).open_braces - 1) as usize
            } else {
                0
            })),
            (old(self).top_rem()[0] != '[' && old(self).top_rem()[0] != '{' && old(self).top_rem()[0] != '}' ==> final(self).state == old(self).state && final(self).open_braces == old(self).open_braces && final(self).args_count == old(self).args_count),
    {
        match self.next_char() {
            Some('[') => {
                self.state = State::LaOptArg2;
            },
            Some('{') => {
                if self.open_braces == 0 {
                    if self.args_count > 0 {
                        self.args_count = self.args_count - 1;
                    }
                    if self.args_count == 0 {
                        self.state = State::Normal;
                        // the keeping variant leaves the final argument's
                        // own brace to be balanced by plain-text scanning
                        self.open_braces = usize::MAX;
                    }
                }
                if self.open_braces < usize::MAX {
                    self.open_braces = self.open_braces + 1;
                } else {
                    self.open_braces = 0;
                }
            },
            Some('}') => {
                if self.open_braces > 0 {
                    self.open_braces = self.open_braces - 1;
                }
            },
            Some('\n') => {
                self.at_column_zero = true;
            },
            _ => {},
        }
        proof {
            assert(old(self).output@.is_prefix_of(self.output@)) by {
                assert(self.output@.take(old(self).output@.len() as int) =~= old(self).output@);
            }
            self.finish_consuming_step(*old(self));
        }
    }

    /// One step inside an optional bracket argument of the keeping
    /// variant.
    pub(crate) fn process_la_opt_arg2(&mut self)
        requires
            old(self).stack_len() > 0,
            old(self).top_rem().len() > 0,
        ensures
            Detex::step_frame(*old(self), *final(self)),
            (spec_progress(*old(self), *final(self))),
            final(self).output@ == old(self).output@,
            final(self).top_rem() == old(self).top_rem().skip(1),
            final(self).open_braces == old(self).open_braces,
            final(self).args_count == old(self).args_count,
            final(self).state == (if old(self).top_rem()[0] == ']' {
                State::LaMacro2
            } else {
                old(self).state
            }),
    {
        match self.next_char() {
            Some(']') => {
                self.state = State::LaMacro2;
            },
            Some('\n') => {
                self.at_column_zero = true;
            },
            _ => {},
        }
        proof {
            assert(old(self).output@.is_prefix_of(self.output@)) by {
                assert(self.output@.take(old(self).output@.len() as int) =~= old(self).output@);
            }
            self.finish_consuming_step(*old(self));
        }
    }

    /// One step while absorbing an ignored environment: everything is
    /// discarded until an end directive begins; output grows only by the
    /// space that the space-replacement flag asks for.
    pub(crate) fn process_la_env(&mut self)
        requires
            old(self).stack_len() > 0,
            old(self).top_rem().len() > 0,
        ensures
            Detex::step_frame(*old(self), *final(self)),
            (spec_progress(*old(self), *final(self))),
            !old(self).opts_spec().space ==> final(self).output@ == old(self).output@,
            // ordinary characters are absorbed one at a time without output
            (old(self).top_rem()[0] != '\\' ==> final(self).top_rem() == old(self).top_rem().skip(
                1,
            ) && final(self).state == old(self).state && final(self).output@ == old(self).output@),
            // the start of an end directive leaves absorption for name
            // parsing (only in LaTeX mode, as everywhere)
            (old(self).top_rem()[0] == '\\' && old(self).top_rem().len() >= 4 && (old(self).top_rem().skip(1).take(3) == "end"@) ==> final(self).top_rem() == old(self).top_rem().skip(4) && final(self).state == (if old(self).opts_spec().spec_is_latex() {
                State::LaEnd
            } else {
                old(self).state
            }) && final(self).output@ == old(self).output@ + Detex::spec_ignore(
                old(self).opts_spec(),
            )),
    {
        let ghost pre = *self;
        match self.peek_char() {
            Some('\\') => {
                let _ = self.next_char();
                let lit_end = str_to_chars("end");
                proof {
                    reveal_strlit("end");
                }
                let ghost mid = *self;
                let matched = self.try_match(&lit_end);
                proof {
                    if pre.top_rem().len() >= 4 && pre.top_rem().skip(1).take(3) == "end"@ {
                        assert(lit_end@.is_prefix_of(mid.top_rem())) by {
                            assert(lit_end@ =~= mid.top_rem().take(3));
                            assert(forall|i: int| 0 <= i < 3 ==> mid.top_rem().take(3)[i]
                                == pre.top_rem().skip(1).take(3)[i]);
                        }
                        assert(self.top_rem() =~= pre.top_rem().skip(4));
                    }
                }
                if matched {
                    self.la_begin(State::LaEnd);
                    self.ignore();
                }
            },
            Some('\n') => {
                let _ = self.next_char();
                self.at_column_zero = true;
            },
            Some(_) => {
                let _ = self.next_char();
            },
            None => {},
        }
        proof {
            assert(old(self).output@.is_prefix_of(self.output@)) by {
                assert(self.output@.take(old(self).output@.len() as int) =~= old(self).output@);
            }
            self.finish_consuming_step(*old(self));
        }
    }

    /// Closes a step that only consumed from the top source, possibly
    /// wrote output, and moved between states without touching the stack
    /// shape, the store, the diagnostics or the options.
    pub(crate) proof fn finish_consuming_step(&self, pre: Detex)
        requires
            pre.file_stack@.len() > 0,
            pre.top_rem().len() > 0,
            self.opts == pre.opts,
            self.files == pre.files,
            self.diags == pre.diags,
            self.file_stack@.len() == pre.file_stack@.len(),
            forall|i: int| 0 <= i < pre.file_stack@.len() - 1 ==> self.file_stack@[i]
                == pre.file_stack@[i],
            self.file_stack@.last().name == pre.file_stack@.last().name,
            self.top_rem().len() < pre.top_rem().len() || (self.top_rem() == pre.top_rem()
                && state_rank(self.state) < state_rank(pre.state)),
            pre.output@.is_prefix_of(self.output@),
        ensures
            Detex::step_frame(pre, *self),
            (spec_progress(pre, *self)),
    {
        lemma_opts_evolve_refl(pre.opts);
        lemma_prefix_refl(pre.diags_seq());
        assert(self.file_stack@ =~= pre.file_stack@.update(
            pre.file_stack@.len() - 1,
            self.file_stack@.last(),
        ));
        lemma_step_shape(pre, *self);
    }
}

impl Detex {
    /// One step of resynchronisation after an unknown control sequence:
    /// a newline or any ordinary character returns to plain text; chained
    /// commands, word-like tails and an opening brace are absorbed.
    pub(crate) fn process_control(&mut self)
        requires
            old(self).stack_len() > 0,
            old(self).top_rem().len() > 0,
            old(self).state == State::Control,
        ensures
            Detex::step_frame(*old(self), *final(self)),
            (spec_progress(*old(self), *final(self))),
            // a newline ends resynchronisation
            (old(self).top_rem()[0] == '\n' ==> final(self).top_rem() == old(self).top_rem().skip(
                1,
            ) && final(self).state == State::Normal && final(self).output@ == old(self).output@
                && final(self).current_braces_level == old(self).current_braces_level),
            // blank space ends it too, counting one directly following brace
            (old(self).top_rem()[0] != '\n' && crate::chars::spec_is_ws(old(self).top_rem()[0])
                ==> {
                let w = ws_run(old(self).top_rem());
                &&& final(self).state == State::Normal
                &&& final(self).output@ == old(self).output@ + Detex::spec_ignore(
                    old(self).opts_spec(),
                )
                &&& (w < old(self).top_rem().len() && old(self).top_rem()[w] == '{' ==> final(self).top_rem() == old(self).top_rem().skip(w + 1) && final(self).current_braces_level
                    == (if old(self).current_braces_level < usize::MAX {
                    (old(self).current_braces_level + 1) as usize
                } else {
                    old(self).current_braces_level
                }))
                &&& (!(w < old(self).top_rem().len() && old(self).top_rem()[w] == '{') ==> final(self).top_rem() == old(self).top_rem().skip(w) && final(self).current_braces_level
                    == old(self).current_braces_level)
            }),
            (old(self).top_rem()[0] == '{' ==> final(self).top_rem() == old(self).top_rem().skip(1)
                && final(self).state == State::Normal && final(self).current_braces_level == (if
            old(self).current_braces_level < usize::MAX {
                (old(self).current_braces_level + 1) as usize
            } else {
                old(self).current_braces_level
            }) && final(self).output@ == old(self).output@ + Detex::spec_ignore(
                old(self).opts_spec(),
            )),
            // a chained command name is absorbed, staying in this state
            (old(self).top_rem()[0] == '\\' ==> final(self).top_rem() == old(self).top_rem().skip(
                1 + cmd_run(old(self).top_rem().skip(1)),
            ) && final(self).state == old(self).state && final(self).output@ == old(self).output@
                + Detex::spec_ignore(old(self).opts_spec()) && final(self).current_braces_level
                == old(self).current_braces_level),
            // word-like tail characters are absorbed one at a time
            (spec_is_ctrl_tail(old(self).top_rem()[0]) ==> final(self).top_rem() == old(self).top_rem().skip(1) && final(self).state == old(self).state && final(self).output@
                == old(self).output@ && final(self).current_braces_level == old(self).current_braces_level),
            // anything else is pushed back unconsumed
            ((!crate::chars::spec_is_ws(old(self).top_rem()[0]) && old(self).top_rem()[0] != '{'
                && old(self).top_rem()[0] != '\\' && !spec_is_ctrl_tail(old(self).top_rem()[0]))
                ==> final(self).top_rem() == old(self).top_rem() && final(self).state
                == State::Normal && final(self).output@ == old(self).output@ && final(self).current_braces_level == old(self).current_braces_level),
    {
        let ghost pre = *self;
        match self.next_char() {
            Some(c) => {
                if c == '\n' {
                    self.state = State::Normal;
                } else if is_ws(c) {
                    self.skip_whitespace();
                    proof {
                        crate::chars::lemma_ws_run_bounds(pre.top_rem());
                        crate::chars::lemma_ws_run_bounds(pre.top_rem().skip(1));
                        assert(ws_run(pre.top_rem()) == 1 + ws_run(pre.top_rem().skip(1)));
                        assert(self.top_rem() =~= pre.top_rem().skip(ws_run(pre.top_rem())));
                    }
                    if self.peek_char() == Some('{') {
                        let _ = self.next_char();
                        proof {
                            assert(self.top_rem() =~= pre.top_rem().skip(
                                ws_run(pre.top_rem()) + 1,
                            ));
                        }
                        if self.current_braces_level < usize::MAX {
                            self.current_braces_level = self.current_braces_level + 1;
                        }
                    }
                    self.state = State::Normal;
                    self.ignore();
                } else if c == '{' {
                    if self.current_braces_level < usize::MAX {
                        self.current_braces_level = self.current_braces_level + 1;
                    }
                    self.state = State::Normal;
                    self.ignore();
                } else if c == '\\' {
                    let _ = self.read_command_name();
                    proof {
                        crate::chars::lemma_cmd_run_bounds(pre.top_rem().skip(1));
                        assert(self.top_rem() =~= pre.top_rem().skip(
                            1 + cmd_run(pre.top_rem().skip(1)),
                        ));
                    }
                    self.ignore();
                } else if is_alpha(c) || is_digit(c) || c == '@' || c == '-' || c == '\''
                    || c == '=' || c == '`' {
                    // word-like tail characters are absorbed one at a time
                } else {
                    self.unget_char(c);
                    self.state = State::Normal;
                    proof {
                        assert(self.top_rem() =~= old(self).top_rem());
                    }
                }
            },
            None => {
                self.state = State::Normal;
            },
        }
        proof {
            assert(old(self).output@.is_prefix_of(self.output@)) by {
                assert(self.output@.take(old(self).output@.len() as int) =~= old(self).output@);
            }
            if self.top_rem() == old(self).top_rem() {
                assert(self.top_rem().len() < old(self).top_rem().len() || (self.top_rem()
                    == old(self).top_rem() && state_rank(self.state) < state_rank(pre.state)));
            }
            self.finish_consuming_step(*old(self));
        }
    }

    /// One step while parsing the environment name of an end directive:
    /// on the name of the currently ignored environment control returns to
    /// plain text, otherwise absorption continues.
    pub(crate) fn process_la_end(&mut self)
        requires
            old(self).stack_len() > 0,
            old(self).top_rem().len() > 0,
        ensures
            Detex::step_frame(*old(self), *final(self)),
            (spec_progress(*old(self), *final(self))),
            !old(self).opts_spec().space ==> final(self).output@ == old(self).output@,
            // an end directive for the recorded environment name returns to
            // plain text; any other name resumes absorption (the closing
            // brace is left to be read as its own token)
            ({
                let t = old(self).top_rem();
                let n = cmd_run(t.skip(1));
                let env = t.skip(1).take(n);
                (t.len() > 0 && t[0] == '{' && n > 0 && n + 1 < t.len() && t[n + 1] == '}')
                    ==> final(self).top_rem() == t.skip(1 + n) && final(self).state == (if old(self).opts_spec().spec_is_latex() && env == old(self).current_ignored_env@ {
                    State::Normal
                } else {
                    State::LaEnv
                }) && final(self).output@ == old(self).output@ + Detex::spec_ignore(
                    old(self).opts_spec(),
                )
            }),
    {
        let ghost pre = *self;
        self.skip_whitespace();
        match self.peek_char() {
            Some('{') => {
                let ghost m0 = *self;
                let _ = self.next_char();
                let ghost m1 = *self;
                self.skip_whitespace();
                let ghost m2 = *self;
                let env = self.read_command_name();
                let ghost m3 = *self;
                self.skip_whitespace();
                // the closing brace is left to be matched as its own token
                if self.end_env(&env) {
                    self.state = State::Normal;
                } else {
                    self.state = State::LaEnv;
                }
                self.ignore();
                proof {
                    let t = pre.top_rem();
                    let n = cmd_run(t.skip(1));
                    if t.len() > 0 && t[0] == '{' && n > 0 && n + 1 < t.len() && t[n + 1] == '}' {
                        crate::chars::lemma_cmd_run_bounds(t.skip(1));
                        assert(ws_run(t) == 0);
                        assert(m0.top_rem() =~= t);
                        assert(m1.top_rem() =~= t.skip(1));
                        assert(t.skip(1).len() > 0 && crate::chars::spec_is_cmd_char(
                            t.skip(1)[0],
                        ));
                        assert(ws_run(t.skip(1)) == 0);
                        assert(m2.top_rem() == t.skip(1));
                        assert(env@ == t.skip(1).take(n));
                        assert(m3.top_rem() =~= t.skip(1).skip(n));
                        assert(t.skip(1).skip(n) =~= t.skip(1 + n));
                        assert(t.skip(1 + n)[0] == t[n + 1]);
                        assert(ws_run(t.skip(1 + n)) == 0);
                        assert(self.top_rem() == t.skip(1 + n));
                    }
                }
            },
            Some('}') => {
                let _ = self.next_char();
                self.state = State::LaEnv;
                self.ignore();
            },
            Some(c) => {
                if is_alpha(c) {
                    let env = self.read_command_name();
                    if self.end_env(&env) {
                        self.state = State::Normal;
                    }
                    self.ignore();
                    proof {
                        crate::chars::lemma_cmd_run_bounds(pre.top_rem().skip(ws_run(
                            pre.top_rem(),
                        )));
                    }
                } else {
                    let _ = self.next_char();
                }
            },
            None => {
                self.state = State::Normal;
            },
        }
        proof {
            crate::chars::lemma_ws_run_bounds(pre.top_rem());
            assert(old(self).output@.is_prefix_of(self.output@)) by {
                assert(self.output@.take(old(self).output@.len() as int) =~= old(self).output@);
            }
            self.finish_consuming_step(*old(self));
        }
    }

    /// One step while parsing the brace list of the include-only
    /// directive: names are recorded on the allow list extension-stripped;
    /// the closing brace, if it closes an empty list, records the empty
    /// name so that the list is no longer treated as absent.
    pub(crate) fn process_include_only(&mut self)
        requires
            old(self).stack_len() > 0,
            old(self).top_rem().len() > 0,
        ensures
            Detex::step_frame(*old(self), *final(self)),
            (spec_progress(*old(self), *final(self))),
            final(self).output@ == old(self).output@,
            ({
                let t = old(self).top_rem();
                let w = ws_run(t);
                let il = old(self).opts_spec().include_list;
                &&& (w >= t.len() ==> final(self).top_rem() == t.skip(w) && final(self).state
                    == old(self).state && final(self).opts_spec().include_list == il)
                &&& (w < t.len() && (t[w] == '{' || t[w] == ',') ==> final(self).top_rem()
                    == t.skip(w + 1) && final(self).state == old(self).state && (final(self).opts_spec().include_list == il))
                &&& (w < t.len() && t[w] == '}' ==> final(self).top_rem() == t.skip(w + 1)
                    && final(self).state == State::Normal && (il@.len() == 0 ==> final(self).opts_spec().include_list@.len() == 1 && final(self).opts_spec().include_list@.last()@ == Seq::<char>::empty()) && (il@.len() > 0
                    ==> (final(self).opts_spec().include_list == il)))
                &&& (w < t.len() && t[w] != '{' && t[w] != ',' && t[w] != '}' && !old(self).opts_spec().no_follow ==> {
                    let m = list_name_run(t.skip(w));
                    &&& final(self).top_rem() == t.skip(w + m)
                    &&& final(self).state == old(self).state
                    &&& final(self).opts_spec().include_list@.len() == il@.len() + 1
                    &&& il@.is_prefix_of(final(self).opts_spec().include_list@)
                    &&& final(self).opts_spec().include_list@.last()@ == Detex::spec_strip_ext(
                        t.skip(w).take(m),
                    )
                })
            }),
    {
        let ghost pre = *self;
        self.skip_whitespace();
        proof {
            crate::chars::lemma_ws_run_bounds(pre.top_rem());
        }
        match self.peek_char() {
            Some('{') => {
                let _ = self.next_char();
                proof {
                    assert(self.top_rem() =~= pre.top_rem().skip(ws_run(pre.top_rem()) + 1));
                }
            },
            Some('}') => {
                let _ = self.next_char();
                proof {
                    assert(self.top_rem() =~= pre.top_rem().skip(ws_run(pre.top_rem()) + 1));
                }
                if self.opts.include_list.len() == 0 {
                    let ghost il = self.opts.include_list@;
                    self.opts.include_list.push(Vec::new());
                    proof {
                        lemma_prefix_push(il, self.opts.include_list@.last());
                        assert(il.is_prefix_of(self.opts.include_list@));
                    }
                }
                self.state = State::Normal;
            },
            Some(',') => {
                let _ = self.next_char();
                proof {
                    assert(self.top_rem() =~= pre.top_rem().skip(ws_run(pre.top_rem()) + 1));
                }
            },
            Some(c) => {
                let ghost afterws = *self;
                let ghost nm = list_name_run(afterws.top_rem());
                let _ = self.next_char();
                let mut filename: Vec<char> = Vec::new();
                filename.push(c);
                proof {
                    lemma_reads_frame_refl(afterws);
                    crate::chars::lemma_suffix_refl(afterws.top_rem());
                    crate::chars::lemma_suffix_skip(afterws.top_rem(), 1);
                    lemma_list_name_run_bounds(afterws.top_rem());
                    assert(afterws.top_rem() =~= pre.top_rem().skip(ws_run(pre.top_rem())));
                    assert(filename@ =~= afterws.top_rem().take(1));
                }
                loop
                    invariant
                        pre == *old(self),
                        afterws.file_stack@.len() > 0,
                        afterws.top_rem().len() > 0,
                        nm == list_name_run(afterws.top_rem()),
                        Detex::reads_frame(pre, afterws),
                        Detex::reads_frame(afterws, *self),
                        self.at_column_zero == afterws.at_column_zero,
                        (crate::chars::is_suffix(self.top_rem(), afterws.top_rem())),
                        1 <= filename@.len() <= nm,
                        (filename@ == afterws.top_rem().take(filename@.len() as int)),
                        self.top_rem() == afterws.top_rem().skip(filename@.len() as int),
                    ensures
                        Detex::reads_frame(pre, afterws),
                        Detex::reads_frame(afterws, *self),
                        self.at_column_zero == afterws.at_column_zero,
                        (filename@ == afterws.top_rem().take(nm)),
                        self.top_rem() == afterws.top_rem().skip(nm),
                        filename@.len() == nm,
                    decreases self.top_rem().len(),
                {
                    let ghost k = filename@.len() as int;
                    let ghost cur = *self;
                    proof {
                        lemma_list_name_run_bounds(afterws.top_rem());
                        assert(self.top_rem() =~= afterws.top_rem().skip(k));
                    }
                    match self.peek_char() {
                        Some(c2) => {
                            if c2 == ',' || c2 == '}' || is_ws(c2) {
                                proof {
                                    assert(k == nm);
                                }
                                break;
                            }
                            let _ = self.next_char();
                            filename.push(c2);
                            proof {
                                lemma_reads_frame_trans(afterws, cur, *self);
                                crate::chars::lemma_suffix_trans(
                                    self.top_rem(),
                                    cur.top_rem(),
                                    afterws.top_rem(),
                                );
                                assert(afterws.top_rem()[k] == c2);
                                assert(k + 1 <= nm) by {
                                    lemma_list_name_run_bounds(afterws.top_rem());
                                    if nm < k + 1 {
                                        assert(afterws.top_rem()[nm] == ','
                                            || afterws.top_rem()[nm] == '}'
                                            || crate::chars::spec_is_ws(afterws.top_rem()[nm]));
                                    }
                                }
                                assert(filename@ =~= afterws.top_rem().take(k + 1));
                                assert(self.top_rem() =~= afterws.top_rem().skip(k + 1));
                            }
                        },
                        None => {
                            proof {
                                assert(k == nm);
                            }
                            break;
                        },
                    }
                }
                if filename.len() > 0 {
                    self.add_include(&filename);
                }
                proof {
                    if !pre.opts.no_follow {
                        assert(self.opts.include_list@.last()@ == Detex::spec_strip_ext(
                            pre.top_rem().skip(ws_run(pre.top_rem())).take(nm),
                        )) by {
                            assert(filename@ == afterws.top_rem().take(nm));
                        }
                    }
                    assert(self.top_rem() =~= pre.top_rem().skip(ws_run(pre.top_rem()) + nm));
                }
            },
            None => {},
        }
        proof {
            crate::chars::lemma_ws_run_bounds(pre.top_rem());
            lemma_opts_evolve_refl(pre.opts);
            if pre.opts.include_list@.len() < self.opts.include_list@.len() {
                assert(pre.opts.include_list@.is_prefix_of(self.opts.include_list@));
            } else {
                lemma_prefix_refl(pre.opts.include_list@);
            }
            lemma_prefix_refl(pre.diags_seq());
            assert(pre.output@.is_prefix_of(self.output@)) by {
                assert(self.output@.take(pre.output@.len() as int) =~= pre.output@);
            }
            assert(self.file_stack@ =~= pre.file_stack@.update(
                pre.file_stack@.len() - 1,
                self.file_stack@.last(),
            ));
            lemma_step_shape(pre, *self);
            assert(spec_progress(pre, *self));
        }
    }
}

impl Detex {
    /// Reads a file name (up to whitespace or a closing brace) for an
    /// inclusion directive; the first character is already known to be
    /// ordinary.
    pub(crate) fn read_input_name(&mut self) -> (r: Vec<char>)
        requires
            old(self).file_stack@.len() > 0,
            old(self).top_rem().len() > 0,
            !crate::chars::spec_is_ws(old(self).top_rem()[0]),
            old(self).top_rem()[0] != '}',
        ensures
            Detex::reads_frame(*old(self), *final(self)),
            final(self).at_column_zero == old(self).at_column_zero,
            (crate::chars::is_suffix(final(self).top_rem(), old(self).top_rem())),
            final(self).top_rem().len() < old(self).top_rem().len(),
            r@.len() > 0,
    {
        let ghost pre = *self;
        let c = match self.peek_char() {
            Some(c) => c,
            None => {
                proof {
                    assert(false);
                }
                ' '
            },
        };
        let _ = self.next_char();
        let mut filename: Vec<char> = Vec::new();
        filename.push(c);
        proof {
            lemma_reads_frame_refl(pre);
            crate::chars::lemma_suffix_refl(pre.top_rem());
            crate::chars::lemma_suffix_skip(pre.top_rem(), 1);
        }
        loop
            invariant
                pre == *old(self),
                pre.file_stack@.len() > 0,
                pre.top_rem().len() > 0,
                Detex::reads_frame(pre, *self),
                self.at_column_zero == pre.at_column_zero,
                (crate::chars::is_suffix(self.top_rem(), pre.top_rem())),
                self.top_rem().len() < pre.top_rem().len(),
                filename@.len() > 0,
            decreases self.top_rem().len(),
        {
            let ghost cur = *self;
            match self.peek_char() {
                Some(c2) => {
                    if is_ws(c2) || c2 == '}' {
                        return filename;
                    }
                    let _ = self.next_char();
                    filename.push(c2);
                    proof {
                        lemma_reads_frame_trans(pre, cur, *self);
                        crate::chars::lemma_suffix_trans(
                            self.top_rem(),
                            cur.top_rem(),
                            pre.top_rem(),
                        );
                    }
                },
                None => {
                    return filename;
                },
            }
        }
    }

    /// Closes a step whose only effects were consuming from the old top
    /// source and then opening one stored document on the stack.
    pub(crate) proof fn finish_push_step(&self, pre: Detex, mid: Detex)
        requires
            pre.file_stack@.len() > 0,
            pre.file_stack@.len() < MAX_FILE_STACK,
            Detex::reads_frame(pre, mid),
            mid.top_rem().len() < pre.top_rem().len(),
            mid.opts == pre.opts,
            (*self == Detex { file_stack: self.file_stack, state: self.state, ..mid }),
            self.file_stack@.len() == mid.file_stack@.len() + 1,
            mid.file_stack@.is_prefix_of(self.file_stack@),
            self.top_rem().len() <= max_content_len(pre.store()),
        ensures
            Detex::step_frame(pre, *self),
            (spec_progress(pre, *self)),
    {
        let n = pre.file_stack@.len();
        lemma_opts_evolve_refl(pre.opts);
        lemma_prefix_refl(pre.diags_seq());
        lemma_prefix_refl(pre.output@);
        assert(self.file_stack@.take(self.file_stack@.len() - 1) =~= mid.file_stack@);
        assert(self.file_stack@.take(n - 1) =~= mid.file_stack@.take(n - 1));
        assert(mid.file_stack@.take(n - 1) =~= pre.file_stack@.take(n - 1));
        assert(self.file_stack@[n - 1] == mid.file_stack@[n - 1]);
        assert(mid.file_stack@[n - 1] == mid.file_stack@.last());
        assert(Detex::step_frame(pre, *self));
        assert(self.file_stack@[n - 1].source.remaining() == mid.top_rem());
        assert(self.files == pre.files);
        assert(spec_progress(pre, *self));
    }

    /// One step while parsing the target of an input directive: an opening
    /// brace is skipped, a name is read and the named document is opened,
    /// a bare closing brace simply returns to plain text.
    pub(crate) fn process_input(&mut self)
        requires
            old(self).stack_len() > 0,
            old(self).top_rem().len() > 0,
            old(self).state == State::Input,
        ensures
            Detex::step_frame(*old(self), *final(self)),
            (spec_progress(*old(self), *final(self))),
    {
        let ghost pre = *self;
        self.skip_whitespace();
        let ghost afterws = *self;
        match self.peek_char() {
            Some('{') => {
                let _ = self.next_char();
                proof {
                    crate::chars::lemma_ws_run_bounds(pre.top_rem());
                    self.plain_input_finish(pre, afterws);
                }
            },
            Some(c) => {
                if !is_ws(c) && c != '}' {
                    let filename = self.read_input_name();
                    let ghost mid = *self;
                    let found = self.input_file_chars(&filename);
                    self.state = State::Normal;
                    proof {
                        lemma_reads_frame_trans(pre, afterws, mid);
                        if self.file_stack@.len() == mid.file_stack@.len() {
                            self.plain_input_finish(pre, mid);
                        } else {
                            lemma_lookup_bounded(mid.store(), filename@);
                            self.finish_push_step(pre, mid);
                        }
                    }
                } else {
                    // only a closing brace can stand here after the
                    // whitespace skip
                    self.state = State::Normal;
                    proof {
                        crate::chars::lemma_ws_run_bounds(pre.top_rem());
                        if self.top_rem().len() == pre.top_rem().len() {
                            assert(self.top_rem() =~= pre.top_rem());
                        }
                        self.plain_input_finish(pre, afterws);
                    }
                }
            },
            None => {
                self.state = State::Normal;
                proof {
                    crate::chars::lemma_ws_run_bounds(pre.top_rem());
                    if self.top_rem().len() == pre.top_rem().len() {
                        assert(self.top_rem() =~= pre.top_rem());
                    }
                    self.plain_input_finish(pre, afterws);
                }
            },
        }
    }

    /// Closes an input-directive step that did not open a document: the
    /// stack kept its shape, and either characters were consumed or the
    /// state fell back to plain text.
    pub(crate) proof fn plain_input_finish(&self, pre: Detex, mid: Detex)
        requires
            pre.file_stack@.len() > 0,
            pre.top_rem().len() > 0,
            state_rank(pre.state) == 1,
            Detex::reads_frame(pre, mid),
            self.opts == pre.opts || (self.opts == mid.opts && mid.opts == pre.opts),
            self.files == pre.files,
            self.diags@ == pre.diags@ || self.diags_seq() == pre.diags_seq().push(
                self.diags_seq().last(),
            ),
            self.output@ == pre.output@,
            self.file_stack@.len() == pre.file_stack@.len(),
            forall|i: int| 0 <= i < pre.file_stack@.len() - 1 ==> self.file_stack@[i]
                == pre.file_stack@[i],
            self.file_stack@.last().name == pre.file_stack@.last().name,
            self.top_rem().len() <= pre.top_rem().len(),
            self.top_rem().len() == pre.top_rem().len() ==> self.top_rem() == pre.top_rem()
                && state_rank(self.state) == 0,
        ensures
            Detex::step_frame(pre, *self),
            (spec_progress(pre, *self)),
    {
        lemma_opts_evolve_refl(pre.opts);
        lemma_prefix_refl(pre.diags_seq());
        lemma_prefix_refl(pre.output@);
        if self.diags@ != pre.diags@ {
            lemma_prefix_push(pre.diags_seq(), self.diags_seq().last());
        }
        assert(self.file_stack@ =~= pre.file_stack@.update(
            pre.file_stack@.len() - 1,
            self.file_stack@.last(),
        ));
        lemma_step_shape(pre, *self);
    }

    /// One step while parsing the target of an include or subfile
    /// directive; the allow list decides whether the document is opened.
    pub(crate) fn process_la_include(&mut self)
        requires
            old(self).stack_len() > 0,
            old(self).top_rem().len() > 0,
            old(self).state == State::LaInclude,
        ensures
            Detex::step_frame(*old(self), *final(self)),
            (spec_progress(*old(self), *final(self))),
    {
        let ghost pre = *self;
        self.skip_whitespace();
        let ghost afterws = *self;
        match self.peek_char() {
            Some('{') => {
                let _ = self.next_char();
                proof {
                    crate::chars::lemma_ws_run_bounds(pre.top_rem());
                    self.plain_input_finish(pre, afterws);
                }
            },
            Some(c) => {
                if !is_ws(c) && c != '}' {
                    let filename = self.read_input_name();
                    let ghost mid = *self;
                    self.include_file(&filename);
                    self.state = State::Normal;
                    proof {
                        lemma_reads_frame_trans(pre, afterws, mid);
                        if self.file_stack@.len() == mid.file_stack@.len() {
                            self.plain_input_finish(pre, mid);
                        } else {
                            lemma_lookup_bounded(mid.store(), filename@);
                            self.finish_push_step(pre, mid);
                        }
                    }
                } else {
                    self.state = State::Normal;
                    proof {
                        crate::chars::lemma_ws_run_bounds(pre.top_rem());
                        if self.top_rem().len() == pre.top_rem().len() {
                            assert(self.top_rem() =~= pre.top_rem());
                        }
                        self.plain_input_finish(pre, afterws);
                    }
                }
            },
            None => {
                self.state = State::Normal;
                proof {
                    crate::chars::lemma_ws_run_bounds(pre.top_rem());
                    if self.top_rem().len() == pre.top_rem().len() {
                        assert(self.top_rem() =~= pre.top_rem());
                    }
                    self.plain_input_finish(pre, afterws);
                }
            },
        }
    }
}

impl Detex {
    /// One step inside a verbatim environment: every character is echoed
    /// exactly, except that a backslash may begin the end directive that
    /// closes the environment; a near-miss swallows the partial match and
    /// echoes only the backslash.
    pub(crate) fn process_la_verbatim(&mut self)
        requires
            old(self).stack_len() > 0,
            old(self).top_rem().len() > 0,
        ensures
            Detex::step_frame(*old(self), *final(self)),
            (spec_progress(*old(self), *final(self))),
            (old(self).top_rem()[0] != '\\' && !old(self).opts_spec().src_loc
                ==> final(self).output@ == old(self).output@ + seq![old(self).top_rem()[0]]
                && final(self).top_rem() == old(self).top_rem().skip(1)
                && final(self).state == old(self).state
                && final(self).opts == old(self).opts),
    {
        let ghost pre = *self;
        match self.next_char() {
            Some('\\') => {
                let lit_end = str_to_chars("end");
                let lit_open = str_to_chars("{");
                let lit_verb = str_to_chars("verbatim");
                let lit_close = str_to_chars("}");
                let mut closed = false;
                if self.try_match(&lit_end) {
                    self.skip_whitespace();
                    if self.try_match(&lit_open) {
                        self.skip_whitespace();
                        if self.try_match(&lit_verb) {
                            self.skip_whitespace();
                            let _ = self.try_match(&lit_close);
                            self.state = State::Normal;
                            self.ignore();
                            closed = true;
                        }
                    }
                }
                if !closed {
                    self.output.push('\\');
                }
            },
            Some(c) => {
                self.echo(c);
            },
            None => {},
        }
        proof {
            assert(old(self).output@.is_prefix_of(self.output@)) by {
                assert(self.output@.take(old(self).output@.len() as int) =~= old(self).output@);
            }
            self.finish_consuming_step(*old(self));
        }
    }

    /// One step while parsing the target of a graphics directive: between
    /// the braces the picture name is read and, when asked for, written as
    /// a marker; the closing brace consumes trailing blank space up to one
    /// newline and returns to plain text.
    pub(crate) fn process_la_picture(&mut self)
        requires
            old(self).stack_len() > 0,
            old(self).top_rem().len() > 0,
        ensures
            Detex::step_frame(*old(self), *final(self)),
            (spec_progress(*old(self), *final(self))),
            (old(self).top_rem()[0] == '{' ==> final(self).top_rem() == old(self).top_rem().skip(1)
                && final(self).state == old(self).state && final(self).output@ == old(self).output@),
            (old(self).top_rem()[0] == '}' ==> final(self).top_rem() == old(self).top_rem().skip(
                1 + nl_stop(old(self).top_rem().skip(1)),
            ) && final(self).state == State::Normal && final(self).output@ == old(self).output@),
            (old(self).top_rem()[0] != '{' && old(self).top_rem()[0] != '}' && !old(self).opts_spec().show_pictures ==> final(self).top_rem() == old(self).top_rem().skip(1)
                && final(self).state == old(self).state && final(self).output@ == old(self).output@),
            // under the show-pictures flag the file name becomes a marker
            (old(self).top_rem()[0] != '{' && old(self).top_rem()[0] != '}' && old(self).opts_spec().show_pictures ==> {
                let m = 1 + pic_run(old(self).top_rem().skip(1));
                &&& final(self).top_rem() == old(self).top_rem().skip(m)
                &&& final(self).state == old(self).state
                &&& final(self).output@ == old(self).output@ + "<Picture "@ + old(self).top_rem().take(m) + seq!['>']
            }),
    {
        let ghost pre = *self;
        match self.next_char() {
            Some('{') => {},
            Some('}') => {
                let ghost t1 = pre.top_rem().skip(1);
                let ghost mut k: int = 0;
                proof {
                    lemma_nl_stop_bounds(t1);
                    assert(self.top_rem() =~= t1.skip(0));
                }
                loop
                    invariant_except_break
                        0 <= k <= nl_stop(t1),
                        nl_stop(t1) <= t1.len(),
                        self.top_rem() == t1.skip(k),
                        nl_stop(t1) == k + nl_stop(self.top_rem()),
                    invariant
                        pre == *old(self),
                        pre.file_stack@.len() > 0,
                        pre.top_rem().len() > 0,
                        t1 == pre.top_rem().skip(1),
                        Detex::reads_frame(pre, *self),
                        self.opts == pre.opts,
                        self.output@ == pre.output@,
                        self.diags@ == pre.diags@,
                        self.files == pre.files,
                        self.state == pre.state,
                    ensures
                        pre == *old(self),
                        Detex::reads_frame(pre, *self),
                        self.opts == pre.opts,
                        self.output@ == pre.output@,
                        self.diags@ == pre.diags@,
                        self.files == pre.files,
                        self.state == pre.state,
                        self.top_rem() == t1.skip(nl_stop(t1)),
                    decreases self.top_rem().len(),
                {
                    let ghost cur = *self;
                    match self.peek_char() {
                        Some(c2) => {
                            if is_ws(c2) {
                                let _ = self.next_char();
                                proof {
                                    lemma_reads_frame_trans(pre, cur, *self);
                                    assert(cur.top_rem() == t1.skip(k));
                                    assert(t1.skip(k)[0] == c2);
                                    lemma_nl_stop_bounds(t1.skip(k));
                                    assert(self.top_rem() =~= t1.skip(k + 1));
                                    assert(t1.skip(k).skip(1) =~= t1.skip(k + 1));
                                    lemma_nl_stop_bounds(t1.skip(k + 1));
                                    if c2 != '\n' {
                                        assert(nl_stop(t1.skip(k)) == 1 + nl_stop(t1.skip(k + 1)));
                                    }
                                }
                                if c2 == '\n' {
                                    self.at_column_zero = true;
                                    proof {
                                        assert(nl_stop(t1.skip(k)) == 1);
                                        assert(nl_stop(t1) == k + 1);
                                    }
                                    break;
                                }
                                proof {
                                    k = k + 1;
                                }
                            } else {
                                proof {
                                    assert(nl_stop(self.top_rem()) == 0);
                                }
                                break;
                            }
                        },
                        None => {
                            proof {
                                assert(nl_stop(self.top_rem()) == 0);
                            }
                            break;
                        },
                    }
                }
                self.state = State::Normal;
                proof {
                    assert(self.top_rem() =~= pre.top_rem().skip(1 + nl_stop(t1)));
                }
            },
            Some(c) => {
                if self.opts.show_pictures {
                    let mut name: Vec<char> = Vec::new();
                    name.push(c);
                    let ghost start = *self;
                    let ghost t1 = pre.top_rem().skip(1);
                    let ghost np = pic_run(t1);
                    proof {
                        lemma_reads_frame_refl(start);
                        lemma_pic_run_bounds(t1);
                        assert(start.top_rem() == t1);
                        assert(name@ =~= pre.top_rem().take(1));
                    }
                    loop
                        invariant
                            pre == *old(self),
                            pre.file_stack@.len() > 0,
                            pre.top_rem().len() > 0,
                            t1 == pre.top_rem().skip(1),
                            np == pic_run(t1),
                            start.file_stack@.len() > 0,
                            start.top_rem() == t1,
                            Detex::reads_frame(pre, start),
                            Detex::reads_frame(start, *self),
                            self.opts == pre.opts,
                            self.output@ == pre.output@,
                            self.diags@ == pre.diags@,
                            self.files == pre.files,
                            self.state == pre.state,
                            1 <= name@.len() <= 1 + np,
                            (name@ == pre.top_rem().take(name@.len() as int)),
                            self.top_rem() == t1.skip(name@.len() - 1),
                        ensures
                            pre == *old(self),
                            Detex::reads_frame(pre, start),
                            Detex::reads_frame(start, *self),
                            self.opts == pre.opts,
                            self.output@ == pre.output@,
                            self.state == pre.state,
                            (name@ == pre.top_rem().take(1 + np)),
                            self.top_rem() == t1.skip(np),
                        decreases self.top_rem().len(),
                    {
                        let ghost k = name@.len() as int;
                        let ghost cur = *self;
                        proof {
                            lemma_pic_run_bounds(t1);
                            assert(self.top_rem() =~= t1.skip(k - 1));
                        }
                        match self.peek_char() {
                            Some(c2) => {
                                if c2 == '{' || c2 == '}' {
                                    proof {
                                        assert(k - 1 == np);
                                    }
                                    break;
                                }
                                let _ = self.next_char();
                                name.push(c2);
                                proof {
                                    lemma_reads_frame_trans(start, cur, *self);
                                    assert(t1[k - 1] == c2);
                                    assert(k <= np) by {
                                        lemma_pic_run_bounds(t1);
                                        if np < k {
                                            assert(t1[np] == '{' || t1[np] == '}');
                                        }
                                    }
                                    assert(pre.top_rem()[k] == c2);
                                    assert(name@ =~= pre.top_rem().take(k + 1));
                                    assert(self.top_rem() =~= t1.skip(k));
                                }
                            },
                            None => {
                                proof {
                                    assert(k - 1 == np);
                                }
                                break;
                            },
                        }
                    }
                    proof {
                        lemma_reads_frame_trans(pre, start, *self);
                    }
                    let marker = str_to_chars("<Picture ");
                    crate::lexer::push_all(&mut self.output, &marker);
                    crate::lexer::push_all(&mut self.output, &name);
                    self.output.push('>');
                    proof {
                        assert(self.output@ =~= pre.output@ + "<Picture "@ + pre.top_rem().take(
                            1 + np,
                        ) + seq!['>']);
                        assert(self.top_rem() =~= pre.top_rem().skip(1 + np));
                    }
                }
            },
            None => {
                self.state = State::Normal;
            },
        }
        proof {
            assert(old(self).output@.is_prefix_of(self.output@)) by {
                assert(self.output@.take(old(self).output@.len() as int) =~= old(self).output@);
            }
            self.finish_consuming_step(*old(self));
        }
    }
}

/// A character that the resynchronisation state absorbs as part of an
/// unknown command's tail.
pub open spec fn spec_is_ctrl_tail(c: char) -> bool {
    ||| spec_is_alpha(c)
    ||| crate::chars::spec_is_digit(c)
    ||| c == '@'
    ||| c == '-'
    ||| c == '\''
    ||| c == '='
    ||| c == '`'
}

/// Length of the leading run of characters that belong to a name in the
/// include-only brace list: anything up to a comma, a closing brace or
/// blank space.
pub open spec fn list_name_run(s: Seq<char>) -> int
    decreases s.len(),
{
    if s.len() > 0 && s[0] != ',' && s[0] != '}' && !crate::chars::spec_is_ws(s[0]) {
        1 + list_name_run(s.skip(1))
    } else {
        0
    }
}

pub proof fn lemma_list_name_run_bounds(s: Seq<char>)
    ensures
        0 <= list_name_run(s) <= s.len(),
        forall|i: int| 0 <= i < list_name_run(s) ==> s[i] != ',' && s[i] != '}'
            && !crate::chars::spec_is_ws(s[i]),
        list_name_run(s) < s.len() ==> (s[list_name_run(s)] == ',' || s[list_name_run(s)] == '}'
            || crate::chars::spec_is_ws(s[list_name_run(s)])),
    decreases s.len(),
{
    if s.len() > 0 && s[0] != ',' && s[0] != '}' && !crate::chars::spec_is_ws(s[0]) {
        lemma_list_name_run_bounds(s.skip(1));
        assert forall|i: int| 0 <= i < list_name_run(s) implies s[i] != ',' && s[i] != '}'
            && !crate::chars::spec_is_ws(s[i]) by {
            if i > 0 {
                assert(s.skip(1)[i - 1] == s[i]);
            }
        }
        if list_name_run(s) < s.len() {
            assert(s.skip(1)[list_name_run(s) - 1] == s[list_name_run(s)]);
        }
    }
}

/// How much blank space a closed graphics directive consumes: whitespace
/// up to and including the first newline, or up to the first ordinary
/// character.
pub open spec fn nl_stop(s: Seq<char>) -> int
    decreases s.len(),
{
    if s.len() > 0 && crate::chars::spec_is_ws(s[0]) {
        if s[0] == '\n' {
            1
        } else {
            1 + nl_stop(s.skip(1))
        }
    } else {
        0
    }
}

pub proof fn lemma_nl_stop_bounds(s: Seq<char>)
    ensures
        0 <= nl_stop(s) <= s.len(),
    decreases s.len(),
{
    if s.len() > 0 && crate::chars::spec_is_ws(s[0]) && s[0] != '\n' {
        lemma_nl_stop_bounds(s.skip(1));
    }
}

/// Length of the leading run of characters belonging to a graphics file
/// name: anything up to a brace.
pub open spec fn pic_run(s: Seq<char>) -> int
    decreases s.len(),
{
    if s.len() > 0 && s[0] != '{' && s[0] != '}' {
        1 + pic_run(s.skip(1))
    } else {
        0
    }
}

pub proof fn lemma_pic_run_bounds(s: Seq<char>)
    ensures
        0 <= pic_run(s) <= s.len(),
        forall|i: int| 0 <= i < pic_run(s) ==> s[i] != '{' && s[i] != '}',
        pic_run(s) < s.len() ==> (s[pic_run(s)] == '{' || s[pic_run(s)] == '}'),
    decreases s.len(),
{
    if s.len() > 0 && s[0] != '{' && s[0] != '}' {
        lemma_pic_run_bounds(s.skip(1));
        assert forall|i: int| 0 <= i < pic_run(s) implies s[i] != '{' && s[i] != '}' by {
            if i > 0 {
                assert(s.skip(1)[i - 1] == s[i]);
            }
        }
        if pic_run(s) < s.len() {
            assert(s.skip(1)[pic_run(s) - 1] == s[pic_run(s)]);
        }
    }
}

/// A character with no special role in plain text: it is neither a command
/// introducer, a math or comment delimiter, a brace, nor part of any
/// punctuation-substitution rule.
pub open spec fn spec_is_plain(c: char) -> bool {
    &&& c != '\\'
    &&& c != '$'
    &&& c != '%'
    &&& c != '{'
    &&& c != '}'
    &&& c != '~'
    &&& c != '|'
    &&& c != '!'
    &&& c != '?'
    &&& c != '-'
    &&& c != '`'
    &&& c != '\''
    &&& c != ','
}

/// Length of the leading run of dashes.
pub open spec fn dash_run(s: Seq<char>) -> int
    decreases s.len(),
{
    if s.len() > 0 && s[0] == '-' {
        1 + dash_run(s.skip(1))
    } else {
        0
    }
}

pub proof fn lemma_dash_run_bounds(s: Seq<char>)
    ensures
        0 <= dash_run(s) <= s.len(),
        forall|i: int| 0 <= i < dash_run(s) ==> s[i] == '-',
        dash_run(s) < s.len() ==> s[dash_run(s)] != '-',
    decreases s.len(),
{
    if s.len() > 0 && s[0] == '-' {
        lemma_dash_run_bounds(s.skip(1));
        assert forall|i: int| 0 <= i < dash_run(s) implies s[i] == '-' by {
            if i > 0 {
                assert(s.skip(1)[i - 1] == '-');
            }
        }
        if dash_run(s) < s.len() {
            assert(s.skip(1)[dash_run(s) - 1] == s[dash_run(s)]);
        }
    }
}

/// The one plain-text token at the head of `s`: a whole run of letters, a
/// whole run of digits, or a single character.
pub open spec fn plain_chunk(s: Seq<char>) -> int {
    if spec_is_alpha(s[0]) {
        crate::chars::alpha_run(s)
    } else if crate::chars::spec_is_digit(s[0]) {
        crate::chars::digit_run(s)
    } else {
        1
    }
}

/// The head of `s` is consumed as one plain-prose token: its first
/// character is plain, no command follows directly (so no citation-space
/// rule fires), and a letter run is not continued by an apostrophe.
pub open spec fn plain_step_ok(s: Seq<char>) -> bool {
    &&& s.len() > 0
    &&& spec_is_plain(s[0])
    &&& (s.len() > 1 ==> s[1] != '\\')
    &&& (spec_is_alpha(s[0]) && crate::chars::alpha_run(s) < s.len() ==> s[crate::chars::alpha_run(
        s,
    )] != '\'')
}

impl Detex {
    /// One plain-text step: classifies the next character and consumes one
    /// token.  Plain prose is echoed exactly; comments, math delimiters,
    /// braces, punctuation substitutions and control sequences get their
    /// special handling.
    #[verifier::rlimit(100)]
    pub(crate) fn process_normal(&mut self) -> (r: Result<(), DetexError>)
        requires
            old(self).stack_len() > 0,
            old(self).top_rem().len() > 0,
        ensures
            Detex::step_frame(*old(self), *final(self)),
            r is Ok ==> (spec_progress(*old(self), *final(self))),
            (r is Err ==> r == Result::<(), DetexError>::Err(DetexError::UnterminatedVerb)),
            // plain prose is the identity: one token in, the same token out
            (plain_step_ok(old(self).top_rem()) && !old(self).opts_spec().word
                && !old(self).opts_spec().src_loc ==> r is Ok
                && final(self).output@ == old(self).output@
                    + old(self).top_rem().take(plain_chunk(old(self).top_rem()))
                && final(self).top_rem() == old(self).top_rem().skip(
                    plain_chunk(old(self).top_rem()),
                )
                && final(self).state == old(self).state
                && (final(self).opts == old(self).opts)
                && final(self).stack_len() == old(self).stack_len()
                && final(self).diags@ == old(self).diags@
                && final(self).files == old(self).files
                && final(self).current_braces_level == old(self).current_braces_level
                && final(self).footnote_level == old(self).footnote_level),
            // a doubled backtick, quote or comma becomes one double quote
            (old(self).top_rem().len() >= 2 && old(self).top_rem()[0] == '`'
                && old(self).top_rem()[1] == '`' && !old(self).opts_spec().word ==> r is Ok
                && final(self).output@ == old(self).output@ + seq!['"']
                && final(self).top_rem() == old(self).top_rem().skip(2)),
            (old(self).top_rem().len() >= 2 && old(self).top_rem()[0] == '\''
                && old(self).top_rem()[1] == '\'' && !old(self).opts_spec().word ==> r is Ok
                && final(self).output@ == old(self).output@ + seq!['"']
                && final(self).top_rem() == old(self).top_rem().skip(2)),
            (old(self).top_rem().len() >= 2 && old(self).top_rem()[0] == ','
                && old(self).top_rem()[1] == ',' && !old(self).opts_spec().word ==> r is Ok
                && final(self).output@ == old(self).output@ + seq!['"']
                && final(self).top_rem() == old(self).top_rem().skip(2)),
            // a lone backtick becomes an apostrophe; a lone quote or comma
            // is echoed as itself
            (old(self).top_rem()[0] == '`' && (old(self).top_rem().len() < 2
                || old(self).top_rem()[1] != '`') && !old(self).opts_spec().word ==> r is Ok
                && final(self).output@ == old(self).output@ + seq!['\'']
                && final(self).top_rem() == old(self).top_rem().skip(1)),
            (old(self).top_rem()[0] == '\'' && (old(self).top_rem().len() < 2
                || old(self).top_rem()[1] != '\'') && !old(self).opts_spec().word
                && !old(self).opts_spec().src_loc ==> r is Ok
                && final(self).output@ == old(self).output@ + seq!['\'']
                && final(self).top_rem() == old(self).top_rem().skip(1)),
            (old(self).top_rem()[0] == ',' && (old(self).top_rem().len() < 2
                || old(self).top_rem()[1] != ',') && !old(self).opts_spec().word
                && !old(self).opts_spec().src_loc ==> r is Ok
                && final(self).output@ == old(self).output@ + seq![',']
                && final(self).top_rem() == old(self).top_rem().skip(1)),
            // two or three dashes collapse to a single dash
            (old(self).top_rem()[0] == '-' && !old(self).opts_spec().word ==> r is Ok
                && final(self).output@ == old(self).output@ + seq!['-']
                && final(self).top_rem() == old(self).top_rem().skip(
                    if dash_run(old(self).top_rem()) < 3 {
                        dash_run(old(self).top_rem())
                    } else {
                        3
                    },
                )),
            // a closing brace at the recorded footnote depth closes the
            // footnote parenthesis
            (old(self).top_rem()[0] == '}' ==> r is Ok && {
                let lvl = if old(self).current_braces_level > 0 {
                    (old(self).current_braces_level - 1) as usize
                } else {
                    0
                };
                &&& final(self).current_braces_level == lvl
                &&& (old(self).footnote_level == Some(lvl) ==> final(self).output@ == old(self).output@ + seq![')'] && final(self).footnote_level is None)
                &&& (old(self).footnote_level != Some(lvl) ==> final(self).output@ == old(self).output@ && final(self).footnote_level == old(self).footnote_level)
                &&& final(self).top_rem() == old(self).top_rem().skip(1)
            }),
    {
        let ghost pre = *self;
        let c = match self.next_char() {
            Some(c) => c,
            None => {
                proof {
                    assert(false);
                }
                return Ok(());
            },
        };
        match c {
            '%' => {
                // a comment runs to the end of the line and is discarded
                loop
                    invariant
                        pre == *old(self),
                        pre.file_stack@.len() > 0,
                        pre.top_rem().len() > 0,
                        Detex::reads_frame(pre, *self),
                        self.opts == pre.opts,
                        self.output@ == pre.output@,
                        self.diags@ == pre.diags@,
                        self.files == pre.files,
                        self.state == pre.state,
                        self.top_rem().len() < pre.top_rem().len(),
                    decreases self.top_rem().len(),
                {
                    let ghost cur = *self;
                    match self.next_char() {
                        Some(c2) => {
                            proof {
                                lemma_reads_frame_trans(pre, cur, *self);
                            }
                            if c2 == '\n' {
                                self.at_column_zero = true;
                                break;
                            }
                        },
                        None => {
                            proof {
                                lemma_reads_frame_trans(pre, cur, *self);
                            }
                            break;
                        },
                    }
                }
                self.ignore();
            },
            '\\' => {
                let ghost mid = *self;
                let r = self.process_backslash();
                proof {
                    Detex::lemma_reads_to_step(pre, mid);
                    Detex::lemma_step_frame_trans(pre, mid, *self);
                    if r is Ok {
                        assert(spec_progress(pre, *self)) by {
                            assert(self.file_stack@ =~= pre.file_stack@.update(
                                pre.file_stack@.len() - 1,
                                self.file_stack@.last(),
                            ));
                            assert(self.top_rem().len() < pre.top_rem().len());
                        }
                    }
                }
                return r;
            },
            '$' => {
                if self.peek_char() == Some('$') {
                    let _ = self.next_char();
                    self.state = State::Display;
                    self.noun();
                } else {
                    self.state = State::Math;
                    self.noun();
                }
            },
            '{' => {
                // a brace-wrapped bare dimension (a number followed by
                // "pt") is dropped outright
                let ghost rem1 = self.top_rem();
                let mut hacked = false;
                match self.peek_char() {
                    Some(n0) => {
                        if is_digit(n0) || n0 == '+' || n0 == '-' || n0 == '.' {
                            let mut consumed: Vec<char> = Vec::new();
                            proof {
                                assert(consumed@ =~= rem1.take(0));
                            }
                            loop
                                invariant
                                    pre == *old(self),
                                    pre.file_stack@.len() > 0,
                                    Detex::reads_frame(pre, *self),
                                    self.opts == pre.opts,
                                    self.output@ == pre.output@,
                                    self.diags@ == pre.diags@,
                                    self.files == pre.files,
                                    self.state == pre.state,
                                    self.at_column_zero == pre.at_column_zero,
                                    consumed@.len() <= rem1.len(),
                                    consumed@ == rem1.take(consumed@.len() as int),
                                    self.top_rem() == rem1.skip(consumed@.len() as int),
                                    rem1 == pre.top_rem().skip(1),
                                decreases self.top_rem().len(),
                            {
                                let ghost cur = *self;
                                match self.peek_char() {
                                    Some(ch) => {
                                        if is_digit(ch) || ch == '.' || ch == '+' || ch == '-' {
                                            let _ = self.next_char();
                                            consumed.push(ch);
                                            proof {
                                                lemma_reads_frame_trans(pre, cur, *self);
                                                assert(consumed@ =~= rem1.take(
                                                    consumed@.len() as int,
                                                ));
                                                assert(self.top_rem() =~= rem1.skip(
                                                    consumed@.len() as int,
                                                ));
                                            }
                                        } else {
                                            break;
                                        }
                                    },
                                    None => {
                                        break;
                                    },
                                }
                            }
                            let lit_pt = str_to_chars("pt");
                            proof {
                                reveal_strlit("pt");
                            }
                            let ghost cur2 = *self;
                            let pt_match = self.try_match(&lit_pt);
                            proof {
                                lemma_reads_frame_trans(pre, cur2, *self);
                            }
                            let close_brace = self.peek_char() == Some('}');
                            if consumed.len() > 0 && pt_match && close_brace {
                                let ghost cur3 = *self;
                                let _ = self.next_char();
                                proof {
                                    lemma_reads_frame_trans(pre, cur3, *self);
                                }
                                hacked = true;
                            } else {
                                if pt_match {
                                    let ghost cur3 = *self;
                                    self.unget_char('t');
                                    proof {
                                        lemma_reads_frame_trans(pre, cur3, *self);
                                    }
                                    let ghost cur4 = *self;
                                    self.unget_char('p');
                                    proof {
                                        lemma_reads_frame_trans(pre, cur4, *self);
                                        assert(cur2.top_rem() == rem1.skip(
                                            consumed@.len() as int,
                                        ));
                                        assert(lit_pt@.is_prefix_of(cur2.top_rem()));
                                        assert(cur2.top_rem()[0] == 'p' && cur2.top_rem()[1]
                                            == 't') by {
                                            assert(cur2.top_rem().take(2)[0]
                                                == cur2.top_rem()[0]);
                                            assert(cur2.top_rem().take(2)[1]
                                                == cur2.top_rem()[1]);
                                        }
                                        assert(self.top_rem() =~= rem1.skip(
                                            consumed@.len() as int,
                                        ));
                                    }
                                }
                                // restore the digits for ordinary scanning
                                let mut j: usize = consumed.len();
                                while j > 0
                                    invariant
                                        pre == *old(self),
                                        pre.file_stack@.len() > 0,
                                        j <= consumed@.len() <= rem1.len(),
                                        Detex::reads_frame(pre, *self),
                                        self.opts == pre.opts,
                                        self.output@ == pre.output@,
                                        self.diags@ == pre.diags@,
                                        self.files == pre.files,
                                        self.state == pre.state,
                                        self.at_column_zero == pre.at_column_zero,
                                        consumed@ == rem1.take(consumed@.len() as int),
                                        self.top_rem() == rem1.skip(j as int),
                                        rem1 == pre.top_rem().skip(1),
                                    decreases j,
                                {
                                    let ghost cur4 = *self;
                                    j = j - 1;
                                    self.unget_char(consumed[j]);
                                    proof {
                                        lemma_reads_frame_trans(pre, cur4, *self);
                                        assert(consumed@[j as int] == rem1[j as int]);
                                        assert(self.top_rem() =~= rem1.skip(j as int));
                                    }
                                }
                                proof {
                                    assert(self.top_rem() =~= rem1);
                                }
                            }
                        }
                    },
                    None => {},
                }
                if hacked {
                    proof {
                        assert(old(self).output@.is_prefix_of(self.output@)) by {
                            assert(self.output@.take(old(self).output@.len() as int)
                                =~= old(self).output@);
                        }
                        self.finish_consuming_step(*old(self));
                    }
                    return Ok(());
                }
                if self.current_braces_level < usize::MAX {
                    self.current_braces_level = self.current_braces_level + 1;
                }
            },
            '}' => {
                if self.current_braces_level > 0 {
                    self.current_braces_level = self.current_braces_level - 1;
                }
                if self.footnote_level == Some(self.current_braces_level) {
                    self.output.push(')');
                    self.footnote_level = None;
                }
            },
            '~' => {
                self.space();
            },
            '|' => {
                self.ignore();
            },
            '!' | '?' => {
                if self.peek_char() == Some('`') {
                    let _ = self.next_char();
                } else if !self.opts.word {
                    self.echo(c);
                }
            },
            '-' => {
                let mut dashes: usize = 1;
                proof {
                    lemma_dash_run_bounds(pre.top_rem());
                    assert(self.top_rem() =~= pre.top_rem().skip(1));
                }
                loop
                    invariant
                        pre == *old(self),
                        pre.file_stack@.len() > 0,
                        pre.top_rem().len() > 0,
                        pre.top_rem()[0] == '-',
                        1 <= dashes <= 3,
                        dashes as int <= dash_run(pre.top_rem()),
                        Detex::reads_frame(pre, *self),
                        self.opts == pre.opts,
                        self.output@ == pre.output@,
                        self.diags@ == pre.diags@,
                        self.files == pre.files,
                        self.state == pre.state,
                        self.at_column_zero == pre.at_column_zero,
                        self.top_rem() == pre.top_rem().skip(dashes as int),
                    ensures
                        pre == *old(self),
                        Detex::reads_frame(pre, *self),
                        self.opts == pre.opts,
                        self.output@ == pre.output@,
                        self.diags@ == pre.diags@,
                        self.files == pre.files,
                        self.state == pre.state,
                        self.at_column_zero == pre.at_column_zero,
                        (self.top_rem() == pre.top_rem().skip(
                            if dash_run(pre.top_rem()) < 3 {
                                dash_run(pre.top_rem())
                            } else {
                                3
                            },
                        )),
                    decreases 3 - dashes,
                {
                    if dashes >= 3 {
                        proof {
                            lemma_dash_run_bounds(pre.top_rem());
                        }
                        break;
                    }
                    let ghost cur = *self;
                    match self.peek_char() {
                        Some(pc) => {
                            if pc == '-' {
                                let _ = self.next_char();
                                proof {
                                    lemma_reads_frame_trans(pre, cur, *self);
                                    lemma_dash_run_bounds(pre.top_rem());
                                    assert(dashes as int <= pre.top_rem().len());
                                    assert(cur.top_rem() == pre.top_rem().skip(dashes as int));
                                    assert(cur.top_rem().len() > 0);
                                    assert(cur.top_rem()[0] == pc);
                                    assert(pre.top_rem().skip(dashes as int)[0] == pre.top_rem()[
                                        dashes as int]);
                                    assert(pre.top_rem()[dashes as int] == '-');
                                    assert(dashes as int + 1 <= dash_run(pre.top_rem())) by {
                                        lemma_dash_run_bounds(pre.top_rem());
                                        if dash_run(pre.top_rem()) < dashes as int + 1 {
                                            assert(pre.top_rem()[dash_run(pre.top_rem())] != '-');
                                        }
                                    }
                                    assert(self.top_rem() =~= pre.top_rem().skip(
                                        dashes as int + 1,
                                    ));
                                }
                                dashes = dashes + 1;
                            } else {
                                proof {
                                    lemma_dash_run_bounds(pre.top_rem());
                                    if dash_run(pre.top_rem()) > dashes as int {
                                        assert(pre.top_rem()[dashes as int] == '-');
                                        assert(pre.top_rem().skip(dashes as int)[0] == '-');
                                    }
                                }
                                break;
                            }
                        },
                        None => {
                            proof {
                                lemma_dash_run_bounds(pre.top_rem());
                                if dash_run(pre.top_rem()) > dashes as int {
                                    assert(pre.top_rem().skip(dashes as int)[0] == '-');
                                }
                            }
                            break;
                        },
                    }
                }
                if !self.opts.word {
                    self.output.push('-');
                }
            },
            '`' => {
                if self.peek_char() == Some('`') {
                    let _ = self.next_char();
                    if !self.opts.word {
                        self.output.push('"');
                    }
                } else if !self.opts.word {
                    self.output.push('\'');
                }
            },
            '\'' => {
                if self.peek_char() == Some('\'') {
                    let _ = self.next_char();
                    if !self.opts.word {
                        self.output.push('"');
                    }
                } else if !self.opts.word {
                    self.echo(c);
                }
            },
            ',' => {
                if self.peek_char() == Some(',') {
                    let _ = self.next_char();
                    if !self.opts.word {
                        self.output.push('"');
                    }
                } else if !self.opts.word {
                    self.echo(c);
                }
            },
            '\n' => {
                if !self.opts.word {
                    self.newline();
                }
            },
            '\t' => {
                if !self.opts.word {
                    self.output.push('\t');
                }
            },
            _ => {
                if is_alpha(c) {
                    self.read_word_and_emit(c);
                } else if is_digit(c) {
                    if !self.opts.word {
                        self.read_number_and_emit(c);
                    }
                } else {
                    if !self.opts.word {
                        // a space directly before a citation command is
                        // swallowed so that discarding the command leaves
                        // no dangling space
                        let mut swallow = false;
                        if c == ' ' && self.peek_char() == Some('\\') {
                            let look = self.peek_ahead_top(6);
                            swallow = Self::is_cite_lookahead(&look);
                        }
                        if !swallow {
                            self.echo(c);
                        }
                    }
                }
            },
        }
        proof {
            assert(old(self).output@.is_prefix_of(self.output@)) by {
                assert(self.output@.take(old(self).output@.len() as int) =~= old(self).output@);
            }
            self.finish_consuming_step(*old(self));
            if plain_step_ok(pre.top_rem()) && !pre.opts.word && !pre.opts.src_loc {
                let t = pre.top_rem();
                assert(seq![t[0]] + t.skip(1) =~= t);
                if spec_is_alpha(t[0]) {
                    crate::chars::lemma_alpha_run_bounds(t);
                    assert(t.skip(1).skip(crate::chars::alpha_run(t) - 1) =~= t.skip(
                        crate::chars::alpha_run(t),
                    ));
                } else if crate::chars::spec_is_digit(t[0]) {
                    crate::chars::lemma_digit_run_bounds(t);
                    assert(t.skip(1).skip(crate::chars::digit_run(t) - 1) =~= t.skip(
                        crate::chars::digit_run(t),
                    ));
                } else {
                    assert(t.take(1) =~= seq![t[0]]);
                }
            }
        }
        Ok(())
    }
}

impl Detex {
    /// Whether the next character of the active source is `c`.
    pub(crate) fn peek_is_char(&self, c: char) -> (r: bool)
        ensures
            r == (self.top_rem().len() > 0 && self.top_rem()[0] == c),
    {
        self.peek_char() == Some(c)
    }

    /// Up to `n` characters of lookahead from the active source.
    pub(crate) fn peek_ahead_top(&self, n: usize) -> (r: Vec<char>)
        ensures
            r@ == (if n as int <= self.top_rem().len() {
                self.top_rem().take(n as int)
            } else {
                self.top_rem()
            }),
    {
        if self.file_stack.len() > 0 {
            self.file_stack[self.file_stack.len() - 1].source.peek_ahead(n)
        } else {
            let r = Vec::new();
            proof {
                assert(r@ =~= self.top_rem());
            }
            r
        }
    }

    /// Whether a lookahead begins with the citation command and the
    /// command name ends there.
    pub(crate) fn is_cite_lookahead(look: &Vec<char>) -> (r: bool)
        ensures
            r == spec_cite_lookahead(look@),
    {
        proof {
            reveal_strlit("\\cite");
        }
        let lit = str_to_chars("\\cite");
        if look.len() < 5 {
            return false;
        }
        let head = crate::file_handler::vec_slice(look, 0, 5);
        if !crate::chars::chars_eq(&head, &lit) {
            proof {
                assert(head@ =~= look@.take(5));
            }
            return false;
        }
        proof {
            assert(head@ =~= look@.take(5));
        }
        if look.len() == 5 {
            return true;
        }
        !is_alpha(look[5])
    }

    /// Consumes the rest of a word whose first letter `c` was just read,
    /// and writes the word: in word-only mode on a line of its own, else
    /// in place.  An apostrophe joins the word only when a letter
    /// follows.
    pub(crate) fn read_word_and_emit(&mut self, c: char)
        requires
            old(self).file_stack@.len() > 0,
            spec_is_alpha(c),
        ensures
            Detex::reads_frame_out(*old(self), *final(self)),
            (crate::chars::is_suffix(final(self).top_rem(), old(self).top_rem())),
            ({
                let s0 = seq![c] + old(self).top_rem();
                let run = crate::chars::alpha_run(s0);
                (run < s0.len() ==> s0[run] != '\'') && !old(self).opts_spec().word && !old(self).opts_spec().src_loc ==> final(self).output@ == old(self).output@ + s0.take(run)
                    && final(self).top_rem() == old(self).top_rem().skip(run - 1)
                    && final(self).at_column_zero == old(self).at_column_zero
            }),
            // in word-only mode the word stands on a line of its own
            ({
                let s0 = seq![c] + old(self).top_rem();
                let run = crate::chars::alpha_run(s0);
                (run < s0.len() ==> s0[run] != '\'') && old(self).opts_spec().word ==> final(self).output@ == old(self).output@ + s0.take(run) + seq!['\n'] && final(self).top_rem()
                    == old(self).top_rem().skip(run - 1)
            }),
    {
        let ghost pre = *self;
        let ghost s0 = seq![c] + pre.top_rem();
        let mut word: Vec<char> = Vec::new();
        word.push(c);
        proof {
            lemma_reads_frame_refl(pre);
            crate::chars::lemma_suffix_refl(pre.top_rem());
            crate::chars::lemma_alpha_run_bounds(s0);
            assert(word@ =~= s0.take(1));
            assert(self.top_rem() =~= pre.top_rem().skip(0));
        }
        loop
            invariant
                pre == *old(self),
                pre.file_stack@.len() > 0,
                s0 == seq![c] + pre.top_rem(),
                spec_is_alpha(s0[0]),
                Detex::reads_frame(pre, *self),
                self.at_column_zero == pre.at_column_zero,
                self.output@ == pre.output@,
                1 <= word@.len() <= crate::chars::alpha_run(s0),
                word@ == s0.take(word@.len() as int),
                self.top_rem() == pre.top_rem().skip(word@.len() - 1),
                (crate::chars::is_suffix(self.top_rem(), pre.top_rem())),
            decreases self.top_rem().len(),
        {
            let ghost k = word@.len() as int;
            let ghost cur = *self;
            proof {
                crate::chars::lemma_alpha_run_bounds(s0);
                assert(self.top_rem() =~= s0.skip(k));
            }
            match self.peek_char() {
                Some(ch) => {
                    if is_alpha(ch) {
                        let _ = self.next_char();
                        word.push(ch);
                        proof {
                            lemma_reads_frame_trans(pre, cur, *self);
                            assert(s0[k] == ch);
                            assert(k + 1 <= crate::chars::alpha_run(s0)) by {
                                crate::chars::lemma_alpha_run_bounds(s0);
                                if crate::chars::alpha_run(s0) < k + 1 {
                                    assert(!spec_is_alpha(s0[crate::chars::alpha_run(s0)]));
                                }
                            }
                            assert(word@ =~= s0.take(k + 1));
                            assert(self.top_rem() =~= pre.top_rem().skip(k));
                            crate::chars::lemma_suffix_trans(
                                self.top_rem(),
                                cur.top_rem(),
                                pre.top_rem(),
                            );
                        }
                    } else if ch == '\'' {
                        proof {
                            crate::chars::lemma_alpha_run_bounds(s0);
                            assert(k == crate::chars::alpha_run(s0));
                        }
                        let _ = self.next_char();
                        let ghost midap = *self;
                        let keep = match self.peek_char() {
                            Some(n2) => is_alpha(n2),
                            None => false,
                        };
                        proof {
                            lemma_reads_frame_trans(pre, cur, midap);
                            crate::chars::lemma_suffix_trans(
                                midap.top_rem(),
                                cur.top_rem(),
                                pre.top_rem(),
                            );
                        }
                        if keep {
                            word.push('\'');
                            // the word continues across the apostrophe;
                            // exactness is claimed only for words without
                            // one
                            let ghost cur2 = *self;
                            let more = self.read_rest_of_word();
                            let mut mi: usize = 0;
                            while mi < more.len()
                                invariant
                                    mi <= more@.len(),
                                decreases more@.len() - mi,
                            {
                                word.push(more[mi]);
                                mi = mi + 1;
                            }
                            proof {
                                lemma_reads_frame_trans(pre, cur2, *self);
                                crate::chars::lemma_suffix_trans(
                                    self.top_rem(),
                                    cur2.top_rem(),
                                    pre.top_rem(),
                                );
                            }
                            self.emit_word(&word);
                            proof {
                                assert(pre.output@.is_prefix_of(self.output@)) by {
                                    assert(self.output@.take(pre.output@.len() as int)
                                        =~= pre.output@);
                                }
                            }
                            return;
                        } else {
                            self.unget_char('\'');
                            proof {
                                lemma_reads_frame_trans(pre, midap, *self);
                                assert(self.top_rem() =~= cur.top_rem());
                                crate::chars::lemma_suffix_refl(cur.top_rem());
                                crate::chars::lemma_suffix_trans(
                                    self.top_rem(),
                                    cur.top_rem(),
                                    pre.top_rem(),
                                );
                            }
                            self.emit_word(&word);
                            proof {
                                assert(pre.output@.is_prefix_of(self.output@)) by {
                                    assert(self.output@.take(pre.output@.len() as int)
                                        =~= pre.output@);
                                }
                            }
                            return;
                        }
                    } else {
                        proof {
                            crate::chars::lemma_alpha_run_bounds(s0);
                            assert(k == crate::chars::alpha_run(s0));
                        }
                        self.emit_word(&word);
                        proof {
                            assert(pre.output@.is_prefix_of(self.output@)) by {
                                assert(self.output@.take(pre.output@.len() as int)
                                    =~= pre.output@);
                            }
                        }
                        return;
                    }
                },
                None => {
                    proof {
                        crate::chars::lemma_alpha_run_bounds(s0);
                        assert(k == crate::chars::alpha_run(s0));
                    }
                    self.emit_word(&word);
                    proof {
                        assert(pre.output@.is_prefix_of(self.output@)) by {
                            assert(self.output@.take(pre.output@.len() as int) =~= pre.output@);
                        }
                    }
                    return;
                },
            }
        }
    }

    /// The remaining letters (with embedded apostrophes followed by a
    /// letter) of a word already in progress.
    pub(crate) fn read_rest_of_word(&mut self) -> (r: Vec<char>)
        ensures
            Detex::reads_frame(*old(self), *final(self)),
            final(self).at_column_zero == old(self).at_column_zero,
            (crate::chars::is_suffix(final(self).top_rem(), old(self).top_rem())),
    {
        let ghost pre = *self;
        let mut more: Vec<char> = Vec::new();
        proof {
            lemma_reads_frame_refl(pre);
            crate::chars::lemma_suffix_refl(pre.top_rem());
        }
        loop
            invariant
                pre == *old(self),
                Detex::reads_frame(pre, *self),
                self.at_column_zero == pre.at_column_zero,
                (crate::chars::is_suffix(self.top_rem(), pre.top_rem())),
            decreases self.top_rem().len(),
        {
            let ghost cur = *self;
            match self.peek_char() {
                Some(ch) => {
                    if is_alpha(ch) {
                        let _ = self.next_char();
                        more.push(ch);
                        proof {
                            lemma_reads_frame_trans(pre, cur, *self);
                            crate::chars::lemma_suffix_trans(
                                self.top_rem(),
                                cur.top_rem(),
                                pre.top_rem(),
                            );
                        }
                    } else if ch == '\'' {
                        let _ = self.next_char();
                        let ghost mid = *self;
                        let keep = match self.peek_char() {
                            Some(n2) => is_alpha(n2),
                            None => false,
                        };
                        proof {
                            lemma_reads_frame_trans(pre, cur, mid);
                        }
                        if keep {
                            more.push('\'');
                            proof {
                                crate::chars::lemma_suffix_trans(
                                    self.top_rem(),
                                    cur.top_rem(),
                                    pre.top_rem(),
                                );
                            }
                        } else {
                            self.unget_char('\'');
                            proof {
                                lemma_reads_frame_trans(pre, mid, *self);
                                assert(self.top_rem() =~= cur.top_rem());
                                crate::chars::lemma_suffix_refl(cur.top_rem());
                                crate::chars::lemma_suffix_trans(
                                    self.top_rem(),
                                    cur.top_rem(),
                                    pre.top_rem(),
                                );
                            }
                            return more;
                        }
                    } else {
                        return more;
                    }
                },
                None => {
                    return more;
                },
            }
        }
    }

    /// Writes a completed word: on its own line in word-only mode, in
    /// place otherwise.
    pub(crate) fn emit_word(&mut self, word: &Vec<char>)
        ensures
            (*final(self) == Detex {
                output: final(self).output,
                at_column_zero: final(self).at_column_zero,
                ..*old(self)
            }),
            old(self).opts.word ==> final(self).output@ == old(self).output@ + word@ + seq!['\n']
                && final(self).at_column_zero == old(self).at_column_zero,
            !old(self).opts.word ==> final(self).output@ == old(self).output@ + Detex::emit_pfx(
                *old(self),
                word@,
            ) && final(self).at_column_zero == (old(self).at_column_zero && !old(self).opts.src_loc),
    {
        if self.opts.word {
            crate::lexer::push_all(&mut self.output, word);
            self.output.push('\n');
            proof {
                assert(self.output@ =~= old(self).output@ + word@ + seq!['\n']);
            }
        } else {
            self.echo_str(word);
        }
    }

    /// Consumes the rest of a number whose first digit `c` was just read
    /// and writes it in place.
    pub(crate) fn read_number_and_emit(&mut self, c: char)
        requires
            old(self).file_stack@.len() > 0,
            crate::chars::spec_is_digit(c),
            !old(self).opts_spec().word,
        ensures
            Detex::reads_frame_out(*old(self), *final(self)),
            (crate::chars::is_suffix(final(self).top_rem(), old(self).top_rem())),
            ({
                let s0 = seq![c] + old(self).top_rem();
                let run = crate::chars::digit_run(s0);
                !old(self).opts_spec().src_loc ==> final(self).output@ == old(self).output@
                    + s0.take(run) && final(self).top_rem() == old(self).top_rem().skip(run - 1)
                    && final(self).at_column_zero == old(self).at_column_zero
            }),
    {
        let ghost pre = *self;
        let ghost s0 = seq![c] + pre.top_rem();
        let mut num: Vec<char> = Vec::new();
        num.push(c);
        proof {
            lemma_reads_frame_refl(pre);
            crate::chars::lemma_suffix_refl(pre.top_rem());
            crate::chars::lemma_digit_run_bounds(s0);
            assert(num@ =~= s0.take(1));
            assert(self.top_rem() =~= pre.top_rem().skip(0));
        }
        loop
            invariant
                pre == *old(self),
                pre.file_stack@.len() > 0,
                s0 == seq![c] + pre.top_rem(),
                crate::chars::spec_is_digit(s0[0]),
                Detex::reads_frame(pre, *self),
                self.at_column_zero == pre.at_column_zero,
                self.output@ == pre.output@,
                1 <= num@.len() <= crate::chars::digit_run(s0),
                num@ == s0.take(num@.len() as int),
                self.top_rem() == pre.top_rem().skip(num@.len() - 1),
                (crate::chars::is_suffix(self.top_rem(), pre.top_rem())),
            decreases self.top_rem().len(),
        {
            let ghost k = num@.len() as int;
            let ghost cur = *self;
            proof {
                crate::chars::lemma_digit_run_bounds(s0);
                assert(self.top_rem() =~= s0.skip(k));
            }
            match self.peek_char() {
                Some(ch) => {
                    if is_digit(ch) {
                        let _ = self.next_char();
                        num.push(ch);
                        proof {
                            lemma_reads_frame_trans(pre, cur, *self);
                            assert(s0[k] == ch);
                            assert(k + 1 <= crate::chars::digit_run(s0)) by {
                                crate::chars::lemma_digit_run_bounds(s0);
                                if crate::chars::digit_run(s0) < k + 1 {
                                    assert(!crate::chars::spec_is_digit(s0[crate::chars::digit_run(
                                        s0,
                                    )]));
                                }
                            }
                            assert(num@ =~= s0.take(k + 1));
                            assert(self.top_rem() =~= pre.top_rem().skip(k));
                            crate::chars::lemma_suffix_trans(
                                self.top_rem(),
                                cur.top_rem(),
                                pre.top_rem(),
                            );
                        }
                    } else {
                        proof {
                            crate::chars::lemma_digit_run_bounds(s0);
                            assert(k == crate::chars::digit_run(s0));
                        }
                        self.echo_str(&num);
                        proof {
                            assert(pre.output@.is_prefix_of(self.output@)) by {
                                assert(self.output@.take(pre.output@.len() as int)
                                    =~= pre.output@);
                            }
                        }
                        return;
                    }
                },
                None => {
                    proof {
                        crate::chars::lemma_digit_run_bounds(s0);
                        assert(k == crate::chars::digit_run(s0));
                    }
                    self.echo_str(&num);
                    proof {
                        assert(pre.output@.is_prefix_of(self.output@)) by {
                            assert(self.output@.take(pre.output@.len() as int) =~= pre.output@);
                        }
                    }
                    return;
                },
            }
        }
    }
}

/// Whether a lookahead begins with the citation command, with the command
/// name ending right there.
pub open spec fn spec_cite_lookahead(look: Seq<char>) -> bool {
    &&& look.len() >= 5
    &&& look.take(5) == "\\cite"@
    &&& (look.len() > 5 ==> !spec_is_alpha(look[5]))
}

/// Whether a command name equals a given literal.
pub(crate) fn word_is(cmd: &Vec<char>, lit: &str) -> (r: bool)
    ensures
        r == (cmd@ == lit@),
{
    let l = str_to_chars(lit);
    crate::chars::chars_eq(cmd, &l)
}

/// Where scanning a verb body ends: the index of the closing delimiter in
/// `s`, or -1 when the input ends first, or -2 when a newline or NUL comes
/// first.
pub open spec fn verb_end(s: Seq<char>, d: char) -> int
    decreases s.len(),
{
    if s.len() == 0 {
        -1
    } else if s[0] == d {
        0
    } else if s[0] == '\n' || s[0] as u32 == 0 {
        -2
    } else {
        let r = verb_end(s.skip(1), d);
        if r >= 0 {
            1 + r
        } else {
            r
        }
    }
}

/// Scanning a clean prefix first does not change where a verb body ends.
pub proof fn lemma_verb_end_skip(s: Seq<char>, d: char, k: int)
    requires
        0 <= k <= s.len(),
        forall|j: int| 0 <= j < k ==> s[j] != d && s[j] != '\n' && s[j] as u32 != 0,
    ensures
        verb_end(s, d) == (if verb_end(s.skip(k), d) >= 0 {
            k + verb_end(s.skip(k), d)
        } else {
            verb_end(s.skip(k), d)
        }),
    decreases k,
{
    if k > 0 {
        assert(s[0] != d && s[0] != '\n' && s[0] as u32 != 0);
        lemma_verb_end_skip(s.skip(1), d, k - 1);
        assert(s.skip(1).skip(k - 1) =~= s.skip(k));
        assert forall|j: int| 0 <= j < k - 1 implies s.skip(1)[j] != d && s.skip(1)[j] != '\n'
            && s.skip(1)[j] as u32 != 0 by {
            assert(s.skip(1)[j] == s[j + 1]);
        }
    } else {
        assert(s.skip(0) =~= s);
    }
}

/// The frame of a backslash dispatch: the store and diagnostics stay, the
/// options change at most by turning LaTeX mode on, output only grows, the
/// stack keeps its shape, and only already-read characters are consumed.
pub(crate) open spec fn bs_frame(pre: Detex, post: Detex) -> bool {
    &&& post.files == pre.files
    &&& post.diags == pre.diags
    &&& (post.opts == pre.opts || post.opts == Options { latex: true, ..pre.opts })
    &&& pre.output@.is_prefix_of(post.output@)
    &&& post.file_stack@.len() == pre.file_stack@.len()
    &&& (forall|i: int| 0 <= i < pre.file_stack@.len() - 1 ==> post.file_stack@[i]
        == pre.file_stack@[i])
    &&& (pre.file_stack@.len() > 0 ==> post.file_stack@.last().name
        == pre.file_stack@.last().name)
    &&& (crate::chars::is_suffix(post.top_rem(), pre.top_rem()))
}

impl Detex {
    /// Handles a backslash followed by a non-letter: formula delimiters,
    /// forced line breaks, and escaped punctuation.
    pub(crate) fn handle_escape_char(&mut self)
        requires
            old(self).file_stack@.len() > 0,
        ensures
            (bs_frame(*old(self), *final(self))),
    {
        let ghost pre = *self;
        proof {
            lemma_reads_frame_refl(pre);
            crate::chars::lemma_suffix_refl(pre.top_rem());
        }
        match self.next_char() {
            Some('(') => {
                self.la_begin(State::LaFormula);
                self.noun();
            },
            Some('[') => {
                self.la_begin(State::LaDisplay);
                self.noun();
            },
            Some('\\') => {
                // a forced line break, with an optional star and bracket
                let ghost m1 = *self;
                self.match_optional_star();
                proof {
                    lemma_reads_frame_trans(pre, m1, *self);
                    crate::chars::lemma_suffix_trans(self.top_rem(), m1.top_rem(), pre.top_rem());
                }
                let ghost m2 = *self;
                self.skip_optional_bracket_arg();
                proof {
                    lemma_reads_frame_trans(pre, m2, *self);
                    crate::chars::lemma_suffix_trans(self.top_rem(), m2.top_rem(), pre.top_rem());
                }
                self.newline();
            },
            Some(' ') => {
                self.space();
            },
            Some('%') => {
                if !self.opts.word {
                    self.output.push('%');
                }
            },
            Some('$') => {
                if !self.opts.word {
                    self.output.push('$');
                }
            },
            Some(_) => {
                self.ignore();
            },
            None => {
                self.ignore();
            },
        }
        proof {
            assert(pre.output@.is_prefix_of(self.output@)) by {
                assert(self.output@.take(pre.output@.len() as int) =~= pre.output@);
            }
            if self.top_rem() == pre.top_rem() {
                crate::chars::lemma_suffix_refl(pre.top_rem());
            }
        }
    }

    /// Handles a begin directive: the environment name decides between
    /// LaTeX-mode confirmation, verbatim echo, argument killing for boxed
    /// environments, and the generic ignore-list check.
    #[verifier::rlimit(100)]
    pub(crate) fn handle_begin(&mut self)
        requires
            old(self).file_stack@.len() > 0,
        ensures
            (bs_frame(*old(self), *final(self))),
            // entering an environment on the ignore list (other than the
            // five with bespoke handling) switches to the absorb state and
            // records its name
            ({
                let t = old(self).top_rem();
                let n = cmd_run(t.skip(1));
                let env = t.skip(1).take(n);
                (old(self).opts_spec().spec_is_latex() && t.len() > 0 && t[0] == '{' && n > 0
                    && n + 1 < t.len() && t[n + 1] == '}' && env != "document"@ && env
                    != "verbatim"@ && env != "minipage"@ && env != "table"@ && env != "figure"@
                    && Detex::spec_env_ignored(old(self).opts_spec(), env)) ==> final(self).state
                    == State::LaEnv && final(self).current_ignored_env@ == env && final(self).top_rem() == t.skip(n + 2) && final(self).output@ == old(self).output@
                    + Detex::spec_ignore(old(self).opts_spec()) + Detex::spec_ignore(
                    old(self).opts_spec(),
                )
            }),
            // a verbatim environment not on the ignore list switches to the
            // literal-echo state instead
            ({
                let t = old(self).top_rem();
                let n = cmd_run(t.skip(1));
                let env = t.skip(1).take(n);
                (old(self).opts_spec().spec_is_latex() && t.len() > 0 && t[0] == '{' && n > 0
                    && n + 1 < t.len() && t[n + 1] == '}' && env == "verbatim"@
                    && !Detex::spec_env_ignored(old(self).opts_spec(), env)) ==> final(self).state
                    == State::LaVerbatim && final(self).top_rem() == t.skip(n + 2) && final(self).output@ == old(self).output@ + Detex::spec_ignore(old(self).opts_spec())
                    + Detex::spec_ignore(old(self).opts_spec())
            }),
    {
        let ghost pre = *self;
        proof {
            lemma_reads_frame_refl(pre);
            crate::chars::lemma_suffix_refl(pre.top_rem());
        }
        self.ignore();
        if !self.opts.is_latex() {
            proof {
                assert(pre.output@.is_prefix_of(self.output@)) by {
                    assert(self.output@.take(pre.output@.len() as int) =~= pre.output@);
                }
            }
            return;
        }
        let ghost m0 = *self;
        self.skip_whitespace();
        proof {
            crate::chars::lemma_suffix_trans(self.top_rem(), m0.top_rem(), pre.top_rem());
        }
        let lit_open = str_to_chars("{");
        let ghost m1 = *self;
        let opened = self.try_match(&lit_open);
        proof {
            lemma_reads_frame_trans(m0, m1, *self);
            crate::chars::lemma_suffix_trans(self.top_rem(), m1.top_rem(), pre.top_rem());
            if pre.top_rem().len() > 0 && pre.top_rem()[0] == '{' {
                reveal_strlit("{");
                assert(ws_run(pre.top_rem()) == 0);
                assert(m1.top_rem() =~= pre.top_rem());
                assert(lit_open@.is_prefix_of(m1.top_rem())) by {
                    assert(lit_open@ =~= m1.top_rem().take(1));
                }
            }
        }
        if opened {
            let ghost m2 = *self;
            self.skip_whitespace();
            proof {
                lemma_reads_frame_trans(m0, m2, *self);
                crate::chars::lemma_suffix_trans(self.top_rem(), m2.top_rem(), pre.top_rem());
            }
            let ghost m3 = *self;
            let env = self.read_command_name();
            proof {
                lemma_reads_frame_trans(m0, m3, *self);
                crate::chars::lemma_suffix_trans(self.top_rem(), m3.top_rem(), pre.top_rem());
            }
            let ghost m4 = *self;
            self.skip_whitespace();
            proof {
                lemma_reads_frame_trans(m0, m4, *self);
                crate::chars::lemma_suffix_trans(self.top_rem(), m4.top_rem(), pre.top_rem());
            }
            let lit_close = str_to_chars("}");
            let ghost m5 = *self;
            let _ = self.try_match(&lit_close);
            proof {
                lemma_reads_frame_trans(m0, m5, *self);
                crate::chars::lemma_suffix_trans(self.top_rem(), m5.top_rem(), pre.top_rem());
            }
            let ghost mz = *self;
            self.begin_dispatch(&env);
            proof {
                crate::chars::lemma_suffix_trans(self.top_rem(), mz.top_rem(), pre.top_rem());
            }
            proof {
                let t = pre.top_rem();
                let n = cmd_run(t.skip(1));
                let genv = t.skip(1).take(n);
                if pre.opts.spec_is_latex() && t.len() > 0 && t[0] == '{' && n > 0 && n + 1
                    < t.len() && t[n + 1] == '}' {
                    reveal_strlit("{");
                    reveal_strlit("}");
                    reveal_strlit("document");
                    reveal_strlit("verbatim");
                    reveal_strlit("minipage");
                    reveal_strlit("table");
                    reveal_strlit("figure");
                    crate::chars::lemma_cmd_run_bounds(t.skip(1));
                    assert(ws_run(t) == 0);
                    assert(m0.top_rem() =~= t);
                    assert(t.skip(1).len() > 0 && crate::chars::spec_is_cmd_char(t.skip(1)[0]));
                    assert(lit_open@.is_prefix_of(m1.top_rem())) by {
                        assert(lit_open@ =~= m1.top_rem().take(1));
                    }
                    assert(m2.top_rem() =~= t.skip(1));
                    assert(ws_run(t.skip(1)) == 0);
                    assert(m3.top_rem() == t.skip(1));
                    assert(env@ == genv);
                    assert(m4.top_rem() =~= t.skip(1).skip(n));
                    assert(t.skip(1).skip(n) =~= t.skip(1 + n));
                    assert(t.skip(1 + n)[0] == t[n + 1]);
                    assert(ws_run(t.skip(1 + n)) == 0);
                    assert(m5.top_rem() == t.skip(1 + n));
                    assert(lit_close@.is_prefix_of(m5.top_rem())) by {
                        assert(lit_close@ =~= m5.top_rem().take(1));
                    }
                    assert(mz.top_rem() =~= t.skip(n + 2));
                }
            }
        }
        proof {
            assert(pre.output@.is_prefix_of(self.output@)) by {
                assert(self.output@.take(pre.output@.len() as int) =~= pre.output@);
            }
        }
    }

    /// Handles a footnote command: the content between the braces stays
    /// visible, wrapped in parentheses; the opening one is written here
    /// and the closing one when plain-text scanning closes the brace at
    /// the recorded depth.
    pub(crate) fn handle_footnote(&mut self)
        requires
            old(self).file_stack@.len() > 0,
        ensures
            (bs_frame(*old(self), *final(self))),
            (old(self).top_rem().len() > 0 && old(self).top_rem()[0] == '{' ==> final(self).output@
                == old(self).output@ + seq!['('] && final(self).footnote_level == Some(
                old(self).current_braces_level,
            ) && final(self).current_braces_level == (if old(self).current_braces_level
                < usize::MAX {
                (old(self).current_braces_level + 1) as usize
            } else {
                old(self).current_braces_level
            }) && final(self).top_rem() == old(self).top_rem().skip(1) && final(self).state == old(self).state && final(self).opts == old(self).opts),
    {
        let ghost pre = *self;
        proof {
            lemma_reads_frame_refl(pre);
            crate::chars::lemma_suffix_refl(pre.top_rem());
        }
        self.skip_optional_bracket_arg();
        let lit_open = str_to_chars("{");
        proof {
            reveal_strlit("{");
        }
        let ghost m1 = *self;
        let opened = self.try_match(&lit_open);
        proof {
            lemma_reads_frame_trans(pre, m1, *self);
            crate::chars::lemma_suffix_trans(self.top_rem(), m1.top_rem(), pre.top_rem());
            if pre.top_rem().len() > 0 && pre.top_rem()[0] == '{' {
                assert(lit_open@.is_prefix_of(m1.top_rem())) by {
                    assert(lit_open@ =~= m1.top_rem().take(1));
                }
                assert(self.top_rem() =~= pre.top_rem().skip(1));
            }
        }
        if opened {
            self.output.push('(');
            self.footnote_level = Some(self.current_braces_level);
            if self.current_braces_level < usize::MAX {
                self.current_braces_level = self.current_braces_level + 1;
            }
        }
        proof {
            assert(pre.output@.is_prefix_of(self.output@)) by {
                assert(self.output@.take(pre.output@.len() as int) =~= pre.output@);
            }
        }
    }

    /// Handles a verb construct: the character after the command is the
    /// delimiter, and everything up to its next occurrence is echoed
    /// exactly; a newline, a NUL or the end of the input first is the one
    /// fatal error.
    pub(crate) fn handle_verb(&mut self) -> (r: Result<(), DetexError>)
        requires
            old(self).file_stack@.len() > 0,
        ensures
            (bs_frame(*old(self), *final(self))),
            (r is Err ==> r == Result::<(), DetexError>::Err(DetexError::UnterminatedVerb)),
            !old(self).opts_spec().spec_is_latex() ==> r is Ok && *final(self) == *old(self),
            (old(self).opts_spec().spec_is_latex() && old(self).top_rem().len() > 0 && (old(self).top_rem()[0] as u32) < 32 ==> r == Result::<(), DetexError>::Err(
                DetexError::UnterminatedVerb,
            )),
            (old(self).opts_spec().spec_is_latex() && old(self).top_rem().len() > 0 && (old(self).top_rem()[0] as u32) >= 32 ==> {
                let d = old(self).top_rem()[0];
                let rest = old(self).top_rem().skip(1);
                &&& (verb_end(rest, d) >= 0 ==> r is Ok && final(self).output@ == old(self).output@ + rest.take(verb_end(rest, d)) && final(self).top_rem() == rest.skip(
                    verb_end(rest, d) + 1,
                ) && final(self).state == old(self).state && final(self).opts == old(self).opts)
                &&& (verb_end(rest, d) < 0 ==> r == Result::<(), DetexError>::Err(
                    DetexError::UnterminatedVerb,
                ))
            }),
    {
        let ghost pre = *self;
        proof {
            lemma_reads_frame_refl(pre);
            crate::chars::lemma_suffix_refl(pre.top_rem());
        }
        if !self.opts.is_latex() {
            return Ok(());
        }
        match self.next_char() {
            Some(delim) => {
                if (delim as u32) < 32 {
                    proof {
                        crate::chars::lemma_suffix_skip(pre.top_rem(), 1);
                    }
                    return Err(DetexError::UnterminatedVerb);
                }
                let ghost rest = pre.top_rem().skip(1);
                let ghost mut k: int = 0;
                proof {
                    lemma_prefix_refl(pre.output@);
                    assert(self.top_rem() =~= rest.skip(0));
                    assert(self.output@ =~= pre.output@ + rest.take(0));
                }
                loop
                    invariant
                        pre == *old(self),
                        pre.file_stack@.len() > 0,
                        pre.top_rem().len() > 0,
                        pre.opts.spec_is_latex(),
                        delim == pre.top_rem()[0],
                        (delim as u32) >= 32,
                        rest == pre.top_rem().skip(1),
                        0 <= k <= rest.len(),
                        Detex::reads_frame_out(pre, *self),
                        self.top_rem() == rest.skip(k),
                        self.output@ == pre.output@ + rest.take(k),
                        (forall|j: int| 0 <= j < k ==> rest[j] != pre.top_rem()[0] && rest[j]
                            != '\n' && rest[j] as u32 != 0),
                    decreases self.top_rem().len(),
                {
                    let ghost cur = *self;
                    match self.next_char() {
                        Some(c) => {
                            proof {
                                crate::lexer::lemma_rfo_step(pre, cur, *self);
                                assert(rest[k] == c);
                            }
                            if c == delim {
                                proof {
                                    lemma_verb_end_skip(rest, delim, k);
                                    assert(rest.skip(k)[0] == delim);
                                    assert(verb_end(rest, delim) == k);
                                    assert(self.top_rem() =~= rest.skip(k + 1));
                                    crate::chars::lemma_suffix_skip(pre.top_rem(), 1 + k + 1);
                                    assert(rest.skip(k + 1) =~= pre.top_rem().skip(1 + k + 1));
                                }
                                return Ok(());
                            }
                            if c == '\n' || c as u32 == 0 {
                                proof {
                                    lemma_verb_end_skip(rest, delim, k);
                                    assert(rest.skip(k)[0] == c);
                                    assert(verb_end(rest, delim) == -2);
                                    crate::chars::lemma_suffix_skip(pre.top_rem(), 1 + k + 1);
                                    assert(self.top_rem() =~= pre.top_rem().skip(1 + k + 1));
                                }
                                return Err(DetexError::UnterminatedVerb);
                            }
                            self.output.push(c);
                            proof {
                                assert(self.top_rem() =~= rest.skip(k + 1));
                                assert(self.output@ =~= pre.output@ + rest.take(k + 1));
                                assert(pre.output@.is_prefix_of(self.output@)) by {
                                    assert(self.output@.take(pre.output@.len() as int)
                                        =~= pre.output@);
                                }
                                assert(Detex::reads_frame_out(pre, *self));
                                k = k + 1;
                            }
                        },
                        None => {
                            proof {
                                lemma_verb_end_skip(rest, delim, k);
                                assert(rest.skip(k).len() == 0);
                                assert(verb_end(rest, delim) == -1);
                                crate::chars::lemma_suffix_skip(pre.top_rem(), 1 + k);
                                assert(self.top_rem() =~= pre.top_rem().skip(1 + k));
                            }
                            return Err(DetexError::UnterminatedVerb);
                        },
                    }
                }
            },
            None => {
                proof {
                    crate::chars::lemma_suffix_refl(pre.top_rem());
                }
                Ok(())
            },
        }
    }
}

impl Detex {
    /// Dispatches a control sequence: reads the command name and performs
    /// the recorded action: discarding arguments, switching states,
    /// ligature substitution, spacing, inclusion, or resynchronisation
    /// for unknown names.
    #[verifier::rlimit(80)]
    pub(crate) fn process_backslash(&mut self) -> (r: Result<(), DetexError>)
        requires
            old(self).stack_len() > 0,
        ensures
            Detex::step_frame(*old(self), *final(self)),
            final(self).file_stack@.len() == old(self).file_stack@.len(),
            (forall|i: int| 0 <= i < old(self).file_stack@.len() - 1 ==> final(self).file_stack@[i]
                == old(self).file_stack@[i]),
            final(self).file_stack@.last().name == old(self).file_stack@.last().name,
            (crate::chars::is_suffix(final(self).top_rem(), old(self).top_rem())),
            final(self).diags@ == old(self).diags@,
            (r is Err ==> r == Result::<(), DetexError>::Err(DetexError::UnterminatedVerb)),
            // a begin directive naming an ignored environment enters the
            // absorb state; a verbatim one not ignored enters literal echo
            (begin_guard(*old(self)) ==> r is Ok && {
                let t5 = old(self).top_rem().skip(5);
                let n = cmd_run(t5.skip(1));
                let env = t5.skip(1).take(n);
                &&& ((env != "document"@ && env != "verbatim"@ && env != "minipage"@ && env
                    != "table"@ && env != "figure"@ && Detex::spec_env_ignored(
                    old(self).opts_spec(),
                    env,
                )) ==> final(self).state == State::LaEnv && final(self).current_ignored_env@ == env
                    && final(self).top_rem() == t5.skip(n + 2) && final(self).output@ == old(self).output@ + Detex::spec_ignore(old(self).opts_spec()) + Detex::spec_ignore(
                    old(self).opts_spec(),
                ))
                &&& ((env == "verbatim"@ && !Detex::spec_env_ignored(old(self).opts_spec(), env))
                    ==> final(self).state == State::LaVerbatim && final(self).top_rem()
                    == t5.skip(n + 2) && final(self).output@ == old(self).output@
                    + Detex::spec_ignore(old(self).opts_spec()) + Detex::spec_ignore(
                    old(self).opts_spec(),
                ))
            }),
            // a footnote opens its parenthesis and records the depth
            ("footnote{"@.is_prefix_of(old(self).top_rem()) ==> r is Ok && final(self).output@
                == old(self).output@ + seq!['('] && final(self).footnote_level == Some(
                old(self).current_braces_level,
            ) && final(self).current_braces_level == (if old(self).current_braces_level
                < usize::MAX {
                (old(self).current_braces_level + 1) as usize
            } else {
                old(self).current_braces_level
            }) && final(self).top_rem() == old(self).top_rem().skip(9) && final(self).state == old(self).state && final(self).opts == old(self).opts),
            // a verb body is echoed exactly up to its delimiter; an input
            // that ends the line or the file first is the fatal error
            ((verb_guard(*old(self)) && (old(self).top_rem()[4] as u32) < 32) ==> r
                == Result::<(), DetexError>::Err(DetexError::UnterminatedVerb)),
            ((verb_guard(*old(self)) && (old(self).top_rem()[4] as u32) >= 32) ==> {
                let d = old(self).top_rem()[4];
                let rest = old(self).top_rem().skip(5);
                &&& (verb_end(rest, d) >= 0 ==> r is Ok && final(self).output@ == old(self).output@ + rest.take(verb_end(rest, d)) && final(self).top_rem() == rest.skip(
                    verb_end(rest, d) + 1,
                ) && final(self).state == old(self).state && final(self).opts == old(self).opts)
                &&& (verb_end(rest, d) < 0 ==> r == Result::<(), DetexError>::Err(
                    DetexError::UnterminatedVerb,
                ))
            }),
    {
        let ghost pre = *self;
        let cmd = self.read_command_name();
        let ghost s1 = *self;
        proof {
            crate::chars::lemma_cmd_run_bounds(pre.top_rem());
            reveal_strlit("footnote");
            reveal_strlit("verb");
            reveal_strlit("begin");
            if begin_guard(pre) {
                assert forall|i: int| 0 <= i < 5 implies pre.top_rem()[i] == ("begin"@)[i] by {
                    assert(pre.top_rem().take(5)[i] == pre.top_rem()[i]);
                }
                assert(cmd_run(pre.top_rem()) == 5) by {
                    if cmd_run(pre.top_rem()) < 5 {
                        assert(crate::chars::spec_is_cmd_char(pre.top_rem()[cmd_run(
                            pre.top_rem(),
                        )]));
                    }
                    if cmd_run(pre.top_rem()) > 5 {
                        assert(crate::chars::spec_is_cmd_char(pre.top_rem()[5]));
                    }
                }
                assert(cmd@ =~= "begin"@);
            }
            if "footnote{"@.is_prefix_of(pre.top_rem()) {
                reveal_strlit("footnote{");
                assert forall|i: int| 0 <= i < 9 implies pre.top_rem()[i] == ("footnote{"@)[i] by {
                    assert(pre.top_rem().take(9)[i] == pre.top_rem()[i]);
                }
                assert(cmd_run(pre.top_rem()) == 8) by {
                    if cmd_run(pre.top_rem()) < 8 {
                        assert(crate::chars::spec_is_cmd_char(pre.top_rem()[cmd_run(
                            pre.top_rem(),
                        )]));
                    }
                    if cmd_run(pre.top_rem()) > 8 {
                        assert(crate::chars::spec_is_cmd_char(pre.top_rem()[8]));
                    }
                }
                assert(cmd@ =~= "footnote"@);
            }
            if verb_guard(pre) {
                assert forall|i: int| 0 <= i < 4 implies pre.top_rem()[i] == ("verb"@)[i] by {
                    assert(pre.top_rem().take(4)[i] == pre.top_rem()[i]);
                }
                assert(cmd_run(pre.top_rem()) == 4) by {
                    if cmd_run(pre.top_rem()) < 4 {
                        assert(crate::chars::spec_is_cmd_char(pre.top_rem()[cmd_run(
                            pre.top_rem(),
                        )]));
                    }
                }
                assert(cmd@ =~= "verb"@);
            }
        }
        let mut result: Result<(), DetexError> = Ok(());
        if cmd.len() == 0 {
            self.handle_escape_char();
        } else if word_is(&cmd, "footnote") {
            self.handle_footnote();
        } else if word_is(&cmd, "verb") {
            result = self.handle_verb();
        } else {
            self.dispatch_named(&cmd);
        }
        proof {
            if begin_guard(pre) {
                assert(s1.top_rem() == pre.top_rem().skip(5));
            }
            if verb_guard(pre) {
                assert(s1.top_rem().skip(1) =~= pre.top_rem().skip(5));
            }
            if "footnote{"@.is_prefix_of(pre.top_rem()) {
                assert(s1.top_rem()[0] == pre.top_rem()[8]);
                assert(pre.top_rem().take(9)[8] == pre.top_rem()[8]);
                assert(s1.top_rem().skip(1) =~= pre.top_rem().skip(9));
            }
            assert(s1.output@.is_prefix_of(self.output@)) by {
                assert(self.output@.take(s1.output@.len() as int) =~= s1.output@);
            }
            if self.top_rem() == s1.top_rem() {
                crate::chars::lemma_suffix_refl(s1.top_rem());
            }
            assert(crate::chars::is_suffix(self.top_rem(), s1.top_rem()));
            crate::chars::lemma_suffix_trans(self.top_rem(), s1.top_rem(), pre.top_rem());
            if self.opts != pre.opts {
                assert(Detex::opts_evolve(pre.opts, self.opts)) by {
                    lemma_prefix_refl(pre.opts.include_list@);
                }
            } else {
                lemma_opts_evolve_refl(pre.opts);
            }
            lemma_prefix_refl(pre.diags_seq());
            assert(pre.output@.is_prefix_of(self.output@)) by {
                assert(self.output@.take(pre.output@.len() as int) =~= pre.output@);
            }
            assert(self.file_stack@ =~= pre.file_stack@.update(
                pre.file_stack@.len() - 1,
                self.file_stack@.last(),
            ));
            lemma_step_shape(pre, *self);
        }
        result
    }
}

/// The head of the source reads as a begin directive in LaTeX mode whose
/// braced environment name follows directly: after the five-letter command
/// name come a brace, a nonempty name and the closing brace.
pub open spec fn begin_guard(pre: Detex) -> bool {
    let t5 = pre.top_rem().skip(5);
    let n = cmd_run(t5.skip(1));
    &&& pre.opts_spec().spec_is_latex()
    &&& pre.top_rem().len() >= 6
    &&& pre.top_rem().take(5) == "begin"@
    &&& !crate::chars::spec_is_cmd_char(pre.top_rem()[5])
    &&& t5.len() > 0
    &&& t5[0] == '{'
    &&& n > 0
    &&& n + 1 < t5.len()
    &&& t5[n + 1] == '}'
}

/// The head of the source reads as a whole verb construct in LaTeX mode:
/// the four-letter command name ends and a delimiter character follows.
pub open spec fn verb_guard(pre: Detex) -> bool {
    &&& pre.opts_spec().spec_is_latex()
    &&& pre.top_rem().len() >= 5
    &&& pre.top_rem().take(4) == "verb"@
    &&& !crate::chars::spec_is_cmd_char(pre.top_rem()[4])
}

impl Detex {
    /// Performs the recorded action of a named command other than the
    /// footnote and verb specials: argument discarding, state switches,
    /// ligatures, spacing, inclusion directives, and the unknown-command
    /// fallback.
    #[verifier::rlimit(100)]
    pub(crate) fn dispatch_named(&mut self, cmd: &Vec<char>)
        requires
            old(self).file_stack@.len() > 0,
        ensures
            (bs_frame(*old(self), *final(self))),
            // a begin directive naming an ignored environment enters the
            // absorb state; a verbatim one not ignored enters literal echo
            (cmd@ == "begin"@ ==> {
                let t = old(self).top_rem();
                let n = cmd_run(t.skip(1));
                let env = t.skip(1).take(n);
                &&& ((old(self).opts_spec().spec_is_latex() && t.len() > 0 && t[0] == '{' && n > 0
                    && n + 1 < t.len() && t[n + 1] == '}' && env != "document"@ && env
                    != "verbatim"@ && env != "minipage"@ && env != "table"@ && env != "figure"@
                    && Detex::spec_env_ignored(old(self).opts_spec(), env)) ==> final(self).state
                    == State::LaEnv && final(self).current_ignored_env@ == env && final(self).top_rem() == t.skip(n + 2) && final(self).output@ == old(self).output@
                    + Detex::spec_ignore(old(self).opts_spec()) + Detex::spec_ignore(
                    old(self).opts_spec(),
                ))
                &&& ((old(self).opts_spec().spec_is_latex() && t.len() > 0 && t[0] == '{' && n > 0
                    && n + 1 < t.len() && t[n + 1] == '}' && env == "verbatim"@
                    && !Detex::spec_env_ignored(old(self).opts_spec(), env)) ==> final(self).state
                    == State::LaVerbatim && final(self).top_rem() == t.skip(n + 2) && final(self).output@ == old(self).output@ + Detex::spec_ignore(old(self).opts_spec())
                    + Detex::spec_ignore(old(self).opts_spec()))
            }),
    {
        let ghost s1 = *self;
        let ghost pre = *self;
        proof {
            lemma_reads_frame_refl(s1);
            crate::chars::lemma_suffix_refl(s1.top_rem());
        }
        if word_is(&cmd, "begin") {
            self.handle_begin();
        } else if word_is(&cmd, "end") {
            self.kill_args(1);
            self.ignore();
        } else if word_is(&cmd, "kern") || word_is(&cmd, "vskip") || word_is(&cmd, "hskip") {
            self.skip_glue();
        } else if word_is(&cmd, "vspace") || word_is(&cmd, "hspace") {
            self.match_optional_star();
            let ghost m = *self;
            self.skip_brace_arg();
            proof {
                lemma_reads_frame_trans(s1, m, *self);
                crate::chars::lemma_suffix_trans(self.top_rem(), m.top_rem(), s1.top_rem());
            }
        } else if word_is(&cmd, "addvspace") {
            self.skip_brace_arg();
        } else if word_is(&cmd, "newlength") || word_is(&cmd, "newsavebox") || word_is(
            &cmd,
            "usebox",
        ) || word_is(&cmd, "parbox") || word_is(&cmd, "rotatebox") || word_is(&cmd, "sbox") {
            self.kill_args(1);
        } else if word_is(&cmd, "setlength") || word_is(&cmd, "addtolength") || word_is(
            &cmd,
            "settowidth",
        ) || word_is(&cmd, "settoheight") || word_is(&cmd, "settodepth") || word_is(
            &cmd,
            "savebox",
        ) {
            self.kill_args(2);
        } else if word_is(&cmd, "raisebox") || word_is(&cmd, "scalebox") || word_is(
            &cmd,
            "foilhead",
        ) {
            self.strip_args(2);
        } else if word_is(&cmd, "resizebox") {
            self.match_optional_star();
            self.kill_args(2);
        } else if word_is(&cmd, "reflectbox") {
            // nothing: the command itself disappears, its argument stays
        } else if word_is(&cmd, "definecolor") || word_is(&cmd, "fcolorbox") || word_is(
            &cmd,
            "addcontentsline",
        ) {
            self.kill_args(3);
        } else if word_is(&cmd, "textcolor") || word_is(&cmd, "colorbox") {
            self.kill_args(2);
        } else if word_is(&cmd, "color") || word_is(&cmd, "pagecolor") {
            self.kill_args(1);
        } else if word_is(&cmd, "addfontfeature") || word_is(&cmd, "thispagestyle") {
            self.kill_args(1);
        } else if word_is(&cmd, "includegraphics") {
            proof {
                lemma_reads_frame_refl(s1);
                crate::chars::lemma_suffix_refl(s1.top_rem());
            }
            loop
                invariant
                    pre == *old(self),
                    s1.file_stack@.len() > 0,
                    Detex::reads_frame(s1, *self),
                    (crate::chars::is_suffix(self.top_rem(), s1.top_rem())),
                    self.opts == s1.opts,
                    self.output@ == s1.output@,
                    self.diags@ == s1.diags@,
                    self.files == s1.files,
                    self.state == s1.state,
                decreases self.top_rem().len(),
            {
                let ghost cur = *self;
                if self.peek_is_char('[') {
                    self.skip_optional_bracket_arg();
                    proof {
                        lemma_reads_frame_trans(s1, cur, *self);
                        crate::chars::lemma_suffix_trans(
                            self.top_rem(),
                            cur.top_rem(),
                            s1.top_rem(),
                        );
                    }
                } else {
                    break;
                }
            }
            self.la_begin(State::LaPicture);
        } else if word_is(&cmd, "part") || word_is(&cmd, "chapter") || word_is(&cmd, "section")
            || word_is(&cmd, "subsection") || word_is(&cmd, "subsubsection") || word_is(
            &cmd,
            "paragraph",
        ) || word_is(&cmd, "subparagraph") {
            self.match_optional_star();
        } else if word_is(&cmd, "bibitem") || word_is(&cmd, "bibliography") || word_is(
            &cmd,
            "bibstyle",
        ) {
            self.kill_args(1);
            self.ignore();
        } else if word_is(&cmd, "cite") {
            self.kill_args(1);
        } else if word_is(&cmd, "hypersetup") || word_is(&cmd, "index") {
            self.kill_args(1);
        } else if word_is(&cmd, "label") {
            self.kill_args(1);
            self.ignore();
        } else if word_is(&cmd, "nameref") || word_is(&cmd, "pageref") || word_is(&cmd, "ref") {
            if self.opts.is_latex() && !self.opts.cite {
                self.kill_args(1);
            }
            self.ignore();
        } else if word_is(&cmd, "pagestyle") {
            self.kill_args(1);
            self.ignore();
        } else if word_is(&cmd, "setcounter") || word_is(&cmd, "addtocounter") {
            self.kill_args(2);
            self.ignore();
        } else if word_is(&cmd, "newcounter") {
            self.kill_args(1);
        } else if word_is(&cmd, "stepcounter") {
            self.kill_args(2);
        } else if word_is(&cmd, "fontspec") {
            self.kill_args(1);
        } else if word_is(&cmd, "documentstyle") || word_is(&cmd, "documentclass") {
            self.set_latex();
            self.kill_args(1);
            self.ignore();
        } else if word_is(&cmd, "usepackage") {
            self.kill_args(1);
            self.ignore();
        } else if word_is(&cmd, "include") {
            self.la_begin(State::LaInclude);
            self.ignore();
        } else if word_is(&cmd, "includeonly") {
            self.state = State::IncludeOnly;
            self.ignore();
        } else if word_is(&cmd, "subfile") {
            self.la_begin(State::LaInclude);
            self.ignore();
        } else if word_is(&cmd, "input") {
            self.state = State::Input;
            self.ignore();
        } else if word_is(&cmd, "newcommand") || word_is(&cmd, "renewcommand") {
            self.set_latex();
            self.kill_args(2);
        } else if word_is(&cmd, "newenvironment") {
            self.set_latex();
            self.kill_args(3);
        } else if word_is(&cmd, "def") {
            self.state = State::Define;
            self.ignore();
        } else if word_is(&cmd, "slash") {
            if !self.opts.word {
                self.output.push('/');
            }
        } else if word_is(&cmd, "aa") || word_is(&cmd, "AA") || word_is(&cmd, "ae") || word_is(
            &cmd,
            "AE",
        ) || word_is(&cmd, "oe") || word_is(&cmd, "OE") || word_is(&cmd, "ss") || word_is(
            &cmd,
            "O",
        ) || word_is(&cmd, "o") || word_is(&cmd, "i") || word_is(&cmd, "j") || word_is(&cmd, "L")
            || word_is(&cmd, "l") {
            // ligature substitution: the name itself is the text; one
            // following blank or closing brace is swallowed
            if !self.opts.word {
                crate::lexer::push_all(&mut self.output, &cmd);
            }
            let ghost m = *self;
            proof {
                lemma_reads_frame_refl(m);
                crate::chars::lemma_suffix_refl(s1.top_rem());
            }
            match self.peek_char() {
                Some(t) => {
                    if is_ws(t) || t == '}' {
                        let _ = self.next_char();
                        proof {
                            crate::chars::lemma_suffix_trans(
                                self.top_rem(),
                                m.top_rem(),
                                s1.top_rem(),
                            );
                        }
                    }
                },
                None => {},
            }
        } else if word_is(&cmd, "linebreak") {
            self.skip_optional_bracket_arg();
            self.newline();
        } else {
            self.state = State::Control;
            self.ignore();
        }
        proof {
            assert(s1.output@.is_prefix_of(self.output@)) by {
                assert(self.output@.take(s1.output@.len() as int) =~= s1.output@);
            }
            if self.top_rem() == s1.top_rem() {
                crate::chars::lemma_suffix_refl(s1.top_rem());
            }
            assert(crate::chars::is_suffix(self.top_rem(), s1.top_rem()));
        }
    }
}

/// Every character of `s` is plain prose.
pub open spec fn plain_seq(s: Seq<char>) -> bool {
    forall|i: int| 0 <= i < s.len() ==> spec_is_plain(#[trigger] s[i])
}

impl Detex {
    /// One token step in the current state.
    pub(crate) fn process_next(&mut self) -> (r: Result<(), DetexError>)
        requires
            old(self).stack_len() > 0,
            old(self).top_rem().len() > 0,
        ensures
            Detex::step_frame(*old(self), *final(self)),
            r is Ok ==> (spec_progress(*old(self), *final(self))),
            (r is Err ==> r == Result::<(), DetexError>::Err(DetexError::UnterminatedVerb)),
            (old(self).state == State::Normal && plain_step_ok(old(self).top_rem()) && !old(self).opts_spec().word && !old(self).opts_spec().src_loc ==> r is Ok && final(self).output@
                == old(self).output@ + old(self).top_rem().take(plain_chunk(old(self).top_rem()))
                && final(self).top_rem() == old(self).top_rem().skip(
                plain_chunk(old(self).top_rem()),
            ) && final(self).state == old(self).state && (final(self).opts == old(self).opts)
                && final(self).stack_len() == old(self).stack_len() && final(self).diags@ == old(self).diags@ && final(self).files == old(self).files),
    {
        match self.state {
            State::Normal => self.process_normal(),
            State::Define => {
                self.process_define();
                Ok(())
            },
            State::Display => {
                self.process_display();
                Ok(())
            },
            State::IncludeOnly => {
                self.process_include_only();
                Ok(())
            },
            State::Input => {
                self.process_input();
                Ok(())
            },
            State::Math => {
                self.process_math();
                Ok(())
            },
            State::Control => {
                self.process_control();
                Ok(())
            },
            State::LaDisplay => {
                self.process_la_display();
                Ok(())
            },
            State::LaEnd => {
                self.process_la_end();
                Ok(())
            },
            State::LaEnv => {
                self.process_la_env();
                Ok(())
            },
            State::LaFormula => {
                self.process_la_formula();
                Ok(())
            },
            State::LaInclude => {
                self.process_la_include();
                Ok(())
            },
            State::LaMacro => {
                self.process_la_macro();
                Ok(())
            },
            State::LaOptArg => {
                self.process_la_opt_arg();
                Ok(())
            },
            State::LaMacro2 => {
                self.process_la_macro2();
                Ok(())
            },
            State::LaOptArg2 => {
                self.process_la_opt_arg2();
                Ok(())
            },
            State::LaVerbatim => {
                self.process_la_verbatim();
                Ok(())
            },
            State::LaPicture => {
                self.process_la_picture();
                Ok(())
            },
        }
    }

    /// The main loop: consumes tokens from the active source, popping a
    /// source when it is exhausted, until the stack is empty or the fatal
    /// verb error stops the run.  On plain prose with plain options the
    /// output is the input itself.
    pub(crate) fn process(&mut self) -> (r: Result<(), DetexError>)
        ensures
            (crate::lexer::run_frame(*old(self), *final(self))),
            r is Ok ==> final(self).stack_len() == 0,
            (r is Err ==> r == Result::<(), DetexError>::Err(DetexError::UnterminatedVerb)),
            (old(self).stack_len() == 1 && old(self).state == State::Normal && plain_seq(
                old(self).top_rem(),
            ) && !old(self).opts_spec().word && !old(self).opts_spec().src_loc ==> r is Ok
                && final(self).output@ == old(self).output@ + old(self).top_rem() && final(self).diags@ == old(self).diags@ && (final(self).opts == old(self).opts) && final(self).stack_len() == 0),
    {
        let ghost pre = *self;
        let ghost b: nat = max_content_len(pre.store()) + 2;
        let ghost plain = pre.file_stack@.len() == 1 && pre.state == State::Normal && plain_seq(
            pre.top_rem(),
        ) && !pre.opts.word && !pre.opts.src_loc;
        proof {
            crate::lexer::lemma_run_frame_refl(pre);
            assert(pre.top_rem().skip(0) =~= pre.top_rem());
            assert(pre.output@ + pre.top_rem().take(0) =~= pre.output@);
        }
        loop
            invariant
                pre == *old(self),
                b == max_content_len(pre.store()) + 2,
                (crate::lexer::run_frame(pre, *self)),
                self.files == pre.files,
                (plain == (pre.file_stack@.len() == 1 && pre.state == State::Normal && plain_seq(
                    pre.top_rem(),
                ) && !pre.opts.word && !pre.opts.src_loc)),
                plain ==> (self.diags@ == pre.diags@ && (self.opts == pre.opts) && ((
                self.file_stack@.len() == 0 && self.output@ == pre.output@ + pre.top_rem()) || (
                self.file_stack@.len() == 1 && self.state == State::Normal && (
                crate::chars::is_suffix(self.top_rem(), pre.top_rem())) && self.output@
                    == pre.output@ + pre.top_rem().take(
                    pre.top_rem().len() - self.top_rem().len(),
                )))),
            decreases
                crate::lexer::stack_pot(self.file_stack@, b),
                self.file_stack@.len(),
                state_rank(self.state),
        {
            let ghost cur = *self;
            let n = self.file_stack.len();
            if n == 0 {
                return Ok(());
            }
            let eof = self.file_stack[n - 1].source.is_eof();
            if eof {
                let _ = self.file_stack.pop();
                proof {
                    assert(self.file_stack@ =~= cur.file_stack@.drop_last());
                    crate::lexer::lemma_pot_pop(cur.file_stack@, b);
                    if plain {
                        if cur.file_stack@.len() == 1 {
                            assert(cur.top_rem().len() == 0);
                            assert(pre.top_rem().take(pre.top_rem().len() as int)
                                =~= pre.top_rem());
                            assert(self.output@ == pre.output@ + pre.top_rem());
                        }
                    }
                }
            } else {
                let r = self.process_next();
                proof {
                    crate::lexer::lemma_run_frame_step(pre, cur, *self);
                    if r is Ok {
                        crate::lexer::lemma_progress_decreases(cur, *self, b);
                    }
                    if plain {
                        assert(cur.file_stack@.len() == 1 && cur.state == State::Normal);
                        let t = pre.top_rem();
                        let k = t.len() - cur.top_rem().len();
                        assert(cur.top_rem() == t.skip(k));
                        assert(plain_step_ok(cur.top_rem())) by {
                            assert(forall|i: int| 0 <= i < cur.top_rem().len()
                                ==> #[trigger] cur.top_rem()[i] == t[k + i]);
                            assert(spec_is_plain(cur.top_rem()[0]));
                            if cur.top_rem().len() > 1 {
                                assert(spec_is_plain(cur.top_rem()[1]));
                            }
                            let ar = crate::chars::alpha_run(cur.top_rem());
                            if spec_is_alpha(cur.top_rem()[0]) && ar < cur.top_rem().len() {
                                crate::chars::lemma_alpha_run_bounds(cur.top_rem());
                                assert(spec_is_plain(cur.top_rem()[ar]));
                            }
                        }
                        let c = plain_chunk(cur.top_rem());
                        assert(self.output@ == pre.output@ + t.take(k) + t.skip(k).take(c));
                        assert(t.take(k) + t.skip(k).take(c) =~= t.take(k + c)) by {
                            crate::chars::lemma_alpha_run_bounds(cur.top_rem());
                            crate::chars::lemma_digit_run_bounds(cur.top_rem());
                        }
                        assert(self.output@ == pre.output@ + t.take(k + c)) by {
                            assert(pre.output@ + t.take(k) + t.skip(k).take(c) =~= pre.output@
                                + t.take(k + c));
                        }
                        assert(self.top_rem() =~= t.skip(k + c)) by {
                            crate::chars::lemma_alpha_run_bounds(cur.top_rem());
                            crate::chars::lemma_digit_run_bounds(cur.top_rem());
                        }
                        assert(0 <= k + c <= t.len()) by {
                            crate::chars::lemma_alpha_run_bounds(cur.top_rem());
                            crate::chars::lemma_digit_run_bounds(cur.top_rem());
                        }
                        crate::chars::lemma_suffix_skip(t, k + c);
                    }
                }
                if r.is_err() {
                    return r;
                }
            }
        }
    }
}

impl Detex {
    /// Processes the named document from the store: it is opened on the
    /// stack and scanned to the end (following inclusions).  A name the
    /// store does not hold is the one failure that reaches the caller
    /// before any scanning.  On plain prose with word-only and
    /// source-location annotation off, the output is the content itself.
    pub fn process_file(&mut self, filename: &str) -> (r: Result<(), DetexError>)
        ensures
            (Detex::opts_evolve(old(self).opts_spec(), final(self).opts_spec())),
            final(self).store() == old(self).store(),
            old(self).output_seq().is_prefix_of(final(self).output_seq()),
            old(self).diags_seq().is_prefix_of(final(self).diags_seq()),
            (store_lookup(old(self).store(), filename@) is None ==> r == Result::<(), DetexError>::Err(DetexError::CantOpen) && *final(self) == *old(self)),
            (store_lookup(old(self).store(), filename@) is Some ==> (r is Ok ==> final(self).stack_len() == 0)),
            // the only failure after a successful lookup is the fatal verb
            // condition; inclusion failures are diagnostics, never errors
            (store_lookup(old(self).store(), filename@) is Some && r is Err ==> r == Result::<
                (),
                DetexError,
            >::Err(DetexError::UnterminatedVerb)),
            (match store_lookup(old(self).store(), filename@) {
                Option::Some(content) => old(self).stack_len() == 0 && plain_seq(content) && !old(self).opts_spec().word && !old(self).opts_spec().src_loc ==> r is Ok && final(self).output_seq() == old(self).output_seq() + content && final(self).diags_seq()
                    == old(self).diags_seq() && (final(self).opts_spec() == old(self).opts_spec()),
                Option::None => true,
            }),
    {
        let name = str_to_chars(filename);
        let looked = self.lookup_store(&name);
        match looked {
            None => {
                proof {
                    crate::lexer::lemma_run_frame_refl(*self);
                }
                Err(DetexError::CantOpen)
            },
            Some(content) => {
                let source = crate::file_handler::CharSource::from_chars(content);
                self.file_stack.push(FileContext { source, name });
                self.state = State::Normal;
                let ghost mid = *self;
                let r = self.process();
                proof {
                    assert(old(self).output@.is_prefix_of(self.output@)) by {
                        assert(mid.output@ == old(self).output@);
                    }
                    assert(old(self).diags_seq().is_prefix_of(self.diags_seq())) by {
                        assert(mid.diags_seq() == old(self).diags_seq());
                    }
                    assert(Detex::opts_evolve(old(self).opts, self.opts)) by {
                        assert(mid.opts == old(self).opts);
                    }
                    if old(self).file_stack@.len() == 0 {
                        assert(mid.file_stack@.len() == 1);
                        assert(mid.top_rem()
                            == store_lookup(old(self).store(), filename@).unwrap());
                    }
                }
                r
            },
        }
    }

    /// Processes one in-memory document under the given display name: it
    /// is opened on the stack and scanned to the end, following
    /// inclusions against the store.  On plain prose with word-only and
    /// source-location annotation off, the output is the content itself.
    pub fn process_content(&mut self, name: &str, content: &str) -> (r: Result<(), DetexError>)
        ensures
            (Detex::opts_evolve(old(self).opts_spec(), final(self).opts_spec())),
            final(self).store() == old(self).store(),
            old(self).output_seq().is_prefix_of(final(self).output_seq()),
            old(self).diags_seq().is_prefix_of(final(self).diags_seq()),
            r is Ok ==> final(self).stack_len() == 0,
            (r is Err ==> r == Result::<(), DetexError>::Err(DetexError::UnterminatedVerb)),
            (old(self).stack_len() == 0 && plain_seq(content@) && !old(self).opts_spec().word
                && !old(self).opts_spec().src_loc ==> r is Ok && final(self).output_seq() == old(self).output_seq() + content@ && final(self).diags_seq() == old(self).diags_seq() && (
            final(self).opts_spec() == old(self).opts_spec())),
    {
        let source = crate::file_handler::CharSource::new(content.to_owned());
        let cname = str_to_chars(name);
        self.file_stack.push(FileContext { source, name: cname });
        self.state = State::Normal;
        let ghost mid = *self;
        let r = self.process();
        proof {
            assert(old(self).output@.is_prefix_of(self.output@)) by {
                assert(mid.output@ == old(self).output@);
            }
            assert(old(self).diags_seq().is_prefix_of(self.diags_seq())) by {
                assert(mid.diags_seq() == old(self).diags_seq());
            }
            assert(Detex::opts_evolve(old(self).opts, self.opts)) by {
                assert(mid.opts == old(self).opts);
            }
        }
        r
    }
}

impl Detex {
    /// Acts on a parsed environment name: the document confirmation, the
    /// verbatim switch, the boxed environments that first discard an
    /// argument, and the generic ignore-list check.
    pub(crate) fn begin_dispatch(&mut self, env: &Vec<char>)
        requires
            old(self).file_stack@.len() > 0,
        ensures
            (bs_frame(*old(self), *final(self))),
            // verbatim either vanishes with the other ignored environments
            // or switches to the literal-echo state, consuming nothing
            (env@ == "verbatim"@ ==> final(self).top_rem() == old(self).top_rem() && final(self).output@ == old(self).output@ + Detex::spec_ignore(old(self).opts_spec()) && (
            Detex::spec_env_ignored(old(self).opts_spec(), env@) ==> final(self).state
                == State::LaEnv && final(self).current_ignored_env@ == env@) && (
            !Detex::spec_env_ignored(old(self).opts_spec(), env@) ==> final(self).state
                == State::LaVerbatim)),
            // an ordinary name consumes nothing and enters the absorb state
            // exactly when it is on the ignore list
            ((env@ != "document"@ && env@ != "verbatim"@ && env@ != "minipage"@ && env@
                != "table"@ && env@ != "figure"@) ==> final(self).top_rem() == old(self).top_rem()
                && final(self).output@ == old(self).output@ + Detex::spec_ignore(
                old(self).opts_spec(),
            ) && (Detex::spec_env_ignored(old(self).opts_spec(), env@) ==> final(self).state
                == State::LaEnv && final(self).current_ignored_env@ == env@) && (
            !Detex::spec_env_ignored(old(self).opts_spec(), env@) ==> final(self).state == old(self).state)),
    {
        let ghost pre = *self;
        proof {
            lemma_reads_frame_refl(pre);
            crate::chars::lemma_suffix_refl(pre.top_rem());
        }
            if word_is(env, "document") {
                self.set_latex();
                let ghost m6 = *self;
                proof {
                    lemma_reads_frame_refl(m6);
                    crate::chars::lemma_suffix_refl(m6.top_rem());
                }
                loop
                    invariant
                        pre == *old(self),
                        pre.file_stack@.len() > 0,
                        m6.file_stack@.len() > 0,
                        Detex::reads_frame(m6, *self),
                        (crate::chars::is_suffix(m6.top_rem(), pre.top_rem())),
                        (crate::chars::is_suffix(self.top_rem(), m6.top_rem())),
                        self.opts == m6.opts,
                        self.output@ == m6.output@,
                        self.diags@ == m6.diags@,
                        self.files == m6.files,
                    decreases self.top_rem().len(),
                {
                    let ghost cur = *self;
                    if self.peek_is_char('\n') {
                        let _ = self.next_char();
                        self.at_column_zero = true;
                        proof {
                            lemma_reads_frame_trans(m6, cur, *self);
                            crate::chars::lemma_suffix_trans(
                                self.top_rem(),
                                cur.top_rem(),
                                m6.top_rem(),
                            );
                        }
                    } else {
                        break;
                    }
                }
                proof {
                    crate::chars::lemma_suffix_trans(self.top_rem(), m6.top_rem(), pre.top_rem());
                }
            } else if word_is(env, "verbatim") {
                if self.begin_env(env) {
                    self.state = State::LaEnv;
                } else {
                    self.state = State::LaVerbatim;
                }
                self.ignore();
            } else if word_is(env, "minipage") {
                self.kill_args(1);
                if self.begin_env(env) {
                    self.state = State::LaEnv;
                }
                self.ignore();
            } else if word_is(env, "table") || word_is(env, "figure") {
                let ghost m6 = *self;
                self.skip_whitespace();
                proof {
                    lemma_reads_frame_trans(pre, m6, *self);
                    crate::chars::lemma_suffix_trans(self.top_rem(), m6.top_rem(), pre.top_rem());
                }
                let ghost m7 = *self;
                self.skip_optional_bracket_arg();
                proof {
                    lemma_reads_frame_trans(pre, m7, *self);
                    crate::chars::lemma_suffix_trans(self.top_rem(), m7.top_rem(), pre.top_rem());
                }
                if self.begin_env(env) {
                    self.state = State::LaEnv;
                }
                self.ignore();
            } else {
                if self.begin_env(env) {
                    self.state = State::LaEnv;
                }
                self.ignore();
            }
        proof {
            assert(pre.output@.is_prefix_of(self.output@)) by {
                assert(self.output@.take(pre.output@.len() as int) =~= pre.output@);
            }
            if self.top_rem() == pre.top_rem() {
                crate::chars::lemma_suffix_refl(pre.top_rem());
            }
            reveal_strlit("document");
            reveal_strlit("verbatim");
            reveal_strlit("minipage");
            reveal_strlit("table");
            reveal_strlit("figure");
            assert(("document"@) != ("verbatim"@)) by {
                assert(("document"@)[0] == 'd');
                assert(("verbatim"@)[0] == 'v');
            }
            assert(("minipage"@) != ("verbatim"@)) by {
                assert(("minipage"@)[0] == 'm');
                assert(("verbatim"@)[0] == 'v');
            }
        }
    }
}

} // verus!
