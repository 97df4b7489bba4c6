//! Scenario tests for the stated behaviours: plain-prose identity,
//! verbatim reproduction and suppression, environment ignoring, footnote
//! parenthesisation, punctuation substitution, resilient inclusion, the
//! word-only mode, verb handling, and the inclusion depth bound.

use detex::config::{Options, MAX_FILE_STACK};
use detex::lexer::{Detex, DetexError, Diag};

fn run(opts: Options, content: &str) -> String {
    let mut d = Detex::new(opts);
    let r = d.process_content("doc.tex", content);
    assert!(r.is_ok());
    d.output().iter().collect()
}

#[test]
fn plain_prose_is_reproduced_verbatim() {
    let text = "Just plain words and 123 numbers.\nAcross two lines.\n";
    assert_eq!(run(Options::default(), text), text);
}

#[test]
fn verbatim_content_is_reproduced_exactly_when_not_ignored() {
    let mut opts = Options::default().with_env_ignore("equation");
    opts.latex = true;
    let doc = "\\begin{verbatim}code $x$ \\here\n\\end{verbatim}done\n";
    assert_eq!(run(opts, doc), "code $x$ \\here\ndone\n");
}

#[test]
fn verbatim_content_is_suppressed_when_ignored() {
    let mut opts = Options::default();
    opts.latex = true;
    let doc = "\\begin{verbatim}code $x$ \\here\n\\end{verbatim}done\n";
    assert_eq!(run(opts, doc), "done\n");
}

#[test]
fn ignored_environment_content_disappears_and_reappears() {
    let doc = "\\begin{myenv} X \\end{myenv}Y\n";
    let mut ignored = Options::default().with_env_ignore("myenv");
    ignored.latex = true;
    assert_eq!(run(ignored, doc), "Y\n");

    let mut shown = Options::default().with_env_ignore("other");
    shown.latex = true;
    assert_eq!(run(shown, doc), " X Y\n");
}

#[test]
fn footnote_content_is_wrapped_in_parentheses() {
    let doc = "A\\footnote{note here}B\n";
    assert_eq!(run(Options::default(), doc), "A(note here)B\n");
}

#[test]
fn quote_and_dash_substitutions() {
    let doc = "a``b''c,,d---e--f`g\n";
    assert_eq!(run(Options::default(), doc), "a\"b\"c\"d-e-f'g\n");
}

#[test]
fn missing_input_leaves_a_diagnostic_and_continues() {
    let mut d = Detex::new(Options::default());
    let r = d.process_content("doc.tex", "Before\\input{missing} After\n");
    assert!(r.is_ok());
    let out: String = d.output().iter().collect();
    assert_eq!(out, "Before After\n");
    assert_eq!(d.diagnostics().len(), 1);
    assert!(matches!(&d.diagnostics()[0], Diag::CantOpen { .. }));
}

#[test]
fn word_only_mode_emits_one_word_per_line() {
    let mut opts = Options::default();
    opts.word = true;
    assert_eq!(run(opts, "Hello, world! 123"), "Hello\nworld\n");
}

#[test]
fn verb_body_is_echoed_exactly() {
    let mut opts = Options::default();
    opts.latex = true;
    let doc = "\\verb|a$\\b|X\n";
    assert_eq!(run(opts, doc), "a$\\bX\n");
}

#[test]
fn unterminated_verb_is_the_fatal_error() {
    let mut opts = Options::default();
    opts.latex = true;
    let mut d = Detex::new(opts);
    let r = d.process_content("doc.tex", "\\verb|abc");
    assert_eq!(r, Err(DetexError::UnterminatedVerb));
}

#[test]
fn verb_stopped_by_a_newline_is_fatal_too() {
    let mut opts = Options::default();
    opts.latex = true;
    let mut d = Detex::new(opts);
    let r = d.process_content("doc.tex", "\\verb|ab\ncd|");
    assert_eq!(r, Err(DetexError::UnterminatedVerb));
}

#[test]
fn inclusion_depth_is_bounded() {
    let mut d = Detex::new(Options::default());
    d.add_file("f", "x");
    let mut i = 0;
    while i < MAX_FILE_STACK {
        assert!(d.input_file("f"));
        i += 1;
    }
    assert!(d.diagnostics().is_empty());
    // one more than the maximum is refused with a diagnostic
    assert!(!d.input_file("f"));
    assert_eq!(d.diagnostics().len(), 1);
    assert!(matches!(&d.diagnostics()[0], Diag::StackOverflow { .. }));
}

#[test]
fn nested_inclusion_to_depth_three_splices_in_order() {
    let mut d = Detex::new(Options::default());
    d.add_file("b", "[\\input c ]");
    d.add_file("c", "deep");
    let r = d.process_content("a.tex", "go \\input b end\n");
    assert!(r.is_ok());
    let out: String = d.output().iter().collect();
    assert_eq!(out, "go [deep ] end\n");
}
