//! End-to-end runs of the lexer over small documents, one per flag
//! combination the tool supports.

use detex::config::Options;
use detex::lexer::{Detex, DetexError, Diag};

fn run(opts: Options, content: &str) -> String {
    let mut d = Detex::new(opts);
    let r = d.process_content("simple.tex", content);
    assert!(r.is_ok());
    d.output().iter().collect()
}

#[test]
fn test_simple_latex_files() {
    let doc = "\\documentclass{article}\n\\begin{document}\nHello world.\n\\end{document}\n";
    assert_eq!(run(Options::default(), doc), "Hello world.\n");

    let refs = "\\documentclass{a}\nSee \\ref{fig} now.\n";
    assert_eq!(run(Options::default(), refs), "See  now.\n");
}

#[test]
fn test_simple_latex_files_cite_flag() {
    let mut opts = Options::default();
    opts.cite = true;
    let refs = "\\documentclass{a}\nSee \\ref{fig} now.\n";
    assert_eq!(run(opts, refs), "See fig now.\n");
}

#[test]
fn test_simple_latex_files_env_flag() {
    let opts = Options::default().with_env_ignore("equation,verbatim");
    let doc = "\\documentclass{a}\n\\begin{equation}x=y\\end{equation}After\n";
    assert_eq!(run(opts, doc), "After\n");

    // the same environment shows its content when the list omits it
    let opts2 = Options::default().with_env_ignore("verbatim");
    assert_eq!(run(opts2, doc), "x=yAfter\n");
}

#[test]
fn test_simple_latex_files_math_flag() {
    let mut opts = Options::default();
    opts.replace = true;
    let doc = "\\documentclass{a}\nLet $x=y$ here.\n";
    assert_eq!(run(opts, doc), "Let noun verbs noun here.\n");
}

#[test]
fn test_simple_latex_files_space_flag() {
    let mut opts = Options::default();
    opts.space = true;
    let doc = "\\documentclass{a}\nA\\xyz B\n";
    assert_eq!(run(opts, doc), " A  B\n");
}

#[test]
fn test_complex_latex_files() {
    let doc = "\\documentclass{article}\n\\begin{document}\nTitle: My---Doc\n\\section*{Intro}\nMath $a<b$ and display $$x$$.\n\\begin{verbatim}\nhide %this\n\\end{verbatim}\n\\footnote{fn}done\n\\end{document}\n";
    let expected = "Title: My-Doc\nIntro\nMath  and display .\n\n(fn)done\n";
    assert_eq!(run(Options::default(), doc), expected);
}

#[test]
fn test_complex_latex_files_space_flag() {
    let mut opts = Options::default();
    opts.space = true;
    let doc = "\\documentclass{a}\nx\\label{l}y\n";
    assert_eq!(run(opts, doc), " x y\n");
}

#[test]
fn test_simple_latex_files_srcloc() {
    let mut opts = Options::default().with_env_ignore("tabular");
    opts.latex = true;
    opts.cite = true;
    opts.src_loc = true;
    let doc = "Hi\nthere\n";
    assert_eq!(run(opts, doc), "simple.tex:1: Hi\nsimple.tex:2: there\n");
}

#[test]
fn process_file_reports_a_missing_top_level_file() {
    let mut d = Detex::new(Options::default());
    let r = d.process_file("nothing.tex");
    assert_eq!(r, Err(DetexError::CantOpen));
    assert!(d.output().is_empty());
    assert!(d.diagnostics().is_empty());
}

#[test]
fn process_file_runs_a_stored_document() {
    let mut d = Detex::new(Options::default());
    d.add_file("doc.tex", "plain words\n");
    let r = d.process_file("doc.tex");
    assert!(r.is_ok());
    let out: String = d.output().iter().collect();
    assert_eq!(out, "plain words\n");
}

#[test]
fn inclusion_splices_a_stored_document_into_the_stream() {
    let mut d = Detex::new(Options::default());
    d.add_file("b", "X");
    let r = d.process_content("a.tex", "A\\input b C\n");
    assert!(r.is_ok());
    let out: String = d.output().iter().collect();
    assert_eq!(out, "AX C\n");
}

#[test]
fn include_honours_the_allow_list() {
    let mut opts = Options::default();
    opts.latex = true;
    opts.include_list.push("kept".chars().collect());
    let mut d = Detex::new(opts);
    d.add_file("kept", "K");
    d.add_file("dropped", "D");
    let cmd = format!("\\inc{}{{kept}}\\inc{}{{dropped}}\n", "lude", "lude");
    let r = d.process_content("a.tex", &cmd);
    assert!(r.is_ok());
    let out: String = d.output().iter().collect();
    assert_eq!(out, "K\n");
    assert!(d.diagnostics().is_empty());
}

#[test]
fn includeonly_populates_the_allow_list() {
    let mut opts = Options::default();
    opts.latex = true;
    let mut d = Detex::new(opts);
    d.add_file("a", "A");
    d.add_file("b", "B");
    let doc = format!(
        "\\inc{}{{a.tex,b.tex}}\\inc{}{{a}}\\inc{}{{b}}\n",
        "ludeonly", "lude", "lude"
    );
    let r = d.process_content("main.tex", &doc);
    assert!(r.is_ok());
    let out: String = d.output().iter().collect();
    assert_eq!(out, "AB\n");
    let names: Vec<String> = d
        .options()
        .include_list
        .iter()
        .map(|v| v.iter().collect::<String>())
        .collect();
    assert_eq!(names, vec![String::from("a"), String::from("b")]);
}

#[test]
fn ligatures_and_escapes_keep_their_text() {
    let doc = "\\ae x and 100\\% sure\n";
    assert_eq!(run(Options::default(), doc), "aex and 100% sure\n");
}

#[test]
fn spanish_open_punctuation_swallows_the_backtick() {
    assert_eq!(run(Options::default(), "ok!`ja\n"), "okja\n");
}

#[test]
fn unknown_commands_resynchronise_without_output() {
    assert_eq!(run(Options::default(), "a \\unknown12 b\n"), "a b\n");
}

fn diag_name(d: &Diag) -> String {
    match d {
        Diag::CantOpen { name } => name.iter().collect(),
        Diag::StackOverflow { name } => name.iter().collect(),
    }
}

#[test]
fn diagnostics_name_the_unresolved_file() {
    let mut d = Detex::new(Options::default());
    let r = d.process_content("a.tex", "Before\\input{missing} After\n");
    assert!(r.is_ok());
    assert_eq!(d.diagnostics().len(), 1);
    match &d.diagnostics()[0] {
        Diag::CantOpen { name } => {
            let n: String = name.iter().collect();
            assert_eq!(n, "missing");
        }
        other => panic!("unexpected diagnostic {}", diag_name(other)),
    }
}
