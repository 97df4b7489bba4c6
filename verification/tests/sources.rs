//! Unit tests for the character source, the configuration, and the
//! allow-list check.

use detex::config::Options;
use detex::file_handler::{in_include_list, CharSource};

fn chars(s: &str) -> Vec<char> {
    s.chars().collect()
}

#[test]
fn char_source_reads_in_order() {
    let mut src = CharSource::new(String::from("abc"));
    assert_eq!(src.peek(), Some('a'));
    assert_eq!(src.next(), Some('a'));
    assert_eq!(src.next(), Some('b'));
    assert_eq!(src.next(), Some('c'));
    assert_eq!(src.next(), None);
    assert!(src.is_eof());
}

#[test]
fn char_source_pushback_takes_priority() {
    let mut src = CharSource::new(String::from("bc"));
    src.unget('a');
    assert_eq!(src.peek(), Some('a'));
    assert_eq!(src.next(), Some('a'));
    assert_eq!(src.next(), Some('b'));
    assert_eq!(src.next(), Some('c'));
    assert!(src.is_eof());
}

#[test]
fn char_source_line_tracking_reverses_on_unget() {
    let mut src = CharSource::new(String::from("a\nb"));
    assert_eq!(src.line(), 1);
    assert_eq!(src.next(), Some('a'));
    assert_eq!(src.line(), 1);
    assert_eq!(src.next(), Some('\n'));
    assert_eq!(src.line(), 2);
    assert!(src.at_line_start());
    src.unget('\n');
    assert_eq!(src.line(), 1);
    assert_eq!(src.next(), Some('\n'));
    assert_eq!(src.line(), 2);
    assert_eq!(src.next(), Some('b'));
    assert!(src.is_eof());
}

#[test]
fn char_source_peek_ahead_reads_pushback_then_buffer() {
    let mut src = CharSource::new(String::from("cd"));
    src.unget('b');
    src.unget('a');
    let look = src.peek_ahead(3);
    assert_eq!(look, chars("abc"));
    let all = src.peek_ahead(10);
    assert_eq!(all, chars("abcd"));
    // peeking consumes nothing
    assert_eq!(src.next(), Some('a'));
    assert_eq!(src.next(), Some('b'));
    assert_eq!(src.next(), Some('c'));
    assert_eq!(src.next(), Some('d'));
}

#[test]
fn default_options_have_flags_off_and_the_stock_ignore_list() {
    let opts = Options::default();
    assert!(!opts.cite && !opts.latex && !opts.word && !opts.src_loc);
    assert!(!opts.space && !opts.force_tex && !opts.replace && !opts.no_follow);
    let names: Vec<String> = opts
        .env_ignore
        .iter()
        .map(|v| v.iter().collect::<String>())
        .collect();
    assert!(names.contains(&String::from("equation")));
    assert!(names.contains(&String::from("verbatim")));
    assert!(names.contains(&String::from("tabular")));
    assert_eq!(names.len(), 21);
    assert!(opts.include_list.is_empty());
}

#[test]
fn with_env_ignore_splits_on_commas_and_drops_empties() {
    let opts = Options::default().with_env_ignore("aaa,,bbb,");
    let names: Vec<String> = opts
        .env_ignore
        .iter()
        .map(|v| v.iter().collect::<String>())
        .collect();
    assert_eq!(names, vec![String::from("aaa"), String::from("bbb")]);
}

#[test]
fn is_latex_respects_the_forced_tex_flag() {
    let mut opts = Options::default();
    assert!(!opts.is_latex());
    opts.latex = true;
    assert!(opts.is_latex());
    opts.force_tex = true;
    assert!(!opts.is_latex());
}

#[test]
fn empty_include_list_allows_every_file() {
    let opts = Options::default();
    assert!(in_include_list("anything.tex", &opts));
}

#[test]
fn include_list_matches_on_the_base_name() {
    let mut opts = Options::default();
    opts.include_list.push(chars("chap1"));
    assert!(in_include_list("chap1.tex", &opts));
    assert!(in_include_list("dir/chap1.tex", &opts));
    assert!(in_include_list("chap1", &opts));
    assert!(!in_include_list("chap2.tex", &opts));
    assert!(!in_include_list("chap10.tex", &opts));
}
