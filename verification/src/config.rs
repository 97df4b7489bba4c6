//! Run configuration: the option flags, the environment ignore list, and the
//! bounds on inclusion.

use vstd::prelude::*;
use crate::chars::str_to_chars;

verus! {

/// Maximum number of separate search paths for inclusion lookups.
pub const MAX_INPUT_PATHS: usize = 10;

/// Maximum depth of the file inclusion stack.
pub const MAX_FILE_STACK: usize = 256;

/// The environment names ignored by default, as a comma-separated list.
pub const DEFAULT_ENV: &'static str = "algorithm,align,array,bmatrix,displaymath,eqnarray,equation,floatfig,floating,longtable,picture,pmatrix,psfrags,pspicture,smallmatrix,smallpmatrix,tabular,tikzpicture,verbatim,vmatrix,wrapfigure";

/// Splits `s` at commas, accumulating the current piece in `cur`; empty
/// pieces are dropped.  `split_envs(s)` is `split_with(empty, s)`.
pub open spec fn split_with(cur: Seq<char>, s: Seq<char>) -> Seq<Seq<char>>
    decreases s.len(),
{
    if s.len() == 0 {
        if cur.len() == 0 {
            Seq::empty()
        } else {
            seq![cur]
        }
    } else if s[0] == ',' {
        if cur.len() == 0 {
            split_with(Seq::empty(), s.skip(1))
        } else {
            seq![cur] + split_with(Seq::empty(), s.skip(1))
        }
    } else {
        split_with(cur.push(s[0]), s.skip(1))
    }
}

/// The comma-separated names in `s`, in order, empty pieces dropped.
pub open spec fn split_envs(s: Seq<char>) -> Seq<Seq<char>> {
    split_with(Seq::empty(), s)
}

/// Splits a comma-separated list of names into vectors of characters,
/// dropping empty pieces.
pub fn split_env_list(s: &Vec<char>) -> (r: Vec<Vec<char>>)
    ensures
        r.deep_view() == split_envs(s@),
{
    let mut r: Vec<Vec<char>> = Vec::new();
    let mut cur: Vec<char> = Vec::new();
    let mut i: usize = 0;
    proof {
        assert(r.deep_view() =~~= Seq::<Seq<char>>::empty());
        assert(s@.skip(0) =~= s@);
        assert(Seq::<Seq<char>>::empty() + split_with(cur@, s@) =~= split_with(cur@, s@));
        assert(cur@ =~= Seq::<char>::empty());
    }
    while i < s.len()
        invariant
            i <= s.len(),
            split_envs(s@) == r.deep_view() + split_with(cur@, s@.skip(i as int)),
        decreases s.len() - i,
    {
        let ghost pre_r = r.deep_view();
        let ghost pre_cur = cur@;
        let ghost rest = s@.skip(i as int);
        let c = s[i];
        proof {
            assert(rest[0] == s@[i as int]);
            assert(rest.skip(1) =~= s@.skip(i as int + 1));
        }
        if c == ',' {
            if cur.len() > 0 {
                r.push(cur);
                cur = Vec::new();
                proof {
                    assert(r.deep_view() =~~= pre_r + seq![pre_cur]);
                    assert(split_with(pre_cur, rest) == seq![pre_cur] + split_with(
                        Seq::<char>::empty(),
                        rest.skip(1),
                    ));
                    assert(cur@ =~= Seq::<char>::empty());
                    assert(pre_r + (seq![pre_cur] + split_with(cur@, rest.skip(1))) =~= (pre_r
                        + seq![pre_cur]) + split_with(cur@, rest.skip(1)));
                }
            } else {
                proof {
                    assert(cur@ =~= Seq::<char>::empty());
                    assert(split_with(cur@, rest) == split_with(cur@, rest.skip(1)));
                }
            }
        } else {
            cur.push(c);
            proof {
                assert(cur@ == pre_cur.push(c));
                assert(split_with(pre_cur, rest) == split_with(cur@, rest.skip(1)));
            }
        }
        i += 1;
    }
    proof {
        assert(s@.skip(s@.len() as int) =~= Seq::<char>::empty());
    }
    if cur.len() > 0 {
        let ghost pre_r = r.deep_view();
        let ghost pre_cur = cur@;
        r.push(cur);
        proof {
            assert(r.deep_view() =~~= pre_r + seq![pre_cur]);
        }
    } else {
        proof {
            assert(r.deep_view() + Seq::<Seq<char>>::empty() =~= r.deep_view());
        }
    }
    r
}

/// The run options: output modes, the environment ignore list, the allow
/// list populated by the include-only directive, and the search paths that
/// the file-resolution collaborator outside the library consults.
#[derive(Debug, Clone)]
pub struct Options {
    /// Echo the argument of reference commands instead of discarding it.
    pub cite: bool,
    /// LaTeX mode (set by the caller or detected while scanning).
    pub latex: bool,
    /// Do not follow inclusion directives.
    pub no_follow: bool,
    /// Replace ignored control sequences with a space.
    pub space: bool,
    /// Force TeX mode: inhibits LaTeX mode even when detected.
    pub force_tex: bool,
    /// Word-only output: one word per line, numbers dropped.
    pub word: bool,
    /// Prefix each output line with the source file name and line number.
    pub src_loc: bool,
    /// Emit a marker with the name of each included graphic.
    pub show_pictures: bool,
    /// Replace math with placeholder nouns for grammar checking.
    pub replace: bool,
    /// Names of environments whose content is suppressed.
    pub env_ignore: Vec<Vec<char>>,
    /// Allow list for inclusion: empty means every file is allowed.
    pub include_list: Vec<Vec<char>>,
    /// Search paths for the file-resolution collaborator.
    pub input_paths: Vec<Vec<char>>,
}

impl Options {
    /// True in LaTeX mode: the LaTeX flag is set and TeX mode is not forced.
    pub open spec fn spec_is_latex(self) -> bool {
        self.latex && !self.force_tex
    }

    /// Replaces the environment ignore list with the names in the given
    /// comma-separated list.
    pub fn with_env_ignore(self, env_list: &str) -> (r: Options)
        ensures
            r.env_ignore.deep_view() == split_envs(env_list@),
            r.cite == self.cite,
            r.latex == self.latex,
            r.no_follow == self.no_follow,
            r.space == self.space,
            r.force_tex == self.force_tex,
            r.word == self.word,
            r.src_loc == self.src_loc,
            r.show_pictures == self.show_pictures,
            r.replace == self.replace,
            r.include_list == self.include_list,
            r.input_paths == self.input_paths,
    {
        let list = str_to_chars(env_list);
        let env_ignore = split_env_list(&list);
        Options { env_ignore, ..self }
    }

    /// Whether the scanner treats the input as LaTeX rather than plain TeX.
    pub fn is_latex(&self) -> (r: bool)
        ensures
            r == self.spec_is_latex(),
    {
        self.latex && !self.force_tex
    }
}

impl Default for Options {
    /// All flags off, the default environment ignore list, and empty allow
    /// and search-path lists.
    fn default() -> (r: Options)
        ensures
            !r.cite && !r.latex && !r.no_follow && !r.space && !r.force_tex,
            !r.word && !r.src_loc && !r.show_pictures && !r.replace,
            r.env_ignore.deep_view() == split_envs(DEFAULT_ENV@),
            r.include_list@ == Seq::<Vec<char>>::empty(),
            r.input_paths@ == Seq::<Vec<char>>::empty(),
    {
        let list = str_to_chars(DEFAULT_ENV);
        let env_ignore = split_env_list(&list);
        Options {
            cite: false,
            latex: false,
            no_follow: false,
            space: false,
            force_tex: false,
            word: false,
            src_loc: false,
            show_pictures: false,
            replace: false,
            env_ignore,
            include_list: Vec::new(),
            input_paths: Vec::new(),
        }
    }
}

} // verus!
