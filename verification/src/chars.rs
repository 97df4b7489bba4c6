//! Character classification and small sequence helpers shared by the
//! configuration, the character source, and the lexer.
//!
//! The scanner works on letters, digits, Unicode white space, and the
//! characters that may appear in a control-sequence name.  Each class has a
//! spec definition and an executable test proved against it.

use vstd::prelude::*;

verus! {

use vstd::string::StrSliceExecFns;

/// Collects the characters of `s` into a vector.
pub fn str_to_chars(s: &str) -> (r: Vec<char>)
    ensures
        r@ == s@,
{
    let n = s.unicode_len();
    let mut r: Vec<char> = Vec::new();
    let mut i: usize = 0;
    while i < n
        invariant
            i <= n,
            n == s@.len(),
            r@ == s@.take(i as int),
        decreases n - i,
    {
        r.push(s.get_char(i));
        proof {
            assert(r@ =~= s@.take(i as int + 1));
        }
        i += 1;
    }
    proof {
        assert(s@.take(n as int) =~= s@);
    }
    r
}

/// A letter of the Latin alphabet (either case).
pub open spec fn spec_is_alpha(c: char) -> bool {
    (97 <= c as u32 && c as u32 <= 122) || (65 <= c as u32 && c as u32 <= 90)
}

/// A decimal digit.
pub open spec fn spec_is_digit(c: char) -> bool {
    48 <= c as u32 && c as u32 <= 57
}

/// A character allowed in a control-sequence name: a letter or `@`.
pub open spec fn spec_is_cmd_char(c: char) -> bool {
    spec_is_alpha(c) || c == '@'
}

/// Unicode white space: the control whitespace characters, the space, and
/// the next line, no-break, ogham, general punctuation, line and paragraph
/// separator, narrow, mathematical and ideographic space characters.
pub open spec fn spec_is_ws(c: char) -> bool {
    ||| (9 <= c as u32 && c as u32 <= 13)
    ||| c as u32 == 32
    ||| c as u32 == 0x85
    ||| c as u32 == 0xA0
    ||| c as u32 == 0x1680
    ||| (0x2000 <= c as u32 && c as u32 <= 0x200A)
    ||| c as u32 == 0x2028
    ||| c as u32 == 0x2029
    ||| c as u32 == 0x202F
    ||| c as u32 == 0x205F
    ||| c as u32 == 0x3000
}

pub fn is_alpha(c: char) -> (r: bool)
    ensures
        r == spec_is_alpha(c),
{
    let u = c as u32;
    (97 <= u && u <= 122) || (65 <= u && u <= 90)
}

pub fn is_digit(c: char) -> (r: bool)
    ensures
        r == spec_is_digit(c),
{
    let u = c as u32;
    48 <= u && u <= 57
}

pub fn is_cmd_char(c: char) -> (r: bool)
    ensures
        r == spec_is_cmd_char(c),
{
    is_alpha(c) || c == '@'
}

pub fn is_ws(c: char) -> (r: bool)
    ensures
        r == spec_is_ws(c),
{
    let u = c as u32;
    (9 <= u && u <= 13) || u == 32 || u == 0x85 || u == 0xA0 || u == 0x1680 || (0x2000 <= u && u
        <= 0x200A) || u == 0x2028 || u == 0x2029 || u == 0x202F || u == 0x205F || u == 0x3000
}

/// Length of the leading whitespace run.
pub open spec fn ws_run(s: Seq<char>) -> int
    decreases s.len(),
{
    if s.len() > 0 && spec_is_ws(s[0]) {
        1 + ws_run(s.skip(1))
    } else {
        0
    }
}

/// Length of the leading run of control-sequence-name characters.
pub open spec fn cmd_run(s: Seq<char>) -> int
    decreases s.len(),
{
    if s.len() > 0 && spec_is_cmd_char(s[0]) {
        1 + cmd_run(s.skip(1))
    } else {
        0
    }
}

/// Length of the leading run of letters.
pub open spec fn alpha_run(s: Seq<char>) -> int
    decreases s.len(),
{
    if s.len() > 0 && spec_is_alpha(s[0]) {
        1 + alpha_run(s.skip(1))
    } else {
        0
    }
}

/// Length of the leading run of digits.
pub open spec fn digit_run(s: Seq<char>) -> int
    decreases s.len(),
{
    if s.len() > 0 && spec_is_digit(s[0]) {
        1 + digit_run(s.skip(1))
    } else {
        0
    }
}

pub proof fn lemma_ws_run_bounds(s: Seq<char>)
    ensures
        0 <= ws_run(s) <= s.len(),
        forall|i: int| 0 <= i < ws_run(s) ==> spec_is_ws(s[i]),
        ws_run(s) < s.len() ==> !spec_is_ws(s[ws_run(s)]),
    decreases s.len(),
{
    if s.len() > 0 && spec_is_ws(s[0]) {
        lemma_ws_run_bounds(s.skip(1));
        assert forall|i: int| 0 <= i < ws_run(s) implies spec_is_ws(s[i]) by {
            if i > 0 {
                assert(spec_is_ws(s.skip(1)[i - 1]));
            }
        }
        if ws_run(s) < s.len() {
            assert(s.skip(1)[ws_run(s) - 1] == s[ws_run(s)]);
        }
    }
}

pub proof fn lemma_cmd_run_bounds(s: Seq<char>)
    ensures
        0 <= cmd_run(s) <= s.len(),
        forall|i: int| 0 <= i < cmd_run(s) ==> spec_is_cmd_char(s[i]),
        cmd_run(s) < s.len() ==> !spec_is_cmd_char(s[cmd_run(s)]),
    decreases s.len(),
{
    if s.len() > 0 && spec_is_cmd_char(s[0]) {
        lemma_cmd_run_bounds(s.skip(1));
        assert forall|i: int| 0 <= i < cmd_run(s) implies spec_is_cmd_char(s[i]) by {
            if i > 0 {
                assert(spec_is_cmd_char(s.skip(1)[i - 1]));
            }
        }
        if cmd_run(s) < s.len() {
            assert(s.skip(1)[cmd_run(s) - 1] == s[cmd_run(s)]);
        }
    }
}

pub proof fn lemma_alpha_run_bounds(s: Seq<char>)
    ensures
        0 <= alpha_run(s) <= s.len(),
        forall|i: int| 0 <= i < alpha_run(s) ==> spec_is_alpha(s[i]),
        alpha_run(s) < s.len() ==> !spec_is_alpha(s[alpha_run(s)]),
    decreases s.len(),
{
    if s.len() > 0 && spec_is_alpha(s[0]) {
        lemma_alpha_run_bounds(s.skip(1));
        assert forall|i: int| 0 <= i < alpha_run(s) implies spec_is_alpha(s[i]) by {
            if i > 0 {
                assert(spec_is_alpha(s.skip(1)[i - 1]));
            }
        }
        if alpha_run(s) < s.len() {
            assert(s.skip(1)[alpha_run(s) - 1] == s[alpha_run(s)]);
        }
    }
}

pub proof fn lemma_digit_run_bounds(s: Seq<char>)
    ensures
        0 <= digit_run(s) <= s.len(),
        forall|i: int| 0 <= i < digit_run(s) ==> spec_is_digit(s[i]),
        digit_run(s) < s.len() ==> !spec_is_digit(s[digit_run(s)]),
    decreases s.len(),
{
    if s.len() > 0 && spec_is_digit(s[0]) {
        lemma_digit_run_bounds(s.skip(1));
        assert forall|i: int| 0 <= i < digit_run(s) implies spec_is_digit(s[i]) by {
            if i > 0 {
                assert(spec_is_digit(s.skip(1)[i - 1]));
            }
        }
        if digit_run(s) < s.len() {
            assert(s.skip(1)[digit_run(s) - 1] == s[digit_run(s)]);
        }
    }
}

/// Equality test for two character vectors, stated over their views.
pub fn chars_eq(a: &Vec<char>, b: &Vec<char>) -> (r: bool)
    ensures
        r == (a@ == b@),
{
    if a.len() != b.len() {
        assert(a@ != b@) by {
            assert(a@.len() != b@.len());
        }
        return false;
    }
    let mut i: usize = 0;
    while i < a.len()
        invariant
            i <= a.len(),
            a@.len() == b@.len(),
            forall|j: int| 0 <= j < i ==> a@[j] == b@[j],
        decreases a.len() - i,
    {
        if a[i] != b[i] {
            return false;
        }
        i += 1;
    }
    proof {
        assert(a@ =~= b@);
    }
    true
}

/// `s2` is what remains of `s1` after consuming some prefix.
pub open spec fn is_suffix(s2: Seq<char>, s1: Seq<char>) -> bool {
    s2.len() <= s1.len() && s2 == s1.skip(s1.len() - s2.len())
}

/// Suffix composition: consuming more keeps the suffix relation.
pub proof fn lemma_suffix_trans(s3: Seq<char>, s2: Seq<char>, s1: Seq<char>)
    requires
        is_suffix(s3, s2),
        is_suffix(s2, s1),
    ensures
        is_suffix(s3, s1),
{
    assert(s1.skip(s1.len() - s2.len()).skip(s2.len() - s3.len()) =~= s1.skip(s1.len() - s3.len()));
}

/// Every sequence is a suffix of itself.
pub proof fn lemma_suffix_refl(s: Seq<char>)
    ensures
        is_suffix(s, s),
{
    assert(s.skip(0) =~= s);
}

/// Dropping the first character gives a suffix.
pub proof fn lemma_suffix_skip(s: Seq<char>, n: int)
    requires
        0 <= n <= s.len(),
    ensures
        is_suffix(s.skip(n), s),
{
}

} // verus!
