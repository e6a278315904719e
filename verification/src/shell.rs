//! A model of how a POSIX-compatible shell reads one word, and the proof
//! that quoting round-trips through it.
//!
//! [`eval_word`] gives the value a shell assigns to a single word after
//! quote removal, or `None` when the word is not one fixed literal in
//! every POSIX-compatible shell: it meets an unquoted metacharacter, an
//! expansion trigger such as `$` or a backtick, a character that some
//! shells expand (globs, tildes, braces), an unterminated quote, or a NUL
//! (which cannot appear in a command line at all).  The model is
//! deliberately conservative: `None` means "not certified", and the
//! quoting engine only ever produces words the model certifies.

use vstd::prelude::*;
use crate::quoting::{
    contains_nul, strip_nul_spec, quote_spec, sq_escape, sq_escape_char, all_safe, is_safe_char,
    lemma_strip_nul_clean, lemma_strip_nul_identity,
};

verus! {

/// A character that stands for itself in an unquoted word in every
/// POSIX-compatible shell: not a metacharacter, not a quote or escape,
/// not an expansion or globbing trigger, and not a control character with
/// special treatment.
pub open spec fn is_plain_char(c: char) -> bool {
    !(c == ' ' || c == '\t' || c == '\n' || c == '\r' || c == '|' || c == '&' || c == ';' || c
        == '<' || c == '>' || c == '(' || c == ')' || c == '$' || c == '`' || c == '"' || c
        == '\'' || c == '\\' || c == '*' || c == '?' || c == '[' || c == '#' || c == '~' || c
        == '=' || c == '%' || c == '{' || c == '}' || c == ',' || c == '!' || c == '^' || c
        == '\0')
}

/// `Some(seq![c] + t)` when `rest` is `Some(t)`; propagates `None`.
pub open spec fn prepend_char(c: char, rest: Option<Seq<char>>) -> Option<Seq<char>> {
    match rest {
        Some(t) => Some(seq![c] + t),
        None => None,
    }
}

/// The value of a word read outside any quotes.
pub open spec fn eval_word(w: Seq<char>) -> Option<Seq<char>>
    decreases w.len(), 2int,
{
    if w.len() == 0 {
        Some(Seq::empty())
    } else if w[0] == '\'' {
        eval_single_quoted(w.drop_first())
    } else if w[0] == '"' {
        eval_double_quoted(w.drop_first())
    } else if w[0] == '\\' {
        if w.len() < 2 {
            None  // a trailing backslash is not one fixed literal everywhere
        } else if w[1] == '\n' {
            eval_word(w.skip(2))  // line continuation: both characters vanish
        } else if w[1] == '\0' {
            None
        } else {
            prepend_char(w[1], eval_word(w.skip(2)))
        }
    } else if is_plain_char(w[0]) {
        prepend_char(w[0], eval_word(w.drop_first()))
    } else {
        None
    }
}

/// The value of the rest of a word after an opening single quote: every
/// character up to the closing quote is literal, and a NUL or an
/// unterminated quote leaves the word uncertified.
pub open spec fn eval_single_quoted(w: Seq<char>) -> Option<Seq<char>>
    decreases w.len(), 1int,
{
    if w.len() == 0 {
        None
    } else if w[0] == '\'' {
        eval_word(w.drop_first())
    } else if w[0] == '\0' {
        None
    } else {
        prepend_char(w[0], eval_single_quoted(w.drop_first()))
    }
}

/// The value of the rest of a word after an opening double quote: a
/// backslash escapes `$`, a backtick, `"` and `\` and is otherwise
/// literal, an unescaped `$` or backtick starts an expansion, and a NUL
/// or an unterminated quote leaves the word uncertified.
pub open spec fn eval_double_quoted(w: Seq<char>) -> Option<Seq<char>>
    decreases w.len(), 1int,
{
    if w.len() == 0 {
        None
    } else if w[0] == '"' {
        eval_word(w.drop_first())
    } else if w[0] == '\\' {
        if w.len() >= 2 && (w[1] == '"' || w[1] == '\\' || w[1] == '$' || w[1] == '`') {
            prepend_char(w[1], eval_double_quoted(w.skip(2)))
        } else if w.len() >= 2 && w[1] == '\n' {
            eval_double_quoted(w.skip(2))  // line continuation
        } else {
            prepend_char('\\', eval_double_quoted(w.drop_first()))
        }
    } else if w[0] == '$' || w[0] == '`' {
        None
    } else if w[0] == '\0' {
        None
    } else {
        prepend_char(w[0], eval_double_quoted(w.drop_first()))
    }
}

/// A safe character needs no quoting: the shell reads it as itself.
proof fn lemma_safe_is_plain(c: char)
    ensures
        is_safe_char(c) ==> is_plain_char(c) && c != '\'' && c != '"' && c != '\\',
{
}

/// A word of safe characters evaluates to itself.
proof fn lemma_eval_safe(s: Seq<char>)
    requires
        all_safe(s),
    ensures
        eval_word(s) == Some(s),
    decreases s.len(),
{
    if s.len() > 0 {
        assert(is_safe_char(s[0]));
        lemma_safe_is_plain(s[0]);
        assert(all_safe(s.drop_first()));
        lemma_eval_safe(s.drop_first());
        assert(seq![s[0]] + s.drop_first() =~= s);
    }
}

/// Inside single quotes, the escaped body of `s` followed by `t` reads as
/// `s` followed by whatever `t` reads as.
proof fn lemma_eval_sq_escape(s: Seq<char>, t: Seq<char>)
    requires
        !contains_nul(s),
    ensures
        eval_single_quoted(sq_escape(s) + t) == match eval_single_quoted(t) {
            Some(u) => Some(s + u),
            None => None::<Seq<char>>,
        },
    decreases s.len(),
{
    if s.len() == 0 {
        assert(sq_escape(s) + t =~= t);
        match eval_single_quoted(t) {
            Some(u) => {
                assert(s + u =~= u);
            },
            None => {},
        }
    } else {
        let c = s[0];
        let s1 = s.drop_first();
        assert(s.contains(s[0]));
        assert(c != '\0');
        assert(!contains_nul(s1)) by {
            assert(forall|i: int| 0 <= i < s1.len() ==> s1[i] == s[i + 1]);
        }
        lemma_eval_sq_escape(s1, t);
        let w = sq_escape(s) + t;
        assert(sq_escape(s) == sq_escape_char(c) + sq_escape(s1));
        if c == '\'' {
            // the body starts with the four characters of the escape
            assert(sq_escape_char(c) =~= seq!['\'', '\\', '\'', '\'']);
            assert(w =~= seq!['\'', '\\', '\'', '\''] + (sq_escape(s1) + t));
            let w1 = w.drop_first();
            let w2 = w1.skip(2);
            assert(w[0] == '\'');
            assert(eval_single_quoted(w) == eval_word(w1));
            assert(w1 =~= seq!['\\', '\'', '\''] + (sq_escape(s1) + t));
            assert(w1[0] == '\\' && w1[1] == '\'');
            assert(eval_word(w1) == prepend_char('\'', eval_word(w2)));
            assert(w2 =~= seq!['\''] + (sq_escape(s1) + t));
            assert(w2[0] == '\'');
            assert(eval_word(w2) == eval_single_quoted(w2.drop_first()));
            assert(w2.drop_first() =~= sq_escape(s1) + t);
            match eval_single_quoted(t) {
                Some(u) => {
                    assert(eval_single_quoted(w) == Some(seq!['\''] + (s1 + u)));
                    assert(seq!['\''] + (s1 + u) =~= s + u);
                },
                None => {},
            }
        } else {
            assert(sq_escape_char(c) =~= seq![c]);
            assert(w =~= seq![c] + (sq_escape(s1) + t));
            assert(w[0] == c);
            assert(w.drop_first() =~= sq_escape(s1) + t);
            assert(eval_single_quoted(w) == prepend_char(c, eval_single_quoted(sq_escape(s1) + t)));
            match eval_single_quoted(t) {
                Some(u) => {
                    assert(eval_single_quoted(w) == Some(seq![c] + (s1 + u)));
                    assert(seq![c] + (s1 + u) =~= s + u);
                },
                None => {},
            }
        }
    }
}

/// Round trip: a NUL-free line, quoted, reads back as exactly that line.
pub proof fn lemma_quote_round_trip(s: Seq<char>)
    requires
        !contains_nul(s),
    ensures
        eval_word(quote_spec(s)) == Some(s),
{
    if s.len() == 0 {
        let w = quote_spec(s);
        assert(w =~= seq!['\'', '\'']);
        assert(w[0] == '\'');
        assert(eval_word(w) == eval_single_quoted(w.drop_first()));
        assert(w.drop_first() =~= seq!['\'']);
        assert(w.drop_first()[0] == '\'');
        assert(eval_single_quoted(w.drop_first()) == eval_word(w.drop_first().drop_first()));
        assert(w.drop_first().drop_first() =~= Seq::<char>::empty());
        assert(eval_word(Seq::<char>::empty()) == Some(Seq::<char>::empty()));
        assert(s =~= Seq::<char>::empty());
    } else if all_safe(s) {
        lemma_eval_safe(s);
    } else {
        let w = quote_spec(s);
        assert(w =~= seq!['\''] + sq_escape(s) + seq!['\'']);
        assert(w[0] == '\'');
        assert(eval_word(w) == eval_single_quoted(w.drop_first()));
        assert(w.drop_first() =~= sq_escape(s) + seq!['\'']);
        lemma_eval_sq_escape(s, seq!['\'']);
        let t = seq!['\''];
        assert(t[0] == '\'');
        assert(eval_single_quoted(t) == eval_word(t.drop_first()));
        assert(t.drop_first() =~= Seq::<char>::empty());
        assert(eval_single_quoted(t) == Some(Seq::<char>::empty()));
        assert(s + Seq::<char>::empty() =~= s);
    }
}

/// The fallback path: quoting any line after stripping its NUL characters
/// yields a word that reads back as the stripped line.
pub proof fn lemma_quote_strips_nul(s: Seq<char>)
    ensures
        !contains_nul(strip_nul_spec(s)),
        eval_word(quote_spec(strip_nul_spec(s))) == Some(strip_nul_spec(s)),
        !contains_nul(s) ==> strip_nul_spec(s) == s,
{
    lemma_strip_nul_clean(s);
    lemma_quote_round_trip(strip_nul_spec(s));
    if !contains_nul(s) {
        lemma_strip_nul_identity(s);
    }
}

} // verus!
