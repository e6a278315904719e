//! The quoting engine: shell-escape one line of text.
//!
//! A line is quoted so that a POSIX-compatible shell reads it back as a
//! single word equal to the original line.  Characters from a small safe
//! set are emitted bare; anything else is wrapped in single quotes, with
//! each embedded single quote written as `'\''` (close the quotes, escape
//! a literal quote, reopen).  A NUL character can never appear in a shell
//! command line, so [`quote_line`] rejects lines that carry one, and
//! [`quote`] first removes them and then quotes the rest.

use vstd::prelude::*;
use vstd::pervasive::unreached;

verus! {

/// Error of the strict engine: the line holds a NUL character, which no
/// shell-quoted word can represent.
#[derive(Debug, Clone, Copy, PartialEq, Eq, Structural)]
pub enum QuoteError {
    Nul,
}

/// True when the sequence holds a NUL character.
pub open spec fn contains_nul(s: Seq<char>) -> bool {
    exists|i: int| 0 <= i < s.len() && s[i] == '\0'
}

/// The sequence with every NUL character removed and all else kept in order.
pub open spec fn strip_nul_spec(s: Seq<char>) -> Seq<char>
    decreases s.len(),
{
    if s.len() == 0 {
        Seq::empty()
    } else if s.last() == '\0' {
        strip_nul_spec(s.drop_last())
    } else {
        strip_nul_spec(s.drop_last()).push(s.last())
    }
}

/// A character that may be emitted without any quoting: ASCII letters and
/// digits and `+ - . / : @ _`.  Everything else is wrapped in quotes.
pub open spec fn is_safe_char(c: char) -> bool {
    let u = c as u32;
    (97 <= u && u <= 122)  // 'a'..'z'
    || (65 <= u && u <= 90)  // 'A'..'Z'
    || (48 <= u && u <= 57)  // '0'..'9'
    || u == 43  // '+'
    || u == 45  // '-'
    || u == 46  // '.'
    || u == 47  // '/'
    || u == 58  // ':'
    || u == 64  // '@'
    || u == 95  // '_'
}

/// True when every character of the sequence is safe to emit bare.
pub open spec fn all_safe(s: Seq<char>) -> bool {
    forall|i: int| 0 <= i < s.len() ==> is_safe_char(s[i])
}

/// How one character is written inside a single-quoted region: a single
/// quote leaves the region, escapes itself, and reopens it.
pub open spec fn sq_escape_char(c: char) -> Seq<char> {
    if c == '\'' {
        seq!['\'', '\\', '\'', '\'']
    } else {
        seq![c]
    }
}

/// The body of the single-quoted form: each character in order, escaped.
pub open spec fn sq_escape(s: Seq<char>) -> Seq<char>
    decreases s.len(),
{
    if s.len() == 0 {
        Seq::empty()
    } else {
        sq_escape_char(s[0]) + sq_escape(s.drop_first())
    }
}

/// The quoted form of a NUL-free line: empty lines become `''`, fully safe
/// lines are kept as they are, and everything else is single-quoted.
pub open spec fn quote_spec(s: Seq<char>) -> Seq<char> {
    if s.len() == 0 {
        seq!['\'', '\'']
    } else if all_safe(s) {
        s
    } else {
        seq!['\''] + sq_escape(s) + seq!['\'']
    }
}

/// Stripping never leaves a NUL behind.
pub proof fn lemma_strip_nul_clean(s: Seq<char>)
    ensures
        !contains_nul(strip_nul_spec(s)),
    decreases s.len(),
{
    if s.len() > 0 {
        lemma_strip_nul_clean(s.drop_last());
    }
}

/// On a NUL-free sequence stripping is the identity.
pub proof fn lemma_strip_nul_identity(s: Seq<char>)
    requires
        !contains_nul(s),
    ensures
        strip_nul_spec(s) == s,
    decreases s.len(),
{
    if s.len() > 0 {
        assert(!contains_nul(s.drop_last()));
        lemma_strip_nul_identity(s.drop_last());
        assert(strip_nul_spec(s) =~= s);
    }
}

/// Stripping invents no characters.
pub proof fn lemma_strip_nul_subset(s: Seq<char>)
    ensures
        forall|i: int|
            0 <= i < strip_nul_spec(s).len() ==> s.contains(#[trigger] strip_nul_spec(s)[i]),
    decreases s.len(),
{
    if s.len() > 0 {
        lemma_strip_nul_subset(s.drop_last());
        assert(s[s.len() - 1] == s.last());
        assert forall|i: int|
            0 <= i < strip_nul_spec(s).len() implies s.contains(strip_nul_spec(s)[i]) by {
            let x = strip_nul_spec(s)[i];
            if s.last() != '\0' && i == strip_nul_spec(s).len() - 1 {
                assert(x == s.last());
            } else {
                assert(strip_nul_spec(s.drop_last())[i] == x);
                assert(s.drop_last().contains(x));
                let j = choose|j: int| 0 <= j < s.drop_last().len() && s.drop_last()[j] == x;
                assert(s[j] == x);
            }
        }
    }
}

/// Escaping introduces no characters besides the quote and the backslash.
pub(crate) proof fn lemma_sq_escape_chars(s: Seq<char>)
    ensures
        forall|i: int|
            0 <= i < sq_escape(s).len() ==> (#[trigger] sq_escape(s)[i] == '\'' || sq_escape(s)[i]
                == '\\' || s.contains(sq_escape(s)[i])),
    decreases s.len(),
{
    if s.len() > 0 {
        let s1 = s.drop_first();
        lemma_sq_escape_chars(s1);
        assert(s.contains(s[0])) by {
            assert(s[0] == s[0]);
        }
        assert(sq_escape(s) == sq_escape_char(s[0]) + sq_escape(s1));
        assert forall|i: int|
            0 <= i < sq_escape(s).len() implies (#[trigger] sq_escape(s)[i] == '\''
            || sq_escape(s)[i] == '\\' || s.contains(sq_escape(s)[i])) by {
            let x = sq_escape(s)[i];
            if i < sq_escape_char(s[0]).len() {
                assert(x == sq_escape_char(s[0])[i]);
            } else {
                let k = i - sq_escape_char(s[0]).len();
                assert(x == sq_escape(s1)[k]);
                if !(x == '\'' || x == '\\') {
                    assert(s1.contains(x));
                    let j = choose|j: int| 0 <= j < s1.len() && s1[j] == x;
                    assert(s[j + 1] == x);
                }
            }
        }
    }
}

/// The quoted form introduces no characters besides the quote and the
/// backslash; everything else in it comes from the line itself.
pub proof fn lemma_quote_chars(s: Seq<char>)
    ensures
        forall|i: int|
            0 <= i < quote_spec(s).len() ==> (#[trigger] quote_spec(s)[i] == '\'' || quote_spec(
                s,
            )[i] == '\\' || s.contains(quote_spec(s)[i])),
{
    if s.len() == 0 {
    } else if all_safe(s) {
        assert(forall|i: int| 0 <= i < s.len() ==> s.contains(#[trigger] s[i]));
    } else {
        lemma_sq_escape_chars(s);
        let w = quote_spec(s);
        assert(w == seq!['\''] + sq_escape(s) + seq!['\'']);
        assert forall|i: int|
            0 <= i < w.len() implies (#[trigger] w[i] == '\'' || w[i] == '\\' || s.contains(
            w[i],
        )) by {
            if 1 <= i < 1 + sq_escape(s).len() {
                assert(w[i] == sq_escape(s)[i - 1]);
            }
        }
    }
}

/// Relies on `String::push`: appends one character at the end.
#[verifier::external_body]
pub(crate) fn push_char(s: &mut String, c: char)
    ensures
        final(s)@ == old(s)@.push(c),
{
    s.push(c);
}

/// Whether `c` may be emitted without quoting; see [`is_safe_char`].
fn is_safe(c: char) -> (b: bool)
    ensures
        b == is_safe_char(c),
{
    let u = c as u32;
    (97 <= u && u <= 122) || (65 <= u && u <= 90) || (48 <= u && u <= 57) || u == 43 || u == 45
        || u == 46 || u == 47 || u == 58 || u == 64 || u == 95
}

/// The strict quoting engine: the shell-quoted form of `line`, or
/// [`QuoteError::Nul`] exactly when the line holds a NUL character.
pub fn quote_line(line: &str) -> (r: Result<String, QuoteError>)
    ensures
        r is Ok <==> !contains_nul(line@),
        r is Ok ==> r->Ok_0@ == quote_spec(line@),
{
    let n = line.unicode_len();
    let mut i: usize = 0;
    let mut has_nul = false;
    let mut safe = true;
    while i < n
        invariant
            n == line@.len(),
            0 <= i <= n,
            has_nul <==> contains_nul(line@.take(i as int)),
            safe <==> all_safe(line@.take(i as int)),
        decreases n - i,
    {
        let c = line.get_char(i);
        proof {
            assert(line@.take(i + 1).drop_last() =~= line@.take(i as int));
            assert(line@.take(i + 1).last() == c);
            assert(forall|j: int|
                0 <= j < i + 1 ==> line@.take(i + 1)[j] == line@.take(i as int).push(c)[j]);
        }
        if c == '\0' {
            has_nul = true;
            proof {
                assert(line@.take(i + 1)[i as int] == '\0');
            }
        }
        if !is_safe(c) {
            safe = false;
            proof {
                assert(line@.take(i + 1)[i as int] == c);
            }
        }
        i += 1;
    }
    proof {
        assert(line@.take(n as int) =~= line@);
    }
    if has_nul {
        return Err(QuoteError::Nul);
    }
    if n == 0 {
        let r = String::from_str("''");
        proof {
            reveal_strlit("''");
            assert(r@ =~= quote_spec(line@));
        }
        return Ok(r);
    }
    if safe {
        return Ok(line.to_owned());
    }
    let mut out = String::from_str("'");
    let mut i: usize = 0;
    proof {
        reveal_strlit("'");
        assert(out@ =~= seq!['\''] + sq_escape(line@.take(0)));
    }
    while i < n
        invariant
            n == line@.len(),
            0 <= i <= n,
            out@ == seq!['\''] + sq_escape(line@.take(i as int)),
        decreases n - i,
    {
        let c = line.get_char(i);
        let ghost prefix = line@.take(i as int);
        if c == '\'' {
            push_char(&mut out, '\'');
            push_char(&mut out, '\\');
            push_char(&mut out, '\'');
            push_char(&mut out, '\'');
        } else {
            push_char(&mut out, c);
        }
        proof {
            lemma_sq_escape_snoc(prefix, c);
            assert(line@.take(i + 1) =~= prefix.push(c));
            assert(out@ =~= seq!['\''] + sq_escape(prefix.push(c)));
        }
        i += 1;
    }
    push_char(&mut out, '\'');
    proof {
        assert(line@.take(n as int) =~= line@);
        assert(out@ =~= seq!['\''] + sq_escape(line@) + seq!['\'']);
    }
    Ok(out)
}

/// Escaping distributes over appending one character at the end.
proof fn lemma_sq_escape_snoc(s: Seq<char>, c: char)
    ensures
        sq_escape(s.push(c)) == sq_escape(s) + sq_escape_char(c),
    decreases s.len(),
{
    if s.len() == 0 {
        assert(s.push(c)[0] == c);
        assert(s.push(c).drop_first() =~= Seq::<char>::empty());
        assert(sq_escape(s) =~= Seq::<char>::empty());
        assert(sq_escape(s.push(c)) == sq_escape_char(c) + sq_escape(s.push(c).drop_first()));
        assert(sq_escape(s.push(c)) =~= sq_escape(s) + sq_escape_char(c));
    } else {
        lemma_sq_escape_snoc(s.drop_first(), c);
        assert(s.push(c).drop_first() =~= s.drop_first().push(c));
        assert(s.push(c)[0] == s[0]);
        let a = sq_escape_char(s[0]);
        let b = sq_escape(s.drop_first());
        let e = sq_escape_char(c);
        assert(sq_escape(s.push(c)) == a + (b + e));
        assert(sq_escape(s) == a + b);
        assert(a + (b + e) =~= (a + b) + e);
    }
}

/// The sequence with every NUL character removed, as an executable function.
pub fn strip_nul(line: &str) -> (r: String)
    ensures
        r@ == strip_nul_spec(line@),
{
    let n = line.unicode_len();
    let mut out = String::new();
    let mut i: usize = 0;
    while i < n
        invariant
            n == line@.len(),
            0 <= i <= n,
            out@ == strip_nul_spec(line@.take(i as int)),
        decreases n - i,
    {
        let c = line.get_char(i);
        proof {
            assert(line@.take(i + 1).drop_last() =~= line@.take(i as int));
            assert(line@.take(i + 1).last() == c);
        }
        if c != '\0' {
            push_char(&mut out, c);
        }
        i += 1;
    }
    proof {
        assert(line@.take(n as int) =~= line@);
    }
    out
}

/// The quoting transform with the strip-and-retry fallback: a line without
/// NUL characters is quoted as it is; one with NUL characters has them
/// removed first, and the cleaned line is quoted.  The retry cannot fail,
/// since stripping leaves no NUL behind.
pub fn quote(line: &str) -> (r: String)
    ensures
        r@ == quote_spec(strip_nul_spec(line@)),
        !contains_nul(line@) ==> r@ == quote_spec(line@),
{
    match quote_line(line) {
        Ok(q) => {
            proof {
                lemma_strip_nul_identity(line@);
            }
            q
        },
        Err(_) => {
            let cleaned = strip_nul(line);
            proof {
                lemma_strip_nul_clean(line@);
            }
            match quote_line(cleaned.as_str()) {
                Ok(q) => q,
                Err(_) => unreached(),
            }
        },
    }
}

} // verus!
