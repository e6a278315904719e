//! The line source and the output framing.
//!
//! Lines arrive either as ready strings (command-line arguments) or as
//! byte segments cut from a stream at a separator byte.  Each line is
//! quoted and followed by the separator; [`join_quoted`] is the shape of
//! that output, [`split_seq`] the shape of cutting it apart again.

use vstd::prelude::*;
use vstd::utf8::{
    valid_utf8, decode_utf8, decode_first_scalar, pop_first_scalar, take_first_scalar,
    length_of_first_scalar, encode_scalar, decode_utf8_first_scalar, leading_byte_width_1,
};
use crate::quoting::{
    quote, quote_spec, strip_nul_spec, push_char, lemma_quote_chars, lemma_strip_nul_subset,
};

verus! {

/// Error of the stream source: a segment is not valid UTF-8.
#[derive(Debug, Clone, Copy, PartialEq, Eq, Structural)]
pub struct DecodeError;

/// Relies on `core::str::from_utf8`: succeeds exactly on valid UTF-8 and
/// yields its decoding.
#[verifier::external_body]
fn decode_segment(bytes: &Vec<u8>) -> (r: Option<String>)
    ensures
        r is Some <==> valid_utf8(bytes@),
        r is Some ==> r->0@ == decode_utf8(bytes@),
{
    match core::str::from_utf8(bytes.as_slice()) {
        Ok(s) => Some(s.to_owned()),
        Err(_) => None,
    }
}

/// One segment of the input stream: decoded as UTF-8 and quoted with the
/// strip-and-retry policy, or rejected when the bytes are not valid text.
pub fn quote_segment(bytes: &Vec<u8>) -> (r: Result<String, DecodeError>)
    ensures
        r is Ok <==> valid_utf8(bytes@),
        r is Ok ==> r->Ok_0@ == quote_spec(strip_nul_spec(decode_utf8(bytes@))),
{
    match decode_segment(bytes) {
        Some(line) => Ok(quote(line.as_str())),
        None => Err(DecodeError),
    }
}

/// The whole output for a sequence of lines: each line quoted (with the
/// strip-and-retry policy) and followed by the separator, in input order.
pub open spec fn join_quoted(lines: Seq<Seq<char>>, sep: char) -> Seq<char>
    decreases lines.len(),
{
    if lines.len() == 0 {
        Seq::empty()
    } else {
        quote_spec(strip_nul_spec(lines[0])) + seq![sep] + join_quoted(lines.drop_first(), sep)
    }
}

/// Joining distributes over appending one line at the end.
proof fn lemma_join_quoted_snoc(lines: Seq<Seq<char>>, l: Seq<char>, sep: char)
    ensures
        join_quoted(lines.push(l), sep) == join_quoted(lines, sep) + quote_spec(strip_nul_spec(l))
            + seq![sep],
    decreases lines.len(),
{
    if lines.len() == 0 {
        assert(lines.push(l)[0] == l);
        assert(lines.push(l).drop_first() =~= Seq::<Seq<char>>::empty());
        assert(join_quoted(lines, sep) =~= Seq::<char>::empty());
        assert(join_quoted(lines.push(l).drop_first(), sep) =~= Seq::<char>::empty());
        assert(join_quoted(lines.push(l), sep) =~= join_quoted(lines, sep) + quote_spec(
            strip_nul_spec(l),
        ) + seq![sep]);
    } else {
        lemma_join_quoted_snoc(lines.drop_first(), l, sep);
        assert(lines.push(l).drop_first() =~= lines.drop_first().push(l));
        assert(lines.push(l)[0] == lines[0]);
        let a = quote_spec(strip_nul_spec(lines[0])) + seq![sep];
        let b = join_quoted(lines.drop_first(), sep);
        let e = quote_spec(strip_nul_spec(l)) + seq![sep];
        assert(join_quoted(lines.push(l), sep) == a + (b + e));
        assert(join_quoted(lines, sep) == a + b);
        assert(a + (b + e) =~= (a + b) + e);
        assert((a + b) + e =~= join_quoted(lines, sep) + quote_spec(strip_nul_spec(l))
            + seq![sep]);
    }
}

/// Escapes a sequence of ready lines: the returned string is each line's
/// quoted form followed by the separator, in the order given.
pub fn escape_lines(lines: &Vec<String>, sep: char) -> (r: String)
    ensures
        r@ == join_quoted(lines.deep_view(), sep),
{
    let mut out = String::new();
    let mut i: usize = 0;
    proof {
        assert(lines.deep_view().take(0) =~= Seq::<Seq<char>>::empty());
    }
    while i < lines.len()
        invariant
            0 <= i <= lines.len(),
            out@ == join_quoted(lines.deep_view().take(i as int), sep),
        decreases lines.len() - i,
    {
        let q = quote(lines[i].as_str());
        out.append(q.as_str());
        push_char(&mut out, sep);
        proof {
            lemma_join_quoted_snoc(lines.deep_view().take(i as int), lines.deep_view()[i as int],
                sep);
            assert(lines.deep_view().take(i + 1) =~= lines.deep_view().take(i as int).push(
                lines.deep_view()[i as int],
            ));
        }
        i += 1;
    }
    proof {
        assert(lines.deep_view().take(lines@.len() as int) =~= lines.deep_view());
    }
    out
}

/// Cutting a sequence at a separator: one segment per stretch between
/// separators, the stretch after the last separator kept only when it is
/// not empty.  This is the shape in which the stream source reads its
/// input (over bytes), and the shape into which the emitted output falls
/// apart again (over characters).
pub open spec fn split_seq<T>(s: Seq<T>, sep: T) -> Seq<Seq<T>>
    decreases s.len(),
{
    if s.len() == 0 {
        Seq::empty()
    } else if s[0] == sep {
        seq![Seq::<T>::empty()] + split_seq(s.drop_first(), sep)
    } else {
        let rest = split_seq(s.drop_first(), sep);
        if rest.len() == 0 {
            seq![s]
        } else {
            seq![seq![s[0]] + rest[0]] + rest.drop_first()
        }
    }
}

/// Cutting off a separator-free segment and its separator leaves the rest.
proof fn lemma_split_prefix<T>(q: Seq<T>, sep: T, rest: Seq<T>)
    requires
        !q.contains(sep),
    ensures
        split_seq(q + seq![sep] + rest, sep) == seq![q] + split_seq(rest, sep),
    decreases q.len(),
{
    if q.len() == 0 {
        let w = q + seq![sep] + rest;
        assert(w =~= seq![sep] + rest);
        assert(w[0] == sep);
        assert(w.drop_first() =~= rest);
        assert(q =~= Seq::<T>::empty());
        assert(split_seq(w, sep) =~= seq![q] + split_seq(rest, sep));
    } else {
        assert(q.contains(q[0])) by {
            assert(q[0] == q[0]);
        }
        assert(q[0] != sep);
        let q1 = q.drop_first();
        assert(!q1.contains(sep)) by {
            if q1.contains(sep) {
                let j = choose|j: int| 0 <= j < q1.len() && q1[j] == sep;
                assert(q[j + 1] == sep);
            }
        }
        lemma_split_prefix(q1, sep, rest);
        let w = q + seq![sep] + rest;
        assert(w[0] == q[0]);
        assert(w.drop_first() =~= q1 + seq![sep] + rest);
        let inner = split_seq(q1 + seq![sep] + rest, sep);
        assert(inner == seq![q1] + split_seq(rest, sep));
        assert(inner.len() > 0);
        assert(inner[0] == q1);
        assert(split_seq(w, sep) == seq![seq![w[0]] + inner[0]] + inner.drop_first());
        assert(seq![w[0]] + q1 =~= q);
        assert(inner.drop_first() =~= split_seq(rest, sep));
        assert(split_seq(w, sep) =~= seq![q] + split_seq(rest, sep));
    }
}

/// A nonempty separator-free sequence is one single segment.
proof fn lemma_split_solo<T>(q: Seq<T>, sep: T)
    requires
        q.len() > 0,
        !q.contains(sep),
    ensures
        split_seq(q, sep) == seq![q],
    decreases q.len(),
{
    assert(q.contains(q[0])) by {
        assert(q[0] == q[0]);
    }
    assert(q[0] != sep);
    let q1 = q.drop_first();
    if q1.len() == 0 {
        assert(split_seq(q1, sep) =~= Seq::<Seq<T>>::empty());
    } else {
        assert(!q1.contains(sep)) by {
            if q1.contains(sep) {
                let j = choose|j: int| 0 <= j < q1.len() && q1[j] == sep;
                assert(q[j + 1] == sep);
            }
        }
        lemma_split_solo(q1, sep);
        assert(seq![q[0]] + q1 =~= q);
        assert(seq![q1].drop_first() =~= Seq::<Seq<T>>::empty());
        assert(split_seq(q, sep) =~= seq![q]);
    }
}

/// No segment cut from a sequence at a separator contains the separator.
/// This is the hypothesis under which [`lemma_separator_round_trip`]
/// speaks of the lines of a stream.
pub proof fn lemma_split_segments_free<T>(s: Seq<T>, sep: T)
    ensures
        forall|i: int|
            0 <= i < split_seq(s, sep).len() ==> !(#[trigger] split_seq(s, sep)[i]).contains(sep),
    decreases s.len(),
{
    if s.len() == 0 {
    } else {
        let s1 = s.drop_first();
        lemma_split_segments_free(s1, sep);
        let rest = split_seq(s1, sep);
        if s[0] == sep {
            assert forall|i: int|
                0 <= i < split_seq(s, sep).len() implies !(#[trigger] split_seq(s, sep)[i]).contains(
                sep,
            ) by {
                if i == 0 {
                    assert(!Seq::<T>::empty().contains(sep));
                } else {
                    assert(split_seq(s, sep)[i] == rest[i - 1]);
                }
            }
        } else if rest.len() == 0 {
            assert(s1.len() == 0) by {
                if s1.len() > 0 {
                    assert(split_seq(s1, sep).len() > 0);
                }
            }
            assert forall|i: int|
                0 <= i < split_seq(s, sep).len() implies !(#[trigger] split_seq(s, sep)[i]).contains(
                sep,
            ) by {
                assert(split_seq(s, sep)[i] == s);
                if s.contains(sep) {
                    let j = choose|j: int| 0 <= j < s.len() && s[j] == sep;
                    assert(j == 0);
                }
            }
        } else {
            assert forall|i: int|
                0 <= i < split_seq(s, sep).len() implies !(#[trigger] split_seq(s, sep)[i]).contains(
                sep,
            ) by {
                if i == 0 {
                    assert(split_seq(s, sep)[0] == seq![s[0]] + rest[0]);
                    assert(!rest[0].contains(sep));
                    if (seq![s[0]] + rest[0]).contains(sep) {
                        let j = choose|j: int|
                            0 <= j < (seq![s[0]] + rest[0]).len() && (seq![s[0]] + rest[0])[j]
                                == sep;
                        if j > 0 {
                            assert(rest[0][j - 1] == sep);
                        }
                    }
                } else {
                    assert(split_seq(s, sep)[i] == rest[i]);
                }
            }
        }
    }
}

/// Cuts a byte stream at the separator byte, as the stream source reads
/// its input: one segment per stretch between separators, a trailing
/// stretch kept only when it is not empty.
pub fn split_stream(input: &Vec<u8>, sep: u8) -> (r: Vec<Vec<u8>>)
    ensures
        r.deep_view() == split_seq(input@, sep),
{
    let n = input.len();
    let mut out: Vec<Vec<u8>> = Vec::new();
    let mut start: usize = 0;
    proof {
        assert(input@.skip(0) =~= input@);
        assert(out.deep_view() =~= Seq::<Seq<u8>>::empty());
    }
    while start < n
        invariant
            0 <= start <= n,
            n == input@.len(),
            split_seq(input@, sep) == out.deep_view() + split_seq(
                input@.skip(start as int),
                sep,
            ),
        decreases n - start,
    {
        let mut j = start;
        while j < n && input[j] != sep
            invariant
                start <= j <= n,
                n == input@.len(),
                forall|k: int| start <= k < j ==> input@[k] != sep,
            decreases n - j,
        {
            j += 1;
        }
        let seg = vstd::slice::slice_to_vec(vstd::slice::slice_subrange(input.as_slice(), start,
            j));
        let ghost old_dv = out.deep_view();
        let ghost segv = seg@;
        out.push(seg);
        proof {
            assert(out.deep_view() =~~= old_dv.push(segv));
            let rem = input@.skip(start as int);
            assert(!segv.contains(sep)) by {
                if segv.contains(sep) {
                    let k = choose|k: int| 0 <= k < segv.len() && segv[k] == sep;
                    assert(input@[start + k] == sep);
                }
            }
            if j < n {
                assert(input@[j as int] == sep);
                assert(rem =~= segv + seq![sep] + input@.skip(j + 1));
                lemma_split_prefix(segv, sep, input@.skip(j + 1));
                assert(old_dv + (seq![segv] + split_seq(input@.skip(j + 1), sep)) =~= old_dv.push(
                    segv,
                ) + split_seq(input@.skip(j + 1), sep));
            } else {
                assert(rem =~= segv);
                assert(segv.len() > 0);
                lemma_split_solo(segv, sep);
                assert(input@.skip(n as int) =~= Seq::<u8>::empty());
                assert(split_seq(input@.skip(n as int), sep) =~= Seq::<Seq<u8>>::empty());
                assert(old_dv + seq![segv] =~= old_dv.push(segv) + split_seq(
                    input@.skip(n as int),
                    sep,
                ));
            }
        }
        start = if j < n {
            j + 1
        } else {
            n
        };
    }
    proof {
        assert(input@.skip(n as int) =~= Seq::<u8>::empty());
        assert(split_seq(input@.skip(n as int), sep) =~= Seq::<Seq<u8>>::empty());
        assert(out.deep_view() + Seq::<Seq<u8>>::empty() =~= out.deep_view());
    }
    out
}

/// The decoding of each segment of a cut-up stream.
pub open spec fn decoded(segs: Seq<Seq<u8>>) -> Seq<Seq<char>> {
    segs.map_values(|b: Seq<u8>| decode_utf8(b))
}

/// The whole stream path in one step: the input is cut at the separator
/// byte, each segment is decoded as UTF-8 and quoted with the
/// strip-and-retry policy, and the quoted lines are joined in order, each
/// followed by the separator.  Work stops at the first segment that is
/// not valid UTF-8: what was built before it is returned with the error,
/// as lines already emitted are not retracted.
pub fn escape_stream(input: &Vec<u8>, sep: char) -> (r: (String, Option<DecodeError>))
    requires
        (sep as u32) < 128,
    ensures
        ({
            let segs = split_seq(input@, (sep as u32) as u8);
            match r.1 {
                None => (forall|i: int| 0 <= i < segs.len() ==> valid_utf8(#[trigger] segs[i]))
                    && r.0@ == join_quoted(decoded(segs), sep),
                Some(_) => exists|k: int|
                    0 <= k < segs.len() && !valid_utf8(#[trigger] segs[k]) && (forall|i: int|
                        0 <= i < k ==> valid_utf8(#[trigger] segs[i])) && r.0@ == join_quoted(
                        decoded(segs.take(k)),
                        sep,
                    ),
            }
        }),
{
    let sep_b: u8 = (sep as u32) as u8;
    let segs = split_stream(input, sep_b);
    let ghost dv = segs.deep_view();
    let mut out = String::new();
    let mut i: usize = 0;
    proof {
        assert(decoded(dv.take(0)) =~= Seq::<Seq<char>>::empty());
    }
    while i < segs.len()
        invariant
            0 <= i <= segs.len(),
            dv == segs.deep_view(),
            dv == split_seq(input@, sep_b),
            sep_b == (sep as u32) as u8,
            forall|k: int| 0 <= k < i ==> valid_utf8(#[trigger] dv[k]),
            out@ == join_quoted(decoded(dv.take(i as int)), sep),
        decreases segs.len() - i,
    {
        proof {
            assert(dv[i as int] =~= segs@[i as int]@);
        }
        match quote_segment(&segs[i]) {
            Ok(q) => {
                out.append(q.as_str());
                push_char(&mut out, sep);
                proof {
                    lemma_join_quoted_snoc(decoded(dv.take(i as int)), decode_utf8(dv[i as int]),
                        sep);
                    assert(decoded(dv.take(i + 1)) =~= decoded(dv.take(i as int)).push(
                        decode_utf8(dv[i as int]),
                    ));
                }
            },
            Err(e) => {
                proof {
                    assert(!valid_utf8(dv[i as int]));
                }
                return (out, Some(e));
            },
        }
        i += 1;
    }
    proof {
        assert(dv.take(dv.len() as int) =~= dv);
    }
    (out, None)
}

/// UTF-8 is transparent for ASCII: a byte sequence free of an ASCII byte
/// decodes to characters free of that byte's character.
proof fn lemma_decode_free_of_ascii(bytes: Seq<u8>, b: u8)
    requires
        valid_utf8(bytes),
        b < 0x80,
        forall|i: int| 0 <= i < bytes.len() ==> bytes[i] != b,
    ensures
        forall|k: int|
            0 <= k < decode_utf8(bytes).len() ==> (#[trigger] decode_utf8(bytes)[k] as u32)
                != b as u32,
    decreases bytes.len(),
{
    if bytes.len() > 0 {
        let c = decode_first_scalar(bytes) as char;
        let w = length_of_first_scalar(bytes);
        assert(1 <= w <= bytes.len());
        decode_utf8_first_scalar(bytes);
        if c as u32 == b as u32 {
            // then the first scalar would be one byte that is exactly `b`
            assert(encode_scalar(c as u32) == seq![leading_byte_width_1(b as u32)]);
            assert(leading_byte_width_1(b as u32) == b) by {
                assert(((b as u32) & 0x7F) as u8 == b) by (bit_vector)
                    requires
                        b < 0x80,
                ;
            }
            assert(take_first_scalar(bytes)[0] == bytes[0]);
            assert(bytes[0] == b);
        }
        let rest = pop_first_scalar(bytes);
        assert(forall|i: int| 0 <= i < rest.len() ==> rest[i] == bytes[i + w]);
        lemma_decode_free_of_ascii(rest, b);
        assert(forall|k: int|
            1 <= k < decode_utf8(bytes).len() ==> decode_utf8(bytes)[k] == decode_utf8(rest)[k
                - 1]);
    }
}

/// The quoted form of a line free of a separator stays free of it, as
/// long as the separator is not the quote or the backslash.
proof fn lemma_quoted_free_of(line: Seq<char>, sep: char)
    requires
        sep != '\'',
        sep != '\\',
        !line.contains(sep),
    ensures
        !quote_spec(strip_nul_spec(line)).contains(sep),
{
    let q = quote_spec(strip_nul_spec(line));
    lemma_quote_chars(strip_nul_spec(line));
    lemma_strip_nul_subset(line);
    if q.contains(sep) {
        let i = choose|i: int| 0 <= i < q.len() && q[i] == sep;
        assert(strip_nul_spec(line).contains(sep));
        let j = choose|j: int|
            0 <= j < strip_nul_spec(line).len() && strip_nul_spec(line)[j] == sep;
        assert(line.contains(strip_nul_spec(line)[j]));
    }
}

/// Separator round trip: cutting the emitted output at the separator
/// gives back as many segments as there were input lines, provided the
/// separator is not the quote or the backslash (which quoting may add)
/// and no line carries the separator itself — as no line cut from a
/// stream at that separator can.
pub proof fn lemma_separator_round_trip(lines: Seq<Seq<char>>, sep: char)
    requires
        sep != '\'',
        sep != '\\',
        forall|i: int| 0 <= i < lines.len() ==> !(#[trigger] lines[i]).contains(sep),
    ensures
        split_seq(join_quoted(lines, sep), sep).len() == lines.len(),
    decreases lines.len(),
{
    if lines.len() == 0 {
        assert(join_quoted(lines, sep) =~= Seq::<char>::empty());
    } else {
        let q = quote_spec(strip_nul_spec(lines[0]));
        lemma_quoted_free_of(lines[0], sep);
        let rest = join_quoted(lines.drop_first(), sep);
        assert(join_quoted(lines, sep) == q + seq![sep] + rest);
        lemma_split_prefix(q, sep, rest);
        assert(forall|i: int|
            0 <= i < lines.drop_first().len() ==> lines.drop_first()[i] == lines[i + 1]);
        lemma_separator_round_trip(lines.drop_first(), sep);
    }
}

/// Separator round trip for the stream path: the output emitted for a
/// byte stream falls apart at the separator into exactly as many segments
/// as the stream itself was cut into, for any ASCII separator other than
/// the quote and the backslash, on any stream whose segments are valid
/// UTF-8.
pub proof fn lemma_stream_round_trip(input: Seq<u8>, sep: char)
    requires
        (sep as u32) < 128,
        sep != '\'',
        sep != '\\',
        forall|i: int|
            0 <= i < split_seq(input, (sep as u32) as u8).len() ==> valid_utf8(
                #[trigger] split_seq(input, (sep as u32) as u8)[i],
            ),
    ensures
        split_seq(join_quoted(decoded(split_seq(input, (sep as u32) as u8)), sep), sep).len()
            == split_seq(input, (sep as u32) as u8).len(),
{
    let sb = (sep as u32) as u8;
    let segs = split_seq(input, sb);
    lemma_split_segments_free(input, sb);
    assert(sb as u32 == sep as u32) by {
        let su = sep as u32;
        assert((su as u8) as u32 == su) by (bit_vector)
            requires
                su < 128,
        ;
    }
    assert forall|i: int|
        0 <= i < decoded(segs).len() implies !(#[trigger] decoded(segs)[i]).contains(sep) by {
        assert(!segs[i].contains(sb));
        assert(forall|j: int| 0 <= j < segs[i].len() ==> segs[i][j] != sb);
        lemma_decode_free_of_ascii(segs[i], sb);
        assert(decoded(segs)[i] == decode_utf8(segs[i]));
        if decoded(segs)[i].contains(sep) {
            let k = choose|k: int|
                0 <= k < decoded(segs)[i].len() && decoded(segs)[i][k] == sep;
            assert(decode_utf8(segs[i])[k] as u32 != sb as u32);
        }
    }
    lemma_separator_round_trip(decoded(segs), sep);
}

} // verus!
