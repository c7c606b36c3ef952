//! Text primitives: line splitting, string comparison and number rendering.

use vstd::prelude::*;
use vstd::string::StringSliceAdditionalSpecFns;
use vstd::utf8::{encode_scalar, encode_utf8};

verus! {

broadcast use vstd::utf8::encode_utf8_decode_utf8;

/// The character that shows digit `d` (below 16) in base ten or sixteen.
pub open spec fn digit_char(d: int) -> char {
    if d < 10 {
        (48 + d) as char
    } else {
        (87 + d) as char
    }
}

/// Decimal notation of a natural number, most significant digit first.
pub open spec fn decimal(n: nat) -> Seq<char>
    decreases n,
{
    if n < 10 {
        seq![digit_char(n as int)]
    } else {
        decimal(n / 10) + seq![digit_char((n % 10) as int)]
    }
}

/// Decimal notation of an integer, with a leading `-` when it is negative.
pub open spec fn signed_decimal(v: int) -> Seq<char> {
    if v < 0 {
        seq!['-'] + decimal((-v) as nat)
    } else {
        decimal(v as nat)
    }
}

/// Index of the first `'\n'` in `s` at or after `i`, or `s.len()` when there is none.
pub open spec fn line_end(s: Seq<char>, i: nat) -> nat
    decreases s.len() - i,
{
    if i >= s.len() {
        s.len()
    } else if s[i as int] == '\n' {
        i
    } else {
        line_end(s, i + 1)
    }
}

/// A line without the `'\r'` that ends it, if one does.
pub open spec fn strip_cr(line: Seq<char>) -> Seq<char> {
    if line.len() > 0 && line.last() == '\r' {
        line.drop_last()
    } else {
        line
    }
}

/// The lines of a text, as `str::lines` yields them: the text is cut after
/// each `'\n'`, the `'\n'` (and a `'\r'` just before it) leaves the line, and
/// a final line ending yields no empty line after it.
pub open spec fn text_lines(s: Seq<char>) -> Seq<Seq<char>>
    decreases s.len(),
{
    if s.len() == 0 {
        seq![]
    } else {
        let k = line_end(s, 0);
        if k >= s.len() {
            seq![s]
        } else {
            seq![strip_cr(s.take(k as int))] + text_lines(s.skip(k + 1 as int))
        }
    }
}

/// The characters of each line.
pub open spec fn line_views(lines: Seq<&str>) -> Seq<Seq<char>> {
    lines.map_values(|l: &str| l@)
}

/// Splits `text` into its lines with `str::lines`.
/// Trusted: std documents that `lines` cuts at `'\n'` and `"\r\n"`, drops the
/// terminators, and yields no empty line after a final terminator; the
/// contract states exactly that through `text_lines`.
#[verifier::external_body]
pub(crate) fn split_lines<'a>(text: &'a str) -> (lines: Vec<&'a str>)
    ensures
        line_views(lines@) == text_lines(text@),
{
    text.lines().collect()
}

/// Appends the digit `d` to `s`.
pub fn push_digit(s: &mut String, d: u8)
    requires
        d < 16,
    ensures
        final(s)@ == old(s)@.push(digit_char(d as int)),
{
    match d {
        0 => { proof { reveal_strlit("0"); } s.append("0"); },
        1 => { proof { reveal_strlit("1"); } s.append("1"); },
        2 => { proof { reveal_strlit("2"); } s.append("2"); },
        3 => { proof { reveal_strlit("3"); } s.append("3"); },
        4 => { proof { reveal_strlit("4"); } s.append("4"); },
        5 => { proof { reveal_strlit("5"); } s.append("5"); },
        6 => { proof { reveal_strlit("6"); } s.append("6"); },
        7 => { proof { reveal_strlit("7"); } s.append("7"); },
        8 => { proof { reveal_strlit("8"); } s.append("8"); },
        9 => { proof { reveal_strlit("9"); } s.append("9"); },
        10 => { proof { reveal_strlit("a"); } s.append("a"); },
        11 => { proof { reveal_strlit("b"); } s.append("b"); },
        12 => { proof { reveal_strlit("c"); } s.append("c"); },
        13 => { proof { reveal_strlit("d"); } s.append("d"); },
        14 => { proof { reveal_strlit("e"); } s.append("e"); },
        _ => { proof { reveal_strlit("f"); } s.append("f"); },
    }
}

/// Appends the decimal notation of `n` to `s`.
pub fn push_decimal(s: &mut String, n: u128)
    ensures
        final(s)@ == old(s)@ + decimal(n as nat),
    decreases n,
{
    if n >= 10 {
        push_decimal(s, n / 10);
    }
    push_digit(s, (n % 10) as u8);
}

/// Appends the decimal notation of `v` to `s`, signed.
pub fn push_signed_decimal(s: &mut String, v: i64)
    ensures
        final(s)@ == old(s)@ + signed_decimal(v as int),
{
    if v < 0 {
        proof { reveal_strlit("-"); }
        s.append("-");
        let magnitude: u128 = (-(v as i128)) as u128;
        push_decimal(s, magnitude);
    } else {
        push_decimal(s, v as u128);
    }
}

/// Whether two strings hold the same characters, decided on their UTF-8 bytes.
pub fn str_eq(a: &str, b: &str) -> (res: bool)
    ensures
        res == (a@ == b@),
{
    let x = a.as_bytes();
    let y = b.as_bytes();
    if x.len() != y.len() {
        return false;
    }
    let mut i: usize = 0;
    while i < x.len()
        invariant
            x@ == a.spec_bytes(),
            y@ == b.spec_bytes(),
            x@.len() == y@.len(),
            i <= x@.len(),
            forall|k: int| 0 <= k < i ==> x@[k] == y@[k],
        decreases x@.len() - i,
    {
        if x[i] != y[i] {
            return false;
        }
        i = i + 1;
    }
    assert(x@ =~= y@);
    assert(vstd::utf8::decode_utf8(x@) == a@);
    true
}


/// A line that `text_lines` can give back unchanged from `line + "\n"`: it
/// holds no `'\n'` and does not end with `'\r'`.
pub open spec fn clean_line(l: Seq<char>) -> bool {
    &&& forall|q: int| 0 <= q < l.len() ==> l[q] != '\n'
    &&& (l.len() == 0 || l.last() != '\r')
}

/// The text made of `lines`, each followed by `'\n'`.
pub open spec fn terminated_text(lines: Seq<Seq<char>>) -> Seq<char>
    decreases lines.len(),
{
    if lines.len() == 0 {
        seq![]
    } else {
        lines[0] + seq!['\n'] + terminated_text(lines.drop_first())
    }
}

proof fn lemma_line_end(s: Seq<char>, i: nat)
    requires
        i <= s.len(),
    ensures
        i <= line_end(s, i) <= s.len(),
        forall|q: int| i <= q < line_end(s, i) ==> s[q] != '\n',
        line_end(s, i) < s.len() ==> s[line_end(s, i) as int] == '\n',
    decreases s.len() - i,
{
    if i < s.len() && s[i as int] != '\n' {
        lemma_line_end(s, i + 1);
    }
}

/// Clean lines come back unchanged from the text that they make.
pub proof fn lemma_terminated_text_lines(lines: Seq<Seq<char>>)
    requires
        forall|i: int| 0 <= i < lines.len() ==> clean_line(#[trigger] lines[i]),
    ensures
        text_lines(terminated_text(lines)) == lines,
    decreases lines.len(),
{
    if lines.len() > 0 {
        let t = terminated_text(lines);
        let first = lines[0];
        let rest = lines.drop_first();
        assert(clean_line(lines[0]));
        assert forall|i: int| 0 <= i < rest.len() implies clean_line(#[trigger] rest[i]) by {
            assert(rest[i] == lines[i + 1]);
        }
        lemma_terminated_text_lines(rest);
        lemma_line_end(t, 0);
        assert(t[first.len() as int] == '\n');
        assert forall|q: int| 0 <= q < first.len() implies t[q] != '\n' by {
            assert(t[q] == first[q]);
        }
        assert(line_end(t, 0) == first.len()) by {
            let k = line_end(t, 0);
            if k < first.len() {
                assert(t[k as int] == first[k as int]);
            }
        }
        assert(t.take(first.len() as int) =~= first);
        assert(t.skip(first.len() + 1 as int) =~= terminated_text(rest));
        assert(strip_cr(first) == first);
        assert(text_lines(t) =~= seq![first] + rest);
    }
}

/// The text of two runs of lines is the text of the first followed by the
/// text of the second.
pub proof fn lemma_terminated_text_concat(a: Seq<Seq<char>>, b: Seq<Seq<char>>)
    ensures
        terminated_text(a + b) == terminated_text(a) + terminated_text(b),
    decreases a.len(),
{
    if a.len() == 0 {
        assert(a + b =~= b);
        assert(terminated_text(a) + terminated_text(b) =~= terminated_text(b));
    } else {
        assert((a + b).drop_first() =~= a.drop_first() + b);
        lemma_terminated_text_concat(a.drop_first(), b);
        assert(terminated_text(a + b) =~= terminated_text(a) + terminated_text(b));
    }
}


/// The segments of a text: each line together with its line ending (`"\n"`
/// or `"\r\n"`, none for a last line without one), as
/// `str::split_inclusive('\n')` yields them.
pub open spec fn text_segments(s: Seq<char>) -> Seq<Seq<char>>
    decreases s.len(),
{
    if s.len() == 0 {
        seq![]
    } else {
        let k = line_end(s, 0);
        if k >= s.len() {
            seq![s]
        } else {
            seq![s.take(k + 1 as int)] + text_segments(s.skip(k + 1 as int))
        }
    }
}

/// The text made of `parts`, one after the other.
pub open spec fn joined(parts: Seq<Seq<char>>) -> Seq<char>
    decreases parts.len(),
{
    if parts.len() == 0 {
        seq![]
    } else {
        parts[0] + joined(parts.drop_first())
    }
}

/// Whether a text holds no `'\n'`.
pub open spec fn newline_free(s: Seq<char>) -> bool {
    forall|q: int| 0 <= q < s.len() ==> s[q] != '\n'
}

/// How a segment and its line relate: the line holds no `'\n'`; a segment
/// that ends with `'\n'` is the line followed by `"\n"` or by `"\r\n"`, and
/// any other segment is the line itself.
pub open spec fn segment_of(seg: Seq<char>, line: Seq<char>) -> bool {
    &&& newline_free(line)
    &&& if seg.len() > 0 && seg.last() == '\n' {
        line == strip_cr(seg.drop_last())
    } else {
        line == seg
    }
}

/// Splits `text` after each `'\n'` with `str::split_inclusive('\n')`.
/// Trusted: std documents that `split_inclusive` keeps each matched `'\n'`
/// at the end of the piece before it and yields no empty piece after a final
/// `'\n'` (nor for an empty text); the contract states exactly that through
/// `text_segments`.
#[verifier::external_body]
pub(crate) fn split_segments<'a>(text: &'a str) -> (segments: Vec<&'a str>)
    ensures
        line_views(segments@) == text_segments(text@),
{
    text.split_inclusive('\n').collect()
}

/// The segments of a text are its lines with their endings, and together
/// they make the text.
pub proof fn lemma_text_segments(s: Seq<char>)
    ensures
        text_segments(s).len() == text_lines(s).len(),
        joined(text_segments(s)) == s,
        forall|i: int|
            0 <= i < text_lines(s).len() ==> segment_of(#[trigger] text_segments(s)[i], text_lines(s)[i]),
    decreases s.len(),
{
    if s.len() > 0 {
        lemma_line_end(s, 0);
        let k = line_end(s, 0);
        let segs = text_segments(s);
        let lines = text_lines(s);
        if k >= s.len() {
            assert(segs.drop_first() =~= Seq::<Seq<char>>::empty());
            assert(joined(Seq::<Seq<char>>::empty()) == Seq::<char>::empty());
            assert(segs[0] == s);
            assert(joined(segs) =~= s);
            assert(segment_of(segs[0], lines[0]));
        } else {
            let rest = s.skip(k + 1 as int);
            lemma_text_segments(rest);
            let seg = s.take(k + 1 as int);
            let line = strip_cr(s.take(k as int));
            assert(segs == seq![seg] + text_segments(rest));
            assert(lines == seq![line] + text_lines(rest));
            assert(segs.drop_first() =~= text_segments(rest));
            assert(s =~= seg + rest);
            assert(seg.drop_last() =~= s.take(k as int));
            assert(newline_free(line)) by {
                assert forall|q: int| 0 <= q < line.len() implies line[q] != '\n' by {
                    assert(line[q] == s[q]);
                }
            }
            assert(segment_of(seg, line));
            assert forall|i: int| 0 <= i < lines.len() implies segment_of(#[trigger] segs[i], lines[i]) by {
                if i > 0 {
                    assert(segs[i] == text_segments(rest)[i - 1]);
                    assert(lines[i] == text_lines(rest)[i - 1]);
                }
            }
        }
    }
}

/// A segment is its line followed by nothing, by `"\n"`, or by `"\r\n"`;
/// when it is the line followed by `"\n"`, the line is clean.
pub proof fn lemma_segment_endings(seg: Seq<char>, line: Seq<char>)
    requires
        segment_of(seg, line),
    ensures
        seg == line || seg == line + seq!['\n'] || seg == line + seq!['\r', '\n'],
        seg == line + seq!['\n'] ==> clean_line(line),
{
    if seg.len() > 0 && seg.last() == '\n' {
        let d = seg.drop_last();
        if d.len() > 0 && d.last() == '\r' {
            assert(seg =~= line + seq!['\r', '\n']);
            if seg == line + seq!['\n'] {
                assert(seg[seg.len() - 2] == '\r');
                assert(line.last() == '\r');
                assert(d =~= line);
            }
        } else {
            assert(seg =~= line + seq!['\n']);
        }
    } else {
        if seg == line + seq!['\n'] {
            assert(seg.last() == '\n');
        }
    }
}

/// The UTF-8 bytes of two texts one after the other are the bytes of each.
pub proof fn lemma_encode_utf8_concat(x: Seq<char>, y: Seq<char>)
    ensures
        encode_utf8(x + y) == encode_utf8(x) + encode_utf8(y),
    decreases x.len(),
{
    if x.len() == 0 {
        assert(x + y =~= y);
        assert(encode_utf8(x) + encode_utf8(y) =~= encode_utf8(y));
    } else {
        assert((x + y).drop_first() =~= x.drop_first() + y);
        assert((x + y)[0] == x[0]);
        lemma_encode_utf8_concat(x.drop_first(), y);
        assert(encode_utf8(x + y) =~= encode_utf8(x) + encode_utf8(y));
    }
}

/// A segment is its line followed by `"\n"` exactly when its UTF-8 form is
/// one byte longer than the line's.
pub proof fn lemma_segment_one_byte_longer(seg: Seq<char>, line: Seq<char>)
    requires
        segment_of(seg, line),
    ensures
        (seg == line + seq!['\n']) == (encode_utf8(seg).len() == encode_utf8(line).len() + 1),
{
    lemma_segment_endings(seg, line);
    lemma_encode_utf8_concat(line, seq!['\n']);
    lemma_encode_utf8_concat(line, seq!['\r', '\n']);
    assert(seq!['\n'].drop_first() =~= Seq::<char>::empty());
    assert(encode_utf8(Seq::<char>::empty()) == Seq::<u8>::empty());
    assert(seq!['\n'][0] == '\n');
    assert(('\n' as u32) == 10);
    assert(encode_scalar(10u32).len() == 1);
    assert(encode_utf8(seq!['\n']).len() == 1);
    assert(seq!['\r', '\n'].drop_first() =~= seq!['\n']);
    assert(seq!['\r', '\n'][0] == '\r');
    assert(('\r' as u32) == 13);
    assert(encode_scalar(13u32).len() == 1);
    assert(encode_utf8(seq!['\r', '\n']).len() == 2);
    if seg == line + seq!['\r', '\n'] {
        assert(seg != line + seq!['\n']) by {
            assert(seg.len() == line.len() + 2);
        }
    }
}


/// Joining two runs of parts is joining each, one after the other.
pub proof fn lemma_joined_concat(x: Seq<Seq<char>>, y: Seq<Seq<char>>)
    ensures
        joined(x + y) == joined(x) + joined(y),
    decreases x.len(),
{
    if x.len() == 0 {
        assert(x + y =~= y);
        assert(joined(x) + joined(y) =~= joined(y));
    } else {
        assert((x + y).drop_first() =~= x.drop_first() + y);
        assert((x + y)[0] == x[0]);
        lemma_joined_concat(x.drop_first(), y);
        assert(joined(x + y) =~= joined(x) + joined(y));
    }
}

/// Parts that are lines each followed by `'\n'` join to the text of those lines.
pub proof fn lemma_joined_terminated(parts: Seq<Seq<char>>, lines: Seq<Seq<char>>)
    requires
        parts.len() == lines.len(),
        forall|i: int| 0 <= i < parts.len() ==> #[trigger] parts[i] == lines[i] + seq!['\n'],
    ensures
        joined(parts) == terminated_text(lines),
    decreases parts.len(),
{
    if parts.len() > 0 {
        assert forall|i: int| 0 <= i < parts.drop_first().len() implies #[trigger] parts.drop_first()[i]
            == lines.drop_first()[i] + seq!['\n'] by {
            assert(parts.drop_first()[i] == parts[i + 1]);
        }
        lemma_joined_terminated(parts.drop_first(), lines.drop_first());
        assert(parts[0] == lines[0] + seq!['\n']);
        assert(joined(parts) =~= terminated_text(lines));
    }
}


/// A text whose every line ends with a plain `'\n'`: it is empty or ends with
/// `'\n'`, and no `'\n'` in it follows a `'\r'`.
pub open spec fn plain_text(s: Seq<char>) -> bool {
    &&& (s.len() == 0 || s.last() == '\n')
    &&& forall|k: int| 0 < k < s.len() && #[trigger] s[k] == '\n' ==> s[k - 1] != '\r'
}

/// In a plain text every segment is its line followed by `'\n'`.
pub proof fn lemma_plain_text_segments(s: Seq<char>)
    requires
        plain_text(s),
    ensures
        text_segments(s).len() == text_lines(s).len(),
        forall|i: int| 0 <= i < text_lines(s).len() ==> #[trigger] text_segments(s)[i] == text_lines(s)[i] + seq!['\n'],
    decreases s.len(),
{
    lemma_text_segments(s);
    if s.len() > 0 {
        lemma_line_end(s, 0);
        let k = line_end(s, 0);
        assert(s[s.len() - 1] == '\n');
        assert(k < s.len());
        let rest = s.skip(k + 1 as int);
        if k > 0 {
            assert(s[k as int - 1] != '\r');
        }
        assert(strip_cr(s.take(k as int)) == s.take(k as int));
        assert forall|q: int| 0 < q < rest.len() && #[trigger] rest[q] == '\n' implies rest[q - 1] != '\r' by {
            assert(rest[q] == s[k + 1 + q]);
            assert(rest[q - 1] == s[k + q]);
        }
        if rest.len() > 0 {
            assert(rest.last() == s.last());
        }
        lemma_plain_text_segments(rest);
        let segs = text_segments(s);
        let lines = text_lines(s);
        assert(segs == seq![s.take(k + 1 as int)] + text_segments(rest));
        assert(lines == seq![s.take(k as int)] + text_lines(rest));
        assert(s.take(k + 1 as int) =~= s.take(k as int) + seq!['\n']);
        assert forall|i: int| 0 <= i < lines.len() implies #[trigger] segs[i] == lines[i] + seq!['\n'] by {
            if i > 0 {
                assert(segs[i] == text_segments(rest)[i - 1]);
                assert(lines[i] == text_lines(rest)[i - 1]);
            }
        }
    }
}


/// The number that a string of decimal digits denotes.
pub open spec fn digits_value(s: Seq<char>) -> int
    decreases s.len(),
{
    if s.len() == 0 {
        0
    } else {
        digits_value(s.drop_last()) * 10 + (s.last() as int - 48)
    }
}

/// Decimal notation reads back: it is a non-empty string of digits `0`–`9`
/// that denotes `n`, with no leading zero unless `n` is zero.
pub proof fn lemma_decimal_reads_back(n: nat)
    ensures
        decimal(n).len() > 0,
        forall|q: int| 0 <= q < decimal(n).len() ==> '0' <= #[trigger] decimal(n)[q] <= '9',
        digits_value(decimal(n)) == n,
        n > 0 ==> decimal(n)[0] != '0',
    decreases n,
{
    if n >= 10 {
        lemma_decimal_reads_back(n / 10);
        let d = decimal(n);
        let p = decimal(n / 10);
        assert(d.drop_last() =~= p);
        assert forall|q: int| 0 <= q < d.len() implies '0' <= #[trigger] d[q] <= '9' by {
            if q < p.len() {
                assert(d[q] == p[q]);
            }
        }
        assert(d[0] == p[0]);
        let r = (n % 10) as int;
        assert(d.last() == digit_char(r));
        assert((48 + r) as char as int == 48 + r);
        assert(digits_value(d) == digits_value(p) * 10 + r);
        assert((n / 10) * 10 + n % 10 == n);
    } else {
        let d = decimal(n);
        assert(d.drop_last() =~= Seq::<char>::empty());
        assert((48 + n) as char as int == 48 + n);
        assert(digits_value(d) == digits_value(Seq::<char>::empty()) * 10 + (d.last() as int - 48));
    }
}

} // verus!
