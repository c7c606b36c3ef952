//! Line diffs: a longest-common-subsequence edit script between two
//! sequences of lines.

use vstd::prelude::*;
use vstd::utf8::encode_utf8;
use crate::text::{
    clean_line, decimal, digit_char, joined, lemma_joined_concat, lemma_joined_terminated,
    lemma_segment_endings, lemma_segment_one_byte_longer, lemma_terminated_text_concat,
    lemma_terminated_text_lines, lemma_text_segments, line_views, newline_free, push_decimal,
    lemma_plain_text_segments, plain_text, push_signed_decimal, segment_of, split_segments,
    text_segments,
    signed_decimal, split_lines, str_eq, terminated_text, text_lines,
};

verus! {

/// What is left of a sequence of length `len` from position `i` on.
pub open spec fn remaining(len: nat, i: nat) -> nat {
    if i < len {
        (len - i) as nat
    } else {
        0
    }
}

/// Length of a longest common subsequence of `a[i..]` and `b[j..]`.
pub open spec fn lcs_len(a: Seq<Seq<char>>, b: Seq<Seq<char>>, i: nat, j: nat) -> nat
    decreases remaining(a.len(), i) + remaining(b.len(), j),
{
    if i >= a.len() || j >= b.len() {
        0
    } else if a[i as int] == b[j as int] {
        1 + lcs_len(a, b, i + 1, j + 1)
    } else {
        let x = lcs_len(a, b, i + 1, j);
        let y = lcs_len(a, b, i, j + 1);
        if x >= y {
            x
        } else {
            y
        }
    }
}

/// One line of an edit script, as a value.
pub enum EditLine {
    Same(Seq<char>),
    Del(Seq<char>),
    Add(Seq<char>),
}

/// The edit script from `a[i..]` to `b[j..]`: a line common to both is kept,
/// and where they differ the side whose removal keeps the longer common
/// subsequence goes first, a deletion on a tie.
pub open spec fn diff_script(a: Seq<Seq<char>>, b: Seq<Seq<char>>, i: nat, j: nat) -> Seq<EditLine>
    decreases remaining(a.len(), i) + remaining(b.len(), j),
{
    if i >= a.len() && j >= b.len() {
        seq![]
    } else if i >= a.len() {
        seq![EditLine::Add(b[j as int])] + diff_script(a, b, i, j + 1)
    } else if j >= b.len() {
        seq![EditLine::Del(a[i as int])] + diff_script(a, b, i + 1, j)
    } else if a[i as int] == b[j as int] {
        seq![EditLine::Same(a[i as int])] + diff_script(a, b, i + 1, j + 1)
    } else if lcs_len(a, b, i + 1, j) >= lcs_len(a, b, i, j + 1) {
        seq![EditLine::Del(a[i as int])] + diff_script(a, b, i + 1, j)
    } else {
        seq![EditLine::Add(b[j as int])] + diff_script(a, b, i, j + 1)
    }
}

/// One line of a diff, borrowed from the text it came from.
#[derive(Debug, Clone, Copy, PartialEq, Eq)]
pub enum DiffOp<'a> {
    Same(&'a str),
    Del(&'a str),
    Add(&'a str),
}

impl<'a> DiffOp<'a> {
    /// The edit this operation stands for.
    pub open spec fn edit(self) -> EditLine {
        match self {
            DiffOp::Same(l) => EditLine::Same(l@),
            DiffOp::Del(l) => EditLine::Del(l@),
            DiffOp::Add(l) => EditLine::Add(l@),
        }
    }
}

/// The edits that a sequence of operations stands for.
pub open spec fn edits<'a>(ops: Seq<DiffOp<'a>>) -> Seq<EditLine> {
    ops.map_values(|o: DiffOp<'a>| o.edit())
}

/// A common subsequence of `a[i..]` and `b[j..]` is no longer than either.
pub proof fn lemma_lcs_len_bound(a: Seq<Seq<char>>, b: Seq<Seq<char>>, i: nat, j: nat)
    ensures
        lcs_len(a, b, i, j) <= remaining(a.len(), i),
        lcs_len(a, b, i, j) <= remaining(b.len(), j),
    decreases remaining(a.len(), i) + remaining(b.len(), j),
{
    if i >= a.len() || j >= b.len() {
    } else if a[i as int] == b[j as int] {
        lemma_lcs_len_bound(a, b, i + 1, j + 1);
    } else {
        lemma_lcs_len_bound(a, b, i + 1, j);
        lemma_lcs_len_bound(a, b, i, j + 1);
    }
}

/// The lines of the old text that an edit script reads: kept and deleted lines.
pub open spec fn old_side(e: Seq<EditLine>) -> Seq<Seq<char>>
    decreases e.len(),
{
    if e.len() == 0 {
        seq![]
    } else {
        match e[0] {
            EditLine::Same(l) => seq![l] + old_side(e.drop_first()),
            EditLine::Del(l) => seq![l] + old_side(e.drop_first()),
            EditLine::Add(_) => old_side(e.drop_first()),
        }
    }
}

/// The lines of the new text that an edit script writes: kept and added lines.
pub open spec fn new_side(e: Seq<EditLine>) -> Seq<Seq<char>>
    decreases e.len(),
{
    if e.len() == 0 {
        seq![]
    } else {
        match e[0] {
            EditLine::Same(l) => seq![l] + new_side(e.drop_first()),
            EditLine::Del(_) => new_side(e.drop_first()),
            EditLine::Add(l) => seq![l] + new_side(e.drop_first()),
        }
    }
}

/// The number of lines that an edit script keeps.
pub open spec fn kept_count(e: Seq<EditLine>) -> nat
    decreases e.len(),
{
    if e.len() == 0 {
        0
    } else {
        match e[0] {
            EditLine::Same(_) => 1 + kept_count(e.drop_first()),
            _ => kept_count(e.drop_first()),
        }
    }
}

proof fn lemma_skip_front(s: Seq<Seq<char>>, i: nat)
    requires
        i < s.len(),
    ensures
        s.skip(i as int) == seq![s[i as int]] + s.skip(i + 1 as int),
{
    assert(s.skip(i as int) =~= seq![s[i as int]] + s.skip(i + 1 as int));
}

/// Reading the script from `(i, j)` gives back the rest of both texts.
proof fn lemma_diff_script_sides(a: Seq<Seq<char>>, b: Seq<Seq<char>>, i: nat, j: nat)
    requires
        i <= a.len(),
        j <= b.len(),
    ensures
        old_side(diff_script(a, b, i, j)) == a.skip(i as int),
        new_side(diff_script(a, b, i, j)) == b.skip(j as int),
        kept_count(diff_script(a, b, i, j)) == lcs_len(a, b, i, j),
    decreases remaining(a.len(), i) + remaining(b.len(), j),
{
    let e = diff_script(a, b, i, j);
    if i >= a.len() && j >= b.len() {
        assert(a.skip(i as int) =~= Seq::<Seq<char>>::empty());
        assert(b.skip(j as int) =~= Seq::<Seq<char>>::empty());
    } else if i >= a.len() {
        lemma_diff_script_sides(a, b, i, j + 1);
        lemma_skip_front(b, j);
        assert(e.drop_first() =~= diff_script(a, b, i, j + 1));
        assert(a.skip(i as int) =~= Seq::<Seq<char>>::empty());
    } else if j >= b.len() {
        lemma_diff_script_sides(a, b, i + 1, j);
        lemma_skip_front(a, i);
        assert(e.drop_first() =~= diff_script(a, b, i + 1, j));
        assert(b.skip(j as int) =~= Seq::<Seq<char>>::empty());
    } else if a[i as int] == b[j as int] {
        lemma_diff_script_sides(a, b, i + 1, j + 1);
        lemma_skip_front(a, i);
        lemma_skip_front(b, j);
        assert(e.drop_first() =~= diff_script(a, b, i + 1, j + 1));
    } else if lcs_len(a, b, i + 1, j) >= lcs_len(a, b, i, j + 1) {
        lemma_diff_script_sides(a, b, i + 1, j);
        lemma_skip_front(a, i);
        assert(e.drop_first() =~= diff_script(a, b, i + 1, j));
    } else {
        lemma_diff_script_sides(a, b, i, j + 1);
        lemma_skip_front(b, j);
        assert(e.drop_first() =~= diff_script(a, b, i, j + 1));
    }
}

/// Dropping the first line of either side lowers the LCS length by at most one
/// and never raises it.
proof fn lemma_lcs_len_steps(a: Seq<Seq<char>>, b: Seq<Seq<char>>, i: nat, j: nat)
    ensures
        lcs_len(a, b, i + 1, j) <= lcs_len(a, b, i, j),
        lcs_len(a, b, i, j + 1) <= lcs_len(a, b, i, j),
        lcs_len(a, b, i, j) <= lcs_len(a, b, i + 1, j) + 1,
        lcs_len(a, b, i, j) <= lcs_len(a, b, i, j + 1) + 1,
    decreases remaining(a.len(), i) + remaining(b.len(), j),
{
    if i >= a.len() || j >= b.len() {
    } else {
        lemma_lcs_len_steps(a, b, i + 1, j);
        lemma_lcs_len_steps(a, b, i, j + 1);
    }
}

/// Every edit script from `a[i..]` to `b[j..]` keeps at most `lcs_len(a, b, i, j)` lines.
proof fn lemma_kept_at_most_lcs(a: Seq<Seq<char>>, b: Seq<Seq<char>>, i: nat, j: nat, e: Seq<EditLine>)
    requires
        i <= a.len(),
        j <= b.len(),
        old_side(e) == a.skip(i as int),
        new_side(e) == b.skip(j as int),
    ensures
        kept_count(e) <= lcs_len(a, b, i, j),
    decreases e.len(),
{
    if e.len() > 0 {
        let r = e.drop_first();
        lemma_lcs_len_steps(a, b, i, j);
        match e[0] {
            EditLine::Same(l) => {
                assert(old_side(e) == seq![l] + old_side(r));
                assert(new_side(e) == seq![l] + new_side(r));
                assert((seq![l] + old_side(r)).drop_first() =~= old_side(r));
                assert((seq![l] + new_side(r)).drop_first() =~= new_side(r));
                assert(a.skip(i as int).drop_first() =~= a.skip(i + 1 as int));
                assert(b.skip(j as int).drop_first() =~= b.skip(j + 1 as int));
                assert(a.skip(i as int)[0] == l);
                assert(b.skip(j as int)[0] == l);
                lemma_kept_at_most_lcs(a, b, i + 1, j + 1, r);
            },
            EditLine::Del(l) => {
                assert(old_side(e) == seq![l] + old_side(r));
                assert(new_side(e) == new_side(r));
                assert((seq![l] + old_side(r)).drop_first() =~= old_side(r));
                assert(a.skip(i as int).drop_first() =~= a.skip(i + 1 as int));
                lemma_kept_at_most_lcs(a, b, i + 1, j, r);
            },
            EditLine::Add(l) => {
                assert(new_side(e) == seq![l] + new_side(r));
                assert(old_side(e) == old_side(r));
                assert((seq![l] + new_side(r)).drop_first() =~= new_side(r));
                assert(b.skip(j as int).drop_first() =~= b.skip(j + 1 as int));
                lemma_kept_at_most_lcs(a, b, i, j + 1, r);
            },
        }
    }
}

/// The diff of `a` to `b` reads exactly `a` and writes exactly `b`: the old
/// text together with the diff carries the new text.
pub proof fn lemma_diff_script_restores(a: Seq<Seq<char>>, b: Seq<Seq<char>>)
    ensures
        old_side(diff_script(a, b, 0, 0)) == a,
        new_side(diff_script(a, b, 0, 0)) == b,
{
    lemma_diff_script_sides(a, b, 0, 0);
    assert(a.skip(0) =~= a);
    assert(b.skip(0) =~= b);
}

/// No edit script from `a` to `b` keeps more lines than the diff does: the
/// kept lines form a longest common subsequence.
pub proof fn lemma_diff_script_keeps_most(a: Seq<Seq<char>>, b: Seq<Seq<char>>, e: Seq<EditLine>)
    requires
        old_side(e) == a,
        new_side(e) == b,
    ensures
        kept_count(e) <= kept_count(diff_script(a, b, 0, 0)),
{
    lemma_diff_script_sides(a, b, 0, 0);
    assert(a.skip(0) =~= a);
    assert(b.skip(0) =~= b);
    lemma_kept_at_most_lcs(a, b, 0, 0, e);
}

/// Diff of two line sequences by a longest common subsequence, computed
/// with a table of suffix LCS lengths and one pass from the front.
pub fn lcs_diff<'a>(old: &[&'a str], new: &[&'a str]) -> (ops: Vec<DiffOp<'a>>)
    requires
        old@.len() <= u32::MAX || new@.len() <= u32::MAX,
        new@.len() < usize::MAX,
    ensures
        edits(ops@) == diff_script(line_views(old@), line_views(new@), 0, 0),
{
    let ghost a = line_views(old@);
    let ghost b = line_views(new@);
    let n = old.len();
    let m = new.len();
    // rows[k] holds the LCS lengths of row n - k of the table.
    let mut rows: Vec<Vec<u32>> = Vec::new();
    rows.push(vec![0u32; m + 1]);
    let mut i: usize = n;
    while i > 0
        invariant
            n == old@.len(),
            m == new@.len(),
            n <= u32::MAX || m <= u32::MAX,
            m < usize::MAX,
            a == line_views(old@),
            b == line_views(new@),
            i <= n,
            rows@.len() == n - i + 1,
            forall|k: int| 0 <= k < rows@.len() ==> #[trigger] rows@[k]@.len() == m + 1,
            forall|k: int, jj: int|
                0 <= k < rows@.len() && 0 <= jj <= m ==> #[trigger] rows@[k]@[jj] == lcs_len(
                    a,
                    b,
                    (n - k) as nat,
                    jj as nat,
                ),
        decreases i,
    {
        i = i - 1;
        let below = &rows[n - i - 1];
        let mut row = vec![0u32; m + 1];
        let mut j: usize = m;
        while j > 0
            invariant
                n == old@.len(),
                m == new@.len(),
                n <= u32::MAX || m <= u32::MAX,
                a == line_views(old@),
                b == line_views(new@),
                i < n,
                j <= m,
                below@.len() == m + 1,
                forall|jj: int| 0 <= jj <= m ==> #[trigger] below@[jj] == lcs_len(a, b, (i + 1) as nat, jj as nat),
                row@.len() == m + 1,
                forall|jj: int| j <= jj <= m ==> #[trigger] row@[jj] == lcs_len(a, b, i as nat, jj as nat),
            decreases j,
        {
            j = j - 1;
            proof {
                lemma_lcs_len_bound(a, b, (i + 1) as nat, (j + 1) as nat);
            }
            let v: u32 = if str_eq(old[i], new[j]) {
                below[j + 1] + 1
            } else {
                let x = below[j];
                let y = row[j + 1];
                if x >= y {
                    x
                } else {
                    y
                }
            };
            row.set(j, v);
        }
        rows.push(row);
    }
    let mut ops: Vec<DiffOp<'a>> = Vec::new();
    let mut i: usize = 0;
    let mut j: usize = 0;
    while i < n && j < m
        invariant
            n == old@.len(),
            m == new@.len(),
            a == line_views(old@),
            b == line_views(new@),
            i <= n,
            j <= m,
            rows@.len() == n + 1,
            forall|k: int| 0 <= k < rows@.len() ==> #[trigger] rows@[k]@.len() == m + 1,
            forall|k: int, jj: int|
                0 <= k < rows@.len() && 0 <= jj <= m ==> #[trigger] rows@[k]@[jj] == lcs_len(
                    a,
                    b,
                    (n - k) as nat,
                    jj as nat,
                ),
            edits(ops@) + diff_script(a, b, i as nat, j as nat) == diff_script(a, b, 0, 0),
        decreases (n - i) + (m - j),
    {
        let ghost before = edits(ops@);
        if str_eq(old[i], new[j]) {
            ops.push(DiffOp::Same(old[i]));
            assert(edits(ops@) =~= before.push(EditLine::Same(a[i as int])));
            i = i + 1;
            j = j + 1;
        } else if rows[n - i - 1][j] >= rows[n - i][j + 1] {
            ops.push(DiffOp::Del(old[i]));
            assert(edits(ops@) =~= before.push(EditLine::Del(a[i as int])));
            i = i + 1;
        } else {
            ops.push(DiffOp::Add(new[j]));
            assert(edits(ops@) =~= before.push(EditLine::Add(b[j as int])));
            j = j + 1;
        }
        assert(edits(ops@) + diff_script(a, b, i as nat, j as nat) =~= before + diff_script(
            a,
            b,
            (if edits(ops@).last() is Add { i } else { (i - 1) as usize }) as nat,
            (if edits(ops@).last() is Del { j } else { (j - 1) as usize }) as nat,
        ));
    }
    while i < n
        invariant
            n == old@.len(),
            m == new@.len(),
            a == line_views(old@),
            b == line_views(new@),
            i <= n,
            j <= m,
            j == m || i == n,
            edits(ops@) + diff_script(a, b, i as nat, j as nat) == diff_script(a, b, 0, 0),
        decreases n - i,
    {
        let ghost before = edits(ops@);
        ops.push(DiffOp::Del(old[i]));
        assert(edits(ops@) =~= before.push(EditLine::Del(a[i as int])));
        i = i + 1;
        assert(edits(ops@) + diff_script(a, b, i as nat, j as nat) =~= before + diff_script(
            a,
            b,
            (i - 1) as nat,
            j as nat,
        ));
    }
    while j < m
        invariant
            n == old@.len(),
            m == new@.len(),
            a == line_views(old@),
            b == line_views(new@),
            i == n,
            j <= m,
            edits(ops@) + diff_script(a, b, i as nat, j as nat) == diff_script(a, b, 0, 0),
        decreases m - j,
    {
        let ghost before = edits(ops@);
        ops.push(DiffOp::Add(new[j]));
        assert(edits(ops@) =~= before.push(EditLine::Add(b[j as int])));
        j = j + 1;
        assert(edits(ops@) + diff_script(a, b, i as nat, j as nat) =~= before + diff_script(
            a,
            b,
            i as nat,
            (j - 1) as nat,
        ));
    }
    assert(edits(ops@) + diff_script(a, b, i as nat, j as nat) =~= edits(ops@));
    ops
}


/// Beyond this many changed lines on either side a diff is not computed.
pub const MAX_DIFF_LINES: usize = 3000;

/// A diff is sent only if its length is below this fraction of the full
/// output's: `DIFF_WORTHWHILE_NUMERATOR / DIFF_WORTHWHILE_DENOMINATOR`.
pub const DIFF_WORTHWHILE_NUMERATOR: u128 = 3;
pub const DIFF_WORTHWHILE_DENOMINATOR: u128 = 5;

/// Length of the longest common prefix of `a` and `b`, counted on from `k`
/// (for `k` within the common prefix).
pub open spec fn common_prefix_from(a: Seq<Seq<char>>, b: Seq<Seq<char>>, k: nat) -> nat
    decreases remaining(a.len(), k),
{
    if k < a.len() && k < b.len() && a[k as int] == b[k as int] {
        common_prefix_from(a, b, k + 1)
    } else {
        k
    }
}

/// Number of equal trailing lines of `a` and `b` that lie after their first
/// `start` lines, counted on from `t`.
pub open spec fn common_suffix_from(a: Seq<Seq<char>>, b: Seq<Seq<char>>, start: nat, t: nat) -> nat
    decreases remaining(a.len(), start + t),
{
    if start + t < a.len() && start + t < b.len() && a[a.len() - 1 - t] == b[b.len() - 1 - t] {
        common_suffix_from(a, b, start, t + 1)
    } else {
        t
    }
}

/// One line of the hunk body without its newline: the edit's sign and the line.
pub open spec fn edit_line(e: EditLine) -> Seq<char> {
    match e {
        EditLine::Same(l) => " "@ + l,
        EditLine::Del(l) => "-"@ + l,
        EditLine::Add(l) => "+"@ + l,
    }
}

/// One line of the hunk body: its sign, the line, and a newline.
pub open spec fn edit_text(e: EditLine) -> Seq<char> {
    edit_line(e) + "\n"@
}

/// The hunk body of an edit script, one line per edit.
pub open spec fn script_text(e: Seq<EditLine>) -> Seq<char>
    decreases e.len(),
{
    if e.len() == 0 {
        seq![]
    } else {
        script_text(e.drop_last()) + edit_text(e.last())
    }
}

/// The `@@ -s,n +s,m @@` line of a hunk that starts at line `start + 1` of
/// both texts, without its newline.
pub open spec fn hunk_line(start: nat, old_count: nat, new_count: nat) -> Seq<char> {
    "@@ -"@ + decimal(start + 1) + ","@ + decimal(old_count) + " +"@ + decimal(start + 1) + ","@
        + decimal(new_count) + " @@"@
}

/// The `@@` line of a hunk, with its newline.
pub open spec fn hunk_header(start: nat, old_count: nat, new_count: nat) -> Seq<char> {
    hunk_line(start, old_count, new_count) + "\n"@
}

/// The notice line that introduces a diff, without its newline.
pub open spec fn delta_header_line(label: Seq<char>, age_minutes: int, hint: Seq<char>) -> Seq<char> {
    "[nexus delta] "@ + label + " changed since "@ + signed_decimal(age_minutes)
        + "m ago — diff vs. previous output already in your context ("@ + hint + ")"@
}

/// The notice line that introduces a diff, with its newline.
pub open spec fn delta_header(label: Seq<char>, age_minutes: int, hint: Seq<char>) -> Seq<char> {
    delta_header_line(label, age_minutes, hint) + "\n"@
}

/// The lines where `old` and `new` differ: both texts with their common
/// leading and trailing lines cut off, and the number of leading lines cut.
pub open spec fn changed_region(old: Seq<char>, new: Seq<char>) -> (Seq<Seq<char>>, Seq<Seq<char>>, nat) {
    let a = text_lines(old);
    let b = text_lines(new);
    let start = common_prefix_from(a, b, 0);
    let t = common_suffix_from(a, b, start, 0);
    (a.subrange(start as int, a.len() - t), b.subrange(start as int, b.len() - t), start)
}

/// The notice and unified diff that replace `new` when `old` was shown before,
/// whether or not it is short enough to be worth sending.
pub open spec fn delta_text(old: Seq<char>, new: Seq<char>, label: Seq<char>, hint: Seq<char>, age_minutes: int) -> Seq<char> {
    let (am, bm, start) = changed_region(old, new);
    delta_header(label, age_minutes, hint) + hunk_header(start, am.len(), bm.len()) + script_text(
        diff_script(am, bm, 0, 0),
    )
}

/// Whether a diff of `new` against `old` carries all of `new`: the unchanged
/// leading and trailing lines have the same line endings in both texts, and
/// every changed line of either text ends with a plain `'\n'`. (A diff works
/// on lines, which drop their endings; this is when nothing is lost.)
pub open spec fn diff_keeps_text(old: Seq<char>, new: Seq<char>) -> bool {
    let (am, bm, start) = changed_region(old, new);
    let a = text_lines(old);
    let b = text_lines(new);
    let sa = text_segments(old);
    let sb = text_segments(new);
    &&& sa.take(start as int) == sb.take(start as int)
    &&& sa.skip((start + am.len()) as int) == sb.skip((start + bm.len()) as int)
    &&& forall|k: int| start <= k < start + am.len() ==> #[trigger] sa[k] == a[k] + seq!['\n']
    &&& forall|k: int| start <= k < start + bm.len() ==> #[trigger] sb[k] == b[k] + seq!['\n']
}

/// What `render_diff` gives: no diff when it would not carry all of `new`
/// (see `diff_keeps_text`), when either changed region exceeds
/// `MAX_DIFF_LINES` lines, or when the diff's UTF-8 length is not below the
/// worthwhile fraction (three fifths) of the new text's; else the diff.
pub open spec fn rendered_delta(old: Seq<char>, new: Seq<char>, label: Seq<char>, hint: Seq<char>, age_minutes: int) -> Option<Seq<char>> {
    let (am, bm, start) = changed_region(old, new);
    if !diff_keeps_text(old, new) {
        None
    } else if am.len() > MAX_DIFF_LINES || bm.len() > MAX_DIFF_LINES {
        None
    } else {
        let rendered = delta_text(old, new, label, hint, age_minutes);
        if encode_utf8(rendered).len() * DIFF_WORTHWHILE_DENOMINATOR < encode_utf8(new).len()
            * DIFF_WORTHWHILE_NUMERATOR {
            Some(rendered)
        } else {
            None
        }
    }
}

proof fn lemma_common_prefix_bounds(a: Seq<Seq<char>>, b: Seq<Seq<char>>, k: nat)
    requires
        k <= a.len(),
        k <= b.len(),
    ensures
        k <= common_prefix_from(a, b, k) <= a.len(),
        common_prefix_from(a, b, k) <= b.len(),
    decreases remaining(a.len(), k),
{
    if k < a.len() && k < b.len() && a[k as int] == b[k as int] {
        lemma_common_prefix_bounds(a, b, k + 1);
    }
}

proof fn lemma_common_suffix_bounds(a: Seq<Seq<char>>, b: Seq<Seq<char>>, start: nat, t: nat)
    requires
        start + t <= a.len(),
        start + t <= b.len(),
    ensures
        t <= common_suffix_from(a, b, start, t),
        start + common_suffix_from(a, b, start, t) <= a.len(),
        start + common_suffix_from(a, b, start, t) <= b.len(),
    decreases remaining(a.len(), start + t),
{
    if start + t < a.len() && start + t < b.len() && a[a.len() - 1 - t] == b[b.len() - 1 - t] {
        lemma_common_suffix_bounds(a, b, start, t + 1);
    }
}

/// Whether the diff of `new` against `old` carries all of `new` (see
/// `diff_keeps_text`), given the changed region `start..old_end` of the old
/// lines and `start..new_end` of the new ones.
#[verifier::loop_isolation(false)]
fn endings_kept(
    old: &str,
    new: &str,
    old_lines: &Vec<&str>,
    new_lines: &Vec<&str>,
    start: usize,
    old_end: usize,
    new_end: usize,
) -> (res: bool)
    requires
        line_views(old_lines@) == text_lines(old@),
        line_views(new_lines@) == text_lines(new@),
        start <= old_end <= old_lines@.len(),
        start <= new_end <= new_lines@.len(),
        old_lines@.len() - old_end == new_lines@.len() - new_end,
        changed_region(old@, new@) == (
            text_lines(old@).subrange(start as int, old_end as int),
            text_lines(new@).subrange(start as int, new_end as int),
            start as nat,
        ),
    ensures
        res == diff_keeps_text(old@, new@),
{
    let ghost a = text_lines(old@);
    let ghost b = text_lines(new@);
    let ghost sa = text_segments(old@);
    let ghost sb = text_segments(new@);
    proof {
        lemma_text_segments(old@);
        lemma_text_segments(new@);
    }
    assert(old_lines@.len() == a.len());
    assert(new_lines@.len() == b.len());
    let old_segs = split_segments(old);
    let new_segs = split_segments(new);
    assert(old_segs@.len() == sa.len());
    assert(new_segs@.len() == sb.len());
    let mut i: usize = 0;
    while i < start
        invariant
            line_views(old_segs@) == sa,
            line_views(new_segs@) == sb,
            sa.len() == a.len(),
            sb.len() == b.len(),
            start <= old_end <= a.len(),
            start <= new_end <= b.len(),
            i <= start,
            forall|q: int| 0 <= q < i ==> sa[q] == sb[q],
        decreases start - i,
    {
        if !str_eq(old_segs[i], new_segs[i]) {
            assert(sa.take(start as int)[i as int] != sb.take(start as int)[i as int]);
            return false;
        }
        i = i + 1;
    }
    assert(sa.take(start as int) =~= sb.take(start as int));
    let tail = old_lines.len() - old_end;
    let old_count = old_segs.len();
    let new_count = new_segs.len();
    let mut u: usize = 0;
    while u < tail
        invariant
            line_views(old_segs@) == sa,
            line_views(new_segs@) == sb,
            sa.len() == a.len(),
            sb.len() == b.len(),
            old_end <= a.len(),
            new_end <= b.len(),
            tail == a.len() - old_end,
            tail == b.len() - new_end,
            old_end + tail == old_count,
            new_end + tail == new_count,
            old_count == old_segs@.len(),
            new_count == new_segs@.len(),
            u <= tail,
            forall|p: int| old_end <= p < old_end + u ==> #[trigger] sa[p] == sb[p - old_end + new_end],
        decreases tail - u,
    {
        let oi: usize = old_end + u;
        let ni: usize = new_end + u;
        if !str_eq(old_segs[oi], new_segs[ni]) {
            assert(sa.skip(old_end as int)[u as int] != sb.skip(new_end as int)[u as int]);
            return false;
        }
        u = u + 1;
    }
    assert(sa.skip(old_end as int) =~= sb.skip(new_end as int));
    let mut k: usize = start;
    while k < old_end
        invariant
            line_views(old_segs@) == sa,
            line_views(old_lines@) == a,
            sa.len() == a.len(),
            forall|i: int| 0 <= i < a.len() ==> segment_of(#[trigger] sa[i], a[i]),
            start <= k <= old_end <= a.len(),
            forall|q: int| start <= q < k ==> #[trigger] sa[q] == a[q] + seq!['\n'],
        decreases old_end - k,
    {
        let seg_len = old_segs[k].as_bytes().len();
        let line_len = old_lines[k].as_bytes().len();
        proof {
            lemma_segment_one_byte_longer(sa[k as int], a[k as int]);
        }
        if !(seg_len >= 1 && seg_len - 1 == line_len) {
            return false;
        }
        k = k + 1;
    }
    let mut k: usize = start;
    while k < new_end
        invariant
            line_views(new_segs@) == sb,
            line_views(new_lines@) == b,
            sb.len() == b.len(),
            forall|i: int| 0 <= i < b.len() ==> segment_of(#[trigger] sb[i], b[i]),
            start <= k <= new_end <= b.len(),
            forall|q: int| start <= q < k ==> #[trigger] sb[q] == b[q] + seq!['\n'],
        decreases new_end - k,
    {
        let seg_len = new_segs[k].as_bytes().len();
        let line_len = new_lines[k].as_bytes().len();
        proof {
            lemma_segment_one_byte_longer(sb[k as int], b[k as int]);
        }
        if !(seg_len >= 1 && seg_len - 1 == line_len) {
            return false;
        }
        k = k + 1;
    }
    true
}

/// Build the full replacement output (notice and unified diff) for `new`,
/// which follows `old`; `None` when a diff would lose part of the text (a
/// line ending changed on an unchanged line, or a changed line that does not
/// end with a plain `'\n'`) or would not be worthwhile (too large or not
/// clearly smaller than `new`).
pub fn render_diff(
    old: &str,
    new: &str,
    display_label: &str,
    recover_hint: &str,
    age_minutes: i64,
) -> (res: Option<String>)
    ensures
        match res {
            Some(r) => rendered_delta(old@, new@, display_label@, recover_hint@, age_minutes as int)
                == Some(r@),
            None => rendered_delta(old@, new@, display_label@, recover_hint@, age_minutes as int)
                is None,
        },
{
    let old_lines = split_lines(old);
    let new_lines = split_lines(new);
    let ghost a = text_lines(old@);
    let ghost b = text_lines(new@);
    assert(old_lines@.len() == a.len());
    assert(new_lines@.len() == b.len());
    // Trim the common prefix and suffix so that the table only sees the changed region.
    let mut start: usize = 0;
    loop
        invariant
            line_views(old_lines@) == a,
            line_views(new_lines@) == b,
            start <= a.len(),
            start <= b.len(),
            common_prefix_from(a, b, 0) == common_prefix_from(a, b, start as nat),
        ensures
            start <= a.len(),
            start <= b.len(),
            common_prefix_from(a, b, 0) == start,
        decreases a.len() - start,
    {
        if start < old_lines.len() && start < new_lines.len() && str_eq(old_lines[start], new_lines[start]) {
            assert(a[start as int] == old_lines@[start as int]@);
            start = start + 1;
        } else {
            proof {
                if start < a.len() && start < b.len() {
                    assert(a[start as int] == old_lines@[start as int]@);
                    assert(b[start as int] == new_lines@[start as int]@);
                }
            }
            break;
        }
    }
    let mut old_end: usize = old_lines.len();
    let mut new_end: usize = new_lines.len();
    loop
        invariant
            line_views(old_lines@) == a,
            line_views(new_lines@) == b,
            start <= old_end <= a.len(),
            start <= new_end <= b.len(),
            a.len() - old_end == b.len() - new_end,
            common_suffix_from(a, b, start as nat, 0) == common_suffix_from(
                a,
                b,
                start as nat,
                (a.len() - old_end) as nat,
            ),
        ensures
            start <= old_end <= a.len(),
            start <= new_end <= b.len(),
            a.len() - old_end == b.len() - new_end,
            common_suffix_from(a, b, start as nat, 0) == a.len() - old_end,
        decreases old_end,
    {
        if old_end > start && new_end > start && str_eq(old_lines[old_end - 1], new_lines[new_end - 1]) {
            old_end = old_end - 1;
            new_end = new_end - 1;
        } else {
            break;
        }
    }
    let ghost t = common_suffix_from(a, b, start as nat, 0);
    let old_mid = &old_lines.as_slice()[start..old_end];
    let new_mid = &new_lines.as_slice()[start..new_end];
    let ghost am = a.subrange(start as int, a.len() - t);
    let ghost bm = b.subrange(start as int, b.len() - t);
    assert(line_views(old_mid@) =~= am);
    assert(line_views(new_mid@) =~= bm);
    assert(changed_region(old@, new@) == (am, bm, start as nat));
    if !endings_kept(old, new, &old_lines, &new_lines, start, old_end, new_end) {
        return None;
    }
    if old_mid.len() > MAX_DIFF_LINES || new_mid.len() > MAX_DIFF_LINES {
        return None;
    }
    let ops = lcs_diff(old_mid, new_mid);
    let ghost script = diff_script(am, bm, 0, 0);
    let mut out = String::new();
    out.append("[nexus delta] ");
    out.append(display_label);
    out.append(" changed since ");
    push_signed_decimal(&mut out, age_minutes);
    out.append("m ago — diff vs. previous output already in your context (");
    out.append(recover_hint);
    out.append(")");
    out.append("\n");
    assert(out@ =~= delta_header(display_label@, age_minutes as int, recover_hint@));
    out.append("@@ -");
    push_decimal(&mut out, start as u128 + 1);
    out.append(",");
    push_decimal(&mut out, old_mid.len() as u128);
    out.append(" +");
    push_decimal(&mut out, start as u128 + 1);
    out.append(",");
    push_decimal(&mut out, new_mid.len() as u128);
    out.append(" @@");
    out.append("\n");
    let ghost head = delta_header(display_label@, age_minutes as int, recover_hint@) + hunk_header(
        start as nat,
        am.len(),
        bm.len(),
    );
    assert(out@ =~= head);
    let mut k: usize = 0;
    while k < ops.len()
        invariant
            edits(ops@) == script,
            k <= ops@.len(),
            out@ == head + script_text(script.take(k as int)),
        decreases ops@.len() - k,
    {
        let ghost before = out@;
        match &ops[k] {
            DiffOp::Del(line) => {
                out.append("-");
                out.append(line);
                out.append("\n");
            },
            DiffOp::Add(line) => {
                out.append("+");
                out.append(line);
                out.append("\n");
            },
            DiffOp::Same(line) => {
                out.append(" ");
                out.append(line);
                out.append("\n");
            },
        }
        assert(script.take(k + 1 as int).drop_last() =~= script.take(k as int));
        assert(script[k as int] == ops@[k as int].edit());
        assert(out@ =~= before + edit_text(script[k as int]));
        k = k + 1;
    }
    assert(script.take(ops@.len() as int) =~= script);
    assert(out@ == delta_text(old@, new@, display_label@, recover_hint@, age_minutes as int));
    let rendered_len = out.as_str().as_bytes().len();
    let new_len = new.as_bytes().len();
    if (rendered_len as u128) * DIFF_WORTHWHILE_DENOMINATOR < (new_len as u128)
        * DIFF_WORTHWHILE_NUMERATOR {
        Some(out)
    } else {
        None
    }
}


proof fn lemma_common_prefix_equal(a: Seq<Seq<char>>, b: Seq<Seq<char>>, k: nat)
    requires
        k <= a.len(),
        k <= b.len(),
    ensures
        forall|q: int| k <= q < common_prefix_from(a, b, k) ==> a[q] == b[q],
    decreases remaining(a.len(), k),
{
    if k < a.len() && k < b.len() && a[k as int] == b[k as int] {
        lemma_common_prefix_equal(a, b, k + 1);
    }
}

proof fn lemma_common_suffix_equal(a: Seq<Seq<char>>, b: Seq<Seq<char>>, start: nat, t: nat)
    requires
        start + t <= a.len(),
        start + t <= b.len(),
    ensures
        forall|p: int|
            a.len() - common_suffix_from(a, b, start, t) <= p < a.len() - t ==> #[trigger] a[p] == b[p + b.len() - a.len()],
    decreases remaining(a.len(), start + t),
{
    if start + t < a.len() && start + t < b.len() && a[a.len() - 1 - t] == b[b.len() - 1 - t] {
        lemma_common_suffix_equal(a, b, start, t + 1);
    }
}

/// A diff loses nothing: the lines of `old` are its leading lines, the lines
/// that the hunk reads, and its trailing lines; the lines of `new` are the
/// same leading lines, the lines that the hunk writes, and the same trailing
/// lines. So the old output together with the diff gives back the new one.
pub proof fn lemma_delta_restores_new(old: Seq<char>, new: Seq<char>)
    ensures
        ({
            let (am, bm, start) = changed_region(old, new);
            let a = text_lines(old);
            let b = text_lines(new);
            let script = diff_script(am, bm, 0, 0);
            &&& a == a.take(start as int) + old_side(script) + a.skip((start + am.len()) as int)
            &&& b == a.take(start as int) + new_side(script) + a.skip((start + am.len()) as int)
        }),
{
    let a = text_lines(old);
    let b = text_lines(new);
    let start = common_prefix_from(a, b, 0);
    let t = common_suffix_from(a, b, start, 0);
    lemma_common_prefix_bounds(a, b, 0);
    lemma_common_suffix_bounds(a, b, start, 0);
    lemma_common_prefix_equal(a, b, 0);
    lemma_common_suffix_equal(a, b, start, 0);
    let am = a.subrange(start as int, a.len() - t);
    let bm = b.subrange(start as int, b.len() - t);
    lemma_diff_script_restores(am, bm);
    assert(a =~= a.take(start as int) + am + a.skip((start + am.len()) as int));
    assert forall|q: int| 0 <= q < start implies a.take(start as int)[q] == b[q] by {
        assert(a[q] == b[q]);
    }
    assert forall|q: int| 0 <= q < t implies #[trigger] a.skip((start + am.len()) as int)[q] == b[b.len() - t + q] by {
        assert(a[a.len() - t + q] == b[b.len() - t + q]);
    }
    assert(b =~= a.take(start as int) + bm + a.skip((start + am.len()) as int));
}


/// The body lines of a hunk for an edit script: each edit's sign and line.
pub open spec fn signed_lines(e: Seq<EditLine>) -> Seq<Seq<char>> {
    e.map_values(|x: EditLine| edit_line(x))
}

/// The lines that a hunk body reads from the old text: every line not
/// marked `+`, without its mark.
pub open spec fn read_lines(body: Seq<Seq<char>>) -> Seq<Seq<char>>
    decreases body.len(),
{
    if body.len() == 0 {
        seq![]
    } else if body[0].len() > 0 && body[0][0] == '+' {
        read_lines(body.drop_first())
    } else {
        seq![body[0].drop_first()] + read_lines(body.drop_first())
    }
}

/// The lines that a hunk body writes into the new text: every line not
/// marked `-`, without its mark.
pub open spec fn written_lines(body: Seq<Seq<char>>) -> Seq<Seq<char>>
    decreases body.len(),
{
    if body.len() == 0 {
        seq![]
    } else if body[0].len() > 0 && body[0][0] == '-' {
        written_lines(body.drop_first())
    } else {
        seq![body[0].drop_first()] + written_lines(body.drop_first())
    }
}

proof fn lemma_read_written_lines(e: Seq<EditLine>)
    ensures
        read_lines(signed_lines(e)) == old_side(e),
        written_lines(signed_lines(e)) == new_side(e),
    decreases e.len(),
{
    reveal_strlit(" ");
    reveal_strlit("-");
    reveal_strlit("+");
    if e.len() > 0 {
        let body = signed_lines(e);
        assert(body.drop_first() =~= signed_lines(e.drop_first()));
        lemma_read_written_lines(e.drop_first());
        match e[0] {
            EditLine::Same(l) => {
                assert((" "@ + l).drop_first() =~= l);
            },
            EditLine::Del(l) => {
                assert(("-"@ + l).drop_first() =~= l);
            },
            EditLine::Add(l) => {
                assert(("+"@ + l).drop_first() =~= l);
            },
        }
    }
}

proof fn lemma_script_text_lines(e: Seq<EditLine>)
    ensures
        script_text(e) == terminated_text(signed_lines(e)),
    decreases e.len(),
{
    reveal_strlit("\n");
    if e.len() > 0 {
        lemma_script_text_lines(e.drop_last());
        let x = edit_line(e.last());
        assert(signed_lines(e) =~= signed_lines(e.drop_last()) + seq![x]);
        lemma_terminated_text_concat(signed_lines(e.drop_last()), seq![x]);
        assert(seq![x].drop_first() =~= Seq::<Seq<char>>::empty());
        assert(terminated_text(Seq::<Seq<char>>::empty()) == Seq::<char>::empty());
        assert(seq![x][0] == x);
        assert(terminated_text(seq![x]) =~= x + seq!['\n']);
    }
}

proof fn lemma_decimal_newline_free(n: nat)
    ensures
        newline_free(decimal(n)),
        decimal(n).len() > 0,
    decreases n,
{
    if n >= 10 {
        lemma_decimal_newline_free(n / 10);
    }
}

proof fn lemma_clean_concat(x: Seq<char>, y: Seq<char>)
    requires
        newline_free(x),
        newline_free(y),
    ensures
        newline_free(x + y),
{
    assert forall|q: int| 0 <= q < (x + y).len() implies (x + y)[q] != '\n' by {
        if q >= x.len() {
            assert((x + y)[q] == y[q - x.len()]);
        }
    }
}

/// The header line of a diff is one line when its label and hint are.
proof fn lemma_header_line_clean(label: Seq<char>, age_minutes: int, hint: Seq<char>)
    requires
        newline_free(label),
        newline_free(hint),
    ensures
        clean_line(delta_header_line(label, age_minutes, hint)),
{
    reveal_strlit("[nexus delta] ");
    reveal_strlit(" changed since ");
    reveal_strlit("m ago — diff vs. previous output already in your context (");
    reveal_strlit(")");
    reveal_strlit("-");
    let p1 = "[nexus delta] "@;
    let p2 = " changed since "@;
    let p3 = "m ago — diff vs. previous output already in your context ("@;
    let p4 = ")"@;
    assert(newline_free(p1));
    assert(newline_free(p2));
    assert(newline_free(p3));
    assert(newline_free(p4));
    let d = signed_decimal(age_minutes);
    if age_minutes < 0 {
        lemma_decimal_newline_free((-age_minutes) as nat);
        assert(newline_free(seq!['-']));
        lemma_clean_concat(seq!['-'], decimal((-age_minutes) as nat));
    } else {
        lemma_decimal_newline_free(age_minutes as nat);
    }
    lemma_clean_concat(p1, label);
    lemma_clean_concat(p1 + label, p2);
    lemma_clean_concat(p1 + label + p2, d);
    lemma_clean_concat(p1 + label + p2 + d, p3);
    lemma_clean_concat(p1 + label + p2 + d + p3, hint);
    lemma_clean_concat(p1 + label + p2 + d + p3 + hint, p4);
    let h = delta_header_line(label, age_minutes, hint);
    assert(h == p1 + label + p2 + d + p3 + hint + p4);
    assert(h.last() == ')');
}

proof fn lemma_hunk_line_clean(start: nat, old_count: nat, new_count: nat)
    ensures
        clean_line(hunk_line(start, old_count, new_count)),
{
    reveal_strlit("@@ -");
    reveal_strlit(",");
    reveal_strlit(" +");
    reveal_strlit(" @@");
    let p1 = "@@ -"@;
    let p2 = ","@;
    let p3 = " +"@;
    let p4 = " @@"@;
    assert(newline_free(p1));
    assert(newline_free(p2));
    assert(newline_free(p3));
    assert(newline_free(p4));
    let d1 = decimal(start + 1);
    let d2 = decimal(old_count);
    let d3 = decimal(new_count);
    lemma_decimal_newline_free(start + 1);
    lemma_decimal_newline_free(old_count);
    lemma_decimal_newline_free(new_count);
    lemma_clean_concat(p1, d1);
    lemma_clean_concat(p1 + d1, p2);
    lemma_clean_concat(p1 + d1 + p2, d2);
    lemma_clean_concat(p1 + d1 + p2 + d2, p3);
    lemma_clean_concat(p1 + d1 + p2 + d2 + p3, d1);
    lemma_clean_concat(p1 + d1 + p2 + d2 + p3 + d1, p2);
    lemma_clean_concat(p1 + d1 + p2 + d2 + p3 + d1 + p2, d3);
    lemma_clean_concat(p1 + d1 + p2 + d2 + p3 + d1 + p2 + d3, p4);
    let h = hunk_line(start, old_count, new_count);
    assert(h == p1 + d1 + p2 + d2 + p3 + d1 + p2 + d3 + p4);
    assert(h.last() == '@');
}

proof fn lemma_signed_lines_clean(e: Seq<EditLine>)
    requires
        forall|i: int| 0 <= i < old_side(e).len() ==> clean_line(#[trigger] old_side(e)[i]),
        forall|i: int| 0 <= i < new_side(e).len() ==> clean_line(#[trigger] new_side(e)[i]),
    ensures
        forall|i: int| 0 <= i < signed_lines(e).len() ==> clean_line(#[trigger] signed_lines(e)[i]),
    decreases e.len(),
{
    reveal_strlit(" ");
    reveal_strlit("-");
    reveal_strlit("+");
    if e.len() > 0 {
        let r = e.drop_first();
        let l = match e[0] {
            EditLine::Same(l) => l,
            EditLine::Del(l) => l,
            EditLine::Add(l) => l,
        };
        match e[0] {
            EditLine::Same(_) => {
                assert(old_side(e) == seq![l] + old_side(r));
                assert(new_side(e) == seq![l] + new_side(r));
                assert(clean_line(old_side(e)[0]));
            },
            EditLine::Del(_) => {
                assert(old_side(e) == seq![l] + old_side(r));
                assert(new_side(e) == new_side(r));
                assert(clean_line(old_side(e)[0]));
            },
            EditLine::Add(_) => {
                assert(old_side(e) == old_side(r));
                assert(new_side(e) == seq![l] + new_side(r));
                assert(clean_line(new_side(e)[0]));
            },
        }
        assert forall|i: int| 0 <= i < old_side(r).len() implies clean_line(#[trigger] old_side(r)[i]) by {
            if e[0] is Add {
                assert(old_side(r)[i] == old_side(e)[i]);
            } else {
                assert(old_side(r)[i] == old_side(e)[i + 1]);
            }
        }
        assert forall|i: int| 0 <= i < new_side(r).len() implies clean_line(#[trigger] new_side(r)[i]) by {
            if e[0] is Del {
                assert(new_side(r)[i] == new_side(e)[i]);
            } else {
                assert(new_side(r)[i] == new_side(e)[i + 1]);
            }
        }
        lemma_signed_lines_clean(r);
        let body = signed_lines(e);
        assert(body.drop_first() =~= signed_lines(r));
        let x = edit_line(e[0]);
        assert(x.drop_first() =~= l);
        assert forall|q: int| 0 <= q < x.len() implies x[q] != '\n' by {
            if q > 0 {
                assert(x[q] == l[q - 1]);
            }
        }
        assert(clean_line(x));
        assert forall|i: int| 0 <= i < body.len() implies clean_line(#[trigger] body[i]) by {
            if i > 0 {
                assert(body[i] == signed_lines(r)[i - 1]);
            }
        }
    }
}

/// The changed lines of a diff that keeps its text are clean, on both sides.
proof fn lemma_changed_lines_clean(old: Seq<char>, new: Seq<char>)
    requires
        diff_keeps_text(old, new),
    ensures
        ({
            let (am, bm, start) = changed_region(old, new);
            &&& forall|i: int| 0 <= i < am.len() ==> clean_line(#[trigger] am[i])
            &&& forall|i: int| 0 <= i < bm.len() ==> clean_line(#[trigger] bm[i])
        }),
{
    let (am, bm, start) = changed_region(old, new);
    let a = text_lines(old);
    let b = text_lines(new);
    let sa = text_segments(old);
    let sb = text_segments(new);
    lemma_text_segments(old);
    lemma_text_segments(new);
    lemma_common_prefix_bounds(a, b, 0);
    lemma_common_suffix_bounds(a, b, start, 0);
    assert forall|i: int| 0 <= i < am.len() implies clean_line(#[trigger] am[i]) by {
        assert(am[i] == a[start + i]);
        assert(sa[start + i] == a[start + i] + seq!['\n']);
        lemma_segment_endings(sa[start + i], a[start + i]);
    }
    assert forall|i: int| 0 <= i < bm.len() implies clean_line(#[trigger] bm[i]) by {
        assert(bm[i] == b[start + i]);
        assert(sb[start + i] == b[start + i] + seq!['\n']);
        lemma_segment_endings(sb[start + i], b[start + i]);
    }
}

/// The lines of a diff's text: the notice, the `@@` line, and one line per edit.
proof fn lemma_delta_text_lines(old: Seq<char>, new: Seq<char>, label: Seq<char>, hint: Seq<char>, age_minutes: int)
    requires
        diff_keeps_text(old, new),
        newline_free(label),
        newline_free(hint),
    ensures
        ({
            let (am, bm, start) = changed_region(old, new);
            text_lines(delta_text(old, new, label, hint, age_minutes)) == seq![
                delta_header_line(label, age_minutes, hint),
                hunk_line(start, am.len(), bm.len()),
            ] + signed_lines(diff_script(am, bm, 0, 0))
        }),
{
    let (am, bm, start) = changed_region(old, new);
    let script = diff_script(am, bm, 0, 0);
    lemma_changed_lines_clean(old, new);
    lemma_diff_script_restores(am, bm);
    lemma_script_text_lines(script);
    lemma_signed_lines_clean(script);
    lemma_header_line_clean(label, age_minutes, hint);
    lemma_hunk_line_clean(start, am.len(), bm.len());
    reveal_strlit("\n");
    let hl = delta_header_line(label, age_minutes, hint);
    let kl = hunk_line(start, am.len(), bm.len());
    let all = seq![hl, kl] + signed_lines(script);
    lemma_terminated_text_concat(seq![hl, kl], signed_lines(script));
    assert(seq![hl, kl].drop_first() =~= seq![kl]);
    assert(seq![kl].drop_first() =~= Seq::<Seq<char>>::empty());
    assert(terminated_text(Seq::<Seq<char>>::empty()) == Seq::<char>::empty());
    assert(seq![kl][0] == kl);
    assert(terminated_text(seq![kl]) =~= kl + seq!['\n']);
    assert(seq![hl, kl][0] == hl);
    assert(terminated_text(seq![hl, kl]) =~= hl + seq!['\n'] + kl + seq!['\n']);
    assert(delta_text(old, new, label, hint, age_minutes) =~= terminated_text(all));
    assert forall|i: int| 0 <= i < all.len() implies clean_line(#[trigger] all[i]) by {
        if i >= 2 {
            assert(all[i] == signed_lines(script)[i - 2]);
        }
    }
    lemma_terminated_text_lines(all);
}

/// A diff that keeps its text gives back the new text from the old one: the
/// old text's segments (lines with their endings) before the changed region,
/// then the changed lines of `new` each followed by `'\n'`, then the old
/// text's segments after the changed region.
proof fn lemma_kept_text_rebuilds_new(old: Seq<char>, new: Seq<char>)
    requires
        diff_keeps_text(old, new),
    ensures
        ({
            let (am, bm, start) = changed_region(old, new);
            let sa = text_segments(old);
            &&& old == joined(sa)
            &&& new == joined(sa.take(start as int)) + terminated_text(bm) + joined(
                sa.skip((start + am.len()) as int),
            )
        }),
{
    let (am, bm, start) = changed_region(old, new);
    let a = text_lines(old);
    let b = text_lines(new);
    let sa = text_segments(old);
    let sb = text_segments(new);
    lemma_text_segments(old);
    lemma_text_segments(new);
    lemma_common_prefix_bounds(a, b, 0);
    lemma_common_suffix_bounds(a, b, start, 0);
    let e = (start + bm.len()) as int;
    let mid = sb.subrange(start as int, e);
    assert(sb =~= sb.take(start as int) + mid + sb.skip(e));
    lemma_joined_concat(sb.take(start as int) + mid, sb.skip(e));
    lemma_joined_concat(sb.take(start as int), mid);
    assert forall|i: int| 0 <= i < mid.len() implies #[trigger] mid[i] == bm[i] + seq!['\n'] by {
        assert(mid[i] == sb[start + i]);
        assert(bm[i] == b[start + i]);
    }
    lemma_joined_terminated(mid, bm);
}

/// Prior output plus diff carries the whole new output. When a diff is sent
/// for `new` after `old` (and its label and hint are single lines), the
/// diff's lines are: the notice, the `@@` line, and then one line per edit.
/// The lines of that body not marked `+`, unmarked, are the changed lines of
/// `old`; those not marked `-` are the changed lines of `new`. And `new` is
/// exactly the old text's segments (lines with their endings) before the
/// `@@` line's start, then the lines that the body writes, each followed by
/// `'\n'`, then the old text's segments after the lines that the body reads.
pub proof fn lemma_sent_diff_restores_new_text(
    old: Seq<char>,
    new: Seq<char>,
    label: Seq<char>,
    hint: Seq<char>,
    age_minutes: int,
    rendered: Seq<char>,
)
    requires
        rendered_delta(old, new, label, hint, age_minutes) == Some(rendered),
        newline_free(label),
        newline_free(hint),
    ensures
        ({
            let (am, bm, start) = changed_region(old, new);
            let sa = text_segments(old);
            let lines = text_lines(rendered);
            let body = lines.skip(2);
            &&& lines.len() >= 2
            &&& lines[0] == delta_header_line(label, age_minutes, hint)
            &&& lines[1] == hunk_line(start, am.len(), bm.len())
            &&& read_lines(body) == am
            &&& written_lines(body) == bm
            &&& old == joined(sa)
            &&& new == joined(sa.take(start as int)) + terminated_text(written_lines(body)) + joined(
                sa.skip((start + read_lines(body).len()) as int),
            )
        }),
{
    let (am, bm, start) = changed_region(old, new);
    let script = diff_script(am, bm, 0, 0);
    lemma_diff_script_restores(am, bm);
    lemma_read_written_lines(script);
    lemma_delta_text_lines(old, new, label, hint, age_minutes);
    lemma_kept_text_rebuilds_new(old, new);
    let hl = delta_header_line(label, age_minutes, hint);
    let kl = hunk_line(start, am.len(), bm.len());
    assert(text_lines(rendered).skip(2) =~= signed_lines(script));
    assert(text_lines(rendered)[0] == (seq![hl, kl] + signed_lines(script))[0]);
    assert(text_lines(rendered)[1] == (seq![hl, kl] + signed_lines(script))[1]);
}


/// Between two plain texts (every line ending with a plain `'\n'`) a diff
/// always carries the whole new text: whatever lines change, including pure
/// deletions and pure insertions.
pub proof fn lemma_plain_texts_keep_text(old: Seq<char>, new: Seq<char>)
    requires
        plain_text(old),
        plain_text(new),
    ensures
        diff_keeps_text(old, new),
{
    let (am, bm, start) = changed_region(old, new);
    let a = text_lines(old);
    let b = text_lines(new);
    let sa = text_segments(old);
    let sb = text_segments(new);
    lemma_plain_text_segments(old);
    lemma_plain_text_segments(new);
    lemma_common_prefix_bounds(a, b, 0);
    lemma_common_suffix_bounds(a, b, start, 0);
    lemma_common_prefix_equal(a, b, 0);
    lemma_common_suffix_equal(a, b, start, 0);
    let t = common_suffix_from(a, b, start, 0);
    assert forall|i: int| 0 <= i < start implies #[trigger] sa.take(start as int)[i] == sb.take(start as int)[i] by {
        assert(a[i] == b[i]);
        assert(sa[i] == a[i] + seq!['\n']);
        assert(sb[i] == b[i] + seq!['\n']);
    }
    assert(sa.take(start as int) =~= sb.take(start as int));
    assert forall|u: int| 0 <= u < t implies #[trigger] sa.skip((start + am.len()) as int)[u] == sb.skip(
        (start + bm.len()) as int,
    )[u] by {
        let p = a.len() - t + u;
        assert(a[p] == b[p + b.len() - a.len()]);
        assert(sa[p] == a[p] + seq!['\n']);
        assert(sb[p + b.len() - a.len()] == b[p + b.len() - a.len()] + seq!['\n']);
    }
    assert(sa.skip((start + am.len()) as int) =~= sb.skip((start + bm.len()) as int));
    assert forall|k: int| start <= k < start + am.len() implies #[trigger] sa[k] == a[k] + seq!['\n'] by {}
    assert forall|k: int| start <= k < start + bm.len() implies #[trigger] sb[k] == b[k] + seq!['\n'] by {}
}

/// When a diff is sent, in terms of its parts: exactly when it carries the
/// whole new text, neither changed region has more than 3000 lines, and its
/// UTF-8 length is below three fifths of the new text's; and what is sent is
/// then the delta text (notice, `@@` line and edits).
pub proof fn lemma_rendered_delta_cases(old: Seq<char>, new: Seq<char>, label: Seq<char>, hint: Seq<char>, age_minutes: int)
    ensures
        ({
            let (am, bm, start) = changed_region(old, new);
            let r = delta_text(old, new, label, hint, age_minutes);
            &&& (rendered_delta(old, new, label, hint, age_minutes) is Some) <==> (diff_keeps_text(old, new)
                && am.len() <= 3000 && bm.len() <= 3000 && encode_utf8(r).len() * 5 < encode_utf8(new).len()
                * 3)
            &&& rendered_delta(old, new, label, hint, age_minutes) is Some ==> rendered_delta(
                old,
                new,
                label,
                hint,
                age_minutes,
            ) == Some(r)
        }),
{
}


/// How the diff chooses its next edit: a line that both texts have next is
/// kept; a line is kept only if both texts have it next; and an addition
/// comes before a deletion only when deleting first would keep fewer lines
/// in all (so on a tie the deletion comes first). The number of lines kept is
/// the length of a longest common subsequence.
pub proof fn lemma_diff_script_choices(a: Seq<Seq<char>>, b: Seq<Seq<char>>, i: nat, j: nat)
    requires
        i <= a.len(),
        j <= b.len(),
    ensures
        ({
            let e = diff_script(a, b, i, j);
            &&& e.len() == 0 <==> (i == a.len() && j == b.len())
            &&& (i < a.len() && j < b.len() && a[i as int] == b[j as int]) ==> e[0] == EditLine::Same(a[i as int])
            &&& (e.len() > 0 && e[0] is Same) ==> i < a.len() && j < b.len() && a[i as int] == b[j as int]
            &&& (e.len() > 0 && e[0] is Add) ==> (i == a.len() || (a[i as int] != b[j as int] && lcs_len(
                a,
                b,
                i + 1,
                j,
            ) < lcs_len(a, b, i, j + 1)))
            &&& kept_count(e) == lcs_len(a, b, i, j)
        }),
{
    lemma_diff_script_sides(a, b, i, j);
}

/// The changed region is as small as trimming allows: the lines before it are
/// common to both texts and the line at its start differs (or a text ends
/// there); the lines after it are common to both texts and the line just
/// before them differs (or the region is empty on that side).
pub proof fn lemma_changed_region_tight(old: Seq<char>, new: Seq<char>)
    ensures
        ({
            let (am, bm, start) = changed_region(old, new);
            let a = text_lines(old);
            let b = text_lines(new);
            let t = a.len() - start - am.len();
            &&& start + am.len() <= a.len()
            &&& start + bm.len() <= b.len()
            &&& a.len() - start - am.len() == b.len() - start - bm.len()
            &&& forall|k: int| 0 <= k < start ==> a[k] == b[k]
            &&& (start == a.len() || start == b.len() || a[start as int] != b[start as int])
            &&& forall|u: int| 0 <= u < t ==> #[trigger] a[a.len() - 1 - u] == b[b.len() - 1 - u]
            &&& (am.len() == 0 || bm.len() == 0 || am.last() != bm.last())
        }),
{
    let (am, bm, start) = changed_region(old, new);
    let a = text_lines(old);
    let b = text_lines(new);
    lemma_common_prefix_bounds(a, b, 0);
    lemma_common_prefix_equal(a, b, 0);
    lemma_common_prefix_end(a, b, 0);
    lemma_common_suffix_bounds(a, b, start, 0);
    lemma_common_suffix_equal(a, b, start, 0);
    lemma_common_suffix_end(a, b, start, 0);
    let t = common_suffix_from(a, b, start, 0);
    assert forall|u: int| 0 <= u < t implies #[trigger] a[a.len() - 1 - u] == b[b.len() - 1 - u] by {
        let p = a.len() - 1 - u;
        assert(a[p] == b[p + b.len() - a.len()]);
    }
    if am.len() > 0 && bm.len() > 0 {
        assert(am.last() == a[a.len() - 1 - t]);
        assert(bm.last() == b[b.len() - 1 - t]);
    }
}

proof fn lemma_common_prefix_end(a: Seq<Seq<char>>, b: Seq<Seq<char>>, k: nat)
    requires
        k <= a.len(),
        k <= b.len(),
    ensures
        ({
            let p = common_prefix_from(a, b, k);
            p == a.len() || p == b.len() || a[p as int] != b[p as int]
        }),
    decreases remaining(a.len(), k),
{
    if k < a.len() && k < b.len() && a[k as int] == b[k as int] {
        lemma_common_prefix_end(a, b, k + 1);
    }
}

proof fn lemma_common_suffix_end(a: Seq<Seq<char>>, b: Seq<Seq<char>>, start: nat, t: nat)
    requires
        start + t <= a.len(),
        start + t <= b.len(),
    ensures
        ({
            let u = common_suffix_from(a, b, start, t);
            start + u == a.len() || start + u == b.len() || a[a.len() - 1 - u] != b[b.len() - 1 - u]
        }),
    decreases remaining(a.len(), start + t),
{
    if start + t < a.len() && start + t < b.len() && a[a.len() - 1 - t] == b[b.len() - 1 - t] {
        lemma_common_suffix_end(a, b, start, t + 1);
    }
}

} // verus!
