//! The plain-text state file: one `name<TAB>unix-timestamp` line per target,
//! after two `#` comment lines; blank lines and `#` lines are ignored when
//! reading, and a line that does not hold a valid timestamp is skipped.
use vstd::prelude::*;

use crate::text::{
    decimal, decimal_i64, is_digit, is_ws, lemma_blank_trim, lemma_decimal,
    lemma_parse_decimal_i64, parse_i64, parse_i64_in, trim, trim_bounds,
};

verus! {

/// The pieces of `s` between newline characters, in order (the last piece
/// is what follows the last newline, possibly empty). `str::lines` yields
/// the same pieces, except that it drops a final empty one and strips a
/// `\r` before each newline; neither makes a difference once each piece is
/// trimmed, which is all the reader looks at.
pub open spec fn split_lines(s: Seq<char>) -> Seq<Seq<char>>
    decreases s.len(),
{
    if s.len() == 0 {
        seq![Seq::empty()]
    } else {
        let p = split_lines(s.drop_last());
        if s.last() == '\n' {
            p.push(Seq::empty())
        } else {
            p.drop_last().push(p.last().push(s.last()))
        }
    }
}

pub proof fn lemma_split_lines_len(s: Seq<char>)
    ensures
        split_lines(s).len() >= 1,
    decreases s.len(),
{
    if s.len() > 0 {
        lemma_split_lines_len(s.drop_last());
    }
}

/// What one line of the state file says.
pub enum LineKind {
    /// Empty after trimming, or a `#` comment.
    Blank,
    /// A target name and the time it was last checked.
    Entry(Seq<char>, i64),
    /// Neither: the line is skipped.
    Malformed,
}

/// The index of the first tab in `s`, or its length if it has none.
pub open spec fn tab_index(s: Seq<char>) -> int
    decreases s.len(),
{
    if s.len() == 0 {
        0
    } else if s[0] == '\t' {
        0
    } else {
        1 + tab_index(s.drop_first())
    }
}

proof fn lemma_tab_index(s: Seq<char>, k: int)
    requires
        0 <= k <= s.len(),
        k < s.len() ==> s[k] == '\t',
        forall|j: int| 0 <= j < k ==> s[j] != '\t',
    ensures
        tab_index(s) == k,
    decreases k,
{
    if k > 0 {
        assert(s[0] != '\t');
        assert forall|j: int| 0 <= j < k - 1 implies s.drop_first()[j] != '\t' by {
            assert(s.drop_first()[j] == s[j + 1]);
        }
        lemma_tab_index(s.drop_first(), k - 1);
    }
}

/// How a line of the state file is read: it is trimmed; if nothing is left
/// or it starts with `#` it is ignored; otherwise the name is what precedes
/// the first tab, and the timestamp is what follows it, trimmed and parsed
/// as an `i64` (with no tab, the timestamp is empty and fails to parse).
pub open spec fn classify_line(line: Seq<char>) -> LineKind {
    let t = trim(line);
    if t.len() == 0 || t[0] == '#' {
        LineKind::Blank
    } else {
        let k = tab_index(t);
        let ts = if k < t.len() {
            t.subrange(k + 1, t.len() as int)
        } else {
            Seq::<char>::empty()
        };
        match parse_i64(trim(ts)) {
            Some(v) => LineKind::Entry(t.take(k), v),
            None => LineKind::Malformed,
        }
    }
}

/// The last-checked times that a sequence of lines records, a later line
/// for a name overriding an earlier one.
pub open spec fn parse_entries(lines: Seq<Seq<char>>) -> Map<Seq<char>, i64>
    decreases lines.len(),
{
    if lines.len() == 0 {
        Map::empty()
    } else {
        let m = parse_entries(lines.drop_last());
        match classify_line(lines.last()) {
            LineKind::Entry(name, v) => m.insert(name, v),
            _ => m,
        }
    }
}

/// The malformed lines among `lines`: each one's number (counting from 1)
/// and its trimmed text, in order.
pub open spec fn malformed_lines(lines: Seq<Seq<char>>) -> Seq<(int, Seq<char>)>
    decreases lines.len(),
{
    if lines.len() == 0 {
        Seq::empty()
    } else {
        let m = malformed_lines(lines.drop_last());
        match classify_line(lines.last()) {
            LineKind::Malformed => m.push((lines.len() as int, trim(lines.last()))),
            _ => m,
        }
    }
}

/// The state that the text `s` of a state file records.
pub open spec fn parse_state(s: Seq<char>) -> Map<Seq<char>, i64> {
    parse_entries(split_lines(s))
}

/// How one line of the state file was read, with positions into the text.
pub enum LineRead {
    Blank,
    /// The name is `text[name_lo..name_hi]`.
    Entry { name_lo: usize, name_hi: usize, at: i64 },
    /// The trimmed line is `text[lo..hi]`.
    Malformed { lo: usize, hi: usize },
}

/// Reads the line `v[lo..hi]`.
pub fn read_line(v: &Vec<char>, lo: usize, hi: usize) -> (r: LineRead)
    requires
        lo <= hi <= v.len(),
    ensures
        match r {
            LineRead::Blank => classify_line(v@.subrange(lo as int, hi as int)) is Blank,
            LineRead::Entry { name_lo, name_hi, at } => {
                &&& lo <= name_lo <= name_hi <= hi
                &&& classify_line(v@.subrange(lo as int, hi as int)) == LineKind::Entry(
                    v@.subrange(name_lo as int, name_hi as int),
                    at,
                )
            },
            LineRead::Malformed { lo: a, hi: b } => {
                &&& lo <= a <= b <= hi
                &&& classify_line(v@.subrange(lo as int, hi as int)) is Malformed
                &&& v@.subrange(a as int, b as int) == trim(v@.subrange(lo as int, hi as int))
            },
        },
{
    let (a, b) = trim_bounds(v, lo, hi);
    let ghost t = v@.subrange(a as int, b as int);
    if a == b || v[a] == '#' {
        proof {
            if a < b {
                assert(t[0] == v@[a as int]);
            }
        }
        return LineRead::Blank;
    }
    assert(t[0] == v@[a as int]);
    let mut k = a;
    while k < b && v[k] != '\t'
        invariant
            a <= k <= b <= v.len(),
            t == v@.subrange(a as int, b as int),
            forall|j: int| a <= j < k ==> v@[j] != '\t',
        decreases b - k,
    {
        k = k + 1;
    }
    proof {
        assert forall|j: int| 0 <= j < k - a implies t[j] != '\t' by {
            assert(t[j] == v@[a + j]);
        }
        if k < b {
            assert(t[k - a] == v@[k as int]);
        }
        lemma_tab_index(t, k - a);
        assert(t.take(k - a) =~= v@.subrange(a as int, k as int));
    }
    let (sa, sb) = if k < b {
        let r = trim_bounds(v, k + 1, b);
        assert(t.subrange(k - a + 1, t.len() as int) =~= v@.subrange(k + 1, b as int));
        r
    } else {
        assert(v@.subrange(b as int, b as int) =~= Seq::<char>::empty());
        (b, b)
    };
    match parse_i64_in(v, sa, sb) {
        Some(x) => LineRead::Entry { name_lo: a, name_hi: k, at: x },
        None => LineRead::Malformed { lo: a, hi: b },
    }
}

/// The two comment lines that open a state file.
pub open spec fn state_header() -> Seq<char> {
    "# webmon state file \u{2014} plain text, safe to hand-edit.\n"@
        + "# format: <target-name>\\t<unix-timestamp-of-last-check>\n"@
}

/// The line (without its newline) that records `row`.
pub open spec fn row_line(row: (Seq<char>, i64)) -> Seq<char> {
    row.0 + seq!['\t'] + decimal_i64(row.1)
}

/// The lines, each ending in a newline, that record `rows` in order.
pub open spec fn rows_text(rows: Seq<(Seq<char>, i64)>) -> Seq<char>
    decreases rows.len(),
{
    if rows.len() == 0 {
        Seq::empty()
    } else {
        rows_text(rows.drop_last()) + row_line(rows.last()) + seq!['\n']
    }
}

/// The whole text of a state file that records `rows`.
pub open spec fn state_text(rows: Seq<(Seq<char>, i64)>) -> Seq<char> {
    state_header() + rows_text(rows)
}

/// A name that a state file line records faithfully: it is not empty, does
/// not start with whitespace or `#`, and holds no tab or newline.
pub open spec fn storable_name(n: Seq<char>) -> bool {
    &&& n.len() > 0
    &&& !is_ws(n[0])
    &&& n[0] != '#'
    &&& forall|i: int| 0 <= i < n.len() ==> #[trigger] n[i] != '\t' && n[i] != '\n'
}

/// A piece of text with no newline is a single line.
pub proof fn lemma_split_no_newline(s: Seq<char>)
    requires
        forall|i: int| 0 <= i < s.len() ==> s[i] != '\n',
    ensures
        split_lines(s) == seq![s],
    decreases s.len(),
{
    if s.len() > 0 {
        lemma_split_no_newline(s.drop_last());
        assert(s.drop_last().push(s.last()) =~= s);
    } else {
        assert(s =~= Seq::<char>::empty());
    }
}

/// Splitting text that follows a newline continues the lines before it.
pub proof fn lemma_split_concat(a: Seq<char>, b: Seq<char>)
    requires
        a.len() > 0,
        a.last() == '\n',
    ensures
        split_lines(a + b) == split_lines(a).drop_last() + split_lines(b),
    decreases b.len(),
{
    lemma_split_lines_len(a);
    if b.len() == 0 {
        assert(a + b =~= a);
        assert(split_lines(a) == split_lines(a.drop_last()).push(Seq::empty()));
        assert(split_lines(a).drop_last() + split_lines(b) =~= split_lines(a));
    } else {
        lemma_split_concat(a, b.drop_last());
        assert((a + b).drop_last() =~= a + b.drop_last());
        lemma_split_lines_len(b.drop_last());
        let p = split_lines(b.drop_last());
        let q = split_lines(a).drop_last();
        if b.last() == '\n' {
            assert((q + p).push(Seq::empty()) =~= q + p.push(Seq::empty()));
        } else {
            assert((q + p).drop_last().push((q + p).last().push(b.last())) =~= q + p.drop_last().push(
                p.last().push(b.last()),
            ));
        }
    }
}

/// A line followed by a newline.
proof fn lemma_split_line(x: Seq<char>)
    requires
        forall|i: int| 0 <= i < x.len() ==> x[i] != '\n',
    ensures
        split_lines(x + seq!['\n']) == seq![x, Seq::<char>::empty()],
{
    lemma_split_no_newline(x);
    assert((x + seq!['\n']).drop_last() =~= x);
}

/// The lines that record `rows`, in order, without their newlines.
pub open spec fn row_lines(rows: Seq<(Seq<char>, i64)>) -> Seq<Seq<char>>
    decreases rows.len(),
{
    if rows.len() == 0 {
        Seq::empty()
    } else {
        row_lines(rows.drop_last()).push(row_line(rows.last()))
    }
}

/// The lines of the rows' text: one per row, then the empty piece after
/// the last newline.
proof fn lemma_split_rows_text(rows: Seq<(Seq<char>, i64)>)
    requires
        forall|i: int| 0 <= i < rows.len() ==> storable_name(#[trigger] rows[i].0),
    ensures
        split_lines(rows_text(rows)) == row_lines(rows).push(Seq::<char>::empty()),
    decreases rows.len(),
{
    if rows.len() == 0 {
        assert(rows_text(rows) =~= Seq::<char>::empty());
        assert(row_lines(rows).push(Seq::<char>::empty()) =~= seq![Seq::<char>::empty()]);
    } else {
        let init = rows.drop_last();
        assert forall|i: int| 0 <= i < init.len() implies storable_name(#[trigger] init[i].0) by {
            assert(init[i] == rows[i]);
        }
        lemma_split_rows_text(init);
        let x = row_line(rows.last());
        assert(storable_name(rows[rows.len() - 1].0));
        lemma_row_line_no_newline(rows.last());
        lemma_split_line(x);
        let prev = rows_text(init);
        let xs = x + seq!['\n'];
        assert(rows_text(rows) =~= prev + xs);
        if init.len() == 0 {
            assert(prev + xs =~= xs);
            assert(row_lines(init) =~= Seq::<Seq<char>>::empty());
            assert(row_lines(rows).push(Seq::<char>::empty()) =~= seq![x, Seq::<char>::empty()]);
        } else {
            lemma_split_concat(prev, xs);
            assert(split_lines(prev).drop_last() =~= row_lines(init));
            assert(row_lines(init) + seq![x, Seq::<char>::empty()] =~= row_lines(rows).push(
                Seq::<char>::empty(),
            ));
        }
    }
}

proof fn lemma_rows_text_ends_newline(rows: Seq<(Seq<char>, i64)>)
    requires
        rows.len() > 0,
    ensures
        rows_text(rows).len() > 0,
        rows_text(rows).last() == '\n',
{
}

proof fn lemma_row_line_no_newline(row: (Seq<char>, i64))
    requires
        storable_name(row.0),
    ensures
        forall|i: int| 0 <= i < row_line(row).len() ==> row_line(row)[i] != '\n',
{
    let d = decimal_i64(row.1);
    lemma_decimal_i64_shape(row.1);
    assert forall|i: int| 0 <= i < row_line(row).len() implies row_line(row)[i] != '\n' by {
        if i < row.0.len() {
            assert(row_line(row)[i] == row.0[i]);
        } else if i > row.0.len() {
            assert(row_line(row)[i] == d[i - row.0.len() - 1]);
        }
    }
}

/// A decimal number: only a leading `-` and digits, ending in a digit.
proof fn lemma_decimal_i64_shape(v: i64)
    ensures
        decimal_i64(v).len() > 0,
        is_digit(decimal_i64(v).last()),
        decimal_i64(v)[0] == '-' || is_digit(decimal_i64(v)[0]),
        forall|i: int| 1 <= i < decimal_i64(v).len() ==> is_digit(#[trigger] decimal_i64(v)[i]),
{
    if v < 0 {
        lemma_decimal((-v) as nat);
        let d = decimal((-v) as nat);
        assert forall|i: int| 1 <= i < decimal_i64(v).len() implies is_digit(
            #[trigger] decimal_i64(v)[i],
        ) by {
            assert(decimal_i64(v)[i] == d[i - 1]);
        }
    } else {
        lemma_decimal(v as nat);
    }
}

proof fn lemma_trim_keeps(s: Seq<char>)
    requires
        s.len() > 0,
        !is_ws(s[0]),
        !is_ws(s.last()),
    ensures
        trim(s) == s,
{
}

/// A recorded row line reads back as that row.
proof fn lemma_classify_row_line(row: (Seq<char>, i64))
    requires
        storable_name(row.0),
    ensures
        classify_line(row_line(row)) == LineKind::Entry(row.0, row.1),
{
    let n = row.0;
    let d = decimal_i64(row.1);
    let line = row_line(row);
    lemma_decimal_i64_shape(row.1);
    assert(line[0] == n[0]);
    assert(line.last() == d.last());
    lemma_trim_keeps(line);
    assert forall|j: int| 0 <= j < n.len() implies line[j] != '\t' by {
        assert(line[j] == n[j]);
    }
    assert(line[n.len() as int] == '\t');
    lemma_tab_index(line, n.len() as int);
    assert(line.take(n.len() as int) =~= n);
    assert(line.subrange(n.len() + 1int, line.len() as int) =~= d);
    assert(d[0] == '-' || is_digit(d[0]));
    lemma_trim_keeps(d);
    lemma_parse_decimal_i64(row.1);
}

/// A line that starts with `#` is ignored.
proof fn lemma_classify_comment(x: Seq<char>)
    requires
        x.len() > 0,
        x[0] == '#',
    ensures
        classify_line(x) is Blank,
{
    crate::text::lemma_trim_end_keeps_first(x);
}

/// Reading the lines that follow some ignored ones.
proof fn lemma_parse_rows(pre: Seq<Seq<char>>, rows: Seq<(Seq<char>, i64)>)
    requires
        parse_entries(pre) == Map::<Seq<char>, i64>::empty(),
        malformed_lines(pre) == Seq::<(int, Seq<char>)>::empty(),
        forall|i: int| 0 <= i < rows.len() ==> storable_name(#[trigger] rows[i].0),
    ensures
        parse_entries(pre + row_lines(rows)) == crate::state::rows_map(rows),
        malformed_lines(pre + row_lines(rows)) == Seq::<(int, Seq<char>)>::empty(),
    decreases rows.len(),
{
    let lines = pre + row_lines(rows);
    if rows.len() == 0 {
        assert(lines =~= pre);
    } else {
        let init = rows.drop_last();
        assert forall|i: int| 0 <= i < init.len() implies storable_name(#[trigger] init[i].0) by {
            assert(init[i] == rows[i]);
        }
        lemma_parse_rows(pre, init);
        assert(lines.drop_last() =~= pre + row_lines(init));
        assert(storable_name(rows[rows.len() - 1].0));
        assert(lines.last() == row_line(rows.last()));
        lemma_classify_row_line(rows.last());
    }
}

/// Reading back the text that records `rows` gives back their map, and no
/// line of it is malformed, provided each name is storable.
pub proof fn lemma_read_state_text(rows: Seq<(Seq<char>, i64)>)
    requires
        forall|i: int| 0 <= i < rows.len() ==> storable_name(#[trigger] rows[i].0),
    ensures
        parse_state(state_text(rows)) == crate::state::rows_map(rows),
        malformed_lines(split_lines(state_text(rows))) == Seq::<(int, Seq<char>)>::empty(),
{
    let h1 = "# webmon state file \u{2014} plain text, safe to hand-edit.\n"@;
    let h2 = "# format: <target-name>\\t<unix-timestamp-of-last-check>\n"@;
    reveal_strlit("# webmon state file \u{2014} plain text, safe to hand-edit.\n");
    reveal_strlit("# format: <target-name>\\t<unix-timestamp-of-last-check>\n");
    let l1 = h1.drop_last();
    let l2 = h2.drop_last();
    assert(h1 =~= l1 + seq!['\n']);
    assert(h2 =~= l2 + seq!['\n']);
    lemma_split_line(l1);
    lemma_split_line(l2);
    lemma_split_concat(h1, h2);
    let hs = split_lines(h1 + h2);
    assert(hs =~= seq![l1, l2, Seq::<char>::empty()]);
    let lines = row_lines(rows);
    lemma_split_rows_text(rows);
    let all = state_text(rows);
    assert(all =~= (h1 + h2) + rows_text(rows));
    lemma_split_concat(h1 + h2, rows_text(rows));
    let pre = seq![l1, l2];
    assert(split_lines(all) =~= (pre + lines).push(Seq::<char>::empty()));
    lemma_classify_comment(l1);
    lemma_classify_comment(l2);
    assert(pre.drop_last() =~= seq![l1]);
    assert(seq![l1].drop_last() =~= Seq::<Seq<char>>::empty());
    assert(seq![l1].last() == l1);
    assert(pre.last() == l2);
    assert(parse_entries(Seq::<Seq<char>>::empty()) == Map::<Seq<char>, i64>::empty());
    assert(malformed_lines(Seq::<Seq<char>>::empty()) == Seq::<(int, Seq<char>)>::empty());
    assert(parse_entries(seq![l1]) == Map::<Seq<char>, i64>::empty());
    assert(malformed_lines(seq![l1]) == Seq::<(int, Seq<char>)>::empty());
    assert(parse_entries(pre) == Map::<Seq<char>, i64>::empty());
    assert(malformed_lines(pre) == Seq::<(int, Seq<char>)>::empty());
    lemma_parse_rows(pre, rows);
    let full = (pre + lines).push(Seq::<char>::empty());
    assert(full.drop_last() =~= pre + lines);
    assert(classify_line(Seq::<char>::empty()) is Blank) by {
        lemma_blank_trim(Seq::<char>::empty());
    }
}

} // verus!
