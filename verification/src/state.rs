//! The run state: for each target name, when it was last checked. It is kept
//! as a plain-text file of `name<TAB>unix-timestamp` lines.
use vstd::prelude::*;

use crate::state_format::{
    lemma_read_state_text, malformed_lines, parse_entries, parse_state, read_line, rows_text,
    split_lines, state_header, state_text, storable_name, LineRead,
};
use crate::text::{
    chars_lt, chars_of, lemma_lt_irreflexive, lemma_lt_total, lemma_lt_transitive, push_char,
    push_chars, push_decimal_i64, seq_lt, sub_chars, trim,
};

verus! {

/// The map that a sequence of `(name, time)` rows denotes, a later row
/// overriding an earlier one of the same name.
pub open spec fn rows_map(rows: Seq<(Seq<char>, i64)>) -> Map<Seq<char>, i64>
    decreases rows.len(),
{
    if rows.len() == 0 {
        Map::empty()
    } else {
        rows_map(rows.drop_last()).insert(rows.last().0, rows.last().1)
    }
}

/// The names of `rows` are strictly increasing, so no name occurs twice.
pub open spec fn names_sorted(rows: Seq<(Seq<char>, i64)>) -> bool {
    forall|i: int, j: int|
        0 <= i < j < rows.len() ==> seq_lt(#[trigger] rows[i].0, #[trigger] rows[j].0)
}

/// Whether a target last checked at `last` (never, if `None`) is due at
/// `now` for an interval of `interval` seconds: at least `interval` seconds
/// have elapsed since `last`, counted exactly.
pub open spec fn due(last: Option<i64>, interval: u64, now: i64) -> bool {
    match last {
        Some(l) => now - l >= interval,
        None => true,
    }
}

/// A line of a state file that was skipped because it holds no valid
/// timestamp: its number (counting from 1) and its trimmed text.
#[derive(Debug)]
pub struct MalformedLine {
    pub number: usize,
    pub text: String,
}

/// The last-checked time of every known target.
#[derive(Debug)]
pub struct State {
    rows: Vec<(Vec<char>, i64)>,
}

impl State {
    /// The rows, in the order they are kept (and written).
    pub closed spec fn rows(&self) -> Seq<(Seq<char>, i64)> {
        rows_of(self.rows@)
    }

    /// The rows are kept sorted by name.
    #[verifier::type_invariant]
    closed spec fn sorted(&self) -> bool {
        names_sorted(self.rows())
    }

    /// Target name to the time it was last checked.
    pub open spec fn view(&self) -> Map<Seq<char>, i64> {
        rows_map(self.rows())
    }

    /// A state in which no target has been checked.
    pub fn new() -> (s: State)
        ensures
            s@ == Map::<Seq<char>, i64>::empty(),
            s.rows().len() == 0,
    {
        let rows: Vec<(Vec<char>, i64)> = Vec::new();
        assert(rows_of(rows@) =~= Seq::<(Seq<char>, i64)>::empty());
        State { rows }
    }

    /// When the target named `name` was last checked, if ever.
    pub fn last_run(&self, name: &str) -> (r: Option<i64>)
        ensures
            r == (if self@.contains_key(name@) {
                Some(self@[name@])
            } else {
                None
            }),
    {
        proof {
            use_type_invariant(self);
        }
        let key = chars_of(name);
        let p = rows_position(&self.rows, &key);
        proof {
            lemma_rows_map(self.rows());
        }
        if p < self.rows.len() && !chars_lt(&key, &self.rows[p].0) {
            proof {
                lemma_lt_total(key@, self.rows()[p as int].0);
            }
            Some(self.rows[p].1)
        } else {
            proof {
                if self@.contains_key(name@) {
                    let i = choose|i: int| 0 <= i < self.rows().len() && self.rows()[i].0 == name@;
                    if i < p {
                        lemma_lt_irreflexive(name@);
                    } else if i > p {
                        lemma_lt_total(key@, self.rows()[p as int].0);
                        lemma_lt_transitive(key@, self.rows()[p as int].0, self.rows()[i].0);
                        lemma_lt_irreflexive(name@);
                    } else {
                        lemma_lt_irreflexive(name@);
                    }
                }
            }
            None
        }
    }

    /// Records that the target named `name` was checked at `ts`.
    pub fn mark_run(&mut self, name: &str, ts: i64)
        ensures
            final(self)@ == old(self)@.insert(name@, ts),
    {
        let key = chars_of(name);
        self.upsert(key, ts);
    }

    /// Whether `interval_secs` have elapsed since the target was last
    /// checked; a target never checked is always due.
    pub fn is_due(&self, name: &str, interval_secs: u64, now: i64) -> (b: bool)
        ensures
            b == due(
                if self@.contains_key(name@) {
                    Some(self@[name@])
                } else {
                    None
                },
                interval_secs,
                now,
            ),
    {
        match self.last_run(name) {
            Some(last) => {
                let elapsed: i128 = now as i128 - last as i128;
                elapsed >= interval_secs as i128
            },
            None => true,
        }
    }

    /// Reads the text of a state file: the state it records, and the lines
    /// that were skipped as malformed.
    pub fn from_text(raw: &str) -> (res: (State, Vec<MalformedLine>))
        ensures
            res.0@ == parse_state(raw@),
            res.1@.map_values(|m: MalformedLine| (m.number as int, m.text@)) == malformed_lines(
                split_lines(raw@),
            ),
    {
        let v = chars_of(raw);
        let n = v.len();
        let mut state = State::new();
        let mut bad: Vec<MalformedLine> = Vec::new();
        let mut start: usize = 0;
        let mut line_no: usize = 0;
        let ghost mut done: Seq<Seq<char>> = Seq::empty();
        assert(v@.take(0) =~= Seq::<char>::empty());
        assert(v@.subrange(0, 0) =~= Seq::<char>::empty());
        assert(split_lines(v@.take(0)) =~= done.push(v@.subrange(0, 0)));
        let mut i: usize = 0;
        while i < n
            invariant
                n == v.len(),
                v@ == raw@,
                line_no <= start <= i <= n,
                line_no == done.len(),
                split_lines(v@.take(i as int)) == done.push(v@.subrange(start as int, i as int)),
                state@ == parse_entries(done),
                bad@.map_values(|m: MalformedLine| (m.number as int, m.text@)) == malformed_lines(
                    done,
                ),
            decreases n - i,
        {
            let ghost prev = v@.take(i as int);
            assert(v@.take(i + 1).drop_last() =~= prev);
            assert(v@.take(i + 1).last() == v@[i as int]);
            if v[i] == '\n' {
                Self::take_line(&v, start, i, line_no, &mut state, &mut bad, Ghost(done));
                proof {
                    done = done.push(v@.subrange(start as int, i as int));
                    assert(v@.subrange(i + 1, i + 1) =~= Seq::<char>::empty());
                }
                start = i + 1;
                line_no = line_no + 1;
            } else {
                proof {
                    let cur = v@.subrange(start as int, i as int);
                    assert(cur.push(v@[i as int]) =~= v@.subrange(start as int, i + 1));
                    assert(done.push(cur).drop_last() =~= done);
                }
            }
            i = i + 1;
        }
        assert(v@.take(n as int) =~= v@);
        if start < n {
            Self::take_line(&v, start, n, line_no, &mut state, &mut bad, Ghost(done));
        } else {
            proof {
                let last = v@.subrange(start as int, n as int);
                assert(last =~= Seq::<char>::empty());
                crate::text::lemma_blank_trim(last);
                let all = done.push(last);
                assert(all.drop_last() =~= done);
            }
        }
        (state, bad)
    }

    /// Reads the line `v[lo..hi]`, the one after the lines `done`, into
    /// `state` and `bad`.
    fn take_line(
        v: &Vec<char>,
        lo: usize,
        hi: usize,
        line_no: usize,
        state: &mut State,
        bad: &mut Vec<MalformedLine>,
        Ghost(done): Ghost<Seq<Seq<char>>>,
    )
        requires
            lo <= hi <= v.len(),
            line_no == done.len(),
            line_no <= lo,
            lo < hi || hi < v.len(),
            old(state)@ == parse_entries(done),
            old(bad)@.map_values(|m: MalformedLine| (m.number as int, m.text@)) == malformed_lines(
                done,
            ),
        ensures
            final(state)@ == parse_entries(done.push(v@.subrange(lo as int, hi as int))),
            final(bad)@.map_values(|m: MalformedLine| (m.number as int, m.text@)) == malformed_lines(
                done.push(v@.subrange(lo as int, hi as int)),
            ),
    {
        let ghost line = v@.subrange(lo as int, hi as int);
        let ghost all = done.push(line);
        assert(all.drop_last() =~= done);
        assert(all.last() == line);
        match read_line(v, lo, hi) {
            LineRead::Blank => {},
            LineRead::Entry { name_lo, name_hi, at } => {
                let name = sub_chars(v, name_lo, name_hi);
                state.upsert(name, at);
            },
            LineRead::Malformed { lo: a, hi: b } => {
                let mut text = String::new();
                push_chars(&mut text, v, a, b);
                let ghost before = bad@;
                bad.push(MalformedLine { number: line_no + 1, text });
                proof {
                    assert(text@ =~= trim(line));
                    assert(bad@.map_values(|m: MalformedLine| (m.number as int, m.text@))
                        =~= before.map_values(|m: MalformedLine| (m.number as int, m.text@)).push(
                        (all.len() as int, trim(line)),
                    ));
                }
            },
        }
    }

    /// The text of the state file that records this state: two comment
    /// lines, then one `name<TAB>timestamp` line per target, by name.
    pub fn to_text(&self) -> (out: String)
        ensures
            out@ == state_text(self.rows()),
            names_sorted(self.rows()),
    {
        proof {
            use_type_invariant(self);
        }
        let mut out = String::new();
        out.append("# webmon state file \u{2014} plain text, safe to hand-edit.\n");
        out.append("# format: <target-name>\\t<unix-timestamp-of-last-check>\n");
        let mut i: usize = 0;
        while i < self.rows.len()
            invariant
                i <= self.rows.len(),
                self.rows().len() == self.rows@.len(),
                out@ == state_header() + rows_text(self.rows().take(i as int)),
            decreases self.rows.len() - i,
        {
            let ghost before = out@;
            push_chars(&mut out, &self.rows[i].0, 0, self.rows[i].0.len());
            push_char(&mut out, '\t');
            push_decimal_i64(&mut out, self.rows[i].1);
            push_char(&mut out, '\n');
            proof {
                let r = self.rows().take(i + 1);
                assert(r.drop_last() =~= self.rows().take(i as int));
                assert(self.rows@[i as int].0@.subrange(0, self.rows@[i as int].0@.len() as int)
                    =~= self.rows()[i as int].0);
                assert(out@ =~= state_header() + rows_text(r));
            }
            i = i + 1;
        }
        assert(self.rows().take(self.rows().len() as int) =~= self.rows());
        out
    }

    /// Sets the time of `key`, adding the name in its place if it is new.
    fn upsert(&mut self, key: Vec<char>, ts: i64)
        ensures
            final(self)@ == old(self)@.insert(key@, ts),
    {
        proof {
            use_type_invariant(&*self);
        }
        let mut rows: Vec<(Vec<char>, i64)> = Vec::new();
        std::mem::swap(&mut rows, &mut self.rows);
        rows_upsert(&mut rows, key, ts);
        self.rows = rows;
    }
}

/// The rows that a vector of rows holds, names taken by their characters.
pub open spec fn rows_of(v: Seq<(Vec<char>, i64)>) -> Seq<(Seq<char>, i64)> {
    v.map_values(|r: (Vec<char>, i64)| (r.0@, r.1))
}

/// The first position whose name is not below `key`.
fn rows_position(rows: &Vec<(Vec<char>, i64)>, key: &Vec<char>) -> (p: usize)
    requires
        names_sorted(rows_of(rows@)),
    ensures
        p <= rows_of(rows@).len(),
        forall|i: int| 0 <= i < p ==> seq_lt(#[trigger] rows_of(rows@)[i].0, key@),
        p < rows_of(rows@).len() ==> !seq_lt(rows_of(rows@)[p as int].0, key@),
{
    let mut p: usize = 0;
    while p < rows.len() && chars_lt(&rows[p].0, key)
        invariant
            p <= rows.len(),
            rows_of(rows@).len() == rows@.len(),
            names_sorted(rows_of(rows@)),
            forall|i: int| 0 <= i < p ==> seq_lt(#[trigger] rows_of(rows@)[i].0, key@),
        decreases rows.len() - p,
    {
        p = p + 1;
    }
    p
}

/// Sets the time of `key`, adding the name in its place if it is new.
fn rows_upsert(rows: &mut Vec<(Vec<char>, i64)>, key: Vec<char>, ts: i64)
    requires
        names_sorted(rows_of(old(rows)@)),
    ensures
        names_sorted(rows_of(final(rows)@)),
        rows_map(rows_of(final(rows)@)) == rows_map(rows_of(old(rows)@)).insert(key@, ts),
{
    let p = rows_position(rows, &key);
    let ghost old_rows = rows_of(rows@);
    proof {
        lemma_rows_map(old_rows);
    }
    if p < rows.len() && !chars_lt(&key, &rows[p].0) {
        proof {
            lemma_lt_total(key@, old_rows[p as int].0);
        }
        rows.set(p, (key, ts));
        proof {
            assert(rows_of(rows@) =~= old_rows.update(p as int, (old_rows[p as int].0, ts)));
            lemma_rows_map(rows_of(rows@));
            assert(rows_map(rows_of(rows@)) =~= rows_map(rows_of(old(rows)@)).insert(key@, ts)) by {
                assert forall|k: Seq<char>| #[trigger]
                    rows_map(rows_of(rows@)).contains_key(k) implies rows_map(rows_of(old(rows)@)).insert(key@, ts).contains_key(k)
                    && rows_map(rows_of(rows@))[k] == rows_map(rows_of(old(rows)@)).insert(key@, ts)[k] by {
                    let i = choose|i: int| 0 <= i < rows_of(rows@).len() && rows_of(rows@)[i].0 == k;
                    assert(old_rows[i].0 == k);
                    assert(rows_map(old_rows).contains_key(old_rows[i].0));
                    assert(rows_map(rows_of(rows@)).contains_key(rows_of(rows@)[i].0));
                    if i != p {
                        assert(rows_of(rows@)[i] == old_rows[i]);
                        lemma_lt_irreflexive(k);
                        if i < p {
                            assert(seq_lt(old_rows[i].0, old_rows[p as int].0));
                        } else {
                            assert(seq_lt(old_rows[p as int].0, old_rows[i].0));
                        }
                        assert(k != key@);
                    }
                }
                assert forall|k: Seq<char>| #[trigger]
                    rows_map(rows_of(old(rows)@)).insert(key@, ts).contains_key(k) implies rows_map(rows_of(rows@)).contains_key(k) by {
                    if k != key@ {
                        let i = choose|i: int| 0 <= i < old_rows.len() && old_rows[i].0 == k;
                        assert(rows_of(rows@)[i].0 == k);
                    } else {
                        assert(rows_of(rows@)[p as int].0 == k);
                    }
                }
            }
        }
    } else {
        proof {
            if p < old_rows.len() {
                lemma_lt_total(key@, old_rows[p as int].0);
            }
        }
        let ghost key_view = key@;
        rows.insert(p, (key, ts));
        proof {
            let new_rows = old_rows.insert(p as int, (key_view, ts));
            assert(rows_of(rows@) =~= new_rows);
            assert forall|i: int, j: int| 0 <= i < j < new_rows.len() implies seq_lt(
                #[trigger] new_rows[i].0,
                #[trigger] new_rows[j].0,
            ) by {
                if j < p {
                } else if j == p {
                } else if i < p {
                    assert(new_rows[j] == old_rows[j - 1]);
                    if j - 1 > p {
                        lemma_lt_transitive(key_view, old_rows[p as int].0, old_rows[j - 1].0);
                    }
                    lemma_lt_transitive(old_rows[i].0, key_view, old_rows[j - 1].0);
                } else if i == p {
                    assert(new_rows[j] == old_rows[j - 1]);
                    if j - 1 > p {
                        lemma_lt_transitive(key_view, old_rows[p as int].0, old_rows[j - 1].0);
                    }
                } else {
                    assert(new_rows[i] == old_rows[i - 1]);
                    assert(new_rows[j] == old_rows[j - 1]);
                }
            }
            lemma_rows_map(new_rows);
            assert(rows_map(rows_of(rows@)) =~= rows_map(rows_of(old(rows)@)).insert(key@, ts)) by {
                assert forall|k: Seq<char>| #[trigger]
                    rows_map(rows_of(rows@)).contains_key(k) implies rows_map(rows_of(old(rows)@)).insert(key@, ts).contains_key(k)
                    && rows_map(rows_of(rows@))[k] == rows_map(rows_of(old(rows)@)).insert(key@, ts)[k] by {
                    let i = choose|i: int| 0 <= i < new_rows.len() && new_rows[i].0 == k;
                    assert(rows_map(new_rows).contains_key(new_rows[i].0));
                    if i < p {
                        assert(new_rows[i] == old_rows[i]);
                        assert(rows_map(old_rows).contains_key(old_rows[i].0));
                        lemma_lt_irreflexive(k);
                        assert(seq_lt(k, key_view));
                    } else if i > p {
                        assert(new_rows[i] == old_rows[i - 1]);
                        assert(rows_map(old_rows).contains_key(old_rows[i - 1].0));
                        lemma_lt_irreflexive(k);
                        assert(seq_lt(new_rows[p as int].0, new_rows[i].0));
                    }
                }
                assert forall|k: Seq<char>| #[trigger]
                    rows_map(rows_of(old(rows)@)).insert(key@, ts).contains_key(k) implies rows_map(rows_of(rows@)).contains_key(k) by {
                    if k != key@ {
                        let i = choose|i: int| 0 <= i < old_rows.len() && old_rows[i].0 == k;
                        if i < p {
                            assert(new_rows[i] == old_rows[i]);
                        } else {
                            assert(new_rows[i + 1] == old_rows[i]);
                        }
                    } else {
                        assert(new_rows[p as int].0 == k);
                    }
                }
            }
        }
    }
}

impl Default for State {
    fn default() -> (s: State)
        ensures
            s@ == Map::<Seq<char>, i64>::empty(),
    {
        State::new()
    }
}

/// With distinct names, the map of `rows` has exactly their names as keys,
/// each with its row's time.
pub proof fn lemma_rows_map(rows: Seq<(Seq<char>, i64)>)
    requires
        names_sorted(rows),
    ensures
        forall|i: int|
            0 <= i < rows.len() ==> #[trigger] rows_map(rows).contains_key(rows[i].0)
                && rows_map(rows)[rows[i].0] == rows[i].1,
        forall|k: Seq<char>| #[trigger]
            rows_map(rows).contains_key(k) ==> exists|i: int| 0 <= i < rows.len() && rows[i].0 == k,
    decreases rows.len(),
{
    if rows.len() > 0 {
        let init = rows.drop_last();
        assert(names_sorted(init)) by {
            assert forall|i: int, j: int| 0 <= i < j < init.len() implies seq_lt(
                #[trigger] init[i].0,
                #[trigger] init[j].0,
            ) by {
                assert(init[i] == rows[i] && init[j] == rows[j]);
            }
        }
        lemma_rows_map(init);
        assert forall|i: int| 0 <= i < rows.len() implies #[trigger] rows_map(rows).contains_key(
            rows[i].0,
        ) && rows_map(rows)[rows[i].0] == rows[i].1 by {
            if i < rows.len() - 1 {
                assert(init[i] == rows[i]);
                assert(seq_lt(rows[i].0, rows[rows.len() - 1].0));
                lemma_lt_irreflexive(rows[i].0);
                assert(rows[i].0 != rows.last().0);
                assert(rows_map(init).contains_key(init[i].0));
                assert(rows_map(rows) == rows_map(init).insert(rows.last().0, rows.last().1));
            }
        }
        assert forall|k: Seq<char>| #[trigger]
            rows_map(rows).contains_key(k) implies exists|i: int|
            0 <= i < rows.len() && rows[i].0 == k by {
            if k != rows.last().0 {
                assert(rows_map(init).contains_key(k));
                let i = choose|i: int| 0 <= i < init.len() && init[i].0 == k;
                assert(rows[i] == init[i]);
            } else {
                assert(rows[rows.len() - 1].0 == k);
            }
        }
    }
}

/// Writing rows to text and reading the text back gives the same map,
/// with no line skipped, whenever the names are sorted (as a state keeps
/// them) and every name is storable (see `storable_name`).
pub proof fn lemma_state_text_round_trip(rows: Seq<(Seq<char>, i64)>)
    requires
        names_sorted(rows),
        forall|k: Seq<char>| #[trigger] rows_map(rows).contains_key(k) ==> storable_name(k),
    ensures
        parse_state(state_text(rows)) == rows_map(rows),
        malformed_lines(split_lines(state_text(rows))) == Seq::<(int, Seq<char>)>::empty(),
{
    lemma_rows_map(rows);
    assert forall|i: int| 0 <= i < rows.len() implies storable_name(#[trigger] rows[i].0) by {
        assert(rows_map(rows).contains_key(rows[i].0));
    }
    lemma_read_state_text(rows);
}

/// A target never checked is due; one checked at `now` is due again at
/// `now` exactly when its interval is zero.
pub proof fn lemma_due_right_after_check(interval: u64, now: i64)
    ensures
        due(None, interval, now),
        due(Some(now), interval, now) == (interval == 0),
{
}

/// Once due, a target stays due as time goes on.
pub proof fn lemma_due_stays_due(last: Option<i64>, interval: u64, now: i64, later: i64)
    requires
        now <= later,
        due(last, interval, now),
    ensures
        due(last, interval, later),
{
}

} // verus!
