//! Line diffs (the `similar` crate) and their plain-text rendering.
use vstd::prelude::*;

use crate::text::push_char;

verus! {

/// The kind of a line in a diff.
#[derive(Debug, Clone, Copy, PartialEq, Eq, Structural)]
pub enum DiffTag {
    Equal,
    Delete,
    Insert,
}

/// One line of a diff: its kind, its text (with its newline, if it has
/// one) and whether it lacks a final newline.
#[derive(Debug)]
pub struct LineChange {
    pub tag: DiffTag,
    pub text: String,
    pub missing_newline: bool,
}

impl LineChange {
    pub open spec fn view(&self) -> (DiffTag, Seq<char>, bool) {
        (self.tag, self.text@, self.missing_newline)
    }
}

/// The changes of the line diff of `old` and `new` that `similar` groups
/// with `context` lines of context (`TextDiff::from_lines`, then
/// `grouped_ops(context)`, then `iter_changes` of each op), in order.
pub uninterp spec fn line_diff(old: Seq<char>, new: Seq<char>, context: nat) -> Seq<
    (DiffTag, Seq<char>, bool),
>;

/// Whether `s` ends in a line break, as `similar` judges it: its last
/// character is `\r` or `\n`.
pub open spec fn ends_with_newline(s: Seq<char>) -> bool {
    s.len() > 0 && (s.last() == '\r' || s.last() == '\n')
}

/// The grouped line changes between `old` and `new`: `similar`'s
/// `TextDiff::from_lines`, `grouped_ops` and `iter_changes`, flattened in
/// order. Which changes they are is the diff algorithm's and is only named
/// here; each change lacks a final newline exactly when its text does not
/// end in `\r` or `\n` (`Change::missing_newline`).
#[verifier::external_body]
fn grouped_line_changes(old: &str, new: &str, context: usize) -> (r: Vec<LineChange>)
    ensures
        r@.map_values(|c: LineChange| c@) == line_diff(old@, new@, context as nat),
        forall|i: int|
            0 <= i < r.len() ==> (#[trigger] r@[i]).missing_newline == !ends_with_newline(
                r@[i].text@,
            ),
{
    let diff = similar::TextDiff::from_lines(old, new);
    let ops = diff.grouped_ops(context).concat();
    ops.iter().flat_map(|op| diff.iter_changes(op)).map(|c| LineChange {
        tag: match c.tag() {
            similar::ChangeTag::Equal => DiffTag::Equal,
            similar::ChangeTag::Delete => DiffTag::Delete,
            similar::ChangeTag::Insert => DiffTag::Insert,
        },
        text: c.value().to_string(),
        missing_newline: c.missing_newline(),
    }).collect()
}

/// The sign a diff line starts with.
pub open spec fn tag_sign(t: DiffTag) -> char {
    match t {
        DiffTag::Delete => '-',
        DiffTag::Insert => '+',
        DiffTag::Equal => ' ',
    }
}

/// A diff line as written: its sign, its text, and a newline if the text
/// lacks one.
pub open spec fn change_line(c: (DiffTag, Seq<char>, bool)) -> Seq<char> {
    seq![tag_sign(c.0)] + c.1 + if c.2 {
        seq!['\n']
    } else {
        Seq::empty()
    }
}

/// The lines of `changes` written one after the other.
pub open spec fn render(changes: Seq<(DiffTag, Seq<char>, bool)>) -> Seq<char>
    decreases changes.len(),
{
    if changes.len() == 0 {
        Seq::empty()
    } else {
        render(changes.drop_last()) + change_line(changes.last())
    }
}

/// The plain-text diff between two texts, with three lines of context
/// around each change.
pub open spec fn diff_text(old: Seq<char>, new: Seq<char>) -> Seq<char> {
    render(line_diff(old, new, 3))
}

/// Writes the changes of a diff: each line prefixed by `-` (removed), `+`
/// (added) or a space (context), a newline added where one is missing.
pub fn render_changes(changes: &Vec<LineChange>) -> (out: String)
    ensures
        out@ == render(changes@.map_values(|c: LineChange| c@)),
{
    let ghost views = changes@.map_values(|c: LineChange| c@);
    let mut out = String::new();
    let mut i: usize = 0;
    while i < changes.len()
        invariant
            i <= changes.len(),
            views == changes@.map_values(|c: LineChange| c@),
            out@ == render(views.take(i as int)),
        decreases changes.len() - i,
    {
        let ghost before = out@;
        let c = &changes[i];
        let sign = match c.tag {
            DiffTag::Delete => '-',
            DiffTag::Insert => '+',
            DiffTag::Equal => ' ',
        };
        push_char(&mut out, sign);
        out.append(c.text.as_str());
        if c.missing_newline {
            push_char(&mut out, '\n');
        }
        proof {
            let t = views.take(i + 1);
            assert(t.drop_last() =~= views.take(i as int));
            assert(t.last() == c@);
            assert(out@ =~= before + change_line(c@));
        }
        i = i + 1;
    }
    assert(views.take(changes@.len() as int) =~= views);
    out
}

/// Produces a plain-text unified-style diff between two strings. Each of
/// its lines is ended by a newline of its own or by one added.
pub fn make_diff(old: &str, new: &str) -> (out: String)
    ensures
        out@ == diff_text(old@, new@),
        forall|i: int|
            0 <= i < line_diff(old@, new@, 3).len() ==> (#[trigger] line_diff(old@, new@, 3)[i]).2
                == !ends_with_newline(line_diff(old@, new@, 3)[i].1),
{
    let changes = grouped_line_changes(old, new, 3);
    proof {
        assert forall|i: int| 0 <= i < line_diff(old@, new@, 3).len() implies (#[trigger] line_diff(
            old@,
            new@,
            3,
        )[i]).2 == !ends_with_newline(line_diff(old@, new@, 3)[i].1) by {
            assert(changes@.map_values(|c: LineChange| c@)[i] == changes@[i]@);
        }
    }
    render_changes(&changes)
}

/// The rendered diff is the lines of its changes, one per change, in order:
/// no change gives nothing, a single change gives its sign (`-` removed,
/// `+` added, a space for context), its text and a newline if the text
/// lacks one, and rendering two runs of changes one after the other gives
/// their renderings one after the other.
pub proof fn lemma_render_lines(a: Seq<(DiffTag, Seq<char>, bool)>, b: Seq<(DiffTag, Seq<char>, bool)>, c: (DiffTag, Seq<char>, bool))
    ensures
        render(Seq::empty()) == Seq::<char>::empty(),
        render(seq![c]) == seq![
            match c.0 {
                DiffTag::Delete => '-',
                DiffTag::Insert => '+',
                DiffTag::Equal => ' ',
            },
        ] + c.1 + if c.2 {
            seq!['\n']
        } else {
            Seq::<char>::empty()
        },
        render(a + b) == render(a) + render(b),
        render(a.push(c)).len() == render(a).len() + 1 + c.1.len() + if c.2 {
            1int
        } else {
            0int
        },
    decreases b.len(),
{
    assert(seq![c].drop_last() =~= Seq::<(DiffTag, Seq<char>, bool)>::empty());
    assert(seq![c].last() == c);
    assert(render(Seq::<(DiffTag, Seq<char>, bool)>::empty()) == Seq::<char>::empty());
    assert(render(seq![c]) == render(seq![c].drop_last()) + change_line(seq![c].last()));
    assert(render(seq![c]) =~= Seq::<char>::empty() + change_line(c));
    if b.len() == 0 {
        assert(a + b =~= a);
        assert(render(a) + render(b) =~= render(a));
    } else {
        lemma_render_lines(a, b.drop_last(), c);
        assert((a + b).drop_last() =~= a + b.drop_last());
        assert((a + b).last() == b.last());
        assert(render(a + b) =~= render(a) + render(b));
    }
    assert(a.push(c).drop_last() =~= a);
}

} // verus!
