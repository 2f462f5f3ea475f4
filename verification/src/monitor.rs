//! What is compared run to run: snapshot file names, the text a target's
//! regexes select from a page, whether it changed, and the diff.
use vstd::prelude::*;

use crate::config::TargetConfig;
use crate::paths::{join, path_join};
use crate::patterns::{regex_find_all, regex_replace_all, Pattern, PatternError, regex_compiles};
use crate::state_format::{lemma_split_concat, lemma_split_no_newline, split_lines};
use crate::text::{chars_of, push_char};

verus! {

/// A character kept as is in a file name.
pub open spec fn is_safe_char(c: char) -> bool {
    ||| ('a' <= c && c <= 'z')
    ||| ('A' <= c && c <= 'Z')
    ||| ('0' <= c && c <= '9')
    ||| c == '-'
    ||| c == '_'
    ||| c == '.'
}

/// `name` with every character that is not safe in a file name replaced by
/// `_`.
pub open spec fn sanitized(name: Seq<char>) -> Seq<char> {
    name.map_values(|c: char| if is_safe_char(c) { c } else { '_' })
}

/// Turns a target name into a filesystem-safe file stem: ASCII letters,
/// digits, `-`, `_` and `.` are kept, anything else becomes `_`.
pub fn sanitize_name(name: &str) -> (r: String)
    ensures
        r@ == sanitized(name@),
{
    let v = chars_of(name);
    let mut out = String::new();
    let mut i: usize = 0;
    while i < v.len()
        invariant
            i <= v.len(),
            v@ == name@,
            out@ == sanitized(v@.take(i as int)),
        decreases v.len() - i,
    {
        let c = v[i];
        let keep = ('a' <= c && c <= 'z') || ('A' <= c && c <= 'Z') || ('0' <= c && c <= '9')
            || c == '-' || c == '_' || c == '.';
        if keep {
            push_char(&mut out, c);
        } else {
            push_char(&mut out, '_');
        }
        assert(sanitized(v@.take(i + 1)) =~= sanitized(v@.take(i as int)).push(
            if is_safe_char(c) {
                c
            } else {
                '_'
            },
        ));
        i = i + 1;
    }
    assert(v@.take(v@.len() as int) =~= v@);
    out
}

/// Sanitizing a name twice changes nothing more than sanitizing it once,
/// and a sanitized name keeps its length and holds only safe characters.
pub proof fn lemma_sanitized(name: Seq<char>)
    ensures
        sanitized(sanitized(name)) == sanitized(name),
        sanitized(name).len() == name.len(),
        forall|i: int| 0 <= i < name.len() ==> is_safe_char(#[trigger] sanitized(name)[i]),
        forall|i: int|
            0 <= i < name.len() && is_safe_char(name[i]) ==> #[trigger] sanitized(name)[i]
                == name[i],
{
    assert(sanitized(sanitized(name)) =~= sanitized(name));
}

/// The directory, under the storage directory, that holds the snapshots.
pub open spec fn pages_dir_of(storage_dir: Seq<char>) -> Seq<char> {
    path_join(storage_dir, "pages"@)
}

/// The name of the snapshot file of the target named `target_name`.
pub open spec fn snapshot_file_name(target_name: Seq<char>) -> Seq<char> {
    sanitized(target_name) + ".snapshot"@
}

/// Names that sanitize differently give different snapshot file names.
/// (Names that differ only in characters not kept in file names, such as
/// `a b` and `a_b`, share one.)
pub proof fn lemma_distinct_file_names(a: Seq<char>, b: Seq<char>)
    requires
        sanitized(a) != sanitized(b),
    ensures
        snapshot_file_name(a) != snapshot_file_name(b),
{
    let x = sanitized(a);
    let y = sanitized(b);
    let s = ".snapshot"@;
    if x + s == y + s {
        assert((x + s).len() == x.len() + s.len());
        assert((y + s).len() == y.len() + s.len());
        assert(x.len() == y.len());
        assert((x + s).take(x.len() as int) =~= x);
        assert((y + s).take(y.len() as int) =~= y);
    }
}

/// Where the snapshot of the target named `target_name` is kept:
/// `<storage_dir>/pages/<sanitized name>.snapshot`.
pub open spec fn snapshot_path_of(storage_dir: Seq<char>, target_name: Seq<char>) -> Seq<char> {
    path_join(pages_dir_of(storage_dir), snapshot_file_name(target_name))
}

/// The directory that holds the snapshots.
pub fn pages_dir(storage_dir: &str) -> (r: String)
    ensures
        r@ == pages_dir_of(storage_dir@),
{
    join(storage_dir, "pages")
}

/// The snapshot file of the target named `target_name`.
pub fn snapshot_path(storage_dir: &str, target_name: &str) -> (r: String)
    ensures
        r@ == snapshot_path_of(storage_dir@, target_name@),
{
    let dir = pages_dir(storage_dir);
    let mut file = sanitize_name(target_name);
    file.append(".snapshot");
    join(dir.as_str(), file.as_str())
}

/// `parts` joined with newlines between them.
pub open spec fn join_lines(parts: Seq<Seq<char>>) -> Seq<char>
    decreases parts.len(),
{
    if parts.len() == 0 {
        Seq::empty()
    } else if parts.len() == 1 {
        parts[0]
    } else {
        join_lines(parts.drop_last()) + seq!['\n'] + parts.last()
    }
}

/// The source of an optional pattern.
pub open spec fn source_of(p: Option<&Pattern>) -> Option<Seq<char>> {
    match p {
        Some(q) => Some(q.source()),
        None => None,
    }
}

/// The text of `content` that is compared run to run: with an inclusion
/// pattern, its matches in order, one per line (otherwise the whole
/// content); then, with an exclusion pattern, that text with its matches
/// removed.
pub open spec fn monitored_text(
    content: Seq<char>,
    inclusion: Option<Seq<char>>,
    exclusion: Option<Seq<char>>,
) -> Seq<char> {
    let selected = match inclusion {
        Some(p) => join_lines(regex_find_all(p, content)),
        None => content,
    };
    match exclusion {
        Some(p) => regex_replace_all(p, selected, Seq::empty()),
        None => selected,
    }
}

/// Applies a target's inclusion and exclusion patterns to raw page content to
/// produce the text that is compared run to run. With neither pattern,
/// the whole page is monitored.
pub fn extract_monitored(content: &str, inclusion: Option<&Pattern>, exclusion: Option<&Pattern>) -> (r:
    String)
    ensures
        r@ == monitored_text(content@, source_of(inclusion), source_of(exclusion)),
{
    let text = match inclusion {
        Some(re) => {
            let parts = re.find_all(content);
            let ghost views = parts@.map_values(|m: String| m@);
            let mut joined = String::new();
            let mut i: usize = 0;
            while i < parts.len()
                invariant
                    i <= parts.len(),
                    views == parts@.map_values(|m: String| m@),
                    joined@ == join_lines(views.take(i as int)),
                decreases parts.len() - i,
            {
                let ghost before = joined@;
                if i > 0 {
                    push_char(&mut joined, '\n');
                }
                joined.append(parts[i].as_str());
                proof {
                    let t = views.take(i + 1);
                    assert(t.drop_last() =~= views.take(i as int));
                    if i == 0 {
                        assert(t.len() == 1);
                        assert(before =~= Seq::<char>::empty());
                        assert(joined@ =~= t[0]);
                    } else {
                        assert(joined@ =~= before + seq!['\n'] + t.last());
                    }
                }
                i = i + 1;
            }
            assert(views.take(parts@.len() as int) =~= views);
            joined
        },
        None => content.to_owned(),
    };
    match exclusion {
        Some(re) => {
            proof {
                reveal_strlit("");
            }
            assert(""@ =~= Seq::<char>::empty());
            re.replace_all(text.as_str(), "")
        },
        None => text,
    }
}

/// Compiles a target's inclusion and exclusion patterns, the inclusion pattern
/// first.
pub fn target_patterns(target: &TargetConfig) -> (res: Result<
    (Option<Pattern>, Option<Pattern>),
    PatternError,
>)
    ensures
        res is Ok <==> (match target.include_regex {
            Some(p) => regex_compiles(p@),
            None => true,
        } && match target.exclude_regex {
            Some(p) => regex_compiles(p@),
            None => true,
        }),
        res matches Ok((inc, exc)) ==> (match target.include_regex {
            Some(p) => inc matches Some(q) && q.source() == p@,
            None => inc is None,
        }) && (match target.exclude_regex {
            Some(p) => exc matches Some(q) && q.source() == p@,
            None => exc is None,
        }),
        res matches Err(e) ==> (match target.include_regex {
            Some(p) => if regex_compiles(p@) {
                target.exclude_regex matches Some(x) && e.pattern@ == x@
            } else {
                e.pattern@ == p@
            },
            None => target.exclude_regex matches Some(x) && e.pattern@ == x@,
        }),
{
    let inc = match &target.include_regex {
        Some(p) => Some(Pattern::new(p.as_str())?),
        None => None,
    };
    let exc = match &target.exclude_regex {
        Some(p) => Some(Pattern::new(p.as_str())?),
        None => None,
    };
    Ok((inc, exc))
}

/// Whether the monitored text changed between the stored snapshot and the
/// fresh content, and if so the diff between the two monitored texts. The
/// first fetch (no snapshot yet) is a baseline and never a change.
pub open spec fn change_between(
    old_raw: Option<Seq<char>>,
    new_raw: Seq<char>,
    inclusion: Option<Seq<char>>,
    exclusion: Option<Seq<char>>,
) -> Option<Seq<char>> {
    match old_raw {
        None => None,
        Some(old) => {
            let o = monitored_text(old, inclusion, exclusion);
            let n = monitored_text(new_raw, inclusion, exclusion);
            if o == n {
                None
            } else {
                Some(crate::diff::diff_text(o, n))
            }
        },
    }
}

/// Compares freshly fetched content against the stored snapshot (if any)
/// through the target's patterns, and gives the diff when the monitored
/// text changed.
pub fn detect_change(
    old_raw: Option<&str>,
    new_raw: &str,
    inclusion: Option<&Pattern>,
    exclusion: Option<&Pattern>,
) -> (r: Option<String>)
    ensures
        match r {
            Some(d) => change_between(
                match old_raw {
                    Some(o) => Some(o@),
                    None => None,
                },
                new_raw@,
                source_of(inclusion),
                source_of(exclusion),
            ) == Some(d@),
            None => change_between(
                match old_raw {
                    Some(o) => Some(o@),
                    None => None,
                },
                new_raw@,
                source_of(inclusion),
                source_of(exclusion),
            ) is None,
        },
{
    match old_raw {
        None => None,
        Some(old) => {
            let o = extract_monitored(old, inclusion, exclusion);
            let n = extract_monitored(new_raw, inclusion, exclusion);
            if o == n {
                None
            } else {
                Some(crate::diff::make_diff(o.as_str(), n.as_str()))
            }
        },
    }
}

/// What one check of a target came to.
#[derive(Debug, Clone, Copy, PartialEq, Eq)]
pub struct RunOutcome {
    /// The monitored text differed from the stored snapshot's.
    pub changed: bool,
    /// A notification of the change was delivered.
    pub notified: bool,
}

/// What a check of `target` came to, given the diff that `detect_change`
/// gave for it (`None` on the first fetch or when nothing changed) and
/// whether a notification of that diff was delivered (`false` when none was
/// sent or sending failed). A notification counts only for a change of a
/// target with an ntfy topic.
pub fn run_outcome(target: &TargetConfig, diff: &Option<String>, delivered: bool) -> (r: RunOutcome)
    ensures
        r.changed == diff is Some,
        r.notified == (diff is Some && target.ntfy_topic is Some && delivered),
        r.notified ==> r.changed && target.ntfy_topic is Some,
{
    let changed = diff.is_some();
    RunOutcome { changed, notified: changed && target.ntfy_topic.is_some() && delivered }
}

/// Joining lines that hold no newline and splitting the result at its
/// newlines gives back the same lines, none dropped, merged or reordered.
pub proof fn lemma_join_lines_split(parts: Seq<Seq<char>>)
    requires
        parts.len() > 0,
        forall|i: int, j: int|
            0 <= i < parts.len() && 0 <= j < parts[i].len() ==> #[trigger] parts[i][j] != '\n',
    ensures
        split_lines(join_lines(parts)) == parts,
    decreases parts.len(),
{
    if parts.len() == 1 {
        assert forall|j: int| 0 <= j < parts[0].len() implies parts[0][j] != '\n' by {
            assert(parts[0][j] != '\n');
        }
        lemma_split_no_newline(parts[0]);
        assert(seq![parts[0]] =~= parts);
    } else {
        let init = parts.drop_last();
        assert forall|i: int, j: int| 0 <= i < init.len() && 0 <= j < init[i].len() implies #[trigger] init[i][j]
            != '\n' by {
            assert(init[i] == parts[i]);
        }
        lemma_join_lines_split(init);
        let last = parts.last();
        assert forall|j: int| 0 <= j < last.len() implies last[j] != '\n' by {
            assert(parts[parts.len() - 1] == last);
        }
        lemma_split_no_newline(last);
        let a = join_lines(init) + seq!['\n'];
        assert(a.drop_last() =~= join_lines(init));
        assert(split_lines(a) == split_lines(join_lines(init)).push(Seq::empty()));
        lemma_split_concat(a, last);
        assert(join_lines(parts) =~= a + last);
        assert(split_lines(a).drop_last() =~= init);
        assert(init + seq![last] =~= parts);
    }
}

/// With an inclusion pattern and no exclusion, the monitored text holds
/// the pattern's matches in `content`, one per line and in order: splitting
/// it at newlines gives back every match (when no match spans a newline).
pub proof fn lemma_monitored_lines_are_matches(content: Seq<char>, p: Seq<char>)
    requires
        regex_find_all(p, content).len() > 0,
        forall|i: int, j: int|
            0 <= i < regex_find_all(p, content).len() && 0 <= j < regex_find_all(p, content)[i].len()
                ==> #[trigger] regex_find_all(p, content)[i][j] != '\n',
    ensures
        split_lines(monitored_text(content, Some(p), None)) == regex_find_all(p, content),
{
    lemma_join_lines_split(regex_find_all(p, content));
}

/// With neither pattern, the whole content is monitored.
pub proof fn lemma_monitored_whole_page(content: Seq<char>)
    ensures
        monitored_text(content, None, None) == content,
{
}

/// A reported change is the diff of the two monitored texts: the raw pages
/// matter only through what the patterns select, so pages whose monitored
/// texts agree give the same answer, and a first fetch gives none.
pub proof fn lemma_change_is_diff_of_monitored(
    o1: Seq<char>,
    n1: Seq<char>,
    o2: Seq<char>,
    n2: Seq<char>,
    inclusion: Option<Seq<char>>,
    exclusion: Option<Seq<char>>,
)
    ensures
        change_between(None, n1, inclusion, exclusion) is None,
        change_between(Some(o1), n1, inclusion, exclusion) is Some <==> monitored_text(
            o1,
            inclusion,
            exclusion,
        ) != monitored_text(n1, inclusion, exclusion),
        change_between(Some(o1), n1, inclusion, exclusion) matches Some(d) ==> d
            == crate::diff::render(
            crate::diff::line_diff(
                monitored_text(o1, inclusion, exclusion),
                monitored_text(n1, inclusion, exclusion),
                3,
            ),
        ),
        monitored_text(o1, inclusion, exclusion) == monitored_text(o2, inclusion, exclusion)
            && monitored_text(n1, inclusion, exclusion) == monitored_text(n2, inclusion, exclusion)
            ==> change_between(Some(o1), n1, inclusion, exclusion) == change_between(
            Some(o2),
            n2,
            inclusion,
            exclusion,
        ),
{
}

} // verus!
