//! File-system paths, held as strings, joined and inspected with
//! `std::path::Path`.
use vstd::prelude::*;

verus! {

/// `Path::parent` of `p`: `p` without its last component, or `None` when
/// `p` ends in a root or prefix or is empty.
pub uninterp spec fn path_parent(p: Seq<char>) -> Option<Seq<char>>;

/// `Path::is_absolute` of `p`.
pub uninterp spec fn path_is_absolute(p: Seq<char>) -> bool;

/// `Path::join` of `base` and `p`.
pub uninterp spec fn path_join(base: Seq<char>, p: Seq<char>) -> Seq<char>;

/// The parent of `p`: `std::path::Path::parent`. A parent of a UTF-8 path
/// is UTF-8, so the conversion back to a string loses nothing.
#[verifier::external_body]
pub(crate) fn parent_of(p: &str) -> (r: Option<String>)
    ensures
        match r {
            Some(d) => path_parent(p@) == Some(d@),
            None => path_parent(p@) is None,
        },
{
    std::path::Path::new(p).parent().map(|d| d.to_string_lossy().into_owned())
}

/// Whether `p` is absolute: `std::path::Path::is_absolute`.
#[verifier::external_body]
pub(crate) fn is_absolute(p: &str) -> (b: bool)
    ensures
        b == path_is_absolute(p@),
{
    std::path::Path::new(p).is_absolute()
}

/// `p` joined onto `base`: `std::path::Path::join`. Joining UTF-8 paths
/// gives a UTF-8 path, so the conversion back to a string loses nothing.
#[verifier::external_body]
pub(crate) fn join(base: &str, p: &str) -> (r: String)
    ensures
        r@ == path_join(base@, p@),
{
    std::path::Path::new(base).join(p).to_string_lossy().into_owned()
}

/// Where a relative path in the configuration is taken from: the
/// directory of the configuration file, or `.` when it has none.
pub open spec fn config_dir(config_path: Seq<char>) -> Seq<char> {
    match path_parent(config_path) {
        Some(d) => if d.len() > 0 {
            d
        } else {
            seq!['.']
        },
        None => seq!['.'],
    }
}

/// `p` taken relative to `base`: unchanged if absolute, joined otherwise.
pub open spec fn resolve_against(base: Seq<char>, p: Seq<char>) -> Seq<char> {
    if path_is_absolute(p) {
        p
    } else {
        path_join(base, p)
    }
}

/// The directory that holds the configuration file at `config_path`.
pub fn config_dir_of(config_path: &str) -> (r: String)
    ensures
        r@ == config_dir(config_path@),
{
    match parent_of(config_path) {
        Some(d) => {
            if d.as_str().is_empty() {
                let mut dot = String::new();
                dot.append(".");
                proof {
                    reveal_strlit(".");
                }
                assert(dot@ =~= seq!['.']);
                dot
            } else {
                d
            }
        },
        None => {
            let mut dot = String::new();
            dot.append(".");
            proof {
                reveal_strlit(".");
            }
            assert(dot@ =~= seq!['.']);
            dot
        },
    }
}

/// `p` taken relative to `base`.
pub fn resolve(base: &str, p: &str) -> (r: String)
    ensures
        r@ == resolve_against(base@, p@),
{
    if is_absolute(p) {
        p.to_owned()
    } else {
        join(base, p)
    }
}

/// Relative paths in the configuration are taken from the directory of the
/// configuration file whenever it has a non-empty parent (absolute or
/// relative), and from `.` only when it has none; an absolute path is kept
/// as it is.
pub proof fn lemma_config_dir(config_path: Seq<char>, p: Seq<char>, d: Seq<char>)
    ensures
        path_parent(config_path) == Some(d) && d.len() > 0 ==> config_dir(config_path) == d
            && (!path_is_absolute(p) ==> resolve_against(config_dir(config_path), p) == path_join(
            d,
            p,
        )),
        (path_parent(config_path) is None || path_parent(config_path) == Some(Seq::<char>::empty()))
            ==> config_dir(config_path) == seq!['.'],
        path_is_absolute(p) ==> resolve_against(config_dir(config_path), p) == p,
{
}

} // verus!
