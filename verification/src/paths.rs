//! Paths as texts: trailing separators, parents, and the walk from a path up
//! to the nearest configured root.

use vstd::prelude::*;

verus! {

/// The parent of a path as `std::path::Path::parent` gives it on the
/// platform the library is built for; `None` where the path ends in a root
/// or is empty.
pub uninterp spec fn parent_of(path: Seq<char>) -> Option<Seq<char>>;

/// What an optional string holds.
pub open spec fn option_text(text: Option<String>) -> Option<Seq<char>> {
    match text {
        Some(s) => Some(s@),
        None => None,
    }
}

/// `std::path::Path::parent`: the path without its final component, if there
/// is one. Trusted: the result is the named parent, and a parent, lacking a
/// component, is shorter than the path.
#[verifier::external_body]
pub(crate) fn parent_path(path: &str) -> (parent: Option<String>)
    ensures
        option_text(parent) == parent_of(path@),
        parent matches Some(p) ==> p@.len() < path@.len(),
{
    match std::path::Path::new(path).parent() {
        Some(p) => Some(p.to_string_lossy().into_owned()),
        None => None,
    }
}

/// A character that separates the components of a path.
pub open spec fn is_separator(c: char) -> bool {
    c == '/' || c == '\\'
}

/// `path` without its trailing separators.
pub open spec fn trimmed(path: Seq<char>) -> Seq<char>
    decreases path.len(),
{
    if path.len() > 0 && is_separator(path.last()) {
        trimmed(path.drop_last())
    } else {
        path
    }
}

/// Trimming shortens or keeps, and what is trimmed stays as it is.
pub proof fn lemma_trimmed(path: Seq<char>)
    ensures
        trimmed(path).len() <= path.len(),
        trimmed(trimmed(path)) == trimmed(path),
    decreases path.len(),
{
    if path.len() > 0 && is_separator(path.last()) {
        lemma_trimmed(path.drop_last());
    }
}

/// The level above the trimmed path `current`: its parent without trailing
/// separators; none where the path has no parent. A parent is shorter than
/// its path, and only such a one counts as a level above.
pub open spec fn level_above(current: Seq<char>) -> Option<Seq<char>> {
    match parent_of(current) {
        Some(p) => if trimmed(p).len() < current.len() {
            Some(trimmed(p))
        } else {
            None
        },
        None => None,
    }
}

/// The keys that a walk visits from the trimmed path `current` upwards: it
/// ends at the first configured root, or where there is no level above.
pub open spec fn walk_from(roots: Seq<Seq<char>>, current: Seq<char>) -> Seq<Seq<char>>
    decreases current.len(),
{
    if roots.contains(current) {
        seq![current]
    } else {
        match level_above(current) {
            Some(next) => seq![current] + walk_from(roots, next),
            None => seq![current],
        }
    }
}

/// The keys that the walk from `path` visits: `path` itself first, then its
/// ancestors, each without trailing separators.
pub open spec fn walk(roots: Seq<Seq<char>>, path: Seq<char>) -> Seq<Seq<char>> {
    walk_from(roots, trimmed(path))
}

/// A walk never is empty, starts at its path, and every later key is shorter
/// than the one before it.
pub proof fn lemma_walk_shrinks(roots: Seq<Seq<char>>, current: Seq<char>)
    ensures
        walk_from(roots, current).len() >= 1,
        walk_from(roots, current)[0] == current,
        forall|i: int, j: int|
            0 <= i < j < walk_from(roots, current).len() ==> (#[trigger] walk_from(
                roots,
                current,
            )[j]).len() < (#[trigger] walk_from(roots, current)[i]).len(),
    decreases current.len(),
{
    let keys = walk_from(roots, current);
    if !roots.contains(current) {
        if let Some(next) = level_above(current) {
            let rest = walk_from(roots, next);
            lemma_walk_shrinks(roots, next);
            assert forall|i: int, j: int| 0 <= i < j < keys.len() implies (#[trigger] keys[j]).len()
                < (#[trigger] keys[i]).len() by {
                assert(keys[j] == rest[j - 1]);
                if i > 0 {
                    assert(keys[i] == rest[i - 1]);
                } else {
                    if j - 1 > 0 {
                        assert(rest[j - 1].len() < rest[0].len());
                    }
                }
            }
        }
    }
}

/// `path` without its trailing separators.
pub fn strip_trailing_separators(path: &str) -> (stripped: String)
    ensures
        stripped@ == trimmed(path@),
{
    let mut end: usize = path.unicode_len();
    assert(path@.take(end as int) =~= path@);
    while end > 0 && (path.get_char(end - 1) == '/' || path.get_char(end - 1) == '\\')
        invariant
            end <= path@.len(),
            trimmed(path@) == trimmed(path@.take(end as int)),
        decreases end,
    {
        proof {
            assert(path@.take(end as int).drop_last() =~= path@.take(end - 1));
        }
        end -= 1;
    }
    proof {
        assert(path@.subrange(0, end as int) =~= path@.take(end as int));
    }
    String::from_str(path.substring_char(0, end))
}

} // verus!
