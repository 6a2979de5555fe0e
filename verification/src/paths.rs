//! Path handling that the layout logic needs from `std::path`.
//!
//! Paths are held as `String`s; deciding what a path's final component and
//! extension are, whether two paths name the same location, and how paths
//! order, is left to `std::path::Path`.
use std::path::Path;

use vstd::prelude::*;

verus! {

/// The final component of the path `p`, as `Path::file_name` reads it.
pub uninterp spec fn path_file_name(p: Seq<char>) -> Option<Seq<char>>;

/// The extension of the path `p`, as `Path::extension` reads it.
pub uninterp spec fn path_extension(p: Seq<char>) -> Option<Seq<char>>;

/// Whether `a` and `b` compare equal as `Path`s (component by component).
pub uninterp spec fn path_eq(a: Seq<char>, b: Seq<char>) -> bool;

/// Whether `a` orders before `b` as `Path`s (component by component).
pub uninterp spec fn path_lt(a: Seq<char>, b: Seq<char>) -> bool;

/// A relative path with no platform prefix: it does not start with `/` and
/// holds no `\` and no `:`.
pub open spec fn is_unprefixed(p: Seq<char>) -> bool {
    &&& p.len() > 0 ==> p[0] != '/'
    &&& forall|k: int| 0 <= k < p.len() ==> p[k] != '\\' && p[k] != ':'
}

/// An unprefixed path whose text after the last `/` is a plain name: not
/// empty, not `.` and not `..`.
pub open spec fn has_plain_last_segment(p: Seq<char>) -> bool {
    &&& is_unprefixed(p)
    &&& last_segment(p).len() > 0
    &&& last_segment(p) != seq!['.']
    &&& last_segment(p) != seq!['.', '.']
}

/// Index just past the last `/` in `p` (0 when there is none).
pub open spec fn last_segment_start(p: Seq<char>) -> int
    decreases p.len(),
{
    if p.len() == 0 {
        0
    } else if p.last() == '/' {
        p.len() as int
    } else {
        last_segment_start(p.drop_last())
    }
}

/// The text of `p` after its last `/`.
pub open spec fn last_segment(p: Seq<char>) -> Seq<char> {
    p.skip(last_segment_start(p))
}

/// Index of the last `.` in `s`, or -1 when there is none.
pub open spec fn last_dot(s: Seq<char>) -> int
    decreases s.len(),
{
    if s.len() == 0 {
        -1
    } else if s.last() == '.' {
        s.len() - 1
    } else {
        last_dot(s.drop_last())
    }
}

/// The extension of a plain file name: the text after its last `.`, or none
/// when it has no `.` or its only `.` comes first.
pub open spec fn name_extension(name: Seq<char>) -> Option<Seq<char>> {
    if last_dot(name) > 0 {
        Some(name.skip(last_dot(name) + 1))
    } else {
        None
    }
}

/// An unprefixed path of plain components joined by single `/`: not empty,
/// no leading or trailing `/`, no `//`, and no `.` or `..` component.
pub open spec fn is_plain_relative(p: Seq<char>) -> bool {
    &&& p.len() > 0
    &&& is_unprefixed(p)
    &&& p.last() != '/'
    &&& forall|k: int| 0 <= k < p.len() - 1 ==> !(#[trigger] p[k] == '/' && p[k + 1] == '/')
    &&& forall|k: int|
        0 <= k < p.len() && #[trigger] p[k] == '.' && (k == 0 || p[k - 1] == '/') ==> !(k + 1 == p.len() || p[k + 1] == '/')
            && !(k + 1 < p.len() && p[k + 1] == '.' && (k + 2 == p.len() || p[k + 2] == '/'))
}

/// Calls `Path::new(p).file_name()` and turns the component into a `String`.
///
/// Claims that the result is `path_file_name(p)`, and that for a path whose
/// text after the last `/` is a plain name, and that neither starts with `/`
/// nor holds `\` or `:` (so that no platform reads a root, a drive, a UNC or
/// device prefix, or another separator in it), that name is the result. What
/// `file_name` returns on other paths (`..` at the end, a root or prefix,
/// trailing separators) is left unsaid here.
#[verifier::external_body]
pub(crate) fn file_name_of(p: &String) -> (r: Option<String>)
    ensures
        r.is_some() ==> path_file_name(p@) == Some(r.unwrap()@),
        r.is_none() ==> path_file_name(p@).is_none(),
        has_plain_last_segment(p@) ==> r.is_some() && r.unwrap()@ == last_segment(p@),
{
    Path::new(p.as_str()).file_name().and_then(|n| n.to_str()).map(|s| s.to_string())
}

/// Calls `Path::new(p).extension()` and turns the extension into a `String`.
///
/// Claims that the result is `path_extension(p)`, and that for a path whose
/// file name is its plain last segment (as for `file_name_of`) the result is
/// the text after the name's last `.`, or none when the name has no `.` or
/// its only `.` comes first, as `extension` documents. What it returns on
/// other paths is left unsaid here.
#[verifier::external_body]
pub(crate) fn extension_of(p: &String) -> (r: Option<String>)
    ensures
        r.is_some() ==> path_extension(p@) == Some(r.unwrap()@),
        r.is_none() ==> path_extension(p@).is_none(),
        has_plain_last_segment(p@) ==> (match r {
            Some(e) => name_extension(last_segment(p@)) == Some(e@),
            None => name_extension(last_segment(p@)) is None,
        }),
{
    Path::new(p.as_str()).extension().and_then(|e| e.to_str()).map(|s| s.to_string())
}

/// Compares `Path::new(a) == Path::new(b)`.
///
/// Claims that the result is `path_eq(a, b)`, that it does not depend on the
/// order of the two arguments, that equal texts are equal paths, and that two
/// paths made of plain components joined by single `/` are equal only when
/// their texts are. Which other different texts name the same path (a
/// trailing `/`, repeated `/`, a `.` component) is left unsaid here.
#[verifier::external_body]
pub(crate) fn same_path(a: &String, b: &String) -> (r: bool)
    ensures
        r == path_eq(a@, b@),
        r == path_eq(b@, a@),
        a@ == b@ ==> r,
        is_plain_relative(a@) && is_plain_relative(b@) ==> (r <==> a@ == b@),
{
    Path::new(a.as_str()) == Path::new(b.as_str())
}

/// Compares `Path::new(a) < Path::new(b)`.
///
/// Claims that the result is `path_lt(a, b)` and that when `a` orders before
/// `b`, `b` does not order before `a`. That the order is total and
/// transitive, and how it compares components, is left unsaid here.
#[verifier::external_body]
pub(crate) fn path_less(a: &String, b: &String) -> (r: bool)
    ensures
        r == path_lt(a@, b@),
        r ==> !path_lt(b@, a@),
{
    Path::new(a.as_str()) < Path::new(b.as_str())
}

} // verus!
