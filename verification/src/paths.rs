//! File paths, written as strings with `/` between their parts.
use vstd::prelude::*;

use crate::text;

verus! {

/// Whether a path begins at the root.
pub open spec fn absolute(path: Seq<char>) -> bool {
    path.len() > 0 && path[0] == '/'
}

/// The path that `name` stands for when it is read from the directory `base`:
/// itself where it is absolute, else `base` with `name` behind it.
pub open spec fn below(base: Seq<char>, name: Seq<char>) -> Seq<char> {
    if absolute(name) {
        name
    } else if base.len() == 0 || base.last() == '/' {
        base + name
    } else {
        base.push('/') + name
    }
}

/// Whether a path begins at the root.
pub fn is_absolute(path: &str) -> (r: bool)
    ensures
        r == absolute(path@),
{
    let v = text::chars_of(path);
    v.len() > 0 && v[0] == '/'
}

/// The path that `name` stands for when it is read from the directory `base`.
pub fn join(base: &str, name: &str) -> (r: String)
    ensures
        r@ == below(base@, name@),
{
    if is_absolute(name) {
        return name.to_owned();
    }
    let v = text::chars_of(base);
    let mut r = base.to_owned();
    if v.len() > 0 && v[v.len() - 1] != '/' {
        r.push('/');
    }
    r.append(name);
    r
}

// ---------------------------------------------------------------------------
// The parts of a path
// ---------------------------------------------------------------------------

/// What `std::path::Path::parent` makes of a path.
pub uninterp spec fn parent_path(path: Seq<char>) -> Option<Seq<char>>;

/// What `std::path::Path::file_name` makes of a path.
pub uninterp spec fn last_name(path: Seq<char>) -> Option<Seq<char>>;

/// What `std::path::Path::with_extension` makes of a path and an extension.
pub uninterp spec fn extended(path: Seq<char>, extension: Seq<char>) -> Seq<char>;

/// Whether `name` is the name of a file: not empty, with no separator in it, and
/// not a way to speak of a directory.
pub open spec fn plain_name(name: Seq<char>) -> bool {
    name.len() > 0 && !name.contains('/') && name != "."@ && name != ".."@
}

/// Whether `dir` is a directory whose path ends with a name that is taken as it
/// is written: not with a separator, and not with a dot.
pub open spec fn plain_dir(dir: Seq<char>) -> bool {
    dir.len() > 0 && dir.last() != '/' && dir.last() != '.'
}

/// `name` with another extension: what stands behind its last dot is replaced,
/// and where it has no dot, or only the one that it begins with, the extension is
/// put behind it.
pub open spec fn renamed(name: Seq<char>, extension: Seq<char>) -> Seq<char> {
    let dot = text::last_position(name, '.');
    let stem = if dot > 0 {
        name.take(dot)
    } else {
        name
    };
    stem + "."@ + extension
}

/// Whether `name` is the name of a file, also without its extension.
pub open spec fn takes_extension(name: Seq<char>) -> bool {
    let dot = text::last_position(name, '.');
    plain_name(name) && (dot > 0 ==> plain_name(name.take(dot)))
}

/// Calls `std::path::Path::parent`: the path without its last part, if it has
/// one. Claimed of it: what it returns depends on the path alone, and of a name
/// in a directory it is the directory. How it passes over repeated separators
/// and parts that are a dot is not stated.
#[verifier::external_body]
pub(crate) fn parent(path: &str) -> (r: Option<String>)
    ensures
        r.deep_view() == parent_path(path@),
        forall|dir: Seq<char>, name: Seq<char>|
            plain_dir(dir) && plain_name(name) && path@ == #[trigger] below(dir, name)
                ==> r.deep_view() == Some(dir),
{
    std::path::Path::new(path).parent().map(|dir| dir.display().to_string())
}

/// Calls `std::path::Path::file_name`: the last part of the path, if that is a
/// name. Claimed of it: what it returns depends on the path alone, and of a name
/// in a directory it is the name. How it passes over separators at the end is
/// not stated.
#[verifier::external_body]
pub(crate) fn file_name(path: &str) -> (r: Option<String>)
    ensures
        r.deep_view() == last_name(path@),
        forall|dir: Seq<char>, name: Seq<char>|
            plain_name(name) && path@ == #[trigger] below(dir, name) ==> r.deep_view() == Some(name),
{
    std::path::Path::new(path).file_name().and_then(|name| name.to_str()).map(
        |name| name.to_string(),
    )
}

/// Calls `std::path::Path::with_extension`: the path with another extension.
/// Claimed of it: what it returns depends on the path and the extension alone,
/// and of a name in a directory it is the name with that extension in the same
/// directory. What it does to a path that ends otherwise, or to a name that is
/// a dot or two without its extension, is not stated. It panics on an
/// extension with a separator in it.
#[verifier::external_body]
pub(crate) fn with_extension(path: &str, extension: &str) -> (r: String)
    requires
        !extension@.contains('/'),
    ensures
        r@ == extended(path@, extension@),
        forall|dir: Seq<char>, name: Seq<char>|
            extension@.len() > 0 && takes_extension(name) && path@ == #[trigger] below(dir, name)
                ==> r@ == below(dir, renamed(name, extension@)),
{
    std::path::Path::new(path).with_extension(extension).display().to_string()
}

/// Two different relative names stand for different paths in one directory.
pub proof fn names_stay_apart(base: Seq<char>, a: Seq<char>, b: Seq<char>)
    requires
        !absolute(a),
        !absolute(b),
        a != b,
    ensures
        below(base, a) != below(base, b),
{
    let front = if base.len() == 0 || base.last() == '/' {
        base
    } else {
        base.push('/')
    };
    if front + a == front + b {
        assert((front + a).skip(front.len() as int) =~= a);
        assert((front + b).skip(front.len() as int) =~= b);
    }
}

/// A name lies in the directory: one separator stands between them, whether the
/// directory is written with one or not. An absolute name is kept.
pub proof fn name_lies_in_the_directory(base: Seq<char>, name: Seq<char>)
    ensures
        name.len() > 0 && name[0] == '/' ==> below(base, name) == name,
        name.len() == 0 || name[0] != '/' ==> {
            &&& base.len() > 0 && base.last() != '/' ==> below(base, name) == base + "/"@ + name
            &&& below(base + "/"@, name) == base + "/"@ + name
            &&& below(Seq::empty(), name) == name
        },
{
    reveal_strlit("/");
    assert((base + "/"@).last() == '/');
    assert(base.push('/') =~= base + "/"@);
    assert(Seq::<char>::empty() + name =~= name);
}

/// A name gets its new extension in the place of its own, which stands behind
/// the last dot; a name without a dot, or with one only in front, gets it behind
/// the whole name.
pub proof fn extension_is_exchanged(
    stem: Seq<char>,
    own: Seq<char>,
    name: Seq<char>,
    extension: Seq<char>,
)
    requires
        stem.len() > 0,
        !own.contains('.'),
        !name.contains('.'),
    ensures
        renamed(stem + "."@ + own, extension) == stem + "."@ + extension,
        renamed(name, extension) == name + "."@ + extension,
        renamed("."@ + name, extension) == "."@ + name + "."@ + extension,
{
    reveal_strlit(".");
    let none = Seq::<char>::empty();
    text::cut_is_at_the_character(stem, '.', own);
    assert(stem + "."@ + own =~= stem.push('.') + own);
    assert((stem.push('.') + own).take(stem.len() as int) =~= stem);
    text::cut_is_at_the_character(name, '.', none);
    text::cut_is_at_the_character(none, '.', name);
    assert("."@ + name =~= none.push('.') + name);
}

} // verus!
