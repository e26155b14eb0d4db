//! The last component of a path, as std finds it, and the project name that it
//! gives.

use vstd::prelude::*;
use vstd::string::*;

verus! {

/// The name of a project whose directory has none of its own.
pub const UNKNOWN_PROJECT: &'static str = "unknown";

/// Where the last component of `path` begins: behind the last `/`, or at the
/// start of a path without one.
pub open spec fn last_start(path: Seq<char>) -> int
    decreases path.len(),
{
    if path.len() == 0 || path.last() == '/' {
        path.len() as int
    } else {
        last_start(path.drop_last())
    }
}

/// The pieces between the slashes of `path`, in order, empty ones included.
pub open spec fn pieces(path: Seq<char>) -> Seq<Seq<char>>
    decreases path.len(),
{
    let start = last_start(path);
    let piece = path.skip(start);
    if 0 < start <= path.len() {
        pieces(path.take(start - 1)).push(piece)
    } else {
        seq![piece]
    }
}

/// Whether a piece is a component: `//`, a trailing `/` and `/./` separate no
/// more than one slash does.
pub open spec fn is_component(piece: Seq<char>) -> bool {
    piece.len() > 0 && piece != seq!['.']
}

/// The components of `path`, in order.
pub open spec fn components(path: Seq<char>) -> Seq<Seq<char>> {
    pieces(path).filter(|piece: Seq<char>| is_component(piece))
}

/// The file name of `path`: its last component, unless it has none or that
/// component leads to a parent directory.
pub open spec fn file_name_of(path: Seq<char>) -> Option<Seq<char>> {
    let names = components(path);
    if names.len() == 0 || names.last() == seq!['.', '.'] {
        None
    } else {
        Some(names.last())
    }
}

/// Whether `path` reads the same on every platform. Only `/` separates its
/// components: it holds no backslash, which separates on some platforms, and
/// neither a colon nor two slashes at its start, which may belong to a drive or
/// a network share there.
pub open spec fn is_portable(path: Seq<char>) -> bool {
    &&& !path.contains('\\')
    &&& !path.contains(':')
    &&& !(path.len() >= 2 && path[0] == '/' && path[1] == '/')
}

/// Whether `name` can be what the platform finds to be the file name of
/// `path`. On a portable path it is settled.
pub open spec fn can_be_file_name(name: Option<Seq<char>>, path: Seq<char>) -> bool {
    is_portable(path) ==> name == file_name_of(path)
}

/// What a file name says.
pub open spec fn name_view(name: Option<String>) -> Option<Seq<char>> {
    match name {
        Some(name) => Some(name@),
        None => None,
    }
}

/// Calls `std::path::Path::file_name`, and turns the name, a piece of a string,
/// into a string again. The contract claims what the documentation of
/// `Path::components` and `Path::file_name` says of paths that read the same on
/// every platform: slashes separate, repeated and trailing ones count for
/// nothing, nor does `.`, and the file name is the last component unless that
/// is `..` or there is none. Of other paths it claims nothing: what separates
/// components there, and what is a drive or a share, rests on the platform.
#[verifier::external_body]
pub(crate) fn file_name(path: &str) -> (name: Option<String>)
    ensures
        can_be_file_name(name_view(name), path@),
{
    Some(std::path::Path::new(path).file_name()?.to_str()?.to_string())
}

/// The name of the project for a directory with the given file name: that
/// name, or `unknown` where there is none or it is empty.
pub open spec fn project_name_of(name: Option<Seq<char>>) -> Seq<char> {
    match name {
        Some(name) if name.len() > 0 => name,
        _ => UNKNOWN_PROJECT@,
    }
}

/// The name under which a directory with the given file name is listed: that
/// name, or `unknown` where there is none.
pub open spec fn listed_name_of(name: Option<Seq<char>>) -> Seq<char> {
    match name {
        Some(name) => name,
        None => UNKNOWN_PROJECT@,
    }
}

/// The name of the project for sessions that ran in a directory with the given
/// file name.
pub fn project_name(name: &Option<String>) -> (project: String)
    ensures
        project@ == project_name_of(name_view(*name)),
{
    match name {
        Some(name) => if name.as_str().unicode_len() > 0 {
            name.clone()
        } else {
            UNKNOWN_PROJECT.to_owned()
        },
        None => UNKNOWN_PROJECT.to_owned(),
    }
}

/// The name under which the project of a directory with the given file name is
/// listed.
pub fn listed_name(name: &Option<String>) -> (listed: String)
    ensures
        listed@ == listed_name_of(name_view(*name)),
{
    match name {
        Some(name) => name.clone(),
        None => UNKNOWN_PROJECT.to_owned(),
    }
}

proof fn lemma_last_start(path: Seq<char>)
    ensures
        0 <= last_start(path) <= path.len(),
        last_start(path) > 0 ==> path[last_start(path) - 1] == '/',
        forall|i: int| last_start(path) <= i < path.len() ==> path[i] != '/',
    decreases path.len(),
{
    if path.len() > 0 && path.last() != '/' {
        lemma_last_start(path.drop_last());
        assert forall|i: int| last_start(path) <= i < path.len() implies path[i] != '/' by {
            if i < path.len() - 1 {
                assert(path.drop_last()[i] == path[i]);
            }
        }
    }
}

/// The only place where a last component can begin.
proof fn lemma_last_start_unique(path: Seq<char>, start: int)
    requires
        0 <= start <= path.len(),
        start > 0 ==> path[start - 1] == '/',
        forall|i: int| start <= i < path.len() ==> path[i] != '/',
    ensures
        last_start(path) == start,
{
    lemma_last_start(path);
}

/// Whether the last piece counts decides how the components of a path end.
proof fn lemma_components_step(path: Seq<char>)
    ensures
        ({
            let start = last_start(path);
            let piece = path.skip(start);
            let before = if start > 0 {
                components(path.take(start - 1))
            } else {
                Seq::empty()
            };
            components(path) == if is_component(piece) {
                before.push(piece)
            } else {
                before
            }
        }),
{
    reveal(Seq::filter);
    lemma_last_start(path);
    let keep = |piece: Seq<char>| is_component(piece);
    let start = last_start(path);
    let piece = path.skip(start);
    if start > 0 {
        let rest = pieces(path.take(start - 1));
        assert(pieces(path) == rest.push(piece));
        assert(rest.push(piece).drop_last() =~= rest);
    } else {
        assert(pieces(path) == seq![piece]);
        assert(seq![piece].drop_last() =~= Seq::empty());
        assert(Seq::<Seq<char>>::empty().filter(keep) =~= Seq::empty());
    }
}

proof fn lemma_components_have_no_slash(path: Seq<char>)
    ensures
        forall|k: int|
            0 <= k < components(path).len() ==> is_component(#[trigger] components(path)[k])
                && !components(path)[k].contains('/'),
    decreases path.len(),
{
    let start = last_start(path);
    let piece = path.skip(start);
    lemma_last_start(path);
    lemma_components_step(path);
    assert forall|i: int| 0 <= i < piece.len() implies piece[i] != '/' by {
        assert(piece[i] == path[start + i]);
    }
    if start > 0 {
        lemma_components_have_no_slash(path.take(start - 1));
    }
}

/// A file name is never empty, holds no slash, and names an entry of its
/// directory, not the directory itself or its parent.
pub proof fn law_file_name_is_one_component(path: Seq<char>)
    ensures
        file_name_of(path) matches Some(name) ==> {
            &&& name.len() > 0
            &&& !name.contains('/')
            &&& name != seq!['.']
            &&& name != seq!['.', '.']
        },
{
    lemma_components_have_no_slash(path);
    let names = components(path);
    if names.len() > 0 {
        assert(is_component(names[names.len() - 1]));
    }
}

/// A project always has a name: it is never empty, whatever the platform finds
/// to be the file name of its directory.
pub proof fn law_project_name_is_never_empty(name: Option<Seq<char>>)
    ensures
        project_name_of(name).len() > 0,
{
    reveal_strlit("unknown");
}

/// Both names of a project are the file name of its directory wherever there
/// is one with anything in it, and `unknown` where there is none.
pub proof fn law_project_goes_by_the_file_name(name: Option<Seq<char>>)
    ensures
        name matches Some(found) ==> {
            &&& listed_name_of(name) == found
            &&& found.len() > 0 ==> project_name_of(name) == found
            &&& found.len() == 0 ==> project_name_of(name) == "unknown"@
        },
        name is None ==> project_name_of(name) == "unknown"@ && listed_name_of(name)
            == "unknown"@,
{
}

/// A directory of plain names is known by the last of them on every platform:
/// where neither `dir` nor `name` holds a backslash or a colon, and the path
/// does not start with two slashes, the file name of `name` in `dir` is `name`.
pub proof fn law_plain_directory_is_known_by_its_last_name(
    dir: Seq<char>,
    name: Seq<char>,
    found: Option<Seq<char>>,
)
    requires
        name.len() > 0,
        !name.contains('/'),
        name != seq!['.'],
        name != seq!['.', '.'],
        forall|i: int| 0 <= i < dir.len() ==> #[trigger] dir[i] != '\\' && dir[i] != ':',
        forall|i: int| 0 <= i < name.len() ==> #[trigger] name[i] != '\\' && name[i] != ':',
        dir.len() > 0 && dir[0] == '/' ==> dir.len() > 1 && dir[1] != '/',
        can_be_file_name(found, dir.push('/') + name),
    ensures
        found == Some(name),
{
    let path = dir.push('/') + name;
    assert forall|i: int| 0 <= i < path.len() implies #[trigger] path[i] != '\\' && path[i]
        != ':' by {
        if i < dir.len() {
            assert(path[i] == dir[i]);
        } else if i > dir.len() {
            assert(path[i] == name[i - dir.len() - 1]);
        }
    }
    if dir.len() == 0 {
        assert(path[1] == name[0]);
    }
    assert(is_portable(path));
    law_file_name_is_the_base_name(dir, name);
}

/// A directory whose path reads the same on every platform has one project
/// name: its base name, or `unknown` if it has none. The project is listed
/// under the name that it has.
pub proof fn law_portable_directory_has_one_name(name: Option<Seq<char>>, cwd: Seq<char>)
    requires
        is_portable(cwd),
        can_be_file_name(name, cwd),
    ensures
        project_name_of(name) == match file_name_of(cwd) {
            Some(base) => base,
            None => UNKNOWN_PROJECT@,
        },
        listed_name_of(name) == project_name_of(name),
{
    law_file_name_is_one_component(cwd);
}

/// A trailing slash changes nothing.
pub proof fn law_trailing_slash_is_ignored(path: Seq<char>)
    ensures
        file_name_of(path.push('/')) == file_name_of(path),
{
    let longer = path.push('/');
    lemma_components_step(longer);
    assert(last_start(longer) == longer.len());
    assert(longer.skip(longer.len() as int) =~= Seq::empty());
    assert(longer.take(longer.len() - 1) =~= path);
}

/// The file name is the base name of the directory: whatever stands before it,
/// what follows the last slash is the file name.
pub proof fn law_file_name_is_the_base_name(dir: Seq<char>, name: Seq<char>)
    requires
        is_component(name),
        !name.contains('/'),
        name != seq!['.', '.'],
    ensures
        file_name_of(dir.push('/') + name) == Some(name),
        file_name_of(name) == Some(name),
{
    let path = dir.push('/') + name;
    let start = dir.len() + 1;
    assert(path[start - 1] == '/');
    assert forall|i: int| start <= i < path.len() implies path[i] != '/' by {
        assert(path[i] == name[i - start]);
    }
    lemma_last_start_unique(path, start as int);
    lemma_components_step(path);
    assert(path.skip(start as int) =~= name);
    assert forall|i: int| 0 <= i < name.len() implies name[i] != '/' by {}
    lemma_last_start_unique(name, 0);
    lemma_components_step(name);
    assert(name.skip(0) =~= name);
}

/// A path that leads to a parent directory, to the root, or nowhere has no
/// file name.
pub proof fn law_parent_and_root_have_no_file_name(dir: Seq<char>)
    ensures
        file_name_of(dir.push('/') + seq!['.', '.']) is None,
        file_name_of(seq!['.', '.']) is None,
        file_name_of(seq!['/']) is None,
        file_name_of(Seq::empty()) is None,
{
    let up = seq!['.', '.'];
    let path = dir.push('/') + up;
    let start = dir.len() + 1;
    lemma_last_start_unique(path, start as int);
    lemma_components_step(path);
    assert(path.skip(start as int) =~= up);
    lemma_last_start_unique(up, 0);
    lemma_components_step(up);
    assert(up.skip(0) =~= up);
    let nowhere = Seq::<char>::empty();
    lemma_last_start_unique(nowhere, 0);
    lemma_components_step(nowhere);
    assert(nowhere.skip(0) =~= nowhere);
    law_trailing_slash_is_ignored(nowhere);
    assert(nowhere.push('/') =~= seq!['/']);
}

} // verus!
