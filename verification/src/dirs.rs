//! Where the game keeps its files, across platforms.
use vstd::prelude::*;

verus! {

/// `base` ends in a path separator, `/` or `\`.
pub open spec fn ends_in_separator(base: Seq<char>) -> bool {
    base.len() > 0 && (base.last() == '/' || base.last() == '\\')
}

/// `base` is a bare drive prefix, such as `C:`.
pub open spec fn bare_drive(base: Seq<char>) -> bool {
    base.len() == 2 && base[1] == ':'
}

/// `r` is `part` appended to the path `base`: after one path separator,
/// `/` or `\`; or directly, which only a base that is empty, ends in a
/// separator or is a bare drive prefix allows.
pub open spec fn joined(base: Seq<char>, part: Seq<char>, r: Seq<char>) -> bool {
    ||| r == base + seq!['/'] + part
    ||| r == base + seq!['\\'] + part
    ||| (r == base + part && (base.len() == 0 || ends_in_separator(base) || bare_drive(base)))
}

/// The name of the saves directory.
pub open spec fn saves() -> Seq<char> {
    seq!['s', 'a', 'v', 'e', 's']
}

/// A base path in Windows' verbatim form, starting `\\?\`. `Path::join`
/// normalizes such a base together with the part it appends.
pub open spec fn verbatim(base: Seq<char>) -> bool {
    &&& base.len() >= 4
    &&& base[0] == '\\'
    &&& base[1] == '\\'
    &&& base[2] == '?'
    &&& base[3] == '\\'
}

/// The qualifier, organization and application name under which the game
/// keeps its files.
pub open spec fn project_names() -> (Seq<char>, Seq<char>, Seq<char>) {
    (seq!['c', 'o', 'm'], seq!['w', 't', 'o', 'l', 'l'], seq!['S', 'e', 'n', 't', 'i', 'n', 'e', 'l'])
}

/// The qualifier, organization and application name of the game.
pub fn project() -> (r: (&'static str, &'static str, &'static str))
    ensures
        (r.0@, r.1@, r.2@) == project_names(),
{
    let r = ("com", "wtoll", "Sentinel");
    proof {
        reveal_strlit("com");
        reveal_strlit("wtoll");
        reveal_strlit("Sentinel");
        assert(r.0@ =~= project_names().0);
        assert(r.1@ =~= project_names().1);
        assert(r.2@ =~= project_names().2);
    }
    r
}

/// The local data directory of a project, as `directories` finds it:
/// `ProjectDirs::from` with the three names, then `data_local_dir`, turned
/// into text with `to_string_lossy` (a path that is not valid UTF-8 has its
/// invalid parts replaced). Nothing is promised of the result: it depends on
/// the platform and on the environment.
#[verifier::external_body]
fn project_data_local_dir(qualifier: &str, organization: &str, application: &str) -> (r: Option<String>)
{
    match directories::ProjectDirs::from(qualifier, organization, application) {
        Some(dirs) => Some(dirs.data_local_dir().to_string_lossy().into_owned()),
        None => None,
    }
}

/// `s` ends with `part`.
pub open spec fn ends_with(s: Seq<char>, part: Seq<char>) -> bool {
    s.len() >= part.len() && s.subrange(s.len() - part.len(), s.len() as int) == part
}

/// `r` is the saves directory within the local data directory `dir`: it
/// ends with `saves`, and where `dir` is not in verbatim form it is `saves`
/// appended to `dir`.
pub open spec fn saves_within(dir: Seq<char>, r: Seq<char>) -> bool {
    &&& ends_with(r, saves())
    &&& !verbatim(dir) ==> joined(dir, saves(), r)
}

/// `Path::join` of std, on paths given as text. The contract claims that a
/// relative part without separators, drive prefix or dots ends the joined
/// path, whatever the base; and that on a base that is not in verbatim form
/// the part is appended after one separator (`/`, or `\` on Windows),
/// except that no separator is added after an empty base, a base that
/// already ends in one, or a bare drive prefix on Windows. Which separator,
/// and whether one is added in those three cases, it leaves open. A verbatim base is normalized
/// by `Path::join` (references to `.` and `..` are removed); the contract
/// says no more of it than that the part ends the result.
#[verifier::external_body]
fn path_join(base: &str, part: &str) -> (r: String)
    requires
        part@.len() > 0,
        forall|i: int|
            0 <= i < part@.len() ==> part@[i] != '/' && part@[i] != '\\' && part@[i] != ':' && part@[i]
                != '.',
    ensures
        ends_with(r@, part@),
        !verbatim(base@) ==> joined(base@, part@, r@),
{
    std::path::Path::new(base).join(part).to_string_lossy().into_owned()
}

/// The saves directory within the local data directory `dir`, if there is
/// one: `saves` joined onto it.
pub fn saves_directory_in(dir: Option<String>) -> (r: Option<String>)
    ensures
        r is None <==> dir is None,
        r matches Some(p) ==> saves_within(dir->0@, p@),
{
    match dir {
        Some(dir) => {
            let part = "saves";
            proof {
                reveal_strlit("saves");
            }
            assert(part@ =~= saves());
            Some(path_join(dir.as_str(), part))
        },
        None => None,
    }
}

/// Returns the saves directory of the game: the local data directory that
/// `directories` finds for the game's names ([`project`]), with `saves`
/// joined onto it by [`saves_directory_in`]. Whether there is such a
/// directory, and where, depends on the platform and the environment; what
/// is found always ends with `saves`.
pub fn save_directory() -> (r: Option<String>)
    ensures
        r matches Some(p) ==> ends_with(p@, saves()) && exists|dir: Seq<char>| #[trigger] saves_within(dir, p@),
{
    let (qualifier, organization, application) = project();
    let dir = project_data_local_dir(qualifier, organization, application);
    let ghost d = dir;
    let r = saves_directory_in(dir);
    proof {
        if r is Some {
            assert(saves_within(d->0@, r->0@));
        }
    }
    r
}

} // verus!
