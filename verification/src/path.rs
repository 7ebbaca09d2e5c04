use vstd::prelude::*;
use crate::text::{chars_of, pieces, split_on};

verus! {

/// Whether `name` holds a path separator.
pub open spec fn has_separator(name: Seq<char>) -> bool {
    exists|i: int| 0 <= i < name.len() && name[i] == '/'
}

/// The directories of a search path: its pieces between colons, in order.
pub open spec fn path_dirs(path: Seq<char>) -> Seq<Seq<char>> {
    pieces(path, ':')
}

/// The paths to try for the command `name`, in order, where `path` is the
/// search path, if it is set: `name` itself where it holds a separator,
/// else `name` in each directory of the search path.
pub open spec fn lookup_paths(name: Seq<char>, path: Option<Seq<char>>) -> Seq<Seq<char>> {
    if has_separator(name) {
        seq![name]
    } else {
        match path {
            Some(p) => Seq::new(
                path_dirs(p).len(),
                |i: int| path_dirs(p)[i] + seq!['/'] + name,
            ),
            None => Seq::empty(),
        }
    }
}

/// Where to look for a command.
#[derive(Clone, Debug, PartialEq, Eq)]
pub struct Lookup {
    /// The command names its file itself: the one candidate counts if
    /// anything exists there. Otherwise a candidate counts if it is a
    /// regular file.
    pub direct: bool,
    /// The paths to try, in order.
    pub candidates: Vec<String>,
}

/// Whether `name` holds a path separator.
pub fn names_a_path(name: &str) -> (direct: bool)
    ensures
        direct == has_separator(name@),
{
    let chars = chars_of(name);
    let mut i: usize = 0;
    while i < chars.len()
        invariant
            chars@ == name@,
            i <= chars@.len(),
            forall|k: int| 0 <= k < i ==> chars@[k] != '/',
        decreases chars@.len() - i,
    {
        if chars[i] == '/' {
            return true;
        }
        i = i + 1;
    }
    false
}

/// The directories of a search path, in order.
pub fn search_dirs(path: &str) -> (dirs: Vec<String>)
    ensures
        dirs.deep_view() == path_dirs(path@),
{
    split_on(path, ':')
}

/// Where to look for the command `name`, given the search path, if it is
/// set. Nothing is touched: the caller tries the candidates in order.
pub fn search_candidates(name: &str, path: Option<&str>) -> (lookup: Lookup)
    ensures
        lookup.direct == has_separator(name@),
        lookup.candidates.deep_view() == lookup_paths(
            name@,
            match path {
                Some(p) => Some(p@),
                None => None,
            },
        ),
{
    let mut candidates: Vec<String> = Vec::new();
    if names_a_path(name) {
        candidates.push(name.to_owned());
        proof {
            assert(candidates.deep_view() =~= seq![name@]);
        }
        return Lookup { direct: true, candidates };
    }
    match path {
        Some(p) => {
            let dirs = search_dirs(p);
            let ghost wanted = lookup_paths(name@, Some(p@));
            let mut i: usize = 0;
            while i < dirs.len()
                invariant
                    dirs.deep_view() == path_dirs(p@),
                    wanted == lookup_paths(name@, Some(p@)),
                    !has_separator(name@),
                    i <= dirs@.len(),
                    candidates@.len() == i,
                    forall|k: int| 0 <= k < i ==> (#[trigger] candidates@[k])@ == wanted[k],
                decreases dirs@.len() - i,
            {
                let mut full = dirs[i].clone();
                full.push('/');
                full.append(name);
                proof {
                    assert(dirs.deep_view()[i as int] == dirs@[i as int]@);
                    assert(dirs@[i as int]@.push('/') =~= dirs@[i as int]@ + seq!['/']);
                }
                candidates.push(full);
                i = i + 1;
            }
            proof {
                assert(dirs.deep_view().len() == dirs@.len());
                assert(candidates.deep_view() =~= wanted);
            }
        },
        None => {
            proof {
                assert(candidates.deep_view() =~= Seq::<Seq<char>>::empty());
            }
        },
    }
    Lookup { direct: false, candidates }
}

/// `i` is the first candidate that is there.
pub open spec fn is_first_present(present: Seq<bool>, count: int, i: int) -> bool {
    &&& 0 <= i < count
    &&& i < present.len()
    &&& present[i]
    &&& forall|j: int| 0 <= j < i ==> !present[j]
}

/// The first candidate that is there, where `present` says of each
/// candidate, in order, whether it is.
pub fn first_present(candidates: &Vec<String>, present: &Vec<bool>) -> (found: Option<String>)
    ensures
        match found {
            Some(path) => exists|i: int|
                is_first_present(present@, candidates@.len() as int, i) && path@
                    == candidates@[i]@,
            None => forall|i: int|
                0 <= i < candidates@.len() && i < present@.len() ==> !present@[i],
        },
{
    let mut i: usize = 0;
    while i < candidates.len() && i < present.len()
        invariant
            i <= candidates@.len(),
            i <= present@.len(),
            forall|j: int| 0 <= j < i ==> !present@[j],
        decreases candidates@.len() - i,
    {
        if present[i] {
            proof {
                assert(is_first_present(present@, candidates@.len() as int, i as int));
            }
            return Some(candidates[i].clone());
        }
        i = i + 1;
    }
    None
}

} // verus!
