use vstd::prelude::*;

use crate::error::ShareError;
use crate::path::{canonical_name, canonicalized_path_to_string, views, PathComponent};

verus! {

/// One entry met while walking a directory tree: its path relative to the
/// parent of the imported root, and whether it is a regular file.
pub struct WalkEntry {
    pub components: Vec<PathComponent>,
    pub is_file: bool,
}

/// The names under which the regular files among the entries are shared, in
/// the order met; `None` where one of their paths has no portable name.
/// Directories, links and other entries are skipped.
pub open spec fn file_names(es: Seq<WalkEntry>) -> Option<Seq<Seq<char>>>
    decreases es.len(),
{
    if es.len() == 0 {
        Some(Seq::empty())
    } else {
        match file_names(es.drop_last()) {
            None => None,
            Some(ns) => if !es.last().is_file {
                Some(ns)
            } else {
                match canonical_name(es.last().components@, true) {
                    None => None,
                    Some(n) => Some(ns.push(n)),
                }
            },
        }
    }
}

proof fn lemma_invalid_entry(es: Seq<WalkEntry>, j: int)
    requires
        0 <= j <= es.len(),
        file_names(es.take(j)) is None,
    ensures
        file_names(es) is None,
    decreases es.len(),
{
    if j == es.len() {
        assert(es.take(j) =~= es);
    } else {
        assert(es.drop_last().take(j) =~= es.take(j));
        lemma_invalid_entry(es.drop_last(), j);
    }
}

/// Names every regular file met in a walk of an imported tree. A single path
/// without a portable name aborts the whole import with
/// `InvalidPathComponent`: no partial list is returned.
pub fn import_names(entries: &[WalkEntry]) -> (r: Result<Vec<String>, ShareError>)
    ensures
        r is Ok <==> file_names(entries@) is Some,
        r matches Ok(v) ==> file_names(entries@) == Some(views(v@)),
        r matches Err(e) ==> e == ShareError::InvalidPathComponent,
{
    let mut names: Vec<String> = Vec::new();
    let mut i: usize = 0;
    while i < entries.len()
        invariant
            i <= entries.len(),
            file_names(entries@.take(i as int)) == Some(views(names@)),
        decreases entries.len() - i,
    {
        assert(entries@.take(i + 1).drop_last() =~= entries@.take(i as int));
        assert(entries@.take(i + 1).last() == entries@[i as int]);
        let e = &entries[i];
        if e.is_file {
            match canonicalized_path_to_string(e.components.as_slice(), true) {
                Ok(name) => {
                    let ghost old_names = names@;
                    names.push(name);
                    assert(views(names@) =~= views(old_names).push(name@));
                },
                Err(err) => {
                    proof {
                        lemma_invalid_entry(entries@, i + 1);
                    }
                    return Err(err);
                },
            }
        }
        i += 1;
    }
    assert(entries@.take(entries.len() as int) =~= entries@);
    Ok(names)
}

} // verus!
