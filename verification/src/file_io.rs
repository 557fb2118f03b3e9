//! Submissions from the listing of a directory.

use crate::cli::SubFileMode;
use crate::error::Error;
use crate::order::{lemma_lex_transitive, lemma_lex_trichotomy, lex_before, lex_place, sort, sorted, Place, Ranked};
use crate::paths::{file_name, file_name_of, is_arr_file, is_arr_name};
use crate::text::chars_of;
use crate::{Doc, Sub};
use vstd::prelude::*;

verus! {

/// An entry of a directory, as it was read: its path, and whether it is a directory.
#[derive(Debug, PartialEq, Eq, Clone)]
pub struct Listed {
    pub path: String,
    pub is_dir: bool,
}

/// The code points of the characters of `text`.
pub open spec fn codes_of(text: Seq<char>) -> Seq<i64> {
    Seq::new(text.len(), |i: int| text[i] as u32 as i64)
}

/// The code points of the characters of `text`.
fn codes(text: &str) -> (codes: Vec<i64>)
    ensures
        codes@ == codes_of(text@),
{
    let chars: Vec<char> = chars_of(text);
    let mut codes: Vec<i64> = Vec::new();
    let mut i: usize = 0;
    while i < chars.len()
        invariant
            chars@ == text@,
            i <= chars@.len(),
            codes@.len() == i,
            forall|j: int| 0 <= j < i ==> codes@[j] == chars@[j] as u32 as i64,
        decreases chars.len() - i,
    {
        codes.push(chars[i] as u32 as i64);
        i += 1;
    }
    assert(codes@ =~= codes_of(text@));
    codes
}

/// Entries stand in the order of the dictionary of their paths, character by character.
impl Ranked for Listed {
    open spec fn before(&self, other: &Self) -> bool {
        !lex_before(codes_of(other.path@), codes_of(self.path@))
    }

    fn goes_before(&self, other: &Self) -> (b: bool) {
        let mine: Vec<i64> = codes(self.path.as_str());
        let others: Vec<i64> = codes(other.path.as_str());
        match lex_place(&mine, &others) {
            Place::After => false,
            _ => true,
        }
    }

    proof fn lemma_total(a: &Self, b: &Self) {
        lemma_lex_trichotomy(codes_of(a.path@), codes_of(b.path@));
    }

    proof fn lemma_transitive(a: &Self, b: &Self, c: &Self) {
        let x = codes_of(a.path@);
        let y = codes_of(b.path@);
        let z = codes_of(c.path@);
        lemma_lex_trichotomy(x, y);
        lemma_lex_trichotomy(y, z);
        lemma_lex_trichotomy(x, z);
        if lex_before(z, x) && lex_before(x, y) {
            lemma_lex_transitive(z, x, y);
        }
    }
}

/// The entries of a listing in the order of their paths, whatever the order in which the
/// directory gave them.
pub fn sort_listing(entries: Vec<Listed>) -> (listing: Vec<Listed>)
    ensures
        sorted(listing@),
        listing@.to_multiset() == entries@.to_multiset(),
{
    sort(entries)
}

/// The paths of the directories among the first `n` of `entries`, in their order.
pub open spec fn dir_paths(entries: Seq<Listed>, n: int) -> Seq<Seq<char>>
    decreases n,
{
    if n <= 0 {
        Seq::empty()
    } else if entries[n - 1].is_dir {
        dir_paths(entries, n - 1).push(entries[n - 1].path@)
    } else {
        dir_paths(entries, n - 1)
    }
}

/// The paths among the first `n` of `entries` whose name has the extension `arr`, in their
/// order.
pub open spec fn arr_paths(entries: Seq<Listed>, n: int) -> Seq<Seq<char>>
    decreases n,
{
    if n <= 0 {
        Seq::empty()
    } else if is_arr_name(file_name_of(entries[n - 1].path@)) {
        arr_paths(entries, n - 1).push(entries[n - 1].path@)
    } else {
        arr_paths(entries, n - 1)
    }
}

/// The texts of `paths`.
pub open spec fn path_texts(paths: Seq<String>) -> Seq<Seq<char>> {
    Seq::new(paths.len(), |i: int| paths[i]@)
}

/// The paths of the directories of a listing.
pub fn dirs_in_dir(entries: &Vec<Listed>) -> (dirs: Vec<String>)
    ensures
        path_texts(dirs@) == dir_paths(entries@, entries@.len() as int),
{
    let mut dirs: Vec<String> = Vec::new();
    let mut i: usize = 0;
    assert(path_texts(dirs@) =~= dir_paths(entries@, 0));
    while i < entries.len()
        invariant
            i <= entries@.len(),
            path_texts(dirs@) == dir_paths(entries@, i as int),
        decreases entries.len() - i,
    {
        if entries[i].is_dir {
            let ghost before = path_texts(dirs@);
            dirs.push(entries[i].path.clone());
            assert(path_texts(dirs@) =~= before.push(entries@[i as int].path@));
        }
        i += 1;
    }
    dirs
}

/// The paths of the `.arr` files of a listing.
pub fn arr_files_in_dir(entries: &Vec<Listed>) -> (files: Vec<String>)
    ensures
        path_texts(files@) == arr_paths(entries@, entries@.len() as int),
{
    let mut files: Vec<String> = Vec::new();
    let mut i: usize = 0;
    assert(path_texts(files@) =~= arr_paths(entries@, 0));
    while i < entries.len()
        invariant
            i <= entries@.len(),
            path_texts(files@) == arr_paths(entries@, i as int),
        decreases entries.len() - i,
    {
        if is_arr_file(entries[i].path.as_str()) {
            let ghost before = path_texts(files@);
            files.push(entries[i].path.clone());
            assert(path_texts(files@) =~= before.push(entries@[i as int].path@));
        }
        i += 1;
    }
    files
}

/// Whether one of `names` is `name`.
pub open spec fn is_ignored(names: Seq<String>, name: Seq<char>) -> bool {
    exists|i: int| 0 <= i < names.len() && (#[trigger] names[i])@ == name
}

/// Whether one of `names` is `name`.
fn ignores(names: &Vec<String>, name: &String) -> (b: bool)
    ensures
        b == is_ignored(names@, name@),
{
    let mut i: usize = 0;
    while i < names.len()
        invariant
            i <= names@.len(),
            forall|j: int| 0 <= j < i ==> (#[trigger] names@[j])@ != name@,
        decreases names.len() - i,
    {
        if names[i] == *name {
            return true;
        }
        i += 1;
    }
    false
}

/// The paths among the first `n` of `files` whose name is not ignored, in their order.
pub open spec fn kept_paths(files: Seq<Seq<char>>, ignore_files: Seq<String>, n: int) -> Seq<Seq<char>>
    decreases n,
{
    if n <= 0 {
        Seq::empty()
    } else if is_ignored(ignore_files, file_name_of(files[n - 1])) {
        kept_paths(files, ignore_files, n - 1)
    } else {
        kept_paths(files, ignore_files, n - 1).push(files[n - 1])
    }
}

/// The paths of the documents of `sub`.
pub open spec fn doc_paths(sub: Sub) -> Seq<Seq<char>> {
    Seq::new(sub.documents@.len(), |d: int| sub.documents@[d].path())
}

/// Whether `sub` is the submission of the single file with the path `path`.
pub open spec fn is_single_sub(sub: Sub, path: Seq<char>) -> bool {
    &&& sub.dir_name is None
    &&& sub.documents@.len() == 1
    &&& sub.documents@[0] is Unprocessed
    &&& sub.documents@[0].path() == path
}

/// Whether `sub` is the submission of the directory `dir` with the listing `entries`: its
/// documents are the `.arr` files of the listing whose names are not ignored.
pub open spec fn is_dir_sub(sub: Sub, dir: Seq<char>, entries: Seq<Listed>, ignore_files: Seq<String>) -> bool {
    let files = arr_paths(entries, entries.len() as int);
    &&& sub.dir_name is Some
    &&& sub.dir_name->0@ == dir
    &&& forall|d: int| 0 <= d < sub.documents@.len() ==> (#[trigger] sub.documents@[d]) is Unprocessed
    &&& doc_paths(sub) == kept_paths(files, ignore_files, files.len() as int)
}

/// Whether `subs` are the submissions of a directory with the listing `root`, in which
/// `inside[i]` is the listing of directory `i`.
pub open spec fn are_subs_of(
    subs: Seq<Sub>,
    mode: SubFileMode,
    root: Seq<Listed>,
    inside: Seq<Vec<Listed>>,
    ignore_files: Seq<String>,
) -> bool {
    match mode {
        SubFileMode::Single => {
            let files = arr_paths(root, root.len() as int);
            &&& subs.len() == files.len()
            &&& forall|i: int| 0 <= i < subs.len() ==> is_single_sub(#[trigger] subs[i], files[i])
        },
        SubFileMode::Multi => {
            let dirs = dir_paths(root, root.len() as int);
            &&& subs.len() == dirs.len()
            &&& forall|i: int|
                0 <= i < subs.len() ==> is_dir_sub(#[trigger] subs[i], dirs[i], inside[i]@, ignore_files)
        },
    }
}

/// The submissions of a directory, from its listing. In `Single` mode every `.arr` file of
/// `root` is a submission. In `Multi` mode every directory of `root` is one, and
/// `inside[i]` is the listing of the directory `i` of `root`: its documents are the `.arr`
/// files in it whose names are not in `ignore_files`. A directory without any submission
/// is refused.
pub fn construct_subs(
    sub_mode: &SubFileMode,
    root: &Vec<Listed>,
    inside: &Vec<Vec<Listed>>,
    ignore_files: &Vec<String>,
) -> (result: Result<Vec<Sub>, Error>)
    requires
        *sub_mode is Multi ==> inside@.len() == dir_paths(root@, root@.len() as int).len(),
    ensures
        match result {
            Ok(subs) => subs@.len() > 0 && are_subs_of(subs@, *sub_mode, root@, inside@, ignore_files@),
            Err(e) => match *sub_mode {
                SubFileMode::Single => e == Error::NoArrFiles && arr_paths(
                    root@,
                    root@.len() as int,
                ).len() == 0,
                SubFileMode::Multi => e == Error::NoSubDirs && dir_paths(
                    root@,
                    root@.len() as int,
                ).len() == 0,
            },
        },
{
    let mut subs: Vec<Sub> = Vec::new();
    match sub_mode {
        SubFileMode::Single => {
            let files: Vec<String> = arr_files_in_dir(root);
            if files.len() == 0 {
                return Err(Error::NoArrFiles);
            }
            let mut i: usize = 0;
            while i < files.len()
                invariant
                    i <= files@.len(),
                    subs@.len() == i,
                    forall|j: int| 0 <= j < i ==> is_single_sub(#[trigger] subs@[j], files@[j]@),
                decreases files.len() - i,
            {
                let mut documents: Vec<Doc> = Vec::new();
                documents.push(Doc::Unprocessed(files[i].clone()));
                subs.push(Sub { dir_name: None, documents: documents });
                i += 1;
            }
            proof {
                let paths = arr_paths(root@, root@.len() as int);
                assert forall|j: int| 0 <= j < subs@.len() implies is_single_sub(
                    #[trigger] subs@[j],
                    paths[j],
                ) by {
                    assert(path_texts(files@)[j] == files@[j]@);
                }
            }
        },
        SubFileMode::Multi => {
            let dirs: Vec<String> = dirs_in_dir(root);
            if dirs.len() == 0 {
                return Err(Error::NoSubDirs);
            }
            let mut i: usize = 0;
            while i < dirs.len()
                invariant
                    inside@.len() == dirs@.len(),
                    i <= dirs@.len(),
                    subs@.len() == i,
                    forall|j: int|
                        0 <= j < i ==> is_dir_sub(
                            #[trigger] subs@[j],
                            dirs@[j]@,
                            inside@[j]@,
                            ignore_files@,
                        ),
                decreases dirs.len() - i,
            {
                let files: Vec<String> = arr_files_in_dir(&inside[i]);
                let ghost paths = path_texts(files@);
                let mut documents: Vec<Doc> = Vec::new();
                let mut f: usize = 0;
                let ghost listed = Seq::<Seq<char>>::empty();
                assert(Seq::new(0, |d: int| documents@[d].path()) =~= kept_paths(
                    paths,
                    ignore_files@,
                    0,
                ));
                while f < files.len()
                    invariant
                        paths == path_texts(files@),
                        f <= files@.len(),
                        forall|d: int|
                            0 <= d < documents@.len() ==> (#[trigger] documents@[d]) is Unprocessed,
                        Seq::new(documents@.len(), |d: int| documents@[d].path()) == kept_paths(
                            paths,
                            ignore_files@,
                            f as int,
                        ),
                    decreases files.len() - f,
                {
                    let name: String = file_name(files[f].as_str());
                    assert(paths[f as int] == files@[f as int]@);
                    if !ignores(ignore_files, &name) {
                        let ghost before = Seq::new(documents@.len(), |d: int| documents@[d].path());
                        documents.push(Doc::Unprocessed(files[f].clone()));
                        assert(Seq::new(documents@.len(), |d: int| documents@[d].path()) =~= before.push(
                            files@[f as int]@,
                        ));
                    }
                    f += 1;
                }
                subs.push(Sub { dir_name: Some(dirs[i].clone()), documents: documents });
                i += 1;
            }
            proof {
                let paths = dir_paths(root@, root@.len() as int);
                assert forall|j: int| 0 <= j < subs@.len() implies is_dir_sub(
                    #[trigger] subs@[j],
                    paths[j],
                    inside@[j]@,
                    ignore_files@,
                ) by {
                    assert(path_texts(dirs@)[j] == dirs@[j]@);
                }
            }
        },
    }
    Ok(subs)
}

} // verus!
