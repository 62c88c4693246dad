//! The names of trees and of the files that hold them.

use vstd::prelude::*;
use crate::error::{Error, ErrorKind};

verus! {

/// A character that the name of a tree may hold.
pub open spec fn name_char(c: char) -> bool {
    ||| 'a' <= c <= 'z'
    ||| 'A' <= c <= 'Z'
    ||| '0' <= c <= '9'
    ||| c == '-'
    ||| c == '.'
    ||| c == '_'
}

/// A name that a tree may have. `_transactions` is the name of the transaction log.
pub open spec fn valid_name(name: Seq<char>) -> bool {
    &&& name != "_transactions"@
    &&& forall|i: int| 0 <= i < name.len() ==> name_char(#[trigger] name[i])
}

/// The name of the file of a tree.
pub open spec fn file_name_of(name: Seq<char>) -> Seq<char> {
    name + ".nebari"@
}

/// A file whose name ends in `.nebari`.
pub open spec fn is_tree_file(file: Seq<char>) -> bool {
    &&& file.len() >= ".nebari"@.len()
    &&& file.skip(file.len() - ".nebari"@.len()) == ".nebari"@
}

/// The name of the tree that a file holds.
pub open spec fn tree_of_file(file: Seq<char>) -> Seq<char> {
    file.take(file.len() - ".nebari"@.len())
}

/// The characters of each of several strings.
pub open spec fn all_chars(strings: Seq<String>) -> Seq<Seq<char>> {
    Seq::new(strings.len(), |i: int| strings[i]@)
}

/// The names of the trees that `files` hold, in the order of the files.
pub open spec fn trees_of_files(files: Seq<Seq<char>>) -> Seq<Seq<char>>
    decreases files.len(),
{
    if files.len() == 0 {
        Seq::empty()
    } else {
        let before = trees_of_files(files.drop_last());
        if is_tree_file(files.last()) {
            before.push(tree_of_file(files.last()))
        } else {
            before
        }
    }
}

/// Whether two strings hold the same characters.
pub fn same_name(a: &str, b: &str) -> (same: bool)
    ensures
        same == (a@ == b@),
{
    a.to_owned() == b.to_owned()
}

/// Checks that a tree may be named `name`.
pub fn check_name(name: &str) -> (result: Result<(), Error>)
    ensures
        match result {
            Ok(()) => valid_name(name@),
            Err(error) => !valid_name(name@) && error.kind is InvalidTreeName,
        },
{
    let mut valid = !same_name(name, "_transactions");
    let count: usize = name.unicode_len();
    let mut i: usize = 0;
    while valid && i < count
        invariant
            count == name@.len(),
            i <= count,
            valid ==> name@ != "_transactions"@,
            valid ==> forall|j: int| 0 <= j < i ==> name_char(#[trigger] name@[j]),
            !valid ==> !valid_name(name@),
        decreases count - i + if valid {
            1int
        } else {
            0
        },
    {
        let c: char = name.get_char(i);
        if matches!(c, 'a'..='z' | 'A'..='Z' | '0'..='9' | '-' | '.' | '_') {
            i = i + 1;
        } else {
            assert(!name_char(name@[i as int]));
            valid = false;
        }
    }
    if valid {
        Ok(())
    } else {
        Err(Error::from(ErrorKind::InvalidTreeName))
    }
}

/// The name of the file of the tree `name`.
pub fn tree_file_name(name: &str) -> (file: String)
    ensures
        file@ == file_name_of(name@),
{
    let mut file = name.to_owned();
    file.append(".nebari");
    file
}

/// The name of the tree that `file` holds, if it is the file of a tree.
pub fn strip_extension(file: &str) -> (name: Option<String>)
    ensures
        match name {
            Some(name) => is_tree_file(file@) && name@ == tree_of_file(file@),
            None => !is_tree_file(file@),
        },
{
    let extension = ".nebari";
    let length: usize = extension.unicode_len();
    let count: usize = file.unicode_len();
    if count < length {
        return None;
    }
    let ending = file.substring_char(count - length, count);
    assert(ending@ =~= file@.skip(count - length));
    if same_name(ending, extension) {
        let stem = file.substring_char(0, count - length);
        assert(stem@ =~= tree_of_file(file@));
        Some(stem.to_owned())
    } else {
        None
    }
}

/// The names of the trees that `files` hold.
pub fn tree_names_in(files: &Vec<String>) -> (names: Vec<String>)
    ensures
        all_chars(names@) == trees_of_files(all_chars(files@)),
{
    let ghost all = all_chars(files@);
    let mut names: Vec<String> = Vec::new();
    let mut i: usize = 0;
    assert(all_chars(names@) =~= trees_of_files(all.take(0)));
    while i < files.len()
        invariant
            i <= files@.len(),
            all == all_chars(files@),
            all_chars(names@) == trees_of_files(all.take(i as int)),
        decreases files@.len() - i,
    {
        let ghost before = names@;
        let stripped = strip_extension(files[i].as_str());
        proof {
            assert(all.take(i + 1).drop_last() =~= all.take(i as int));
            assert(all.take(i + 1).last() == files@[i as int]@);
        }
        if let Some(name) = stripped {
            names.push(name);
            assert(all_chars(names@) =~= all_chars(before).push(name@));
        }
        i = i + 1;
    }
    assert(all.take(i as int) =~= all);
    names
}

/// The file of a tree is recognised as such, and gives back the name of the tree.
pub proof fn law_file_name_round_trip(name: Seq<char>)
    ensures
        is_tree_file(file_name_of(name)),
        tree_of_file(file_name_of(name)) == name,
{
    let file = file_name_of(name);
    assert(file.skip(file.len() - ".nebari"@.len()) =~= ".nebari"@);
    assert(tree_of_file(file) =~= name);
}

/// Two trees have the same file only if they have the same name.
pub proof fn law_file_names_distinct(a: Seq<char>, b: Seq<char>)
    requires
        file_name_of(a) == file_name_of(b),
    ensures
        a == b,
{
    law_file_name_round_trip(a);
    law_file_name_round_trip(b);
}

/// Whatever else a directory holds, a tree is named if and only if its file is in it.
pub proof fn law_listed_trees_named(files: Seq<Seq<char>>, name: Seq<char>)
    ensures
        trees_of_files(files).contains(name) <==> files.contains(file_name_of(name)),
    decreases files.len(),
{
    let file = file_name_of(name);
    law_file_name_round_trip(name);
    let found = trees_of_files(files);
    if files.len() > 0 {
        let rest = files.drop_last();
        let before = trees_of_files(rest);
        law_listed_trees_named(rest, name);
        if is_tree_file(files.last()) {
            lemma_file_of_tree(files.last());
            assert(found[before.len() as int] == tree_of_file(files.last()));
        }
        if before.contains(name) {
            let j = before.index_of(name);
            assert(found[j] == name);
        }
        if found.contains(name) && !before.contains(name) {
            let j = found.index_of(name);
            if j < before.len() {
                assert(before[j] == name);
            }
            assert(files[files.len() - 1] == file);
        }
        if rest.contains(file) {
            let i = rest.index_of(file);
            assert(files[i] == file);
        }
        if files.contains(file) && !rest.contains(file) {
            let i = files.index_of(file);
            if i < rest.len() {
                assert(rest[i] == file);
            }
        }
    }
}

/// The file of a tree is the file that the tree is named after.
proof fn lemma_file_of_tree(file: Seq<char>)
    requires
        is_tree_file(file),
    ensures
        file_name_of(tree_of_file(file)) == file,
{
    let at = file.len() - ".nebari"@.len();
    assert(file_name_of(tree_of_file(file)) =~= file.take(at) + file.skip(at));
    assert(file.take(at) + file.skip(at) =~= file);
}

/// No tree is named twice where no file is in a directory twice.
pub proof fn law_trees_listed_once(files: Seq<Seq<char>>)
    requires
        files.no_duplicates(),
    ensures
        trees_of_files(files).no_duplicates(),
    decreases files.len(),
{
    if files.len() > 0 {
        let rest = files.drop_last();
        let before = trees_of_files(rest);
        assert forall|i: int, j: int|
            0 <= i < rest.len() && 0 <= j < rest.len() && i != j implies rest[i] != rest[j] by {
            assert(files[i] != files[j]);
        }
        law_trees_listed_once(rest);
        if is_tree_file(files.last()) {
            let name = tree_of_file(files.last());
            lemma_file_of_tree(files.last());
            law_listed_trees_named(rest, name);
            if rest.contains(files.last()) {
                let i = rest.index_of(files.last());
                assert(files[i] == files[files.len() - 1]);
            }
            assert(!before.contains(name));
        }
    }
}

} // verus!
