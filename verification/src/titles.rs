//! What a topic is called, read off the name of its file.

use crate::text::{
    clean, clean_path, find_char, rfind_char, underscores_to_spaces, with_char_replaced,
};
use vstd::prelude::*;
use vstd::string::{StrSliceExecFns, StringExecFns};

verus! {

/// `text` in title case, as the crate `titlecase` writes it.
pub uninterp spec fn titlecased(text: Seq<char>) -> Seq<char>;

/// Calls `titlecase::titlecase`, which puts a text in title case by the
/// rules of that crate. The contract gives the result the name
/// [`titlecased`]; it claims nothing else of it.
#[verifier::external_body]
pub(crate) fn title_case(text: &str) -> (r: String)
    ensures
        r@ == titlecased(text@),
{
    titlecase::titlecase(text)
}

/// Where the first underscore of `name` stands, if it does not stand first.
pub open spec fn env_end(name: Seq<char>) -> Option<int> {
    if exists|i: int| 0 < i < name.len() && name[i] == '_' && !name.take(i).contains('_') {
        Some(choose|i: int| 0 < i < name.len() && name[i] == '_' && !name.take(i).contains('_'))
    } else {
        None
    }
}

/// The kind of topic that a file name announces: what stands before its
/// first underscore, or nothing if it has no underscore or begins with one.
pub open spec fn env_of(name: Seq<char>) -> Seq<char> {
    match env_end(name) {
        Some(i) => name.take(i),
        None => Seq::<char>::empty(),
    }
}

/// What follows the kind in a file name: all of it if no kind is announced.
pub open spec fn after_env(name: Seq<char>) -> Seq<char> {
    match env_end(name) {
        Some(i) => name.skip(i + 1),
        None => name,
    }
}

/// `s` up to its last full stop; nothing if it has none.
pub open spec fn stem_of(s: Seq<char>) -> Seq<char> {
    if exists|i: int| 0 <= i < s.len() && s[i] == '.' && !s.skip(i + 1).contains('.') {
        s.take(choose|i: int| 0 <= i < s.len() && s[i] == '.' && !s.skip(i + 1).contains('.'))
    } else {
        Seq::<char>::empty()
    }
}

/// The label that a file name gives a topic: what follows the kind, up to
/// the last full stop, with spaces for underscores, in title case.
pub open spec fn label_of(name: Seq<char>) -> Seq<char> {
    titlecased(with_char_replaced(stem_of(after_env(name)), '_', ' '))
}

/// Two positions that both hold the first underscore are one.
proof fn lemma_env_end_unique(name: Seq<char>, i: int, j: int)
    requires
        0 <= i < name.len(),
        name[i] == '_',
        !name.take(i).contains('_'),
        0 <= j < name.len(),
        name[j] == '_',
        !name.take(j).contains('_'),
    ensures
        i == j,
{
    if i < j {
        assert(name.take(j)[i] == '_');
    }
    if j < i {
        assert(name.take(i)[j] == '_');
    }
}

/// Two positions that both hold the last full stop are one.
proof fn lemma_stem_unique(s: Seq<char>, i: int, j: int)
    requires
        0 <= i < s.len(),
        s[i] == '.',
        !s.skip(i + 1).contains('.'),
        0 <= j < s.len(),
        s[j] == '.',
        !s.skip(j + 1).contains('.'),
    ensures
        i == j,
{
    if i < j {
        assert(s.skip(i + 1)[j - i - 1] == '.');
    }
    if j < i {
        assert(s.skip(j + 1)[i - j - 1] == '.');
    }
}

/// Position of the first underscore of `name`, unless it stands first.
fn find_env_end(name: &str) -> (r: Option<usize>)
    ensures
        match r {
            Some(i) => env_end(name@) == Some(i as int) && 0 < i < name@.len(),
            None => env_end(name@) is None,
        },
{
    match find_char(name, '_') {
        Some(i) => {
            proof {
                let head = name@.take(i as int);
                assert(!head.contains('_')) by {
                    if head.contains('_') {
                        let k = choose|k: int| 0 <= k < head.len() && head[k] == '_';
                        assert(name@[k] == '_');
                    }
                }
                assert forall|j: int|
                    0 < j < name@.len() && name@[j] == '_' && !name@.take(j).contains(
                        '_',
                    ) implies j == i by {
                    lemma_env_end_unique(name@, i as int, j);
                }
            }
            if i > 0 {
                Some(i)
            } else {
                None
            }
        },
        None => {
            proof {
                assert forall|j: int| 0 < j < name@.len() implies name@[j] != '_' by {
                    if name@[j] == '_' {
                        assert(name@.contains('_'));
                    }
                }
            }
            None
        },
    }
}

/// The kind of topic that the file name `filename` announces.
pub fn env_from_filename(filename: &String) -> (r: String)
    ensures
        r@ == env_of(filename@),
{
    let name = filename.as_str();
    match find_env_end(name) {
        Some(i) => {
            proof {
                assert(name@.subrange(0, i as int) =~= name@.take(i as int));
            }
            String::from_str(name.substring_char(0, i))
        },
        None => String::new(),
    }
}

/// What follows the kind in `name`.
pub fn rest_after_env(name: &str) -> (rest: &str)
    ensures
        rest@ == after_env(name@),
{
    let n = name.unicode_len();
    match find_env_end(name) {
        Some(i) => {
            proof {
                assert(name@.subrange(i + 1, n as int) =~= name@.skip(i + 1));
            }
            name.substring_char(i + 1, n)
        },
        None => name,
    }
}

/// `rest` up to its last full stop.
fn stem(rest: &str) -> (r: &str)
    ensures
        r@ == stem_of(rest@),
{
    match rfind_char(rest, '.') {
        Some(i) => {
            proof {
                let tail = rest@.skip(i + 1);
                assert(!tail.contains('.')) by {
                    if tail.contains('.') {
                        let k = choose|k: int| 0 <= k < tail.len() && tail[k] == '.';
                        assert(rest@[i + 1 + k] == '.');
                    }
                }
                assert forall|j: int|
                    0 <= j < rest@.len() && rest@[j] == '.' && !rest@.skip(j + 1).contains(
                        '.',
                    ) implies j == i by {
                    lemma_stem_unique(rest@, i as int, j);
                }
                assert(rest@.subrange(0, i as int) =~= rest@.take(i as int));
            }
            rest.substring_char(0, i)
        },
        None => {
            proof {
                assert forall|j: int| 0 <= j < rest@.len() implies rest@[j] != '.' by {
                    if rest@[j] == '.' {
                        assert(rest@.contains('.'));
                    }
                }
                assert(rest@.subrange(0, 0) =~= Seq::<char>::empty());
            }
            rest.substring_char(0, 0)
        },
    }
}

/// The label that the file name `filename` gives a topic.
pub fn label_from_filename(filename: &String) -> (r: String)
    ensures
        r@ == label_of(filename@),
{
    let spaced = underscores_to_spaces(stem(rest_after_env(filename.as_str())));
    title_case(spaced.as_str())
}

/// The title that a document gets from its only file: the name of the
/// file without the relative steps it begins with, up to its last full
/// stop, without the kind it announces, with spaces for underscores, in
/// title case.
pub open spec fn title_of(file: Seq<char>) -> Seq<char> {
    titlecased(with_char_replaced(after_env(stem_of(clean_path(file))), '_', ' '))
}

/// The title of a document: the one that was asked for, or else, for a
/// document of a single file, the one that the name of the file gives.
pub fn default_title(files: &Vec<String>, title: &String) -> (r: String)
    ensures
        r@ == if files@.len() == 1 && title@.len() == 0 {
            title_of(files@[0]@)
        } else {
            title@
        },
{
    if files.len() == 1 && title.as_str().unicode_len() == 0 {
        let name = clean(&files[0]);
        let spaced = underscores_to_spaces(rest_after_env(stem(name.as_str())));
        title_case(spaced.as_str())
    } else {
        title.clone()
    }
}

} // verus!
