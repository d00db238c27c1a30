//! What a listing of a bucket says about the files in a directory.

use vstd::prelude::*;

use crate::text::strip_prefix;

verus! {

/// One object of a listing. S3 leaves both fields open.
#[derive(Debug)]
pub struct ListedObject {
    pub key: Option<String>,
    pub size: Option<i64>,
}

/// Whether a listed object is a file: it has a key and a size, and its key lies
/// below the prefix. The directory marker, whose key is the prefix itself, is none.
pub open spec fn is_file(object: ListedObject, prefix: Seq<char>) -> bool {
    &&& object.size is Some
    &&& object.key matches Some(key)
    &&& prefix.is_prefix_of(key@)
    &&& key@.len() > prefix.len()
}

/// A file's name: its key without the prefix. `None` where the key does not lie below
/// the prefix.
pub fn file_name<'a>(key: &'a str, prefix: &str) -> (name: Option<&'a str>)
    ensures
        match name {
            Some(n) => prefix@.is_prefix_of(key@) && key@.len() > prefix@.len() && n@ == key@.skip(
                prefix@.len() as int,
            ),
            None => !(prefix@.is_prefix_of(key@) && key@.len() > prefix@.len()),
        },
{
    match strip_prefix(key, prefix) {
        Some(rest) => {
            assert(rest@ =~= key@.skip(prefix@.len() as int));
            if rest.is_empty() {
                None
            } else {
                Some(rest)
            }
        },
        None => None,
    }
}

/// A listed object is a file exactly where it has a size and its key is the prefix with a name behind
/// it. No key is the prefix with two names.
pub proof fn files_lie_below_the_prefix(object: ListedObject, prefix: Seq<char>)
    ensures
        is_file(object, prefix) <==> object.size is Some && object.key is Some && exists|
            name: Seq<char>,
        |
            #![trigger name.len()]
            name.len() > 0 && object.key->0@ == prefix + name,
{
    if is_file(object, prefix) {
        let key = object.key->0@;
        let name = key.skip(prefix.len() as int);
        assert(key =~= prefix + name);
        assert(name.len() > 0);
    }
    if object.key is Some && exists|name: Seq<char>|
        #![trigger name.len()]
        name.len() > 0 && object.key->0@ == prefix + name {
        let name = choose|name: Seq<char>|
            #![trigger name.len()]
            name.len() > 0 && object.key->0@ == prefix + name;
        assert(prefix.is_prefix_of(object.key->0@));
    }
}

/// How many of the first `n` objects are files.
pub open spec fn files_among(objects: Seq<ListedObject>, prefix: Seq<char>, n: int) -> nat
    decreases n,
{
    if n <= 0 {
        0
    } else {
        files_among(objects, prefix, n - 1) + if is_file(objects[n - 1], prefix) {
            1nat
        } else {
            0
        }
    }
}

pub proof fn lemma_files_among_prefix(objects: Seq<ListedObject>, prefix: Seq<char>, n: int)
    requires
        0 <= n < objects.len(),
    ensures
        files_among(objects.drop_last(), prefix, n) == files_among(objects, prefix, n),
    decreases n,
{
    if n > 0 {
        lemma_files_among_prefix(objects, prefix, n - 1);
    }
}

} // verus!
