//! From listed objects to the planner's source files.

use vstd::prelude::*;

use crate::engine::plan::{FileId, SourceFile};
use crate::listing::{file_name, files_among, is_file, lemma_files_among_prefix, ListedObject};
use crate::text::{directory_prefix, directory_prefix_text};

verus! {

/// What a listing says of a file.
#[verifier::ext_equal]
pub struct SourceModel {
    pub id: u32,
    pub key: Seq<char>,
    pub name: Seq<char>,
    pub size: u64,
}

impl View for SourceFile {
    type V = SourceModel;

    open spec fn view(&self) -> SourceModel {
        SourceModel { id: self.id.0, key: self.key@, name: self.name@, size: self.size }
    }
}

pub open spec fn source_views(files: Seq<SourceFile>) -> Seq<SourceModel> {
    files.map_values(|f: SourceFile| f@)
}

/// A signed size read as an unsigned one, in two's complement.
pub open spec fn unsigned_size(size: i64) -> u64 {
    if size >= 0 {
        size as u64
    } else {
        (size + 0x1_0000_0000_0000_0000) as u64
    }
}

fn size_as_u64(size: i64) -> (n: u64)
    ensures
        n == unsigned_size(size),
{
    if size >= 0 {
        size as u64
    } else {
        u64::MAX - (-1 - size) as u64
    }
}

/// The files among some listed objects, in listing order. They are numbered from 0 on, and
/// the name of a file is its key without the prefix.
pub open spec fn source_files(objects: Seq<ListedObject>, prefix: Seq<char>) -> Seq<SourceModel>
    decreases objects.len(),
{
    if objects.len() == 0 {
        Seq::empty()
    } else {
        let before = source_files(objects.drop_last(), prefix);
        let object = objects.last();
        if is_file(object, prefix) {
            before.push(
                SourceModel {
                    id: before.len() as u32,
                    key: object.key->0@,
                    name: object.key->0@.skip(prefix.len() as int),
                    size: unsigned_size(object.size->0),
                },
            )
        } else {
            before
        }
    }
}

proof fn lemma_source_files_len(objects: Seq<ListedObject>, prefix: Seq<char>)
    ensures
        source_files(objects, prefix).len() <= objects.len(),
    decreases objects.len(),
{
    if objects.len() > 0 {
        lemma_source_files_len(objects.drop_last(), prefix);
    }
}

/// One source file for each object under `{files_prefix}/`. Objects without key or size, the
/// directory marker and objects elsewhere are passed over.
pub fn list_source_files(files_prefix: &str, objects: Vec<ListedObject>) -> (files: Vec<SourceFile>)
    requires
        objects@.len() <= u32::MAX,
    ensures
        source_views(files@) == source_files(objects@, directory_prefix(files_prefix@)),
{
    let prefix = directory_prefix_text(files_prefix);
    let mut files: Vec<SourceFile> = Vec::new();
    let ghost all = objects@;
    assert(all.take(0) =~= Seq::empty());
    assert(source_views(files@) =~= Seq::empty());
    for object in it: objects
        invariant
            it.seq() == all,
            all.len() <= u32::MAX,
            source_views(files@) == source_files(all.take(it.index()), prefix@),
    {
        let ghost i = it.index();
        let ghost files_in = files@;
        let ghost object_in = object;
        let ghost found = source_files(all.take(i + 1), prefix@);
        proof {
            assert(all.take(i + 1).drop_last() =~= all.take(i));
            lemma_source_files_len(all.take(i), prefix@);
            assert(source_views(files_in).len() == files_in.len());
        }
        match (object.key, object.size) {
            (Some(key), Some(size)) => {
                let name: Option<String> = match file_name(key.as_str(), prefix.as_str()) {
                    Some(n) => Some(n.to_owned()),
                    None => None,
                };
                match name {
                    Some(name) => {
                        files.push(
                            SourceFile {
                                id: FileId(files.len() as u32),
                                key,
                                name,
                                size: size_as_u64(size),
                            },
                        );
                        assert(is_file(object_in, prefix@));
                        assert(source_views(files@) =~= source_views(files_in).push(
                            files@.last()@,
                        ));
                    },
                    None => {},
                }
            },
            _ => {},
        }
        assert(source_views(files@) =~= found);
    }
    assert(all.take(all.len() as int) =~= all);
    files
}

/// Listed files are numbered one after another from 0 on, so no two share a number, and
/// every key is the prefix followed by the file's name.
pub proof fn listed_files_are_numbered(objects: Seq<ListedObject>, prefix: Seq<char>)
    requires
        objects.len() <= u32::MAX,
    ensures
        forall|i: int|
            0 <= i < source_files(objects, prefix).len() ==> {
                let f = #[trigger] source_files(objects, prefix)[i];
                &&& f.id == i
                &&& f.key == prefix + f.name
                &&& f.name.len() > 0
            },
    decreases objects.len(),
{
    if objects.len() > 0 {
        let before = source_files(objects.drop_last(), prefix);
        listed_files_are_numbered(objects.drop_last(), prefix);
        lemma_source_files_len(objects.drop_last(), prefix);
        let files = source_files(objects, prefix);
        assert forall|i: int| 0 <= i < files.len() implies {
            let f = #[trigger] files[i];
            &&& f.id == i
            &&& f.key == prefix + f.name
            &&& f.name.len() > 0
        } by {
            if i < before.len() {
                assert(files[i] == before[i]);
            } else {
                let key = objects.last().key->0@;
                assert(key =~= prefix + key.skip(prefix.len() as int));
            }
        }
    }
}

/// A size is read as it is, and a negative one as two's complement has it.
pub proof fn sizes_are_read_in_twos_complement(size: i64)
    ensures
        size >= 0 ==> unsigned_size(size) == size,
        size < 0 ==> unsigned_size(size) + (-size) == 0x1_0000_0000_0000_0000,
{
}

/// Every object that is a file is listed, behind as many files as are among the objects before it,
/// with its key, its size and the name that its key has behind the prefix. Nothing else is listed.
pub proof fn every_file_is_listed(objects: Seq<ListedObject>, prefix: Seq<char>, p: int)
    requires
        objects.len() <= u32::MAX,
        0 <= p < objects.len(),
    ensures
        source_files(objects, prefix).len() == files_among(objects, prefix, objects.len() as int),
        is_file(objects[p], prefix) ==> {
            let i = files_among(objects, prefix, p) as int;
            &&& i < source_files(objects, prefix).len()
            &&& source_files(objects, prefix)[i].id == i
            &&& source_files(objects, prefix)[i].key == objects[p].key->0@
            &&& objects[p].key->0@ == prefix + source_files(objects, prefix)[i].name
            &&& source_files(objects, prefix)[i].size == unsigned_size(objects[p].size->0)
        },
    decreases objects.len(),
{
    let front = objects.drop_last();
    let last = objects.len() - 1;
    lemma_listed_count(front, prefix);
    lemma_files_among_prefix(objects, prefix, last);
    lemma_files_among_prefix(objects, prefix, p);
    lemma_source_files_len(front, prefix);
    if p < last {
        every_file_is_listed(front, prefix, p);
    } else if is_file(objects[p], prefix) {
        let key = objects[p].key->0@;
        assert(key =~= prefix + key.skip(prefix.len() as int));
    }
}

proof fn lemma_listed_count(objects: Seq<ListedObject>, prefix: Seq<char>)
    ensures
        source_files(objects, prefix).len() == files_among(objects, prefix, objects.len() as int),
    decreases objects.len(),
{
    if objects.len() > 0 {
        lemma_listed_count(objects.drop_last(), prefix);
        lemma_files_among_prefix(objects, prefix, objects.len() - 1);
    }
}

/// A source file's model shows its fields.
pub proof fn model_shows_the_source_file(file: SourceFile)
    ensures
        file@.id == file.id.0,
        file@.key == file.key@,
        file@.name == file.name@,
        file@.size == file.size,
{
}

/// The models of source files stand one for one.
pub proof fn models_stand_one_for_one(files: Seq<SourceFile>, i: int)
    requires
        0 <= i < files.len(),
    ensures
        source_views(files).len() == files.len(),
        source_views(files)[i] == files[i]@,
{
}

} // verus!
