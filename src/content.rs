//! The canonical content model: ordered content blocks plus a table of file
//! references that holds each file id once.

use vstd::prelude::*;
use crate::archive::{ArchiveContent, ContentView};

verus! {

/// Metadata of a remote file: its platform-scoped id, local file name, MIME
/// type, source URL and numeric attributes such as dimensions.
pub struct FileReference {
    pub id: String,
    pub filename: String,
    pub mime: String,
    pub url: String,
    pub extra: Vec<(String, u64)>,
}

pub struct FileRefView {
    pub id: Seq<char>,
    pub filename: Seq<char>,
    pub mime: Seq<char>,
    pub url: Seq<char>,
    pub extra: Seq<(Seq<char>, u64)>,
}

pub open spec fn extra_view(e: Seq<(String, u64)>) -> Seq<(Seq<char>, u64)> {
    e.map_values(|p: (String, u64)| (p.0@, p.1))
}

impl View for FileReference {
    type V = FileRefView;

    open spec fn view(&self) -> FileRefView {
        FileRefView {
            id: self.id@,
            filename: self.filename@,
            mime: self.mime@,
            url: self.url@,
            extra: extra_view(self.extra@),
        }
    }
}

pub open spec fn files_view(v: Seq<FileReference>) -> Seq<FileRefView> {
    v.map_values(|f: FileReference| f@)
}

pub open spec fn blocks_view(v: Seq<ArchiveContent>) -> Seq<ContentView> {
    v.map_values(|c: ArchiveContent| c@)
}

/// Whether some entry of `fs` has the id `id`.
pub open spec fn has_file(fs: Seq<FileRefView>, id: Seq<char>) -> bool {
    exists|i: int| 0 <= i < fs.len() && #[trigger] fs[i].id == id
}

/// `fs` with `f` appended, unless an entry with the same id is already there.
pub open spec fn with_file(fs: Seq<FileRefView>, f: FileRefView) -> Seq<FileRefView> {
    if has_file(fs, f.id) {
        fs
    } else {
        fs.push(f)
    }
}

/// No two entries share an id.
pub open spec fn unique_ids(fs: Seq<FileRefView>) -> bool {
    forall|i: int, j: int| 0 <= i < j < fs.len() ==> #[trigger] fs[i].id != #[trigger] fs[j].id
}

/// The first index at which `p` holds, none before it.
pub open spec fn is_first<T>(s: Seq<T>, p: spec_fn(T) -> bool, i: int) -> bool {
    0 <= i < s.len() && p(s[i]) && forall|j: int| 0 <= j < i ==> !p(#[trigger] s[j])
}

pub open spec fn first_index<T>(s: Seq<T>, p: spec_fn(T) -> bool) -> Option<int> {
    if exists|i: int| is_first(s, p, i) {
        Some(choose|i: int| is_first(s, p, i))
    } else {
        None
    }
}

pub proof fn lemma_first_index<T>(s: Seq<T>, p: spec_fn(T) -> bool, i: int)
    requires
        is_first(s, p, i),
    ensures
        first_index(s, p) == Some(i),
{
    let k = choose|k: int| is_first(s, p, k);
    assert(is_first(s, p, k));
    if k < i {
        assert(!p(s[k]));
    } else if i < k {
        assert(!p(s[i]));
    }
}

pub proof fn lemma_first_index_none<T>(s: Seq<T>, p: spec_fn(T) -> bool)
    requires
        forall|j: int| 0 <= j < s.len() ==> !p(#[trigger] s[j]),
    ensures
        first_index(s, p) == None::<int>,
{
    if exists|i: int| is_first(s, p, i) {
        let k = choose|k: int| is_first(s, p, k);
        assert(p(s[k]));
    }
}

/// A resolved document: content blocks in order and the files they reference.
pub struct ResolvedContent {
    pub blocks: Vec<ArchiveContent>,
    pub files: Vec<FileReference>,
}

pub struct DocView {
    pub blocks: Seq<ContentView>,
    pub files: Seq<FileRefView>,
}

impl View for ResolvedContent {
    type V = DocView;

    open spec fn view(&self) -> DocView {
        DocView { blocks: blocks_view(self.blocks@), files: files_view(self.files@) }
    }
}

/// Adds `f` to the file table unless its id is already present.
pub fn add_file(files: &mut Vec<FileReference>, f: FileReference)
    ensures
        files_view(final(files)@) == with_file(files_view(old(files)@), f@),
        unique_ids(files_view(old(files)@)) ==> unique_ids(files_view(final(files)@)),
{
    let ghost fv = files_view(files@);
    let mut i: usize = 0;
    while i < files.len()
        invariant
            0 <= i <= files.len(),
            fv == files_view(files@),
            forall|j: int| 0 <= j < i ==> fv[j].id != f.id@,
        decreases files.len() - i,
    {
        if files[i].id == f.id {
            assert(has_file(fv, f@.id)) by {
                assert(fv[i as int].id == f@.id);
            }
            return;
        }
        i = i + 1;
    }
    assert(!has_file(fv, f@.id));
    files.push(f);
    assert(files_view(files@) =~= fv.push(f@));
}

} // verus!
