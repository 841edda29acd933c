//! The archive's own data model: authors, posts, files and content.

use vstd::prelude::*;
use crate::text::{
    insert_all_desc, insert_text_desc, lemma_str_le_transitive, lemma_str_lt_irreflexive,
    lemma_str_lt_total, lemma_str_lt_transitive, str_lt, text_lt, texts_view,
};

verus! {

/// One resolved unit of post content. `Image`, `Video` and `File` hold the id of
/// a file reference that the document's file table describes.
pub enum ArchiveContent {
    Text(String),
    Image(String),
    Video(String),
    File(String),
}

pub enum ContentView {
    Text(Seq<char>),
    Image(Seq<char>),
    Video(Seq<char>),
    File(Seq<char>),
}

impl View for ArchiveContent {
    type V = ContentView;

    open spec fn view(&self) -> ContentView {
        match self {
            ArchiveContent::Text(s) => ContentView::Text(s@),
            ArchiveContent::Image(s) => ContentView::Image(s@),
            ArchiveContent::Video(s) => ContentView::Video(s@),
            ArchiveContent::File(s) => ContentView::File(s@),
        }
    }
}

/// Where an archived item came from.
#[derive(PartialEq, Eq, Structural, Clone, Copy)]
pub enum ArchiveByType {
    Fanbox,
}

/// A stored file: its name and its path under the output directory.
pub enum ArchiveFile {
    Image { width: u32, height: u32, filename: String, path: String },
    Video { filename: String, path: String },
    File { filename: String, path: String },
}

pub enum FileView {
    Image { width: u32, height: u32, filename: Seq<char>, path: Seq<char> },
    Video { filename: Seq<char>, path: Seq<char> },
    File { filename: Seq<char>, path: Seq<char> },
}

impl View for ArchiveFile {
    type V = FileView;

    open spec fn view(&self) -> FileView {
        match self {
            ArchiveFile::Image { width, height, filename, path } => FileView::Image {
                width: *width,
                height: *height,
                filename: filename@,
                path: path@,
            },
            ArchiveFile::Video { filename, path } => FileView::Video {
                filename: filename@,
                path: path@,
            },
            ArchiveFile::File { filename, path } => FileView::File {
                filename: filename@,
                path: path@,
            },
        }
    }
}

impl ArchiveFile {
    pub fn filename(&self) -> (r: &String)
        ensures
            *r == match self {
                ArchiveFile::Image { filename, .. } => *filename,
                ArchiveFile::Video { filename, .. } => *filename,
                ArchiveFile::File { filename, .. } => *filename,
            },
    {
        match self {
            ArchiveFile::Image { filename, .. } => filename,
            ArchiveFile::Video { filename, .. } => filename,
            ArchiveFile::File { filename, .. } => filename,
        }
    }

    pub fn path(&self) -> (r: &String)
        ensures
            *r == match self {
                ArchiveFile::Image { path, .. } => *path,
                ArchiveFile::Video { path, .. } => *path,
                ArchiveFile::File { path, .. } => *path,
            },
    {
        match self {
            ArchiveFile::Image { path, .. } => path,
            ArchiveFile::Video { path, .. } => path,
            ArchiveFile::File { path, .. } => path,
        }
    }

    pub fn is_image(&self) -> (r: bool)
        ensures
            r == self is Image,
    {
        match self {
            ArchiveFile::Image { .. } => true,
            _ => false,
        }
    }
}

impl Clone for ArchiveFile {
    fn clone(&self) -> (r: Self)
        ensures
            r == *self,
    {
        match self {
            ArchiveFile::Image { width, height, filename, path } => ArchiveFile::Image {
                width: *width,
                height: *height,
                filename: filename.clone(),
                path: path.clone(),
            },
            ArchiveFile::Video { filename, path } => ArchiveFile::Video {
                filename: filename.clone(),
                path: path.clone(),
            },
            ArchiveFile::File { filename, path } => ArchiveFile::File {
                filename: filename.clone(),
                path: path.clone(),
            },
        }
    }
}

/// A comment with its replies.
pub struct ArchiveComment {
    pub user: String,
    pub text: String,
    pub replies: Vec<ArchiveComment>,
}

/// An author as listed in the archive's author index.
pub struct ArchiveAuthorsItem {
    pub id: String,
    pub name: String,
    pub ty: ArchiveByType,
    pub thumb: Option<ArchiveFile>,
}

pub open spec fn or_thumb(a: Option<ArchiveFile>, b: Option<ArchiveFile>) -> Option<ArchiveFile> {
    match a {
        Some(t) => Some(t),
        None => b,
    }
}

fn clone_thumb(t: &Option<ArchiveFile>) -> (r: Option<ArchiveFile>)
    ensures
        r == *t,
{
    match t {
        Some(f) => Some(f.clone()),
        None => None,
    }
}

impl ArchiveAuthorsItem {
    /// Takes the newer record's fields, keeping the old thumbnail when the
    /// newer one has none.
    pub fn extend(&mut self, rhs: Self)
        ensures
            final(self).id == rhs.id,
            final(self).name == rhs.name,
            final(self).ty == rhs.ty,
            final(self).thumb == or_thumb(rhs.thumb, old(self).thumb),
    {
        let old_thumb = clone_thumb(&self.thumb);
        self.id = rhs.id;
        self.name = rhs.name;
        self.ty = rhs.ty;
        self.thumb = match rhs.thumb {
            Some(t) => Some(t),
            None => old_thumb,
        };
    }
}

/// An author with the ids of its archived posts.
pub struct ArchiveAuthor {
    pub id: String,
    pub name: String,
    pub posts: Vec<String>,
    pub ty: ArchiveByType,
    pub thumb: Option<ArchiveFile>,
}

impl ArchiveAuthor {
    /// Takes the newer record's fields and the union of both post lists, in
    /// descending order without repeats; the old thumbnail stays when the
    /// newer record has none.
    pub fn extend(&mut self, rhs: Self)
        ensures
            texts_view(final(self).posts@) == insert_all_desc(
                insert_all_desc(Seq::empty(), texts_view(old(self).posts@)),
                texts_view(rhs.posts@),
            ),
            final(self).id == rhs.id,
            final(self).name == rhs.name,
            final(self).ty == rhs.ty,
            final(self).thumb == or_thumb(rhs.thumb, old(self).thumb),
    {
        let mut posts: Vec<String> = Vec::new();
        assert(texts_view(posts@) =~= insert_all_desc(Seq::empty(), texts_view(self.posts@).take(0)));
        let mut i: usize = 0;
        while i < self.posts.len()
            invariant
                0 <= i <= self.posts.len(),
                texts_view(posts@) == insert_all_desc(Seq::empty(), texts_view(self.posts@).take(i as int)),
            decreases self.posts.len() - i,
        {
            assert(texts_view(self.posts@).take(i + 1).drop_last() =~= texts_view(self.posts@).take(i as int));
            insert_text_desc(&mut posts, &self.posts[i]);
            i = i + 1;
        }
        assert(texts_view(self.posts@).take(self.posts.len() as int) =~= texts_view(self.posts@));
        let ghost base = texts_view(posts@);
        let mut i: usize = 0;
        assert(texts_view(rhs.posts@).take(0) =~= Seq::<Seq<char>>::empty());
        while i < rhs.posts.len()
            invariant
                0 <= i <= rhs.posts.len(),
                texts_view(posts@) == insert_all_desc(base, texts_view(rhs.posts@).take(i as int)),
            decreases rhs.posts.len() - i,
        {
            assert(texts_view(rhs.posts@).take(i + 1).drop_last() =~= texts_view(rhs.posts@).take(i as int));
            insert_text_desc(&mut posts, &rhs.posts[i]);
            i = i + 1;
        }
        assert(texts_view(rhs.posts@).take(rhs.posts.len() as int) =~= texts_view(rhs.posts@));
        let old_thumb = clone_thumb(&self.thumb);
        self.id = rhs.id;
        self.posts = posts;
        self.name = rhs.name;
        self.ty = rhs.ty;
        self.thumb = match rhs.thumb {
            Some(t) => Some(t),
            None => old_thumb,
        };
    }

    /// The author's entry in the author index.
    pub fn to_item(self) -> (r: ArchiveAuthorsItem)
        ensures
            r.id == self.id,
            r.name == self.name,
            r.ty == self.ty,
            r.thumb == self.thumb,
    {
        ArchiveAuthorsItem { id: self.id, name: self.name, ty: self.ty, thumb: self.thumb }
    }
}

impl Clone for ArchiveAuthorsItem {
    fn clone(&self) -> (r: Self)
        ensures
            r == *self,
    {
        ArchiveAuthorsItem {
            id: self.id.clone(),
            name: self.name.clone(),
            ty: self.ty,
            thumb: clone_thumb(&self.thumb),
        }
    }
}

pub open spec fn merged_item(old: ArchiveAuthorsItem, new: ArchiveAuthorsItem) -> ArchiveAuthorsItem {
    ArchiveAuthorsItem { id: new.id, name: new.name, ty: new.ty, thumb: or_thumb(new.thumb, old.thumb) }
}

/// What an entry of the same id becomes: the newer entry merged into the
/// older one, or the newer entry alone.
pub open spec fn combined(old: ArchiveAuthorsItem, new: ArchiveAuthorsItem, merge: bool) -> ArchiveAuthorsItem {
    if merge {
        merged_item(old, new)
    } else {
        new
    }
}

/// No entry has a greater id than one after it.
pub open spec fn ids_ascending(s: Seq<ArchiveAuthorsItem>) -> bool {
    forall|i: int, j: int| 0 <= i < j < s.len() ==> !str_lt((#[trigger] s[j]).id@, (#[trigger] s[i]).id@)
}

/// Every entry's id is below the ids of the entries after it.
pub open spec fn ids_strictly_ascending(s: Seq<ArchiveAuthorsItem>) -> bool {
    forall|i: int, j: int| 0 <= i < j < s.len() ==> str_lt((#[trigger] s[i]).id@, (#[trigger] s[j]).id@)
}

/// Inserts `x` after every entry whose id is not above its own, so entries
/// of equal id keep their order.
pub open spec fn insert_item(s: Seq<ArchiveAuthorsItem>, x: ArchiveAuthorsItem) -> Seq<ArchiveAuthorsItem>
    decreases s.len(),
{
    if s.len() == 0 {
        seq![x]
    } else if str_lt(x.id@, s.last().id@) {
        insert_item(s.drop_last(), x).push(s.last())
    } else {
        s.push(x)
    }
}

/// `xs` stably sorted by id.
pub open spec fn sort_items(xs: Seq<ArchiveAuthorsItem>) -> Seq<ArchiveAuthorsItem>
    decreases xs.len(),
{
    if xs.len() == 0 {
        Seq::empty()
    } else {
        insert_item(sort_items(xs.drop_last()), xs.last())
    }
}

/// Adds `x` to a list in strictly ascending order of id; an entry of the
/// same id is replaced by `combined(entry, x, merge)`.
pub open spec fn upsert_item(s: Seq<ArchiveAuthorsItem>, x: ArchiveAuthorsItem, merge: bool) -> Seq<ArchiveAuthorsItem>
    decreases s.len(),
{
    if s.len() == 0 {
        seq![x]
    } else if s.last().id@ == x.id@ {
        s.drop_last().push(combined(s.last(), x, merge))
    } else if str_lt(x.id@, s.last().id@) {
        upsert_item(s.drop_last(), x, merge).push(s.last())
    } else {
        s.push(x)
    }
}

pub open spec fn upsert_all(s: Seq<ArchiveAuthorsItem>, xs: Seq<ArchiveAuthorsItem>, merge: bool) -> Seq<ArchiveAuthorsItem>
    decreases xs.len(),
{
    if xs.len() == 0 {
        s
    } else {
        upsert_item(upsert_all(s, xs.drop_last(), merge), xs.last(), merge)
    }
}

pub open spec fn author_item(a: ArchiveAuthor) -> ArchiveAuthorsItem {
    ArchiveAuthorsItem { id: a.id, name: a.name, ty: a.ty, thumb: a.thumb }
}

proof fn lemma_insert_item_split(s: Seq<ArchiveAuthorsItem>, x: ArchiveAuthorsItem, j: int)
    requires
        0 <= j <= s.len(),
        forall|k: int| j <= k < s.len() ==> str_lt(x.id@, (#[trigger] s[k]).id@),
        j == 0 || !str_lt(x.id@, s[j - 1].id@),
    ensures
        insert_item(s, x) == s.take(j).push(x) + s.skip(j),
    decreases s.len() - j,
{
    if j == s.len() {
        if j == 0 {
            assert(s.take(j).push(x) + s.skip(j) =~= seq![x]);
        } else {
            assert(s.take(j).push(x) + s.skip(j) =~= s.push(x));
        }
    } else {
        let t = s.drop_last();
        assert(str_lt(x.id@, s.last().id@));
        assert forall|k: int| j <= k < t.len() implies str_lt(x.id@, (#[trigger] t[k]).id@) by {
            assert(t[k] == s[k]);
        }
        if j > 0 {
            assert(t[j - 1] == s[j - 1]);
        }
        lemma_insert_item_split(t, x, j);
        assert(t.take(j) =~= s.take(j));
        assert((t.take(j).push(x) + t.skip(j)).push(s.last()) =~= s.take(j).push(x) + s.skip(j));
    }
}

proof fn lemma_upsert_split(s: Seq<ArchiveAuthorsItem>, x: ArchiveAuthorsItem, merge: bool, j: int)
    requires
        0 <= j <= s.len(),
        forall|k: int| j <= k < s.len() ==> str_lt(x.id@, (#[trigger] s[k]).id@),
        j == 0 || !str_lt(x.id@, s[j - 1].id@),
    ensures
        upsert_item(s, x, merge) == if j > 0 && s[j - 1].id@ == x.id@ {
            s.update(j - 1, combined(s[j - 1], x, merge))
        } else {
            s.take(j).push(x) + s.skip(j)
        },
    decreases s.len() - j,
{
    if j == s.len() {
        if j == 0 {
            assert(s.take(j).push(x) + s.skip(j) =~= seq![x]);
        } else if s[j - 1].id@ == x.id@ {
            assert(s.drop_last().push(combined(s.last(), x, merge)) =~= s.update(
                j - 1,
                combined(s[j - 1], x, merge),
            ));
        } else {
            assert(s.take(j).push(x) + s.skip(j) =~= s.push(x));
        }
    } else {
        let t = s.drop_last();
        assert(str_lt(x.id@, s.last().id@));
        lemma_str_lt_irreflexive(x.id@);
        assert(s.last().id@ != x.id@);
        assert forall|k: int| j <= k < t.len() implies str_lt(x.id@, (#[trigger] t[k]).id@) by {
            assert(t[k] == s[k]);
        }
        if j > 0 {
            assert(t[j - 1] == s[j - 1]);
        }
        lemma_upsert_split(t, x, merge, j);
        assert(upsert_item(s, x, merge) == upsert_item(t, x, merge).push(s.last()));
        if j > 0 && s[j - 1].id@ == x.id@ {
            assert(t.update(j - 1, combined(t[j - 1], x, merge)).push(s.last()) =~= s.update(
                j - 1,
                combined(s[j - 1], x, merge),
            ));
        } else {
            assert(t.take(j) =~= s.take(j));
            assert((t.take(j).push(x) + t.skip(j)).push(s.last()) =~= s.take(j).push(x) + s.skip(j));
        }
    }
}

/// Inserting after the last entry not above `x` keeps a list ascending.
proof fn lemma_insert_ascending(s: Seq<ArchiveAuthorsItem>, x: ArchiveAuthorsItem, j: int)
    requires
        ids_ascending(s),
        0 <= j <= s.len(),
        forall|k: int| j <= k < s.len() ==> str_lt(x.id@, (#[trigger] s[k]).id@),
        j == 0 || !str_lt(x.id@, s[j - 1].id@),
    ensures
        ids_ascending(s.take(j).push(x) + s.skip(j)),
{
    let r = s.take(j).push(x) + s.skip(j);
    assert forall|a: int, b: int| 0 <= a < b < r.len() implies !str_lt((#[trigger] r[b]).id@, (#[trigger] r[a]).id@) by {
        if a < j && b < j {
            assert(r[a] == s[a] && r[b] == s[b]);
        } else if a < j && b == j {
            assert(r[a] == s[a] && r[b] == x);
            if a < j - 1 {
                assert(!str_lt(s[j - 1].id@, s[a].id@));
                lemma_str_le_transitive(s[a].id@, s[j - 1].id@, x.id@);
            }
        } else if a < j {
            assert(r[a] == s[a] && r[b] == s[b - 1]);
        } else if a == j {
            assert(r[a] == x && r[b] == s[b - 1]);
            lemma_str_lt_total(x.id@, s[b - 1].id@);
        } else {
            assert(r[a] == s[a - 1] && r[b] == s[b - 1]);
        }
    }
}

/// Upserting keeps a list strictly ascending.
proof fn lemma_upsert_strict(s: Seq<ArchiveAuthorsItem>, x: ArchiveAuthorsItem, merge: bool, j: int)
    requires
        ids_strictly_ascending(s),
        0 <= j <= s.len(),
        forall|k: int| j <= k < s.len() ==> str_lt(x.id@, (#[trigger] s[k]).id@),
        j == 0 || !str_lt(x.id@, s[j - 1].id@),
    ensures
        ids_strictly_ascending(upsert_item(s, x, merge)),
{
    lemma_upsert_split(s, x, merge, j);
    if j > 0 && s[j - 1].id@ == x.id@ {
        let r = s.update(j - 1, combined(s[j - 1], x, merge));
        assert forall|a: int, b: int| 0 <= a < b < r.len() implies str_lt((#[trigger] r[a]).id@, (#[trigger] r[b]).id@) by {
            assert(r[a].id@ == s[a].id@ && r[b].id@ == s[b].id@);
        }
    } else {
        let r = s.take(j).push(x) + s.skip(j);
        if j > 0 {
            lemma_str_lt_total(x.id@, s[j - 1].id@);
        }
        assert forall|a: int, b: int| 0 <= a < b < r.len() implies str_lt((#[trigger] r[a]).id@, (#[trigger] r[b]).id@) by {
            if a < j && b < j {
                assert(r[a] == s[a] && r[b] == s[b]);
            } else if a < j && b == j {
                assert(r[a] == s[a] && r[b] == x);
                if a < j - 1 {
                    lemma_str_lt_transitive(s[a].id@, s[j - 1].id@, x.id@);
                }
            } else if a < j {
                assert(r[a] == s[a] && r[b] == s[b - 1]);
            } else if a == j {
                assert(r[a] == x && r[b] == s[b - 1]);
            } else {
                assert(r[a] == s[a - 1] && r[b] == s[b - 1]);
            }
        }
    }
}

fn scan_back(v: &Vec<ArchiveAuthorsItem>, x: &ArchiveAuthorsItem) -> (j: usize)
    ensures
        j <= v.len(),
        forall|k: int| j <= k < v.len() ==> str_lt(x.id@, (#[trigger] v@[k]).id@),
        j == 0 || !str_lt(x.id@, v@[j - 1].id@),
{
    let mut j = v.len();
    while j > 0 && text_lt(x.id.as_str(), v[j - 1].id.as_str())
        invariant
            0 <= j <= v.len(),
            forall|k: int| j <= k < v.len() ==> str_lt(x.id@, (#[trigger] v@[k]).id@),
        decreases j,
    {
        j = j - 1;
    }
    j
}

fn insert_item_exec(v: &mut Vec<ArchiveAuthorsItem>, x: ArchiveAuthorsItem)
    ensures
        final(v)@ == insert_item(old(v)@, x),
        ids_ascending(old(v)@) ==> ids_ascending(final(v)@),
{
    let j = scan_back(v, &x);
    proof {
        lemma_insert_item_split(v@, x, j as int);
        if ids_ascending(v@) {
            lemma_insert_ascending(v@, x, j as int);
        }
    }
    v.insert(j, x);
    assert(v@ =~= old(v)@.take(j as int).push(x) + old(v)@.skip(j as int));
}

fn upsert_item_exec(v: &mut Vec<ArchiveAuthorsItem>, x: ArchiveAuthorsItem, merge: bool)
    ensures
        final(v)@ == upsert_item(old(v)@, x, merge),
        ids_strictly_ascending(old(v)@) ==> ids_strictly_ascending(final(v)@),
        forall|id: Seq<char>| #[trigger] has_item(final(v)@, id) <==> (has_item(old(v)@, id) || x.id@ == id),
{
    let j = scan_back(v, &x);
    proof {
        lemma_upsert_ids(v@, x, merge, j as int);
        lemma_upsert_split(v@, x, merge, j as int);
        if ids_strictly_ascending(v@) {
            lemma_upsert_strict(v@, x, merge, j as int);
        }
    }
    if j > 0 && v[j - 1].id == x.id {
        if merge {
            let mut it = v[j - 1].clone();
            it.extend(x);
            v.set(j - 1, it);
        } else {
            v.set(j - 1, x);
        }
    } else {
        v.insert(j, x);
        assert(v@ =~= old(v)@.take(j as int).push(x) + old(v)@.skip(j as int));
    }
}

/// Some entry has the id `id`.
pub open spec fn has_item(s: Seq<ArchiveAuthorsItem>, id: Seq<char>) -> bool {
    exists|i: int| 0 <= i < s.len() && (#[trigger] s[i]).id@ == id
}

proof fn lemma_upsert_ids(s: Seq<ArchiveAuthorsItem>, x: ArchiveAuthorsItem, merge: bool, j: int)
    requires
        0 <= j <= s.len(),
        forall|k: int| j <= k < s.len() ==> str_lt(x.id@, (#[trigger] s[k]).id@),
        j == 0 || !str_lt(x.id@, s[j - 1].id@),
    ensures
        forall|id: Seq<char>| #[trigger] has_item(upsert_item(s, x, merge), id) <==> (has_item(s, id) || x.id@ == id),
{
    lemma_upsert_split(s, x, merge, j);
    let r = upsert_item(s, x, merge);
    assert forall|id: Seq<char>| #[trigger] has_item(r, id) <==> (has_item(s, id) || x.id@ == id) by {
        if j > 0 && s[j - 1].id@ == x.id@ {
            if has_item(r, id) {
                let k = choose|k: int| 0 <= k < r.len() && (#[trigger] r[k]).id@ == id;
                assert(s[k].id@ == id);
            }
            if has_item(s, id) {
                let k = choose|k: int| 0 <= k < s.len() && (#[trigger] s[k]).id@ == id;
                assert(r[k].id@ == id);
            }
            if x.id@ == id {
                assert(r[j - 1].id@ == id);
            }
        } else {
            if has_item(r, id) {
                let k = choose|k: int| 0 <= k < r.len() && (#[trigger] r[k]).id@ == id;
                if k < j {
                    assert(r[k] == s[k]);
                } else if k > j {
                    assert(r[k] == s[k - 1]);
                }
            }
            if has_item(s, id) {
                let k = choose|k: int| 0 <= k < s.len() && (#[trigger] s[k]).id@ == id;
                if k < j {
                    assert(r[k] == s[k]);
                } else {
                    assert(r[k + 1] == s[k]);
                }
            }
            if x.id@ == id {
                assert(r[j] == x);
            }
        }
    }
}

proof fn lemma_has_item_push(s: Seq<ArchiveAuthorsItem>, x: ArchiveAuthorsItem)
    ensures
        forall|id: Seq<char>| #[trigger] has_item(s.push(x), id) <==> (has_item(s, id) || x.id@ == id),
{
    assert forall|id: Seq<char>| #[trigger] has_item(s.push(x), id) <==> (has_item(s, id) || x.id@ == id) by {
        if has_item(s, id) {
            let k = choose|k: int| 0 <= k < s.len() && (#[trigger] s[k]).id@ == id;
            assert(s.push(x)[k] == s[k]);
        }
        if x.id@ == id {
            assert(s.push(x)[s.len() as int] == x);
        }
        if has_item(s.push(x), id) {
            let k = choose|k: int| 0 <= k < s.push(x).len() && (#[trigger] s.push(x)[k]).id@ == id;
            if k < s.len() {
                assert(s.push(x)[k] == s[k]);
            }
        }
    }
}

proof fn lemma_insert_item_multiset(s: Seq<ArchiveAuthorsItem>, x: ArchiveAuthorsItem)
    ensures
        insert_item(s, x).len() == s.len() + 1,
        insert_item(s, x).to_multiset() == s.to_multiset().insert(x),
    decreases s.len(),
{
    broadcast use vstd::seq_lib::group_to_multiset_ensures, vstd::multiset::group_multiset_axioms;

    if s.len() == 0 {
        assert(seq![x] =~= s.push(x));
    } else {
        let t = s.drop_last();
        assert(t.push(s.last()) =~= s);
        if str_lt(x.id@, s.last().id@) {
            lemma_insert_item_multiset(t, x);
            assert(insert_item(s, x).to_multiset() =~= s.to_multiset().insert(x));
        }
    }
}

proof fn lemma_sort_items(xs: Seq<ArchiveAuthorsItem>)
    ensures
        sort_items(xs).len() == xs.len(),
        sort_items(xs).to_multiset() == xs.to_multiset(),
    decreases xs.len(),
{
    broadcast use vstd::seq_lib::group_to_multiset_ensures;

    if xs.len() > 0 {
        let t = xs.drop_last();
        lemma_sort_items(t);
        lemma_insert_item_multiset(sort_items(t), xs.last());
        assert(t.push(xs.last()) =~= xs);
    }
}

/// The author index: entries in ascending order of id.
pub struct ArchiveAuthorsList(pub Vec<ArchiveAuthorsItem>);

impl ArchiveAuthorsList {
    /// The index of the given authors: one entry per author, stably sorted by
    /// id, so it is a permutation of the authors' entries.
    pub fn from_vector(vec: Vec<ArchiveAuthor>) -> (r: Self)
        ensures
            r.0@ == sort_items(vec@.map_values(|a: ArchiveAuthor| author_item(a))),
            r.0@.len() == vec@.len(),
            r.0@.to_multiset() == vec@.map_values(|a: ArchiveAuthor| author_item(a)).to_multiset(),
            ids_ascending(r.0@),
    {
        let ghost items = vec@.map_values(|a: ArchiveAuthor| author_item(a));
        let mut out: Vec<ArchiveAuthorsItem> = Vec::new();
        let mut rest = vec;
        let ghost all = rest@;
        let ghost mut k: int = 0;
        while rest.len() > 0
            invariant
                0 <= k <= all.len(),
                rest@ == all.skip(k),
                items == all.map_values(|a: ArchiveAuthor| author_item(a)),
                out@ == sort_items(items.take(k)),
                ids_ascending(out@),
            decreases rest.len(),
        {
            let a = rest.remove(0);
            assert(a == all[k]);
            assert(items.take(k + 1).drop_last() =~= items.take(k));
            let item = a.to_item();
            insert_item_exec(&mut out, item);
            proof {
                k = k + 1;
                assert(rest@ =~= all.skip(k));
            }
        }
        assert(items.take(k) =~= items);
        proof {
            lemma_sort_items(items);
        }
        ArchiveAuthorsList(out)
    }

    /// Merges a newer index into this one. The result holds every entry of
    /// both, in strictly ascending order of id, whatever order they came in:
    /// of stored entries sharing an id the last stays; a newer entry of an id
    /// already there is merged into it (fields from the newer entry, the old
    /// thumbnail kept when the newer has none).
    pub fn extend(&mut self, rhs: Self)
        ensures
            final(self).0@ == upsert_all(upsert_all(Seq::empty(), old(self).0@, false), rhs.0@, true),
            ids_strictly_ascending(final(self).0@),
            forall|id: Seq<char>| #[trigger] has_item(final(self).0@, id) <==> (has_item(old(self).0@, id) || has_item(rhs.0@, id)),
    {
        let mut out: Vec<ArchiveAuthorsItem> = Vec::new();
        let mut i: usize = 0;
        assert(self.0@.take(0) =~= Seq::<ArchiveAuthorsItem>::empty());
        assert(out@ =~= Seq::<ArchiveAuthorsItem>::empty());
        while i < self.0.len()
            invariant
                0 <= i <= self.0.len(),
                self.0@ == old(self).0@,
                out@ == upsert_all(Seq::empty(), self.0@.take(i as int), false),
                ids_strictly_ascending(out@),
                forall|id: Seq<char>| #[trigger] has_item(out@, id) <==> has_item(self.0@.take(i as int), id),
            decreases self.0.len() - i,
        {
            assert(self.0@.take(i + 1).drop_last() =~= self.0@.take(i as int));
            upsert_item_exec(&mut out, self.0[i].clone(), false);
            proof {
                lemma_has_item_push(self.0@.take(i as int), self.0@[i as int]);
                assert(self.0@.take(i + 1) =~= self.0@.take(i as int).push(self.0@[i as int]));
            }
            i = i + 1;
        }
        assert(self.0@.take(self.0.len() as int) =~= self.0@);
        let ghost base = out@;
        assert(forall|id: Seq<char>| !has_item(Seq::<ArchiveAuthorsItem>::empty(), id));
        let mut i: usize = 0;
        assert(rhs.0@.take(0) =~= Seq::<ArchiveAuthorsItem>::empty());
        while i < rhs.0.len()
            invariant
                0 <= i <= rhs.0.len(),
                base == upsert_all(Seq::empty(), old(self).0@, false),
                out@ == upsert_all(base, rhs.0@.take(i as int), true),
                ids_strictly_ascending(out@),
                forall|id: Seq<char>| #[trigger] has_item(out@, id) <==> (has_item(old(self).0@, id) || has_item(rhs.0@.take(i as int), id)),
            decreases rhs.0.len() - i,
        {
            assert(rhs.0@.take(i + 1).drop_last() =~= rhs.0@.take(i as int));
            upsert_item_exec(&mut out, rhs.0[i].clone(), true);
            proof {
                lemma_has_item_push(rhs.0@.take(i as int), rhs.0@[i as int]);
                assert(rhs.0@.take(i + 1) =~= rhs.0@.take(i as int).push(rhs.0@[i as int]));
            }
            i = i + 1;
        }
        assert(rhs.0@.take(rhs.0.len() as int) =~= rhs.0@);
        self.0 = out;
    }
}

/// A stored post. Times are microseconds since the Unix epoch.
pub struct ArchivePost {
    pub id: String,
    pub author: String,
    pub title: String,
    pub ty: ArchiveByType,
    pub files: Vec<ArchiveFile>,
    pub updated: i64,
    pub published: i64,
    pub thumb: Option<ArchiveFile>,
    pub content: Vec<ArchiveContent>,
    pub comments: Vec<ArchiveComment>,
}

} // verus!
