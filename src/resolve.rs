//! Turning fetched Fanbox posts into archive records, author entries and the
//! list of files to download.

use vstd::prelude::*;
use vstd::string::*;
use crate::archive::{or_thumb, ArchiveAuthor, ArchiveByType, ArchiveFile, ArchivePost, FileView};
use crate::content::{
    add_file, blocks_view, files_view, first_index, lemma_first_index, lemma_first_index_none,
    unique_ids, with_file, FileRefView, FileReference,
};
use crate::creator::Creator;
use crate::fanbox::{
    content_spec, dot_join, file_ref, image_ref, opt_seq, table_values, Comment, PostBody,
    PostFile, PostImage, ResolveError,
};
use crate::files::{join_path, plan_downloads, plan_view, planned, PlannedDownload, PlannedView};
use crate::text::{has_prefix, insert_all_desc, starts_with, texts_view};

verus! {

/// A fetched Fanbox post. Times are microseconds since the Unix epoch.
pub struct FanboxPost {
    pub id: String,
    pub title: String,
    pub creator_id: String,
    pub fee_required: u32,
    pub published: i64,
    pub updated: i64,
    pub tags: Vec<String>,
    pub body: PostBody,
    pub comments: Vec<Comment>,
}

pub open spec fn key_named(k: Seq<char>) -> spec_fn((Seq<char>, u64)) -> bool {
    |e: (Seq<char>, u64)| e.0 == k
}

/// The first extra named `k`, when it fits in 32 bits; else 0.
pub open spec fn extra_dim(extra: Seq<(Seq<char>, u64)>, k: Seq<char>) -> u32 {
    match first_index(extra, key_named(k)) {
        Some(i) => if extra[i].1 <= u32::MAX as u64 {
            extra[i].1 as u32
        } else {
            0
        },
        None => 0,
    }
}

/// How a file is stored: images with their dimensions, videos, other files;
/// told apart by MIME type.
pub open spec fn stored_file(folder: Seq<char>, f: FileRefView) -> FileView {
    let path = join_path(folder, f.filename);
    if has_prefix(f.mime, "image/"@) {
        FileView::Image {
            width: extra_dim(f.extra, "width"@),
            height: extra_dim(f.extra, "height"@),
            filename: f.filename,
            path,
        }
    } else if has_prefix(f.mime, "video/"@) {
        FileView::Video { filename: f.filename, path }
    } else {
        FileView::File { filename: f.filename, path }
    }
}

pub open spec fn stored_files_view(v: Seq<ArchiveFile>) -> Seq<FileView> {
    v.map_values(|f: ArchiveFile| f@)
}

pub open spec fn opt_file(o: Option<ArchiveFile>) -> Option<FileView> {
    match o {
        Some(f) => Some(f@),
        None => None,
    }
}

pub open spec fn post_folder(p: FanboxPost) -> Seq<char> {
    join_path(p.creator_id@, p.id@)
}

/// `fs` with each of `rs` added in turn, unless its id is already there.
pub open spec fn with_files(fs: Seq<FileRefView>, rs: Seq<FileRefView>) -> Seq<FileRefView>
    decreases rs.len(),
{
    if rs.len() == 0 {
        fs
    } else {
        with_file(with_files(fs, rs.drop_last()), rs.last())
    }
}

pub open spec fn body_files(b: PostBody) -> Seq<PostFile> {
    opt_seq(b.files) + table_values(opt_seq(b.file_map))
}

pub open spec fn body_images(b: PostBody) -> Seq<PostImage> {
    opt_seq(b.images) + table_values(opt_seq(b.image_map))
}

/// Every file of a post, once per id: those its content references, then
/// every file and every image of its lists and side tables.
pub open spec fn post_table(p: FanboxPost) -> Seq<FileRefView> {
    with_files(
        with_files(
            content_spec(p.body)->Ok_0.files,
            body_files(p.body).map_values(|f: PostFile| file_ref(f)),
        ),
        body_images(p.body).map_values(|i: PostImage| image_ref(i)),
    )
}

/// The thumbnail of a post: its first image (flat list first, then side
/// table), stored with its dimensions.
pub open spec fn post_thumb(p: FanboxPost) -> Option<FileView> {
    if body_images(p.body).len() == 0 {
        None
    } else {
        let img = body_images(p.body)[0];
        let filename = dot_join(img.id@, img.extension@);
        Some(
            FileView::Image {
                width: img.width,
                height: img.height,
                filename,
                path: join_path(post_folder(p), filename),
            },
        )
    }
}

/// What a post is archived as, when its body resolves.
pub open spec fn archived_as(p: FanboxPost, a: ArchivePost) -> bool {
    &&& content_spec(p.body) is Ok
    &&& a.id == p.id
    &&& a.author == p.creator_id
    &&& a.title == p.title
    &&& a.ty == ArchiveByType::Fanbox
    &&& a.updated == p.updated
    &&& a.published == p.published
    &&& blocks_view(a.content@) == content_spec(p.body)->Ok_0.blocks
    &&& stored_files_view(a.files@) == post_table(p).map_values(
        |f: FileRefView| stored_file(post_folder(p), f),
    )
    &&& unique_ids(post_table(p))
    &&& opt_file(a.thumb) == post_thumb(p)
    &&& a.comments@.len() == p.comments@.len()
    &&& forall|i: int|
        0 <= i < a.comments@.len() ==> (#[trigger] a.comments@[i]).user
            == p.comments@[i].user.name && a.comments@[i].text == p.comments@[i].body
}

fn find_extra(extra: &Vec<(String, u64)>, k: &str) -> (r: u32)
    ensures
        r == extra_dim(extra@.map_values(|p: (String, u64)| (p.0@, p.1)), k@),
{
    let ghost ev = extra@.map_values(|p: (String, u64)| (p.0@, p.1));
    let key = String::from_str(k);
    let mut i: usize = 0;
    while i < extra.len()
        invariant
            0 <= i <= extra.len(),
            key@ == k@,
            ev == extra@.map_values(|p: (String, u64)| (p.0@, p.1)),
            forall|j: int| 0 <= j < i ==> !key_named(k@)(#[trigger] ev[j]),
        decreases extra.len() - i,
    {
        if extra[i].0 == key {
            proof {
                lemma_first_index(ev, key_named(k@), i as int);
            }
            let v = extra[i].1;
            return if v <= u32::MAX as u64 {
                v as u32
            } else {
                0
            };
        }
        i = i + 1;
    }
    proof {
        lemma_first_index_none(ev, key_named(k@));
    }
    0
}

/// The stored form of one file of a post's file table.
pub fn stored_file_exec(folder: &String, f: &FileReference) -> (r: ArchiveFile)
    ensures
        r@ == stored_file(folder@, f@),
{
    let mut path = folder.clone();
    path.append("/");
    path.append(f.filename.as_str());
    if starts_with(f.mime.as_str(), "image/") {
        ArchiveFile::Image {
            width: find_extra(&f.extra, "width"),
            height: find_extra(&f.extra, "height"),
            filename: f.filename.clone(),
            path,
        }
    } else if starts_with(f.mime.as_str(), "video/") {
        ArchiveFile::Video { filename: f.filename.clone(), path }
    } else {
        ArchiveFile::File { filename: f.filename.clone(), path }
    }
}

fn add_files(table: &mut Vec<FileReference>, fs: &Vec<PostFile>)
    ensures
        files_view(final(table)@) == with_files(
            files_view(old(table)@),
            fs@.map_values(|f: PostFile| file_ref(f)),
        ),
        unique_ids(files_view(old(table)@)) ==> unique_ids(files_view(final(table)@)),
{
    let ghost t0 = files_view(table@);
    let ghost rs = fs@.map_values(|f: PostFile| file_ref(f));
    let mut i: usize = 0;
    while i < fs.len()
        invariant
            0 <= i <= fs.len(),
            rs == fs@.map_values(|f: PostFile| file_ref(f)),
            t0 == files_view(old(table)@),
            files_view(table@) == with_files(t0, rs.take(i as int)),
            unique_ids(t0) ==> unique_ids(files_view(table@)),
        decreases fs.len() - i,
    {
        assert(rs.take(i + 1).drop_last() =~= rs.take(i as int));
        add_file(table, fs[i].file_reference());
        i = i + 1;
    }
    assert(rs.take(fs.len() as int) =~= rs);
}

fn add_images(table: &mut Vec<FileReference>, imgs: &Vec<PostImage>)
    ensures
        files_view(final(table)@) == with_files(
            files_view(old(table)@),
            imgs@.map_values(|i: PostImage| image_ref(i)),
        ),
        unique_ids(files_view(old(table)@)) ==> unique_ids(files_view(final(table)@)),
{
    let ghost t0 = files_view(table@);
    let ghost rs = imgs@.map_values(|i: PostImage| image_ref(i));
    let mut i: usize = 0;
    while i < imgs.len()
        invariant
            0 <= i <= imgs.len(),
            rs == imgs@.map_values(|i: PostImage| image_ref(i)),
            t0 == files_view(old(table)@),
            files_view(table@) == with_files(t0, rs.take(i as int)),
            unique_ids(t0) ==> unique_ids(files_view(table@)),
        decreases imgs.len() - i,
    {
        assert(rs.take(i + 1).drop_last() =~= rs.take(i as int));
        add_file(table, imgs[i].file_reference());
        i = i + 1;
    }
    assert(rs.take(imgs.len() as int) =~= rs);
}

/// Archives one post: its resolved content, every file of it once per id
/// (stored and planned for download), its first image as thumbnail and its
/// comments. Fails only when the body does not resolve.
pub fn resolve_post(p: &FanboxPost) -> (r: Result<(ArchivePost, Vec<PlannedDownload>), ResolveError>)
    ensures
        match r {
            Ok((a, d)) => archived_as(*p, a) && plan_view(d@) == post_table(*p).map_values(
                |f: FileRefView| planned(p.creator_id@, p.id@, f),
            ),
            Err(e) => content_spec(p.body) == Err::<crate::content::DocView, ResolveError>(e),
        },
{
    let doc = match p.body.content() {
        Ok(d) => d,
        Err(e) => return Err(e),
    };
    let blocks = doc.blocks;
    let mut table = doc.files;
    let body_fs = p.body.files();
    let body_imgs = p.body.images();
    add_files(&mut table, &body_fs);
    add_images(&mut table, &body_imgs);
    let downloads = plan_downloads(&p.creator_id, &p.id, &table);
    let mut folder = p.creator_id.clone();
    folder.append("/");
    folder.append(p.id.as_str());
    let ghost fv = files_view(table@);
    let ghost g = |f: FileRefView| stored_file(join_path(p.creator_id@, p.id@), f);
    let mut files: Vec<ArchiveFile> = Vec::new();
    let mut i: usize = 0;
    while i < table.len()
        invariant
            0 <= i <= table.len(),
            fv == files_view(table@),
            folder@ == join_path(p.creator_id@, p.id@),
            g == (|f: FileRefView| stored_file(join_path(p.creator_id@, p.id@), f)),
            stored_files_view(files@) == fv.take(i as int).map_values(g),
        decreases table.len() - i,
    {
        let sf = stored_file_exec(&folder, &table[i]);
        let ghost before = stored_files_view(files@);
        files.push(sf);
        assert(stored_files_view(files@) =~= before.push(sf@));
        assert(stored_files_view(files@) =~= fv.take(i + 1).map_values(g)) by {
            assert(fv.take(i + 1) =~= fv.take(i as int).push(fv[i as int]));
            assert(fv.take(i + 1).map_values(g) =~= fv.take(i as int).map_values(g).push(g(fv[i as int])));
        }
        i = i + 1;
    }
    assert(fv.take(table.len() as int) =~= fv);
    let thumb = if body_imgs.len() > 0 {
        let img = &body_imgs[0];
        let filename = img.filename();
        let mut path = folder.clone();
        path.append("/");
        path.append(filename.as_str());
        Some(ArchiveFile::Image { width: img.width, height: img.height, filename, path })
    } else {
        None
    };
    let mut comments: Vec<crate::archive::ArchiveComment> = Vec::new();
    let mut k: usize = 0;
    while k < p.comments.len()
        invariant
            0 <= k <= p.comments.len(),
            comments@.len() == k,
            forall|j: int|
                0 <= j < k ==> (#[trigger] comments@[j]).user == p.comments@[j].user.name
                    && comments@[j].text == p.comments@[j].body,
        decreases p.comments.len() - k,
    {
        comments.push(p.comments[k].to_archive());
        k = k + 1;
    }
    let a = ArchivePost {
        id: p.id.clone(),
        author: p.creator_id.clone(),
        title: p.title.clone(),
        ty: ArchiveByType::Fanbox,
        files,
        updated: p.updated,
        published: p.published,
        thumb,
        content: blocks,
        comments,
    };
    Ok((a, downloads))
}

/// Inserts `x` after every entry whose time is not older, so entries come
/// newest first and equal times keep their order.
pub open spec fn insert_upd(s: Seq<(i64, usize)>, x: (i64, usize)) -> Seq<(i64, usize)>
    decreases s.len(),
{
    if s.len() == 0 {
        seq![x]
    } else if s.last().0 < x.0 {
        insert_upd(s.drop_last(), x).push(s.last())
    } else {
        s.push(x)
    }
}

/// `(updated, index)` of the archived posts of author `cid`, newest first.
pub open spec fn author_entries(cid: Seq<char>, ps: Seq<ArchivePost>) -> Seq<(i64, usize)>
    decreases ps.len(),
{
    if ps.len() == 0 {
        Seq::empty()
    } else {
        let r = author_entries(cid, ps.drop_last());
        if ps.last().author@ == cid {
            insert_upd(r, (ps.last().updated, (ps.len() - 1) as usize))
        } else {
            r
        }
    }
}

pub open spec fn entries_below(es: Seq<(i64, usize)>, n: int) -> bool {
    forall|j: int| 0 <= j < es.len() ==> (#[trigger] es[j]).1 < n
}

proof fn lemma_insert_upd_below(s: Seq<(i64, usize)>, x: (i64, usize), n: int)
    requires
        entries_below(s, n),
        x.1 < n,
    ensures
        entries_below(insert_upd(s, x), n),
    decreases s.len(),
{
    if s.len() > 0 && s.last().0 < x.0 {
        lemma_insert_upd_below(s.drop_last(), x, n);
        let r = insert_upd(s.drop_last(), x);
        assert forall|j: int| 0 <= j < r.push(s.last()).len() implies (#[trigger] r.push(
            s.last(),
        )[j]).1 < n by {
            if j < r.len() {
                assert(r.push(s.last())[j] == r[j]);
            }
        }
    } else if s.len() > 0 {
        assert forall|j: int| 0 <= j < s.push(x).len() implies (#[trigger] s.push(x)[j]).1 < n by {
            if j < s.len() {
                assert(s.push(x)[j] == s[j]);
            }
        }
    }
}

proof fn lemma_entries_below(cid: Seq<char>, ps: Seq<ArchivePost>, n: int)
    requires
        ps.len() <= n,
    ensures
        entries_below(author_entries(cid, ps), n),
    decreases ps.len(),
{
    if ps.len() > 0 {
        lemma_entries_below(cid, ps.drop_last(), n);
        if ps.last().author@ == cid {
            lemma_insert_upd_below(author_entries(cid, ps.drop_last()), (ps.last().updated, (ps.len() - 1) as usize), n);
        }
    }
}

proof fn lemma_author_entries_prefix(cid: Seq<char>, ps: Seq<ArchivePost>, k: int)
    requires
        0 <= k < ps.len(),
    ensures
        author_entries(cid, ps.take(k + 1)) == if ps[k].author@ == cid {
            insert_upd(author_entries(cid, ps.take(k)), (ps[k].updated, k as usize))
        } else {
            author_entries(cid, ps.take(k))
        },
{
    assert(ps.take(k + 1).drop_last() =~= ps.take(k));
    assert(ps.take(k + 1).last() == ps[k]);
}

proof fn lemma_insert_upd_split(s: Seq<(i64, usize)>, x: (i64, usize), j: int)
    requires
        0 <= j <= s.len(),
        forall|k: int| j <= k < s.len() ==> (#[trigger] s[k]).0 < x.0,
        j == 0 || s[j - 1].0 >= x.0,
    ensures
        insert_upd(s, x) == s.take(j).push(x) + s.skip(j),
    decreases s.len() - j,
{
    if j == s.len() {
        if j == 0 {
            assert(s.take(j).push(x) + s.skip(j) =~= seq![x]);
        } else {
            assert(s.take(j).push(x) + s.skip(j) =~= s.push(x));
        }
    } else {
        let t = s.drop_last();
        assert(s.last().0 < x.0);
        assert forall|k: int| j <= k < t.len() implies (#[trigger] t[k]).0 < x.0 by {
            assert(t[k] == s[k]);
        }
        if j > 0 {
            assert(t[j - 1] == s[j - 1]);
        }
        lemma_insert_upd_split(t, x, j);
        assert(t.take(j) =~= s.take(j));
        assert((t.take(j).push(x) + t.skip(j)).push(s.last()) =~= s.take(j).push(x) + s.skip(j));
    }
}

fn insert_upd_exec(v: &mut Vec<(i64, usize)>, x: (i64, usize))
    ensures
        final(v)@ == insert_upd(old(v)@, x),
{
    let mut j = v.len();
    while j > 0 && v[j - 1].0 < x.0
        invariant
            0 <= j <= v.len(),
            v@ == old(v)@,
            forall|k: int| j <= k < v.len() ==> (#[trigger] v@[k]).0 < x.0,
        decreases j,
    {
        j = j - 1;
    }
    proof {
        lemma_insert_upd_split(v@, x, j as int);
    }
    v.insert(j, x);
    assert(v@ =~= old(v)@.take(j as int).push(x) + old(v)@.skip(j as int));
}

pub open spec fn entry_ids(ps: Seq<ArchivePost>, es: Seq<(i64, usize)>) -> Seq<Seq<char>> {
    es.map_values(|e: (i64, usize)| ps[e.1 as int].id@)
}

/// The thumbnail of the newest post that has one.
pub open spec fn entry_thumb(ps: Seq<ArchivePost>, es: Seq<(i64, usize)>) -> Option<ArchiveFile>
    decreases es.len(),
{
    if es.len() == 0 {
        None
    } else {
        match ps[es[0].1 as int].thumb {
            Some(t) => Some(t),
            None => entry_thumb(ps, es.drop_first()),
        }
    }
}

/// The author entry of a creator after this run: the ids of its archived
/// posts, newest first, merged into the stored entry when there is one;
/// the thumbnail of its newest post with one, else the stored thumbnail.
pub open spec fn author_ok(c: Creator, ps: Seq<ArchivePost>, prev: Option<ArchiveAuthor>, a: ArchiveAuthor) -> bool {
    let es = author_entries(c.creator_id@, ps);
    let ids = entry_ids(ps, es);
    &&& a.id == c.creator_id
    &&& a.name == c.user.name
    &&& a.ty == ArchiveByType::Fanbox
    &&& match prev {
        None => texts_view(a.posts@) == ids && a.thumb == entry_thumb(ps, es),
        Some(old) => texts_view(a.posts@) == insert_all_desc(
            insert_all_desc(Seq::empty(), texts_view(old.posts@)),
            ids,
        ) && a.thumb == or_thumb(entry_thumb(ps, es), old.thumb),
    }
}

fn clone_opt_file(t: &Option<ArchiveFile>) -> (r: Option<ArchiveFile>)
    ensures
        r == *t,
{
    match t {
        Some(f) => Some(f.clone()),
        None => None,
    }
}

/// The author entry for `creator` from this run's archived posts and the
/// entry stored before, if any.
pub fn author_entry(creator: &Creator, posts: &Vec<ArchivePost>, previous: Option<ArchiveAuthor>) -> (r: ArchiveAuthor)
    ensures
        author_ok(*creator, posts@, previous, r),
{
    let ghost cid = creator.creator_id@;
    let mut es: Vec<(i64, usize)> = Vec::new();
    let mut k: usize = 0;
    while k < posts.len()
        invariant
            0 <= k <= posts.len(),
            cid == creator.creator_id@,
            es@ == author_entries(cid, posts@.take(k as int)),
        decreases posts.len() - k,
    {
        proof {
            lemma_author_entries_prefix(cid, posts@, k as int);
        }
        if posts[k].author == creator.creator_id {
            insert_upd_exec(&mut es, (posts[k].updated, k));
        }
        k = k + 1;
    }
    assert(posts@.take(posts.len() as int) =~= posts@);
    proof {
        lemma_entries_below(cid, posts@, posts@.len() as int);
    }
    let mut ids: Vec<String> = Vec::new();
    let mut j: usize = 0;
    while j < es.len()
        invariant
            0 <= j <= es.len(),
            es@ == author_entries(cid, posts@),
            entries_below(es@, posts@.len() as int),
            texts_view(ids@) == entry_ids(posts@, es@.take(j as int)),
        decreases es.len() - j,
    {
        assert(es@[j as int].1 < posts@.len());
        let ghost pv = texts_view(ids@);
        let id = posts[es[j].1].id.clone();
        ids.push(id);
        assert(texts_view(ids@) =~= pv.push(id@));
        assert(es@.take(j + 1) =~= es@.take(j as int).push(es@[j as int]));
        assert(entry_ids(posts@, es@.take(j + 1)) =~= entry_ids(posts@, es@.take(j as int)).push(
            posts@[es@[j as int].1 as int].id@,
        ));
        j = j + 1;
    }
    assert(es@.take(es.len() as int) =~= es@);
    let mut thumb: Option<ArchiveFile> = None;
    let mut j = es.len();
    assert(es@.skip(j as int).len() == 0);
    while j > 0
        invariant
            0 <= j <= es.len(),
            es@ == author_entries(cid, posts@),
            entries_below(es@, posts@.len() as int),
            thumb == entry_thumb(posts@, es@.skip(j as int)),
        decreases j,
    {
        assert(es@[j - 1].1 < posts@.len());
        assert(es@.skip(j - 1).drop_first() =~= es@.skip(j as int));
        assert(es@.skip(j - 1)[0] == es@[j - 1]);
        match &posts[es[j - 1].1].thumb {
            Some(t) => {
                thumb = Some(t.clone());
            },
            None => {},
        }
        j = j - 1;
    }
    assert(es@.skip(0) =~= es@);
    let new_author = ArchiveAuthor {
        id: creator.creator_id.clone(),
        name: creator.user.name.clone(),
        posts: ids,
        ty: ArchiveByType::Fanbox,
        thumb: None,
    };
    match previous {
        Some(old) => {
            let mut a = old;
            a.extend(new_author);
            let t = match thumb {
                Some(t) => Some(t),
                None => clone_opt_file(&a.thumb),
            };
            a.thumb = t;
            a
        },
        None => {
            let mut a = new_author;
            a.thumb = thumb;
            a
        },
    }
}

/// Everything one run resolves.
pub struct ResolvedArchive {
    pub authors: Vec<ArchiveAuthor>,
    pub posts: Vec<ArchivePost>,
    pub downloads: Vec<PlannedDownload>,
    pub failed: Vec<(String, ResolveError)>,
}

pub open spec fn post_plan(p: FanboxPost) -> Seq<PlannedView> {
    post_table(p).map_values(|f: FileRefView| planned(p.creator_id@, p.id@, f))
}

/// The posts whose body resolves, in order.
pub open spec fn ok_posts(ps: Seq<FanboxPost>) -> Seq<FanboxPost>
    decreases ps.len(),
{
    if ps.len() == 0 {
        Seq::empty()
    } else if content_spec(ps.last().body) is Ok {
        ok_posts(ps.drop_last()).push(ps.last())
    } else {
        ok_posts(ps.drop_last())
    }
}

/// The id and error of each post whose body does not resolve, in order.
pub open spec fn failed_posts(ps: Seq<FanboxPost>) -> Seq<(Seq<char>, ResolveError)>
    decreases ps.len(),
{
    if ps.len() == 0 {
        Seq::empty()
    } else if content_spec(ps.last().body) is Ok {
        failed_posts(ps.drop_last())
    } else {
        failed_posts(ps.drop_last()).push((ps.last().id@, content_spec(ps.last().body)->Err_0))
    }
}

/// The downloads of every post that resolves, post by post.
pub open spec fn all_downloads(ps: Seq<FanboxPost>) -> Seq<PlannedView>
    decreases ps.len(),
{
    if ps.len() == 0 {
        Seq::empty()
    } else if content_spec(ps.last().body) is Ok {
        all_downloads(ps.drop_last()) + post_plan(ps.last())
    } else {
        all_downloads(ps.drop_last())
    }
}

pub open spec fn failed_view(v: Seq<(String, ResolveError)>) -> Seq<(Seq<char>, ResolveError)> {
    v.map_values(|e: (String, ResolveError)| (e.0@, e.1))
}

/// The stored entry of the `i`-th creator; none past the end of the list.
pub open spec fn previous_at(previous: Seq<Option<ArchiveAuthor>>, i: int) -> Option<ArchiveAuthor> {
    if i < previous.len() {
        previous[i]
    } else {
        None
    }
}

/// Resolves a run: each post on its own (a post that fails is reported and
/// the others go on), then one author entry per creator. `previous[i]` is
/// the stored entry of `creators[i]`, if any.
pub fn resolve(creators: &Vec<Creator>, posts: &Vec<FanboxPost>, previous: Vec<Option<ArchiveAuthor>>) -> (r: ResolvedArchive)
    ensures
        r.posts@.len() == ok_posts(posts@).len(),
        forall|k: int| 0 <= k < r.posts@.len() ==> archived_as(ok_posts(posts@)[k], #[trigger] r.posts@[k]),
        plan_view(r.downloads@) == all_downloads(posts@),
        failed_view(r.failed@) == failed_posts(posts@),
        r.authors@.len() == creators@.len(),
        forall|i: int| 0 <= i < creators@.len() ==> author_ok(creators@[i], r.posts@, previous_at(previous@, i), #[trigger] r.authors@[i]),
{
    let mut archived: Vec<ArchivePost> = Vec::new();
    let mut downloads: Vec<PlannedDownload> = Vec::new();
    let mut failed: Vec<(String, ResolveError)> = Vec::new();
    let mut i: usize = 0;
    while i < posts.len()
        invariant
            0 <= i <= posts.len(),
            archived@.len() == ok_posts(posts@.take(i as int)).len(),
            forall|k: int| 0 <= k < archived@.len() ==> archived_as(ok_posts(posts@.take(i as int))[k], #[trigger] archived@[k]),
            plan_view(downloads@) == all_downloads(posts@.take(i as int)),
            failed_view(failed@) == failed_posts(posts@.take(i as int)),
        decreases posts.len() - i,
    {
        let ghost pre = posts@.take(i as int);
        assert(posts@.take(i + 1).drop_last() =~= pre);
        assert(posts@.take(i + 1).last() == posts@[i as int]);
        match resolve_post(&posts[i]) {
            Ok((a, d)) => {
                let ghost dv = plan_view(downloads@);
                let ghost old_arch = archived@;
                archived.push(a);
                assert forall|k: int| 0 <= k < archived@.len() implies archived_as(ok_posts(posts@.take(i + 1))[k], #[trigger] archived@[k]) by {
                    if k < old_arch.len() {
                        assert(archived@[k] == old_arch[k]);
                        assert(ok_posts(posts@.take(i + 1))[k] == ok_posts(pre)[k]);
                    }
                }
                let mut d = d;
                let ghost plan_d = plan_view(d@);
                downloads.append(&mut d);
                assert(plan_view(downloads@) =~= dv + plan_d);
            },
            Err(e) => {
                let ghost fv = failed_view(failed@);
                failed.push((posts[i].id.clone(), e));
                assert(failed_view(failed@) =~= fv.push((posts@[i as int].id@, e)));
            },
        }
        i = i + 1;
    }
    assert(posts@.take(posts.len() as int) =~= posts@);
    let mut authors: Vec<ArchiveAuthor> = Vec::new();
    let mut prev = previous;
    let ghost all_prev = prev@;
    let mut c: usize = 0;
    while c < creators.len()
        invariant
            0 <= c <= creators.len(),
            c <= all_prev.len() ==> prev@ == all_prev.skip(c as int),
            c > all_prev.len() ==> prev@.len() == 0,
            authors@.len() == c,
            forall|j: int| 0 <= j < c ==> author_ok(creators@[j], archived@, previous_at(all_prev, j), #[trigger] authors@[j]),
        decreases creators.len() - c,
    {
        let p = if prev.len() > 0 {
            assert(c < all_prev.len());
            let p = prev.remove(0);
            assert(c < all_prev.len() && p == all_prev[c as int]);
            assert(prev@ =~= all_prev.skip(c + 1));
            p
        } else {
            assert(c >= all_prev.len());
            None
        };
        authors.push(author_entry(&creators[c], &archived, p));
        c = c + 1;
    }
    ResolvedArchive { authors, posts: archived, downloads, failed }
}

} // verus!
