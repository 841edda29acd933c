//! Fanbox post bodies and their resolution into the canonical content model.

use vstd::prelude::*;
use vstd::string::*;
use crate::archive::{ArchiveComment, ArchiveContent, ContentView};
use crate::content::{
    add_file, blocks_view, extra_view, first_index, has_file, is_first, lemma_first_index,
    lemma_first_index_none, unique_ids, with_file, DocView, FileRefView, FileReference,
    ResolvedContent,
};
use crate::creator::FanboxUser;
use crate::files::{guess_mime, mime_of};
use crate::text::{
    apply_bold, bold_range, stars, lemma_bold_keeps_prefix, lemma_str_lt_irreflexive,
    lemma_str_lt_transitive, min_int, str_lt, text_lt,
};

verus! {

/// Why a document could not be resolved: a sign that the platform's schema
/// moved away from what this library knows.
pub enum ResolveError {
    /// An embed or video from a provider with no known template.
    UnknownProvider(String),
    /// An inline style other than bold.
    UnknownStyle(String),
    /// The HTML body could not be turned into markdown.
    Markup,
    /// A poll with more choices than its table can be laid out for.
    PollTooLarge,
}

pub struct PostBlockStyle {
    pub ty: String,
    pub offset: u32,
    pub length: u32,
}

pub enum PostBlock {
    P { text: String, styles: Option<Vec<PostBlockStyle>> },
    Header { text: String, styles: Option<Vec<PostBlockStyle>> },
    Image { image_id: String },
    File { file_id: String },
    Embed { embed_id: String },
    UrlEmbed { url_embed_id: String },
    Video { video_id: String },
}

pub struct PostImage {
    pub id: String,
    pub extension: String,
    pub width: u32,
    pub height: u32,
    pub original_url: String,
    pub thumbnail_url: String,
}

pub struct PostVideo {
    pub service_provider: String,
    pub video_id: String,
}

pub struct PostFile {
    pub id: String,
    pub name: String,
    pub extension: String,
    pub size: u64,
    pub url: String,
}

/// An embedded video. `id` is its key in the body's embed table;
/// `content_id` is the video's id at the provider, which is what the
/// provider's thumbnail and watch links are built from.
pub struct PostEmbed {
    pub id: String,
    pub service_provider: String,
    pub content_id: String,
}

pub struct PostUrlEmbed {
    pub id: String,
    pub html: String,
    pub from: String,
}

/// A post body. It lists content either flat (`images`, `videos`, `files`) or
/// as `blocks` that name images, files and embeds by id through the side
/// tables. A well-formed body (`wf`) keeps each side table in strictly
/// ascending key order, so its keys are unique; the resolver looks keys up
/// and does not rely on it.
pub struct PostBody {
    pub text: Option<String>,
    pub blocks: Option<Vec<PostBlock>>,
    pub images: Option<Vec<PostImage>>,
    pub videos: Option<Vec<PostVideo>>,
    pub files: Option<Vec<PostFile>>,
    pub image_map: Option<Vec<(String, PostImage)>>,
    pub file_map: Option<Vec<(String, PostFile)>>,
    pub embed_map: Option<Vec<(String, PostEmbed)>>,
    pub url_embed_map: Option<Vec<(String, PostUrlEmbed)>>,
}

/// Keys in strictly ascending order, one after the other.
pub open spec fn keys_ascending<T>(m: Seq<(String, T)>) -> bool {
    forall|i: int| 0 <= i < m.len() - 1 ==> str_lt((#[trigger] m[i]).0@, m[i + 1].0@)
}

impl PostBody {
    pub open spec fn wf(&self) -> bool {
        &&& keys_ascending(opt_seq(self.image_map))
        &&& keys_ascending(opt_seq(self.file_map))
        &&& keys_ascending(opt_seq(self.embed_map))
        &&& keys_ascending(opt_seq(self.url_embed_map))
    }
}

/// A table with keys in ascending order has no key twice.
pub proof fn lemma_ascending_keys_unique<T>(m: Seq<(String, T)>, i: int, j: int)
    requires
        keys_ascending(m),
        0 <= i < j < m.len(),
    ensures
        str_lt(m[i].0@, m[j].0@),
        m[i].0@ != m[j].0@,
    decreases j - i,
{
    if j == i + 1 {
    } else {
        lemma_ascending_keys_unique(m, i, j - 1);
        lemma_str_lt_transitive(m[i].0@, m[j - 1].0@, m[j].0@);
    }
    lemma_str_lt_irreflexive(m[i].0@);
}

fn table_keys_ascending<T>(m: &Option<Vec<(String, T)>>) -> (r: bool)
    ensures
        r == keys_ascending(opt_seq(*m)),
{
    match m {
        Some(v) => {
            let mut i: usize = 1;
            while i < v.len()
                invariant
                    1 <= i,
                    i <= v.len() || v.len() == 0,
                    opt_seq(*m) == v@,
                    forall|k: int| 0 <= k < i - 1 && k < v.len() - 1 ==> str_lt((#[trigger] v@[k]).0@, v@[k + 1].0@),
                decreases v.len() - i,
            {
                if !text_lt(v[i - 1].0.as_str(), v[i].0.as_str()) {
                    return false;
                }
                i = i + 1;
            }
            true
        },
        None => true,
    }
}

impl PostBody {
    /// Whether every side table is in strictly ascending key order.
    pub fn is_well_formed(&self) -> (r: bool)
        ensures
            r == self.wf(),
    {
        table_keys_ascending(&self.image_map) && table_keys_ascending(&self.file_map)
            && table_keys_ascending(&self.embed_map) && table_keys_ascending(&self.url_embed_map)
    }
}

pub open spec fn opt_seq<T>(o: Option<Vec<T>>) -> Seq<T> {
    match o {
        Some(v) => v@,
        None => Seq::empty(),
    }
}

pub open spec fn key_is<T>(k: Seq<char>) -> spec_fn((String, T)) -> bool {
    |e: (String, T)| e.0@ == k
}

/// The entry of a side table under key `k` (the first one, if repeated).
pub open spec fn lookup<T>(m: Seq<(String, T)>, k: Seq<char>) -> Option<T> {
    match first_index(m, key_is::<T>(k)) {
        Some(i) => Some(m[i].1),
        None => None,
    }
}

pub open spec fn video_is(id: Seq<char>) -> spec_fn(PostVideo) -> bool {
    |v: PostVideo| v.video_id@ == id
}

pub open spec fn not_bold() -> spec_fn(PostBlockStyle) -> bool {
    |s: PostBlockStyle| s.ty@ != "bold"@
}

/// Inserts `x` after every span whose offset is not above its own.
pub open spec fn insert_span(s: Seq<(u32, u32)>, x: (u32, u32)) -> Seq<(u32, u32)>
    decreases s.len(),
{
    if s.len() == 0 {
        seq![x]
    } else if x.0 < s.last().0 {
        insert_span(s.drop_last(), x).push(s.last())
    } else {
        s.push(x)
    }
}

/// The `(offset, length)` spans of `ss`, stably sorted by offset.
pub open spec fn sorted_spans(ss: Seq<PostBlockStyle>) -> Seq<(u32, u32)>
    decreases ss.len(),
{
    if ss.len() == 0 {
        Seq::empty()
    } else {
        insert_span(sorted_spans(ss.drop_last()), (ss.last().offset, ss.last().length))
    }
}

/// Applies the spans of an ascending list from the last (highest offset) down.
pub open spec fn apply_spans(t: Seq<char>, s: Seq<(u32, u32)>) -> Seq<char>
    decreases s.len(),
{
    if s.len() == 0 {
        t
    } else {
        apply_spans(bold_range(t, s.last().0 as int, s.last().1 as int), s.drop_last())
    }
}

/// `t` with all styles applied from the highest offset down, or the first
/// style that is not bold.
pub open spec fn styled(t: Seq<char>, ss: Seq<PostBlockStyle>) -> Result<Seq<char>, ResolveError> {
    match first_index(ss, not_bold()) {
        Some(i) => Err(ResolveError::UnknownStyle(ss[i].ty)),
        None => Ok(apply_spans(t, sorted_spans(ss))),
    }
}

pub open spec fn youtube_link(id: Seq<char>) -> Seq<char> {
    "[![youtube](https://img.youtube.com/vi/"@ + id + "/0.jpg)](https://www.youtube.com/watch?v="@
        + id + ")"@
}

pub open spec fn provider_link(provider: String, id: Seq<char>) -> Result<Seq<char>, ResolveError> {
    if provider@ == "youtube"@ {
        Ok(youtube_link(id))
    } else {
        Err(ResolveError::UnknownProvider(provider))
    }
}

pub open spec fn dot_join(a: Seq<char>, b: Seq<char>) -> Seq<char> {
    a + "."@ + b
}

pub open spec fn image_ref(img: PostImage) -> FileRefView {
    let filename = dot_join(img.id@, img.extension@);
    FileRefView {
        id: img.id@,
        filename,
        mime: mime_of(filename),
        url: img.original_url@,
        extra: seq![("width"@, img.width as u64), ("height"@, img.height as u64)],
    }
}

pub open spec fn file_ref(f: PostFile) -> FileRefView {
    let filename = dot_join(f.name@, f.extension@);
    FileRefView {
        id: f.id@,
        filename,
        mime: mime_of(filename),
        url: f.url@,
        extra: Seq::empty(),
    }
}

pub open spec fn mismatch(kind: Seq<char>, id: Seq<char>) -> Seq<char> {
    "["@ + kind + " Mismatch: "@ + id + "]"@
}

pub type Step = (ContentView, Option<FileRefView>);

pub open spec fn text_step(r: Result<Seq<char>, ResolveError>) -> Result<Step, ResolveError> {
    match r {
        Ok(t) => Ok((ContentView::Text(t), None)),
        Err(e) => Err(e),
    }
}

/// What one block resolves to. An embed is linked through its provider's
/// `content_id` (its `id` only names it within the post).
pub open spec fn block_spec(body: PostBody, b: PostBlock) -> Result<Step, ResolveError> {
    match b {
        PostBlock::P { text, styles } => {
            if text@.len() == 0 {
                Ok((ContentView::Text(seq![' ', ' ']), None))
            } else {
                text_step(styled(text@, opt_seq(styles)))
            }
        },
        PostBlock::Header { text, styles } => match styled(text@, opt_seq(styles)) {
            Ok(t) => Ok((ContentView::Text(seq!['#', ' '] + t), None)),
            Err(e) => Err(e),
        },
        PostBlock::Image { image_id } => match lookup(opt_seq(body.image_map), image_id@) {
            Some(img) => Ok((ContentView::Image(img.id@), Some(image_ref(img)))),
            None => Ok((ContentView::Text(mismatch("Image"@, image_id@)), None)),
        },
        PostBlock::File { file_id } => match lookup(opt_seq(body.file_map), file_id@) {
            Some(f) => Ok((ContentView::File(f.id@), Some(file_ref(f)))),
            None => Ok((ContentView::Text(mismatch("File"@, file_id@)), None)),
        },
        PostBlock::Embed { embed_id } => match lookup(opt_seq(body.embed_map), embed_id@) {
            Some(e) => text_step(provider_link(e.service_provider, e.content_id@)),
            None => Ok((ContentView::Text(mismatch("Embed"@, embed_id@)), None)),
        },
        PostBlock::UrlEmbed { url_embed_id } => Ok(
            (ContentView::Text("> "@ + url_embed_id@), None),
        ),
        PostBlock::Video { video_id } => match first_index(
            opt_seq(body.videos),
            video_is(video_id@),
        ) {
            Some(i) => text_step(
                provider_link(opt_seq(body.videos)[i].service_provider, video_id@),
            ),
            None => Ok((ContentView::Text(mismatch("Video"@, video_id@)), None)),
        },
    }
}

pub open spec fn empty_doc() -> DocView {
    DocView { blocks: Seq::empty(), files: Seq::empty() }
}

pub open spec fn add_step(d: DocView, s: Step) -> DocView {
    DocView {
        blocks: d.blocks.push(s.0),
        files: match s.1 {
            Some(f) => with_file(d.files, f),
            None => d.files,
        },
    }
}

/// The body's plain text, when present and not empty, opens the document.
pub open spec fn text_prefix(body: PostBody) -> DocView {
    match body.text {
        Some(t) => if t@.len() > 0 {
            add_step(empty_doc(), (ContentView::Text(t@), None))
        } else {
            empty_doc()
        },
        None => empty_doc(),
    }
}

/// Resolves blocks in order from `d`; the first failing block decides the error.
pub open spec fn resolve_blocks(body: PostBody, d: DocView, bs: Seq<PostBlock>) -> Result<
    DocView,
    ResolveError,
>
    decreases bs.len(),
{
    if bs.len() == 0 {
        Ok(d)
    } else {
        match resolve_blocks(body, d, bs.drop_last()) {
            Err(e) => Err(e),
            Ok(d2) => match block_spec(body, bs.last()) {
                Err(e) => Err(e),
                Ok(s) => Ok(add_step(d2, s)),
            },
        }
    }
}

pub open spec fn text_spec(body: PostBody) -> Result<DocView, ResolveError> {
    resolve_blocks(body, text_prefix(body), opt_seq(body.blocks))
}

pub open spec fn opt_file_view(o: Option<FileReference>) -> Option<FileRefView> {
    match o {
        Some(f) => Some(f@),
        None => None,
    }
}

pub proof fn lemma_resolve_err_persists(
    body: PostBody,
    d: DocView,
    bs: Seq<PostBlock>,
    i: int,
    e: ResolveError,
)
    requires
        0 <= i <= bs.len(),
        resolve_blocks(body, d, bs.take(i)) == Err::<DocView, ResolveError>(e),
    ensures
        resolve_blocks(body, d, bs) == Err::<DocView, ResolveError>(e),
    decreases bs.len() - i,
{
    if i == bs.len() {
        assert(bs.take(i) =~= bs);
    } else {
        assert(bs.take(i + 1).drop_last() =~= bs.take(i));
        lemma_resolve_err_persists(body, d, bs, i + 1, e);
    }
}

fn lit(s: &str) -> (r: String)
    ensures
        r@ == s@,
{
    String::from_str(s)
}

/// `"[<kind> Mismatch: <id>]"`.
fn mismatch_text(kind: &str, id: &String) -> (r: String)
    ensures
        r@ == mismatch(kind@, id@),
{
    let mut r = lit("[");
    r.append(kind);
    r.append(" Mismatch: ");
    r.append(id.as_str());
    r.append("]");
    r
}

fn find_key<T>(m: &Vec<(String, T)>, k: &String) -> (r: Option<usize>)
    ensures
        match r {
            Some(i) => is_first(m@, key_is::<T>(k@), i as int),
            None => forall|j: int| 0 <= j < m@.len() ==> !key_is::<T>(k@)(#[trigger] m@[j]),
        },
{
    let mut i: usize = 0;
    while i < m.len()
        invariant
            0 <= i <= m.len(),
            forall|j: int| 0 <= j < i ==> !key_is::<T>(k@)(#[trigger] m@[j]),
        decreases m.len() - i,
    {
        if m[i].0 == *k {
            return Some(i);
        }
        i = i + 1;
    }
    None
}

/// The entry of a side table under key `k`.
pub fn lookup_in<'a, T>(m: &'a Option<Vec<(String, T)>>, k: &String) -> (r: Option<&'a T>)
    ensures
        match r {
            Some(t) => lookup(opt_seq(*m), k@) == Some(*t),
            None => lookup(opt_seq(*m), k@) == None::<T>,
        },
{
    match m {
        Some(v) => match find_key(v, k) {
            Some(i) => {
                proof {
                    lemma_first_index(v@, key_is::<T>(k@), i as int);
                }
                Some(&v[i].1)
            },
            None => {
                proof {
                    lemma_first_index_none(v@, key_is::<T>(k@));
                }
                None
            },
        },
        None => {
            proof {
                lemma_first_index_none(Seq::<(String, T)>::empty(), key_is::<T>(k@));
            }
            None
        },
    }
}

fn find_video<'a>(vs: &'a Option<Vec<PostVideo>>, id: &String) -> (r: Option<&'a PostVideo>)
    ensures
        match r {
            Some(v) => exists|i: int|
                first_index(opt_seq(*vs), video_is(id@)) == Some(i) && opt_seq(*vs)[i] == *v,
            None => first_index(opt_seq(*vs), video_is(id@)) == None::<int>,
        },
{
    match vs {
        Some(v) => {
            let mut i: usize = 0;
            while i < v.len()
                invariant
                    0 <= i <= v.len(),
                    opt_seq(*vs) == v@,
                    forall|j: int| 0 <= j < i ==> !video_is(id@)(#[trigger] v@[j]),
                decreases v.len() - i,
            {
                if v[i].video_id == *id {
                    proof {
                        lemma_first_index(v@, video_is(id@), i as int);
                        assert(opt_seq(*vs) == v@);
                        assert(first_index(v@, video_is(id@)) == Some(i as int));
                        assert(first_index(opt_seq(*vs), video_is(id@)) == Some(i as int));
                    }
                    return Some(&v[i]);
                }
                i = i + 1;
            }
            proof {
                lemma_first_index_none(v@, video_is(id@));
            }
            None
        },
        None => {
            proof {
                lemma_first_index_none(Seq::<PostVideo>::empty(), video_is(id@));
            }
            None
        },
    }
}

/// The thumbnail link for a video or embed of a known provider.
pub fn map_provider(provider: &String, id: &String) -> (r: Result<String, ResolveError>)
    ensures
        match r {
            Ok(s) => provider_link(*provider, id@) == Ok::<Seq<char>, ResolveError>(s@),
            Err(e) => provider_link(*provider, id@) == Err::<Seq<char>, ResolveError>(e),
        },
{
    if *provider == lit("youtube") {
        let mut r = lit("[![youtube](https://img.youtube.com/vi/");
        r.append(id.as_str());
        r.append("/0.jpg)](https://www.youtube.com/watch?v=");
        r.append(id.as_str());
        r.append(")");
        Ok(r)
    } else {
        Err(ResolveError::UnknownProvider(provider.clone()))
    }
}

fn insert_span_exec(v: &mut Vec<(u32, u32)>, x: (u32, u32))
    ensures
        final(v)@ == insert_span(old(v)@, x),
{
    let mut j = v.len();
    while j > 0 && v[j - 1].0 > x.0
        invariant
            0 <= j <= v.len(),
            forall|k: int| j <= k < v.len() ==> (#[trigger] v@[k]).0 > x.0,
        decreases j,
    {
        j = j - 1;
    }
    proof {
        lemma_insert_span_split(v@, x, j as int);
    }
    v.insert(j, x);
    assert(v@ =~= old(v)@.take(j as int).push(x) + old(v)@.skip(j as int));
}

proof fn lemma_insert_span_split(s: Seq<(u32, u32)>, x: (u32, u32), j: int)
    requires
        0 <= j <= s.len(),
        forall|k: int| j <= k < s.len() ==> (#[trigger] s[k]).0 > x.0,
        j == 0 || s[j - 1].0 <= x.0,
    ensures
        insert_span(s, x) == s.take(j).push(x) + s.skip(j),
    decreases s.len() - j,
{
    if j == s.len() {
        if j == 0 {
            assert(s.take(j).push(x) + s.skip(j) =~= seq![x]);
        } else {
            assert(s.take(j).push(x) + s.skip(j) =~= s.push(x));
        }
    } else {
        let t = s.drop_last();
        assert(x.0 < s.last().0);
        assert forall|k: int| j <= k < t.len() implies (#[trigger] t[k]).0 > x.0 by {
            assert(t[k] == s[k]);
        }
        if j > 0 {
            assert(t[j - 1] == s[j - 1]);
        }
        lemma_insert_span_split(t, x, j);
        assert(insert_span(s, x) == insert_span(t, x).push(s.last()));
        assert(t.take(j) =~= s.take(j));
        assert((t.take(j).push(x) + t.skip(j)).push(s.last()) =~= s.take(j).push(x) + s.skip(j));
    }
}

/// Applies every style of `styles` to `text`, from the highest offset down, so
/// that markers inserted for one style never move the start of a lower one.
pub fn set_style(text: &String, styles: &Option<Vec<PostBlockStyle>>) -> (r: Result<
    String,
    ResolveError,
>)
    ensures
        match r {
            Ok(s) => styled(text@, opt_seq(*styles)) == Ok::<Seq<char>, ResolveError>(s@),
            Err(e) => styled(text@, opt_seq(*styles)) == Err::<Seq<char>, ResolveError>(e),
        },
{
    let empty: Vec<PostBlockStyle> = Vec::new();
    let ss: &Vec<PostBlockStyle> = match styles {
        Some(v) => v,
        None => &empty,
    };
    assert(ss@ == opt_seq(*styles));
    let bold = lit("bold");
    let mut i: usize = 0;
    while i < ss.len()
        invariant
            0 <= i <= ss.len(),
            bold@ == "bold"@,
            ss@ == opt_seq(*styles),
            forall|j: int| 0 <= j < i ==> !not_bold()(#[trigger] ss@[j]),
        decreases ss.len() - i,
    {
        if !(ss[i].ty == bold) {
            proof {
                lemma_first_index(ss@, not_bold(), i as int);
            }
            return Err(ResolveError::UnknownStyle(ss[i].ty.clone()));
        }
        i = i + 1;
    }
    proof {
        lemma_first_index_none(ss@, not_bold());
    }
    let mut spans: Vec<(u32, u32)> = Vec::new();
    let mut i: usize = 0;
    while i < ss.len()
        invariant
            0 <= i <= ss.len(),
            spans@ == sorted_spans(ss@.take(i as int)),
            ss@ == opt_seq(*styles),
        decreases ss.len() - i,
    {
        assert(ss@.take(i + 1).drop_last() =~= ss@.take(i as int));
        insert_span_exec(&mut spans, (ss[i].offset, ss[i].length));
        i = i + 1;
    }
    assert(ss@.take(ss.len() as int) =~= ss@);
    let mut t = text.clone();
    let mut k = spans.len();
    assert(spans@.take(k as int) =~= spans@);
    while k > 0
        invariant
            0 <= k <= spans.len(),
            apply_spans(t@, spans@.take(k as int)) == apply_spans(text@, spans@),
        decreases k,
    {
        assert(spans@.take(k as int).drop_last() =~= spans@.take(k - 1));
        t = apply_bold(&t, spans[k - 1].0, spans[k - 1].1);
        k = k - 1;
    }
    assert(spans@.take(0) =~= Seq::<(u32, u32)>::empty());
    Ok(t)
}

pub open spec fn image_steps(imgs: Seq<PostImage>) -> Seq<Step> {
    imgs.map_values(|i: PostImage| (ContentView::Image(i.id@), Some(image_ref(i))))
}

pub open spec fn file_steps(fs: Seq<PostFile>) -> Seq<Step> {
    fs.map_values(|f: PostFile| (ContentView::File(f.id@), Some(file_ref(f))))
}

pub open spec fn fold_steps(d: DocView, s: Seq<Step>) -> DocView
    decreases s.len(),
{
    if s.len() == 0 {
        d
    } else {
        add_step(fold_steps(d, s.drop_last()), s.last())
    }
}

/// Renders each video in order; the first of an unknown provider is the error.
pub open spec fn video_steps(d: DocView, vs: Seq<PostVideo>) -> Result<DocView, ResolveError>
    decreases vs.len(),
{
    if vs.len() == 0 {
        Ok(d)
    } else {
        match video_steps(d, vs.drop_last()) {
            Err(e) => Err(e),
            Ok(d2) => match provider_link(vs.last().service_provider, vs.last().video_id@) {
                Err(e) => Err(e),
                Ok(t) => Ok(add_step(d2, (ContentView::Text(t), None))),
            },
        }
    }
}

/// The whole document: the text and blocks, then the flat image list, the
/// videos and the flat file list.
pub open spec fn content_spec(body: PostBody) -> Result<DocView, ResolveError> {
    match text_spec(body) {
        Err(e) => Err(e),
        Ok(d) => match video_steps(
            fold_steps(d, image_steps(opt_seq(body.images))),
            opt_seq(body.videos),
        ) {
            Err(e) => Err(e),
            Ok(d2) => Ok(fold_steps(d2, file_steps(opt_seq(body.files)))),
        },
    }
}

pub proof fn lemma_video_err_persists(d: DocView, vs: Seq<PostVideo>, i: int, e: ResolveError)
    requires
        0 <= i <= vs.len(),
        video_steps(d, vs.take(i)) == Err::<DocView, ResolveError>(e),
    ensures
        video_steps(d, vs) == Err::<DocView, ResolveError>(e),
    decreases vs.len() - i,
{
    if i == vs.len() {
        assert(vs.take(i) =~= vs);
    } else {
        assert(vs.take(i + 1).drop_last() =~= vs.take(i));
        lemma_video_err_persists(d, vs, i + 1, e);
    }
}

fn dot_join_exec(a: &String, b: &String) -> (r: String)
    ensures
        r@ == dot_join(a@, b@),
{
    let mut r = a.clone();
    r.append(".");
    r.append(b.as_str());
    r
}

impl Clone for PostImage {
    fn clone(&self) -> (r: Self)
        ensures
            r == *self,
    {
        PostImage {
            id: self.id.clone(),
            extension: self.extension.clone(),
            width: self.width,
            height: self.height,
            original_url: self.original_url.clone(),
            thumbnail_url: self.thumbnail_url.clone(),
        }
    }
}

impl Clone for PostFile {
    fn clone(&self) -> (r: Self)
        ensures
            r == *self,
    {
        PostFile {
            id: self.id.clone(),
            name: self.name.clone(),
            extension: self.extension.clone(),
            size: self.size,
            url: self.url.clone(),
        }
    }
}

/// The values of a side table, in its order.
pub open spec fn table_values<T>(m: Seq<(String, T)>) -> Seq<T> {
    m.map_values(|e: (String, T)| e.1)
}

fn concat_images(a: &Option<Vec<PostImage>>, m: &Option<Vec<(String, PostImage)>>) -> (r: Vec<PostImage>)
    ensures
        r@ == opt_seq(*a) + table_values(opt_seq(*m)),
{
    let mut r: Vec<PostImage> = Vec::new();
    match a {
        Some(v) => {
            let mut i: usize = 0;
            while i < v.len()
                invariant
                    0 <= i <= v.len(),
                    r@ == v@.take(i as int),
                decreases v.len() - i,
            {
                r.push(v[i].clone());
                assert(r@ =~= v@.take(i + 1));
                i = i + 1;
            }
            assert(v@.take(v.len() as int) =~= v@);
        },
        None => {},
    }
    let ghost base = r@;
    assert(base =~= opt_seq(*a));
    match m {
        Some(v) => {
            let mut i: usize = 0;
            while i < v.len()
                invariant
                    0 <= i <= v.len(),
                    r@ == base + table_values(v@.take(i as int)),
                decreases v.len() - i,
            {
                r.push(v[i].1.clone());
                assert(r@ =~= base + table_values(v@.take(i + 1)));
                i = i + 1;
            }
            assert(v@.take(v.len() as int) =~= v@);
        },
        None => {
            assert(r@ =~= base + table_values(opt_seq(*m)));
        },
    }
    r
}

fn concat_files(a: &Option<Vec<PostFile>>, m: &Option<Vec<(String, PostFile)>>) -> (r: Vec<PostFile>)
    ensures
        r@ == opt_seq(*a) + table_values(opt_seq(*m)),
{
    let mut r: Vec<PostFile> = Vec::new();
    match a {
        Some(v) => {
            let mut i: usize = 0;
            while i < v.len()
                invariant
                    0 <= i <= v.len(),
                    r@ == v@.take(i as int),
                decreases v.len() - i,
            {
                r.push(v[i].clone());
                assert(r@ =~= v@.take(i + 1));
                i = i + 1;
            }
            assert(v@.take(v.len() as int) =~= v@);
        },
        None => {},
    }
    let ghost base = r@;
    assert(base =~= opt_seq(*a));
    match m {
        Some(v) => {
            let mut i: usize = 0;
            while i < v.len()
                invariant
                    0 <= i <= v.len(),
                    r@ == base + table_values(v@.take(i as int)),
                decreases v.len() - i,
            {
                r.push(v[i].1.clone());
                assert(r@ =~= base + table_values(v@.take(i + 1)));
                i = i + 1;
            }
            assert(v@.take(v.len() as int) =~= v@);
        },
        None => {
            assert(r@ =~= base + table_values(opt_seq(*m)));
        },
    }
    r
}

impl PostImage {
    /// The image as a plain file of unknown size.
    pub fn to_post_file(&self) -> (r: PostFile)
        ensures
            r.id == self.id,
            r.name@ == dot_join(self.id@, self.extension@),
            r.extension == self.extension,
            r.size == 0,
            r.url == self.original_url,
    {
        PostFile {
            id: self.id.clone(),
            name: self.filename(),
            extension: self.extension.clone(),
            size: 0,
            url: self.original_url.clone(),
        }
    }

    pub fn id(&self) -> (r: String)
        ensures
            r == self.id,
    {
        self.id.clone()
    }

    /// `<id>.<extension>`.
    pub fn filename(&self) -> (r: String)
        ensures
            r@ == dot_join(self.id@, self.extension@),
    {
        dot_join_exec(&self.id, &self.extension)
    }

    pub fn extension(&self) -> (r: String)
        ensures
            r == self.extension,
    {
        self.extension.clone()
    }

    pub fn url(&self) -> (r: String)
        ensures
            r == self.original_url,
    {
        self.original_url.clone()
    }

    pub fn mime(&self) -> (r: String)
        ensures
            r@ == mime_of(dot_join(self.id@, self.extension@)),
    {
        let f = self.filename();
        guess_mime(f.as_str())
    }

    /// The file reference for this image, with its dimensions as extras.
    pub fn file_reference(&self) -> (r: FileReference)
        ensures
            r@ == image_ref(*self),
    {
        let filename = self.filename();
        let mime = guess_mime(filename.as_str());
        let extra = vec![(lit("width"), self.width as u64), (lit("height"), self.height as u64)];
        let r = FileReference { id: self.id.clone(), filename, mime, url: self.original_url.clone(), extra };
        assert(extra_view(r.extra@) =~= image_ref(*self).extra);
        r
    }
}

impl PostFile {
    pub fn id(&self) -> (r: String)
        ensures
            r == self.id,
    {
        self.id.clone()
    }

    /// `<name>.<extension>`.
    pub fn filename(&self) -> (r: String)
        ensures
            r@ == dot_join(self.name@, self.extension@),
    {
        dot_join_exec(&self.name, &self.extension)
    }

    pub fn extension(&self) -> (r: String)
        ensures
            r == self.extension,
    {
        self.extension.clone()
    }

    pub fn size(&self) -> (r: u64)
        ensures
            r == self.size,
    {
        self.size
    }

    pub fn url(&self) -> (r: String)
        ensures
            r == self.url,
    {
        self.url.clone()
    }

    pub fn mime(&self) -> (r: String)
        ensures
            r@ == mime_of(dot_join(self.name@, self.extension@)),
    {
        let f = self.filename();
        guess_mime(f.as_str())
    }

    pub fn file_reference(&self) -> (r: FileReference)
        ensures
            r@ == file_ref(*self),
    {
        let filename = self.filename();
        let mime = guess_mime(filename.as_str());
        let r = FileReference {
            id: self.id.clone(),
            filename,
            mime,
            url: self.url.clone(),
            extra: Vec::new(),
        };
        assert(extra_view(r.extra@) =~= Seq::<(Seq<char>, u64)>::empty());
        r
    }
}

/// A reply to a comment; replies have no replies of their own.
pub struct CommentReply {
    pub id: String,
    pub body: String,
    pub created: i64,
    pub user: FanboxUser,
}

/// A comment of a post, with its replies.
pub struct Comment {
    pub id: String,
    pub body: String,
    pub created: i64,
    pub like_count: u32,
    pub user: FanboxUser,
    pub replies: Option<Vec<CommentReply>>,
}

impl Comment {
    pub fn user(&self) -> (r: String)
        ensures
            r == self.user.name,
    {
        self.user.name.clone()
    }

    pub fn text(&self) -> (r: String)
        ensures
            r == self.body,
    {
        self.body.clone()
    }

    /// The comment as archived: author name, text, replies in order.
    pub fn to_archive(&self) -> (r: ArchiveComment)
        ensures
            r.user == self.user.name,
            r.text == self.body,
            r.replies@.len() == opt_seq(self.replies).len(),
            forall|i: int|
                0 <= i < r.replies@.len() ==> (#[trigger] r.replies@[i]).user
                    == opt_seq(self.replies)[i].user.name && r.replies@[i].text == opt_seq(
                    self.replies,
                )[i].body && r.replies@[i].replies@.len() == 0,
    {
        let empty: Vec<CommentReply> = Vec::new();
        let rs: &Vec<CommentReply> = match &self.replies {
            Some(v) => v,
            None => &empty,
        };
        let mut replies: Vec<ArchiveComment> = Vec::new();
        let mut i: usize = 0;
        while i < rs.len()
            invariant
                0 <= i <= rs.len(),
                rs@ == opt_seq(self.replies),
                replies@.len() == i,
                forall|j: int|
                    0 <= j < i ==> (#[trigger] replies@[j]).user == rs@[j].user.name
                        && replies@[j].text == rs@[j].body && replies@[j].replies@.len() == 0,
            decreases rs.len() - i,
        {
            replies.push(
                ArchiveComment {
                    user: rs[i].user.name.clone(),
                    text: rs[i].body.clone(),
                    replies: Vec::new(),
                },
            );
            i = i + 1;
        }
        ArchiveComment { user: self.user.name.clone(), text: self.body.clone(), replies }
    }
}

/// Appends one resolved block and, when it references a file, that file.
pub fn push_step(doc: &mut ResolvedContent, c: ArchiveContent, f: Option<FileReference>)
    ensures
        final(doc)@ == add_step(old(doc)@, (c@, opt_file_view(f))),
        unique_ids(old(doc)@.files) ==> unique_ids(final(doc)@.files),
{
    let ghost cv = c@;
    doc.blocks.push(c);
    assert(blocks_view(doc.blocks@) =~= blocks_view(old(doc).blocks@).push(cv));
    match f {
        Some(f) => add_file(&mut doc.files, f),
        None => {},
    }
}

impl PostBody {
    /// The images of the flat list, then those of the side table.
    pub fn images(&self) -> (r: Vec<PostImage>)
        ensures
            r@ == opt_seq(self.images) + table_values(opt_seq(self.image_map)),
    {
        concat_images(&self.images, &self.image_map)
    }

    /// The files of the flat list, then those of the side table.
    pub fn files(&self) -> (r: Vec<PostFile>)
        ensures
            r@ == opt_seq(self.files) + table_values(opt_seq(self.file_map)),
    {
        concat_files(&self.files, &self.file_map)
    }

    /// The thumbnail link of each video, or the first unknown provider.
    pub fn web_videos(&self) -> (r: Result<Vec<String>, ResolveError>)
        ensures
            match r {
                Ok(v) => v@.len() == opt_seq(self.videos).len() && forall|i: int|
                    0 <= i < v@.len() ==> provider_link(
                        opt_seq(self.videos)[i].service_provider,
                        opt_seq(self.videos)[i].video_id@,
                    ) == Ok::<Seq<char>, ResolveError>((#[trigger] v@[i])@),
                Err(e) => exists|i: int|
                    0 <= i < opt_seq(self.videos).len() && provider_link(
                        (#[trigger] opt_seq(self.videos)[i]).service_provider,
                        opt_seq(self.videos)[i].video_id@,
                    ) == Err::<Seq<char>, ResolveError>(e),
            },
    {
        let empty: Vec<PostVideo> = Vec::new();
        let vs: &Vec<PostVideo> = match &self.videos {
            Some(v) => v,
            None => &empty,
        };
        let mut r: Vec<String> = Vec::new();
        let mut i: usize = 0;
        while i < vs.len()
            invariant
                0 <= i <= vs.len(),
                vs@ == opt_seq(self.videos),
                r@.len() == i,
                forall|j: int|
                    0 <= j < i ==> provider_link(vs@[j].service_provider, vs@[j].video_id@)
                        == Ok::<Seq<char>, ResolveError>((#[trigger] r@[j])@),
            decreases vs.len() - i,
        {
            match map_provider(&vs[i].service_provider, &vs[i].video_id) {
                Ok(t) => r.push(t),
                Err(e) => {
                    assert(provider_link(vs@[i as int].service_provider, vs@[i as int].video_id@)
                        == Err::<Seq<char>, ResolveError>(e));
                    return Err(e);
                },
            }
            i = i + 1;
        }
        Ok(r)
    }

    /// Resolves one block. A reference to an image, file, embed or video that
    /// the side tables lack becomes a visible placeholder; an unknown embed
    /// provider or style is an error.
    pub fn resolve_block(&self, b: &PostBlock) -> (r: Result<
        (ArchiveContent, Option<FileReference>),
        ResolveError,
    >)
        ensures
            match r {
                Ok(p) => block_spec(*self, *b) == Ok::<Step, ResolveError>(
                    (p.0@, opt_file_view(p.1)),
                ),
                Err(e) => block_spec(*self, *b) == Err::<Step, ResolveError>(e),
            },
    {
        proof {
            reveal_strlit("  ");
            reveal_strlit("# ");
        }
        match b {
            PostBlock::P { text, styles } => {
                if text.as_str().unicode_len() == 0 {
                    let t = lit("  ");
                    assert(t@ =~= seq![' ', ' ']);
                    Ok((ArchiveContent::Text(t), None))
                } else {
                    match set_style(text, styles) {
                        Ok(t) => Ok((ArchiveContent::Text(t), None)),
                        Err(e) => Err(e),
                    }
                }
            },
            PostBlock::Header { text, styles } => match set_style(text, styles) {
                Ok(t) => {
                    let mut h = lit("# ");
                    h.append(t.as_str());
                    assert(h@ =~= seq!['#', ' '] + t@);
                    Ok((ArchiveContent::Text(h), None))
                },
                Err(e) => Err(e),
            },
            PostBlock::Image { image_id } => match lookup_in(&self.image_map, image_id) {
                Some(img) => Ok((ArchiveContent::Image(img.id.clone()), Some(img.file_reference()))),
                None => Ok((ArchiveContent::Text(mismatch_text("Image", image_id)), None)),
            },
            PostBlock::File { file_id } => match lookup_in(&self.file_map, file_id) {
                Some(f) => Ok((ArchiveContent::File(f.id.clone()), Some(f.file_reference()))),
                None => Ok((ArchiveContent::Text(mismatch_text("File", file_id)), None)),
            },
            PostBlock::Embed { embed_id } => match lookup_in(&self.embed_map, embed_id) {
                Some(e) => match map_provider(&e.service_provider, &e.content_id) {
                    Ok(t) => Ok((ArchiveContent::Text(t), None)),
                    Err(err) => Err(err),
                },
                None => Ok((ArchiveContent::Text(mismatch_text("Embed", embed_id)), None)),
            },
            PostBlock::UrlEmbed { url_embed_id } => {
                let mut t = lit("> ");
                t.append(url_embed_id.as_str());
                Ok((ArchiveContent::Text(t), None))
            },
            PostBlock::Video { video_id } => match find_video(&self.videos, video_id) {
                Some(v) => match map_provider(&v.service_provider, video_id) {
                    Ok(t) => Ok((ArchiveContent::Text(t), None)),
                    Err(err) => Err(err),
                },
                None => Ok((ArchiveContent::Text(mismatch_text("Video", video_id)), None)),
            },
        }
    }

    /// The body's text and blocks, resolved in order; the file table holds
    /// each referenced file once.
    pub fn text(&self) -> (r: Result<ResolvedContent, ResolveError>)
        ensures
            match r {
                Ok(d) => text_spec(*self) == Ok::<DocView, ResolveError>(d@) && unique_ids(
                    d@.files,
                ),
                Err(e) => text_spec(*self) == Err::<DocView, ResolveError>(e),
            },
    {
        let mut doc = ResolvedContent { blocks: Vec::new(), files: Vec::new() };
        assert(doc@ == empty_doc()) by {
            assert(doc@.blocks =~= Seq::<ContentView>::empty());
            assert(doc@.files =~= Seq::<FileRefView>::empty());
        }
        match &self.text {
            Some(t) => {
                if t.as_str().unicode_len() > 0 {
                    push_step(&mut doc, ArchiveContent::Text(t.clone()), None);
                }
            },
            None => {},
        }
        let empty: Vec<PostBlock> = Vec::new();
        let bs: &Vec<PostBlock> = match &self.blocks {
            Some(v) => v,
            None => &empty,
        };
        assert(bs@.take(0) =~= Seq::<PostBlock>::empty());
        let mut i: usize = 0;
        while i < bs.len()
            invariant
                0 <= i <= bs.len(),
                bs@ == opt_seq(self.blocks),
                resolve_blocks(*self, text_prefix(*self), bs@.take(i as int)) == Ok::<
                    DocView,
                    ResolveError,
                >(doc@),
                unique_ids(doc@.files),
            decreases bs.len() - i,
        {
            assert(bs@.take(i + 1).drop_last() =~= bs@.take(i as int));
            match self.resolve_block(&bs[i]) {
                Ok(p) => push_step(&mut doc, p.0, p.1),
                Err(e) => {
                    proof {
                        lemma_resolve_err_persists(*self, text_prefix(*self), bs@, i + 1, e);
                    }
                    return Err(e);
                },
            }
            i = i + 1;
        }
        assert(bs@.take(bs.len() as int) =~= bs@);
        Ok(doc)
    }

    /// The whole body resolved: text and blocks, then the flat lists of
    /// images, videos and files, in that order.
    pub fn content(&self) -> (r: Result<ResolvedContent, ResolveError>)
        ensures
            match r {
                Ok(d) => content_spec(*self) == Ok::<DocView, ResolveError>(d@) && unique_ids(
                    d@.files,
                ),
                Err(e) => content_spec(*self) == Err::<DocView, ResolveError>(e),
            },
    {
        let mut doc = match self.text() {
            Ok(d) => d,
            Err(e) => return Err(e),
        };
        let ghost d0 = doc@;
        let empty_i: Vec<PostImage> = Vec::new();
        let imgs: &Vec<PostImage> = match &self.images {
            Some(v) => v,
            None => &empty_i,
        };
        assert(image_steps(imgs@).take(0) =~= Seq::<Step>::empty());
        let mut i: usize = 0;
        while i < imgs.len()
            invariant
                0 <= i <= imgs.len(),
                imgs@ == opt_seq(self.images),
                doc@ == fold_steps(d0, image_steps(imgs@).take(i as int)),
                unique_ids(doc@.files),
            decreases imgs.len() - i,
        {
            assert(image_steps(imgs@).take(i + 1).drop_last() =~= image_steps(imgs@).take(i as int));
            let img = &imgs[i];
            push_step(&mut doc, ArchiveContent::Image(img.id.clone()), Some(img.file_reference()));
            i = i + 1;
        }
        assert(image_steps(imgs@).take(imgs.len() as int) =~= image_steps(imgs@));
        let ghost d1 = doc@;
        let empty_v: Vec<PostVideo> = Vec::new();
        let vs: &Vec<PostVideo> = match &self.videos {
            Some(v) => v,
            None => &empty_v,
        };
        assert(vs@.take(0) =~= Seq::<PostVideo>::empty());
        let mut i: usize = 0;
        while i < vs.len()
            invariant
                0 <= i <= vs.len(),
                vs@ == opt_seq(self.videos),
                text_spec(*self) == Ok::<DocView, ResolveError>(d0),
                d1 == fold_steps(d0, image_steps(opt_seq(self.images))),
                video_steps(d1, vs@.take(i as int)) == Ok::<DocView, ResolveError>(doc@),
                unique_ids(doc@.files),
            decreases vs.len() - i,
        {
            assert(vs@.take(i + 1).drop_last() =~= vs@.take(i as int));
            match map_provider(&vs[i].service_provider, &vs[i].video_id) {
                Ok(t) => push_step(&mut doc, ArchiveContent::Text(t), None),
                Err(e) => {
                    proof {
                        lemma_video_err_persists(d1, vs@, i + 1, e);
                    }
                    return Err(e);
                },
            }
            i = i + 1;
        }
        assert(vs@.take(vs.len() as int) =~= vs@);
        let ghost d2 = doc@;
        let empty_f: Vec<PostFile> = Vec::new();
        let fs: &Vec<PostFile> = match &self.files {
            Some(v) => v,
            None => &empty_f,
        };
        assert(file_steps(fs@).take(0) =~= Seq::<Step>::empty());
        let mut i: usize = 0;
        while i < fs.len()
            invariant
                0 <= i <= fs.len(),
                fs@ == opt_seq(self.files),
                text_spec(*self) == Ok::<DocView, ResolveError>(d0),
                d1 == fold_steps(d0, image_steps(opt_seq(self.images))),
                video_steps(d1, opt_seq(self.videos)) == Ok::<DocView, ResolveError>(d2),
                doc@ == fold_steps(d2, file_steps(fs@).take(i as int)),
                unique_ids(doc@.files),
            decreases fs.len() - i,
        {
            assert(file_steps(fs@).take(i + 1).drop_last() =~= file_steps(fs@).take(i as int));
            let f = &fs[i];
            push_step(&mut doc, ArchiveContent::File(f.id.clone()), Some(f.file_reference()));
            i = i + 1;
        }
        assert(file_steps(fs@).take(fs.len() as int) =~= file_steps(fs@));
        Ok(doc)
    }
}

/// Every block that references a file names an entry of the file table.
pub open spec fn refs_resolved(d: DocView) -> bool {
    forall|i: int|
        0 <= i < d.blocks.len() ==> match #[trigger] d.blocks[i] {
            ContentView::Image(id) => has_file(d.files, id),
            ContentView::File(id) => has_file(d.files, id),
            ContentView::Video(id) => has_file(d.files, id),
            ContentView::Text(_) => true,
        }
}

pub open spec fn step_ok(s: Step) -> bool {
    match s.0 {
        ContentView::Image(id) => s.1 is Some && s.1->0.id == id,
        ContentView::File(id) => s.1 is Some && s.1->0.id == id,
        ContentView::Video(id) => s.1 is Some && s.1->0.id == id,
        ContentView::Text(_) => true,
    }
}

pub open spec fn sound_doc(d: DocView) -> bool {
    refs_resolved(d) && unique_ids(d.files)
}

proof fn lemma_with_file(fs: Seq<FileRefView>, f: FileRefView)
    ensures
        has_file(with_file(fs, f), f.id),
        forall|id: Seq<char>| has_file(fs, id) ==> #[trigger] has_file(with_file(fs, f), id),
        unique_ids(fs) ==> unique_ids(with_file(fs, f)),
{
    if !has_file(fs, f.id) {
        let g = fs.push(f);
        assert(g[fs.len() as int].id == f.id);
        assert forall|id: Seq<char>| has_file(fs, id) implies #[trigger] has_file(g, id) by {
            let k = choose|k: int| 0 <= k < fs.len() && fs[k].id == id;
            assert(g[k].id == id);
        }
    }
}

proof fn lemma_add_step(d: DocView, s: Step)
    requires
        sound_doc(d),
        step_ok(s),
    ensures
        sound_doc(add_step(d, s)),
{
    let d2 = add_step(d, s);
    match s.1 {
        Some(f) => lemma_with_file(d.files, f),
        None => {},
    }
    assert forall|i: int| 0 <= i < d2.blocks.len() implies match #[trigger] d2.blocks[i] {
        ContentView::Image(id) => has_file(d2.files, id),
        ContentView::File(id) => has_file(d2.files, id),
        ContentView::Video(id) => has_file(d2.files, id),
        ContentView::Text(_) => true,
    } by {
        if i < d.blocks.len() {
            assert(d2.blocks[i] == d.blocks[i]);
        }
    }
}

proof fn lemma_block_step_ok(body: PostBody, b: PostBlock)
    ensures
        block_spec(body, b) is Ok ==> step_ok(block_spec(body, b)->Ok_0),
{
}

proof fn lemma_resolve_blocks_sound(body: PostBody, d: DocView, bs: Seq<PostBlock>)
    requires
        sound_doc(d),
    ensures
        resolve_blocks(body, d, bs) is Ok ==> sound_doc(resolve_blocks(body, d, bs)->Ok_0),
    decreases bs.len(),
{
    if bs.len() > 0 {
        lemma_resolve_blocks_sound(body, d, bs.drop_last());
        lemma_block_step_ok(body, bs.last());
        if resolve_blocks(body, d, bs.drop_last()) is Ok && block_spec(body, bs.last()) is Ok {
            lemma_add_step(
                resolve_blocks(body, d, bs.drop_last())->Ok_0,
                block_spec(body, bs.last())->Ok_0,
            );
        }
    }
}

proof fn lemma_fold_steps_sound(d: DocView, s: Seq<Step>)
    requires
        sound_doc(d),
        forall|i: int| 0 <= i < s.len() ==> step_ok(#[trigger] s[i]),
    ensures
        sound_doc(fold_steps(d, s)),
    decreases s.len(),
{
    if s.len() > 0 {
        lemma_fold_steps_sound(d, s.drop_last());
        assert(step_ok(s[s.len() - 1]));
        lemma_add_step(fold_steps(d, s.drop_last()), s.last());
    }
}

proof fn lemma_video_steps_sound(d: DocView, vs: Seq<PostVideo>)
    requires
        sound_doc(d),
    ensures
        video_steps(d, vs) is Ok ==> sound_doc(video_steps(d, vs)->Ok_0),
    decreases vs.len(),
{
    if vs.len() > 0 {
        lemma_video_steps_sound(d, vs.drop_last());
        if video_steps(d, vs.drop_last()) is Ok {
            let t = provider_link(vs.last().service_provider, vs.last().video_id@);
            if t is Ok {
                lemma_add_step(
                    video_steps(d, vs.drop_last())->Ok_0,
                    (ContentView::Text(t->Ok_0), None),
                );
            }
        }
    }
}

/// File deduplication: in a resolved document every block that references a
/// file points at an entry of the file table, and no two entries share an id.
/// So blocks that reference one file id share exactly one file reference.
pub proof fn lemma_resolved_files_deduplicated(body: PostBody)
    ensures
        text_spec(body) is Ok ==> sound_doc(text_spec(body)->Ok_0),
        content_spec(body) is Ok ==> sound_doc(content_spec(body)->Ok_0),
{
    let e = empty_doc();
    assert(sound_doc(e));
    let p = text_prefix(body);
    if body.text is Some && body.text->0@.len() > 0 {
        lemma_add_step(e, (ContentView::Text(body.text->0@), None));
    }
    assert(sound_doc(p));
    lemma_resolve_blocks_sound(body, p, opt_seq(body.blocks));
    if text_spec(body) is Ok {
        let d = text_spec(body)->Ok_0;
        let is = image_steps(opt_seq(body.images));
        assert forall|i: int| 0 <= i < is.len() implies step_ok(#[trigger] is[i]) by {}
        lemma_fold_steps_sound(d, is);
        let d1 = fold_steps(d, is);
        lemma_video_steps_sound(d1, opt_seq(body.videos));
        if video_steps(d1, opt_seq(body.videos)) is Ok {
            let fs = file_steps(opt_seq(body.files));
            assert forall|i: int| 0 <= i < fs.len() implies step_ok(#[trigger] fs[i]) by {}
            lemma_fold_steps_sound(video_steps(d1, opt_seq(body.videos))->Ok_0, fs);
        }
    }
}

/// A block that can never fail: a reference to an image or a file (present or
/// not) or a link embed.
pub open spec fn is_reference_block(b: PostBlock) -> bool {
    b is Image || b is File || b is UrlEmbed
}

/// Broken cross-references are tolerated: an image or file block whose id the
/// side table lacks resolves to a visible placeholder, and a run of reference
/// blocks never fails, whatever its ids.
pub proof fn lemma_broken_reference_placeholder(body: PostBody, d: DocView, bs: Seq<PostBlock>)
    requires
        forall|i: int| 0 <= i < bs.len() ==> is_reference_block(#[trigger] bs[i]),
    ensures
        resolve_blocks(body, d, bs) is Ok,
        forall|id: String|
            lookup(opt_seq(body.image_map), id@) is None ==> #[trigger] block_spec(
                body,
                PostBlock::Image { image_id: id },
            ) == Ok::<Step, ResolveError>(
                (ContentView::Text(mismatch("Image"@, id@)), None),
            ),
        forall|id: String|
            lookup(opt_seq(body.file_map), id@) is None ==> #[trigger] block_spec(
                body,
                PostBlock::File { file_id: id },
            ) == Ok::<Step, ResolveError>((ContentView::Text(mismatch("File"@, id@)), None)),
    decreases bs.len(),
{
    if bs.len() > 0 {
        assert(is_reference_block(bs[bs.len() - 1]));
        lemma_broken_reference_placeholder(body, d, bs.drop_last());
    }
}

pub open spec fn spans_ascending(s: Seq<(u32, u32)>) -> bool {
    forall|i: int, j: int| 0 <= i < j < s.len() ==> (#[trigger] s[i]).0 <= (#[trigger] s[j]).0
}

proof fn lemma_insert_span_bounded(s: Seq<(u32, u32)>, x: (u32, u32), b: u32)
    requires
        forall|i: int| 0 <= i < s.len() ==> (#[trigger] s[i]).0 <= b,
        x.0 <= b,
    ensures
        forall|i: int|
            0 <= i < insert_span(s, x).len() ==> (#[trigger] insert_span(s, x)[i]).0 <= b,
    decreases s.len(),
{
    if s.len() > 0 && x.0 < s.last().0 {
        lemma_insert_span_bounded(s.drop_last(), x, b);
        assert(s.last().0 <= b);
        let r = insert_span(s.drop_last(), x);
        assert forall|i: int| 0 <= i < r.push(s.last()).len() implies (#[trigger] r.push(
            s.last(),
        )[i]).0 <= b by {
            if i < r.len() {
                assert(r.push(s.last())[i] == r[i]);
            }
        }
    }
}

proof fn lemma_insert_span_ascending(s: Seq<(u32, u32)>, x: (u32, u32))
    requires
        spans_ascending(s),
    ensures
        spans_ascending(insert_span(s, x)),
    decreases s.len(),
{
    if s.len() > 0 {
        if x.0 < s.last().0 {
            let t = s.drop_last();
            assert(spans_ascending(t)) by {
                assert forall|i: int, j: int| 0 <= i < j < t.len() implies (#[trigger] t[i]).0 <= (
                #[trigger] t[j]).0 by {
                    assert(t[i] == s[i] && t[j] == s[j]);
                }
            }
            lemma_insert_span_ascending(t, x);
            assert forall|i: int| 0 <= i < t.len() implies (#[trigger] t[i]).0 <= s.last().0 by {
                assert(t[i] == s[i]);
            }
            lemma_insert_span_bounded(t, x, s.last().0);
            let r = insert_span(t, x);
            assert forall|i: int, j: int| 0 <= i < j < r.push(s.last()).len() implies (
            #[trigger] r.push(s.last())[i]).0 <= (#[trigger] r.push(s.last())[j]).0 by {
                assert(r.push(s.last())[i] == r[i]);
                if j < r.len() {
                    assert(r.push(s.last())[j] == r[j]);
                }
            }
        } else {
            assert forall|i: int, j: int| 0 <= i < j < s.push(x).len() implies (#[trigger] s.push(
                x,
            )[i]).0 <= (#[trigger] s.push(x)[j]).0 by {
                assert(s.push(x)[i] == s[i]);
                if j < s.len() {
                    assert(s.push(x)[j] == s[j]);
                } else {
                    assert(s[i].0 <= s.last().0);
                }
            }
        }
    }
}

proof fn lemma_sorted_spans_ascending(ss: Seq<PostBlockStyle>)
    ensures
        spans_ascending(sorted_spans(ss)),
    decreases ss.len(),
{
    if ss.len() > 0 {
        lemma_sorted_spans_ascending(ss.drop_last());
        lemma_insert_span_ascending(
            sorted_spans(ss.drop_last()),
            (ss.last().offset, ss.last().length),
        );
    }
}

/// Styles are applied from the highest offset down: the spans come out in
/// ascending order of offset, and applying the last (highest) one leaves the
/// text before every other span's offset as it was, so those offsets still
/// point at the characters they were given for.
pub proof fn lemma_styles_keep_lower_offsets(t: Seq<char>, ss: Seq<PostBlockStyle>)
    requires
        ss.len() > 0,
    ensures
        spans_ascending(sorted_spans(ss)),
        ({
            let s = sorted_spans(ss);
            let hi = s.last();
            forall|k: int|
                0 <= k < s.len() ==> #[trigger] bold_range(t, hi.0 as int, hi.1 as int).subrange(
                    0,
                    min_int(s[k].0 as int, t.len() as int),
                ) == t.subrange(0, min_int(s[k].0 as int, t.len() as int))
        }),
{
    lemma_sorted_spans_ascending(ss);
    let s = sorted_spans(ss);
    assert(s.len() > 0) by {
        lemma_sorted_spans_len(ss);
    }
    let hi = s.last();
    lemma_bold_keeps_prefix(t, hi.0 as int, hi.1 as int);
    let b = bold_range(t, hi.0 as int, hi.1 as int);
    let m = min_int(hi.0 as int, t.len() as int);
    assert forall|k: int| 0 <= k < s.len() implies #[trigger] b.subrange(
        0,
        min_int(s[k].0 as int, t.len() as int),
    ) == t.subrange(0, min_int(s[k].0 as int, t.len() as int)) by {
        let mk = min_int(s[k].0 as int, t.len() as int);
        if k < s.len() - 1 {
            assert(s[k].0 <= s[s.len() - 1].0);
        }
        assert(mk <= m);
        assert(b.subrange(0, mk) =~= b.subrange(0, m).subrange(0, mk));
        assert(t.subrange(0, mk) =~= t.subrange(0, m).subrange(0, mk));
    }
}

proof fn lemma_insert_span_len(s: Seq<(u32, u32)>, x: (u32, u32))
    ensures
        insert_span(s, x).len() == s.len() + 1,
    decreases s.len(),
{
    if s.len() > 0 && x.0 < s.last().0 {
        lemma_insert_span_len(s.drop_last(), x);
    }
}

proof fn lemma_sorted_spans_len(ss: Seq<PostBlockStyle>)
    ensures
        sorted_spans(ss).len() == ss.len(),
    decreases ss.len(),
{
    if ss.len() > 0 {
        lemma_sorted_spans_len(ss.drop_last());
        lemma_insert_span_len(sorted_spans(ss.drop_last()), (ss.last().offset, ss.last().length));
    }
}

proof fn lemma_apply_spans_lowest(t: Seq<char>, s: Seq<(u32, u32)>)
    requires
        s.len() > 0,
        spans_ascending(s),
        s[0].0 <= t.len(),
    ensures
        apply_spans(t, s).len() >= t.len(),
        apply_spans(t, s).take(s[0].0 as int + 2) == t.take(s[0].0 as int) + stars(),
    decreases s.len(),
{
    let o = s[0].0 as int;
    let hi = s.last();
    let t1 = bold_range(t, hi.0 as int, hi.1 as int);
    assert(t1.len() == t.len() + 4);
    if s.len() == 1 {
        assert(hi == s[0]);
        assert(apply_spans(t, s) == apply_spans(t1, s.drop_last()));
        assert(s.drop_last().len() == 0);
        assert(t1.take(o + 2) =~= t.take(o) + stars());
    } else {
        let rest = s.drop_last();
        assert(rest[0] == s[0]);
        assert(s[0].0 <= s[s.len() - 1].0);
        lemma_bold_keeps_prefix(t, hi.0 as int, hi.1 as int);
        assert(min_int(hi.0 as int, t.len() as int) >= o);
        assert(t1.take(o) =~= t.take(o)) by {
            let m = min_int(hi.0 as int, t.len() as int);
            assert(t1.subrange(0, m).subrange(0, o) =~= t1.take(o));
            assert(t.subrange(0, m).subrange(0, o) =~= t.take(o));
        }
        assert(spans_ascending(rest)) by {
            assert forall|i: int, j: int| 0 <= i < j < rest.len() implies (#[trigger] rest[i]).0 <= (#[trigger] rest[j]).0 by {
                assert(rest[i] == s[i] && rest[j] == s[j]);
            }
        }
        lemma_apply_spans_lowest(t1, rest);
    }
}

/// Style application, for a whole paragraph: when every style is bold and
/// the lowest offset lies within the text, the styled text keeps everything
/// before that offset and opens the lowest range right there, however the
/// styles above it overlap.
pub proof fn lemma_lowest_style_intact(t: Seq<char>, ss: Seq<PostBlockStyle>)
    requires
        ss.len() > 0,
        forall|i: int| 0 <= i < ss.len() ==> !not_bold()(#[trigger] ss[i]),
        sorted_spans(ss)[0].0 <= t.len(),
    ensures
        styled(t, ss) is Ok,
        styled(t, ss)->Ok_0.take(sorted_spans(ss)[0].0 as int + 2) == t.take(
            sorted_spans(ss)[0].0 as int,
        ) + stars(),
        forall|i: int| 0 <= i < ss.len() ==> sorted_spans(ss)[0].0 <= #[trigger] ss[i].offset,
{
    lemma_first_index_none(ss, not_bold());
    lemma_sorted_spans_ascending(ss);
    lemma_sorted_spans_len(ss);
    lemma_apply_spans_lowest(t, sorted_spans(ss));
    assert forall|i: int| 0 <= i < ss.len() implies sorted_spans(ss)[0].0 <= #[trigger] ss[i].offset by {
        lemma_sorted_spans_members(ss, i);
    }
}

/// Every style's span is among the sorted spans.
proof fn lemma_sorted_spans_members(ss: Seq<PostBlockStyle>, i: int)
    requires
        0 <= i < ss.len(),
    ensures
        sorted_spans(ss).contains((ss[i].offset, ss[i].length)),
        sorted_spans(ss)[0].0 <= ss[i].offset,
    decreases ss.len(),
{
    lemma_sorted_spans_len(ss);
    lemma_sorted_spans_ascending(ss);
    let t = ss.drop_last();
    let x = (ss.last().offset, ss.last().length);
    lemma_insert_span_members(sorted_spans(t), x);
    if i < ss.len() - 1 {
        assert(t[i] == ss[i]);
        lemma_sorted_spans_members(t, i);
    }
    let y = (ss[i].offset, ss[i].length);
    assert(sorted_spans(ss).contains(y));
    let w = choose|k: int| 0 <= k < sorted_spans(ss).len() && sorted_spans(ss)[k] == y;
    if w > 0 {
        assert(sorted_spans(ss)[0].0 <= sorted_spans(ss)[w].0);
    }
}

proof fn lemma_insert_span_members(s: Seq<(u32, u32)>, x: (u32, u32))
    ensures
        insert_span(s, x).contains(x),
        forall|y: (u32, u32)| s.contains(y) ==> #[trigger] insert_span(s, x).contains(y),
    decreases s.len(),
{
    if s.len() == 0 {
        assert(seq![x][0] == x);
    } else if x.0 < s.last().0 {
        let t = s.drop_last();
        lemma_insert_span_members(t, x);
        let r = insert_span(t, x);
        let k0 = choose|k: int| 0 <= k < r.len() && r[k] == x;
        assert(r.push(s.last())[k0] == x);
        assert forall|y: (u32, u32)| s.contains(y) implies #[trigger] insert_span(s, x).contains(y) by {
            let k = choose|k: int| 0 <= k < s.len() && s[k] == y;
            if k == s.len() - 1 {
                assert(r.push(s.last())[r.len() as int] == y);
            } else {
                assert(t[k] == y);
                assert(t.contains(y));
                assert(insert_span(t, x).contains(y));
                let k2 = choose|k2: int| 0 <= k2 < r.len() && r[k2] == y;
                assert(r.push(s.last())[k2] == y);
            }
        }
    } else {
        assert(s.push(x)[s.len() as int] == x);
        assert forall|y: (u32, u32)| s.contains(y) implies #[trigger] insert_span(s, x).contains(y) by {
            let k = choose|k: int| 0 <= k < s.len() && s[k] == y;
            assert(s.push(x)[k] == y);
        }
    }
}

/// Resolving a list of blocks succeeds exactly when each block resolves on
/// its own; the document then keeps what it started with and holds each
/// block's result at that block's position after it. With the placeholder
/// rule, a block naming a missing image or file leaves the rest of the
/// document as it would be otherwise and shows its placeholder in place.
pub proof fn lemma_resolve_blocks_positions(body: PostBody, d: DocView, bs: Seq<PostBlock>)
    ensures
        resolve_blocks(body, d, bs) is Ok <==> forall|k: int|
            0 <= k < bs.len() ==> #[trigger] block_spec(body, bs[k]) is Ok,
        resolve_blocks(body, d, bs) is Ok ==> resolve_blocks(body, d, bs)->Ok_0.blocks.len()
            == d.blocks.len() + bs.len(),
        resolve_blocks(body, d, bs) is Ok ==> forall|k: int|
            0 <= k < d.blocks.len() ==> #[trigger] resolve_blocks(body, d, bs)->Ok_0.blocks[k]
                == d.blocks[k],
        resolve_blocks(body, d, bs) is Ok ==> forall|k: int|
            0 <= k < bs.len() ==> resolve_blocks(body, d, bs)->Ok_0.blocks[d.blocks.len() + k]
                == (#[trigger] block_spec(body, bs[k]))->Ok_0.0,
    decreases bs.len(),
{
    if bs.len() > 0 {
        let t = bs.drop_last();
        lemma_resolve_blocks_positions(body, d, t);
        let n = bs.len() - 1;
        assert forall|k: int| 0 <= k < t.len() implies #[trigger] block_spec(body, bs[k]) == block_spec(body, t[k]) by {
            assert(t[k] == bs[k]);
        }
        if resolve_blocks(body, d, bs) is Ok {
            assert(resolve_blocks(body, d, t) is Ok);
            assert(block_spec(body, bs[n]) is Ok);
            let d1 = resolve_blocks(body, d, t)->Ok_0;
            let d2 = resolve_blocks(body, d, bs)->Ok_0;
            assert(d2.blocks == d1.blocks.push(block_spec(body, bs[n])->Ok_0.0));
            assert forall|k: int| 0 <= k < bs.len() implies d2.blocks[d.blocks.len() + k]
                == (#[trigger] block_spec(body, bs[k]))->Ok_0.0 by {
                if k < n {
                    assert(block_spec(body, t[k]) == block_spec(body, bs[k]));
                }
            }
        } else {
            if forall|k: int| 0 <= k < bs.len() ==> #[trigger] block_spec(body, bs[k]) is Ok {
                assert(forall|k: int| 0 <= k < t.len() ==> #[trigger] block_spec(body, t[k]) is Ok) by {
                    assert forall|k: int| 0 <= k < t.len() implies #[trigger] block_spec(body, t[k]) is Ok by {
                        assert(block_spec(body, bs[k]) is Ok);
                    }
                }
                assert(block_spec(body, bs[n]) is Ok);
            }
        }
    }
}

} // verus!
