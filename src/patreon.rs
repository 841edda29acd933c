//! Patreon members, posts and comments, and their conversion into the
//! canonical content model.

use vstd::prelude::*;
use vstd::string::*;
use crate::archive::{ArchiveComment, ArchiveContent, ContentView};
use crate::content::{
    add_file, extra_view, unique_ids, with_file, DocView, FileRefView, FileReference,
    ResolvedContent,
};
use crate::fanbox::{add_step, empty_doc, opt_file_view, push_step, ResolveError, Step};
use crate::files::{guess_mime, mime_of};
use crate::config::{member_ok, Config};
use crate::utils::{dec_digits, to_decimal};
use crate::text::{
    fill, fill_exec, pad_center, pad_center_exec, pad_right, pad_right_exec,
    after_last, before_first, last_index_of, lemma_last_index_bounds, replace_newlines,
    text_after_last, text_before_first, find_last, substring, with_br,
};

verus! {

pub struct User {
    pub id: String,
    pub full_name: String,
}

pub struct Campaign {
    pub id: String,
    pub is_active: bool,
    pub name: String,
    pub url: String,
}

pub struct Member {
    pub id: String,
    pub campaign_currency: String,
    pub campaign_pledge_amount_cents: Option<u32>,
    pub campaign: Campaign,
}

impl Member {
    /// The pledge in cents; none counts as zero.
    pub fn cents(&self) -> (r: u32)
        ensures
            r == match self.campaign_pledge_amount_cents {
                Some(c) => c,
                None => 0,
            },
    {
        match self.campaign_pledge_amount_cents {
            Some(c) => c,
            None => 0,
        }
    }
}

pub struct Image {
    pub large_url: String,
    pub thumb_square_large_url: String,
    pub thumb_square_url: String,
    pub thumb_url: String,
    pub url: String,
    pub width: Option<u32>,
    pub height: Option<u32>,
}

pub struct Embed {
    pub description: Option<String>,
    pub html: Option<String>,
    pub linked_object_id: Option<String>,
    pub linked_object_type: Option<String>,
    pub product_variant_id: Option<u32>,
    pub provider: Option<String>,
    pub provider_url: Option<String>,
    pub subject: Option<String>,
    pub url: Option<String>,
}

pub struct PostMetadata {
    pub image_order: Vec<String>,
}

pub struct MediaImageUrls {
    pub default: String,
    pub default_blurred: String,
    pub default_blurred_small: String,
    pub default_large: String,
    pub default_small: String,
    pub original: String,
    pub thumbnail: String,
    pub thumbnail_large: String,
    pub thumbnail_small: String,
    pub url: String,
}

pub struct MediaMetadataDimensions {
    pub w: u32,
    pub h: u32,
}

pub struct MediaMetadata {
    pub dimensions: Option<MediaMetadataDimensions>,
    pub duration_s: Option<u32>,
}

pub struct Media {
    pub id: String,
    pub file_name: Option<String>,
    pub download_url: String,
    pub image_urls: Option<MediaImageUrls>,
    pub metadata: MediaMetadata,
}

pub struct PollChoice {
    pub position: u32,
    pub num_responses: u32,
    pub text_content: String,
}

pub struct Poll {
    pub choices: Vec<PollChoice>,
}

pub struct Reward {
    pub id: String,
    pub patron_amount_cents: u32,
}

pub struct ContentUnlockOption {
    pub id: String,
    pub reward: Reward,
}

pub struct PostTag {
    pub id: String,
    pub value: String,
}

pub struct Post {
    pub id: String,
    pub comment_count: u32,
    pub current_user_can_view: bool,
    pub image: Option<Image>,
    pub embed: Option<Embed>,
    pub content: Option<String>,
    pub post_metadata: Option<PostMetadata>,
    pub post_type: String,
    pub published_at: String,
    pub title: String,
    pub url: String,
    pub audio: Option<Media>,
    pub audio_preview: Option<Media>,
    pub media: Vec<Media>,
    pub poll: Option<Poll>,
    pub content_unlock_options: Vec<ContentUnlockOption>,
    pub user_defined_tags: Vec<PostTag>,
}

/// Free: no unlock option at all, or one whose reward costs nothing.
pub open spec fn is_free_spec(p: Post) -> bool {
    p.content_unlock_options@.len() == 0 || exists|i: int|
        0 <= i < p.content_unlock_options@.len()
            && #[trigger] p.content_unlock_options@[i].reward.patron_amount_cents == 0
}

impl Post {
    /// The publication time in microseconds since the Unix epoch; none when
    /// it is not RFC 3339.
    pub fn published_time(&self) -> (r: Option<i64>)
        ensures
            r == rfc3339_micros(self.published_at@),
    {
        parse_rfc3339(self.published_at.as_str())
    }

    pub fn is_free(&self) -> (r: bool)
        ensures
            r == is_free_spec(*self),
    {
        let n = self.content_unlock_options.len();
        if n == 0 {
            return true;
        }
        let mut i: usize = 0;
        while i < n
            invariant
                0 <= i <= n,
                n == self.content_unlock_options@.len(),
                forall|j: int|
                    0 <= j < i ==> (#[trigger] self.content_unlock_options@[j]).reward.patron_amount_cents
                        != 0,
            decreases n - i,
        {
            if self.content_unlock_options[i].reward.patron_amount_cents == 0 {
                return true;
            }
            i = i + 1;
        }
        false
    }
}

/// The markdown that htmd makes of an HTML text (images left out), or none
/// when its parser fails.
pub uninterp spec fn markdown_of(html: Seq<char>) -> Option<Seq<char>>;

/// Relies on `htmd::HtmlToMarkdown` built with `skip_tags(vec!["img"])` and its
/// `convert`: the markdown for the HTML, or the parser's I/O error. The result
/// depends on the HTML alone.
#[verifier::external_body]
fn html_to_markdown(html: &str) -> (r: Option<String>)
    ensures
        match r {
            Some(s) => markdown_of(html@) == Some(s@),
            None => markdown_of(html@) == None::<Seq<char>>,
        },
{
    match htmd::HtmlToMarkdown::builder().skip_tags(vec!["img"]).build().convert(html) {
        Ok(s) => Some(s),
        Err(_) => None,
    }
}

/// The instant that an RFC 3339 text names, in microseconds since the Unix
/// epoch; none when the text is not RFC 3339.
pub uninterp spec fn rfc3339_micros(s: Seq<char>) -> Option<i64>;

/// Relies on `chrono::DateTime::parse_from_rfc3339` and `timestamp_micros`.
#[verifier::external_body]
fn parse_rfc3339(s: &str) -> (r: Option<i64>)
    ensures
        r == rfc3339_micros(s@),
{
    match chrono::DateTime::parse_from_rfc3339(s) {
        Ok(d) => Some(d.timestamp_micros()),
        Err(_) => None,
    }
}

/// A media's file name: its own, or else the last segment of its URL.
pub open spec fn media_name(m: Media) -> Seq<char> {
    match m.file_name {
        Some(f) => f@,
        None => after_last(m.download_url@, '/'),
    }
}

pub open spec fn dims_extra(m: Media) -> Seq<(Seq<char>, u64)> {
    match m.metadata.dimensions {
        Some(d) => seq![("width"@, d.w as u64), ("height"@, d.h as u64)],
        None => Seq::empty(),
    }
}

pub open spec fn media_extra(m: Media) -> Seq<(Seq<char>, u64)> {
    dims_extra(m) + match m.metadata.duration_s {
        Some(x) => seq![("duration_s"@, x as u64)],
        None => Seq::empty(),
    }
}

pub open spec fn media_ref(m: Media) -> FileRefView {
    FileRefView {
        id: m.id@,
        filename: media_name(m),
        mime: mime_of(media_name(m)),
        url: m.download_url@,
        extra: media_extra(m),
    }
}

pub open spec fn audio_thumb_ref(m: Media, filename: Seq<char>) -> FileRefView {
    FileRefView {
        id: m.id@,
        filename,
        mime: mime_of(filename),
        url: m.download_url@,
        extra: dims_extra(m),
    }
}

/// The file name in a URL: its last path segment, without the query.
pub open spec fn url_name(url: Seq<char>) -> Seq<char> {
    before_first(after_last(url, '/'), '?')
}

pub open spec fn url_ref(url: Seq<char>) -> FileRefView {
    FileRefView {
        id: url_name(url),
        filename: url_name(url),
        mime: mime_of(url_name(url)),
        url,
        extra: Seq::empty(),
    }
}

fn lit(s: &str) -> (r: String)
    ensures
        r@ == s@,
{
    String::from_str(s)
}

fn media_file_name(m: &Media) -> (r: String)
    ensures
        r@ == media_name(*m),
{
    match &m.file_name {
        Some(f) => f.clone(),
        None => text_after_last(m.download_url.as_str(), '/'),
    }
}

fn dims_extra_exec(m: &Media) -> (r: Vec<(String, u64)>)
    ensures
        extra_view(r@) == dims_extra(*m),
{
    let mut r: Vec<(String, u64)> = Vec::new();
    match &m.metadata.dimensions {
        Some(d) => {
            r.push((lit("width"), d.w as u64));
            r.push((lit("height"), d.h as u64));
        },
        None => {},
    }
    assert(extra_view(r@) =~= dims_extra(*m));
    r
}

impl FileReference {
    /// A file known only by its URL; its name and id are the URL's last
    /// segment without the query.
    pub fn from_url(url: &String) -> (r: FileReference)
        ensures
            r@ == url_ref(url@),
    {
        let last = text_after_last(url.as_str(), '/');
        let filename = text_before_first(last.as_str(), '?');
        let mime = guess_mime(filename.as_str());
        let r = FileReference {
            id: filename.clone(),
            filename,
            mime,
            url: url.clone(),
            extra: Vec::new(),
        };
        assert(extra_view(r.extra@) =~= Seq::<(Seq<char>, u64)>::empty());
        r
    }

    /// A media file, with its dimensions and duration as extras.
    pub fn from_media(m: &Media) -> (r: FileReference)
        ensures
            r@ == media_ref(*m),
    {
        let filename = media_file_name(m);
        let mime = guess_mime(filename.as_str());
        let mut extra = dims_extra_exec(m);
        let ghost e0 = extra@;
        match m.metadata.duration_s {
            Some(x) => {
                extra.push((lit("duration_s"), x as u64));
            },
            None => {},
        }
        assert(extra_view(extra@) =~= media_extra(*m));
        FileReference { id: m.id.clone(), filename, mime, url: m.download_url.clone(), extra }
    }

    /// The cover image of an audio post, stored under the name given.
    pub fn from_audio_thumb(m: &Media, filename: String) -> (r: FileReference)
        ensures
            r@ == audio_thumb_ref(*m, filename@),
    {
        let mime = guess_mime(filename.as_str());
        let extra = dims_extra_exec(m);
        FileReference { id: m.id.clone(), filename, mime, url: m.download_url.clone(), extra }
    }
}

pub open spec fn media_thumb(m: Media) -> Option<Seq<char>> {
    match m.image_urls {
        Some(u) => Some(u.thumbnail@),
        None => None,
    }
}

pub open spec fn square_thumb(p: Post) -> Option<Seq<char>> {
    match p.image {
        Some(i) => Some(i.thumb_square_url@),
        None => None,
    }
}

pub open spec fn is_id_of(o: Option<Media>, id: Seq<char>) -> bool {
    match o {
        Some(a) => a.id@ == id,
        None => false,
    }
}

/// A file name without its last extension.
pub open spec fn stem(n: Seq<char>) -> Seq<char> {
    if last_index_of(n, '.') < 0 {
        n
    } else {
        n.subrange(0, last_index_of(n, '.'))
    }
}

/// A file name's last extension, empty when it has none.
pub open spec fn ext_of(n: Seq<char>) -> Seq<char> {
    if last_index_of(n, '.') < 0 {
        Seq::empty()
    } else {
        n.subrange(last_index_of(n, '.') + 1, n.len() as int)
    }
}

/// `<audio stem>.thumb.<ext>`: the name the cover of an audio post is stored under.
pub open spec fn audio_thumb_name(audio: Media, m: Media) -> Seq<char> {
    stem(media_name(audio)) + ".thumb."@ + ext_of(media_name(m))
}

/// What one media entry contributes: nothing for the audio track and its
/// preview (they are listed on their own), the audio's cover under its own
/// name, else the media file.
pub open spec fn media_step(p: Post, m: Media) -> Option<Step> {
    if is_id_of(p.audio, m.id@) || is_id_of(p.audio_preview, m.id@) {
        None
    } else if p.audio is Some && media_thumb(m) == square_thumb(p) {
        Some(
            (
                ContentView::File(m.id@),
                Some(audio_thumb_ref(m, audio_thumb_name(p.audio->0, m))),
            ),
        )
    } else {
        Some((ContentView::File(m.id@), Some(media_ref(m))))
    }
}

pub open spec fn media_steps(d: DocView, p: Post, ms: Seq<Media>) -> DocView
    decreases ms.len(),
{
    if ms.len() == 0 {
        d
    } else {
        let d2 = media_steps(d, p, ms.drop_last());
        match media_step(p, ms.last()) {
            Some(s) => add_step(d2, s),
            None => d2,
        }
    }
}

/// The HTML body as markdown, line breaks written `<br>`.
pub open spec fn markdown_doc(p: Post) -> Result<DocView, ResolveError> {
    match p.content {
        None => Ok(empty_doc()),
        Some(h) => match markdown_of(h@) {
            None => Err(ResolveError::Markup),
            Some(md) => Ok(add_step(empty_doc(), (ContentView::Text(with_br(md)), None))),
        },
    }
}

pub open spec fn audio_doc(d: DocView, p: Post) -> DocView {
    match p.audio {
        Some(a) => add_step(d, (ContentView::File(a.id@), Some(media_ref(a)))),
        None => d,
    }
}

/// The number of decimal digits of `n`.
pub open spec fn digit_count(n: u32) -> int {
    dec_digits(n as nat).len() as int
}

/// Column widths and vote total of a poll, choice by choice: the name column
/// is the longest text (at least 4); the vote column grows by 7 with each
/// choice after taking the widest count plus one (at least 5).
pub open spec fn poll_widths(cs: Seq<PollChoice>) -> (int, int, int)
    decreases cs.len(),
{
    if cs.len() == 0 {
        (4, 5, 0)
    } else {
        let w = poll_widths(cs.drop_last());
        let c = cs.last();
        let nw = if w.0 < c.text_content@.len() { c.text_content@.len() as int } else { w.0 };
        let v = digit_count(c.num_responses) + 1;
        let vw = (if w.1 < v { v } else { w.1 }) + 7;
        (nw, vw, w.2 + c.num_responses)
    }
}

/// `100 n / total` rounded to the nearest integer, halves to even.
pub open spec fn percent(n: int, total: int) -> int {
    let q = (100 * n) / total;
    let r = (100 * n) % total;
    if 2 * r > total || (2 * r == total && q % 2 == 1) {
        q + 1
    } else {
        q
    }
}

pub open spec fn poll_row(c: PollChoice, nw: int, vw: int, total: int) -> Seq<char> {
    let vote = dec_digits(c.num_responses as nat) + " ("@ + dec_digits(
        percent(c.num_responses as int, total) as nat,
    ) + "%)"@;
    "| "@ + pad_center(c.text_content@, nw) + " | "@ + pad_right(
        fill('#', (10 * c.num_responses as int) / total),
        10,
        ' ',
    ) + " | "@ + pad_right(vote, vw, ' ') + " |"@
}

/// The poll as a markdown table; a poll without votes counts one vote in all.
pub open spec fn poll_lines(cs: Seq<PollChoice>) -> Seq<Seq<char>> {
    let w = poll_widths(cs);
    let total = if w.2 == 0 { 1 } else { w.2 };
    seq![
        "| "@ + pad_center("Name"@, w.0) + " | Percentage | "@ + pad_right("Votes"@, w.1, ' ') + " |"@,
        "|-"@ + fill('-', w.0) + "-|------------|-"@ + fill('-', w.1) + "-|"@,
    ] + cs.map_values(|c: PollChoice| poll_row(c, w.0, w.1, total))
}

/// Lines joined with line breaks.
pub open spec fn join_lines(ls: Seq<Seq<char>>) -> Seq<char>
    decreases ls.len(),
{
    if ls.len() == 0 {
        Seq::empty()
    } else if ls.len() == 1 {
        ls[0]
    } else {
        join_lines(ls.drop_last()) + "\n"@ + ls.last()
    }
}

pub open spec fn poll_doc(d: DocView, p: Post) -> Result<DocView, ResolveError> {
    match p.poll {
        Some(poll) => if poll.choices@.len() >= 0x1000_0000 {
            Err(ResolveError::PollTooLarge)
        } else {
            Ok(add_step(d, (ContentView::Text(join_lines(poll_lines(poll.choices@))), None)))
        },
        None => Ok(d),
    }
}

/// A post's content: its text, its audio track, its other media, its poll.
pub open spec fn post_content_spec(p: Post) -> Result<DocView, ResolveError> {
    match markdown_doc(p) {
        Err(e) => Err(e),
        Ok(d) => poll_doc(media_steps(audio_doc(d, p), p, p.media@), p),
    }
}

/// The poll table of a post, one line per row.
pub fn poll_table(choices: &Vec<PollChoice>) -> (r: Vec<String>)
    requires
        choices@.len() < 0x1000_0000,
    ensures
        r@.map_values(|l: String| l@) == poll_lines(choices@),
{
    proof {
        reveal_strlit("#");
        reveal_strlit("-");
        reveal_strlit(" ");
    }
    let ghost cs = choices@;
    let mut nw: usize = 4;
    let mut vw: usize = 5;
    let mut total: u64 = 0;
    let mut i: usize = 0;
    while i < choices.len()
        invariant
            0 <= i <= choices.len(),
            cs == choices@,
            cs.len() < 0x1000_0000,
            (nw as int, vw as int, total as int) == poll_widths(cs.take(i as int)),
            vw <= 16 + 7 * i,
            total <= 0xffff_ffff * i,
        decreases choices.len() - i,
    {
        assert(cs.take(i + 1).drop_last() =~= cs.take(i as int));
        let c = &choices[i];
        let l = c.text_content.as_str().unicode_len();
        if l > nw {
            nw = l;
        }
        let digits = to_decimal(c.num_responses as u64).as_str().unicode_len();
        proof {
            lemma_u32_digits(c.num_responses);
        }
        let v = digits + 1;
        if vw < v {
            vw = v;
        }
        vw = vw + 7;
        total = total + c.num_responses as u64;
        i = i + 1;
    }
    assert(cs.take(cs.len() as int) =~= cs);
    let t: u64 = if total == 0 { 1 } else { total };
    let mut lines: Vec<String> = Vec::new();
    let mut h = String::from_str("| ");
    h.append(pad_center_exec("Name", nw).as_str());
    h.append(" | Percentage | ");
    h.append(pad_right_exec("Votes", vw, " ").as_str());
    h.append(" |");
    lines.push(h);
    let mut sep = String::from_str("|-");
    sep.append(fill_exec("-", nw).as_str());
    sep.append("-|------------|-");
    sep.append(fill_exec("-", vw).as_str());
    sep.append("-|");
    lines.push(sep);
    let ghost g = |c: PollChoice| poll_row(c, nw as int, vw as int, t as int);
    let mut k: usize = 0;
    while k < choices.len()
        invariant
            0 <= k <= choices.len(),
            cs == choices@,
            t >= 1,
            t as int == (if poll_widths(cs).2 == 0 { 1 } else { poll_widths(cs).2 }),
            t <= 0xffff_ffff * 0x1000_0000,
            g == (|c: PollChoice| poll_row(c, nw as int, vw as int, t as int)),
            " "@ == seq![' '],
            "#"@ == seq!['#'],
            lines@.len() == k + 2,
            lines@[0]@ == poll_lines(cs)[0],
            lines@[1]@ == poll_lines(cs)[1],
            forall|j: int| 0 <= j < k ==> (#[trigger] lines@[j + 2])@ == g(cs[j]),
        decreases choices.len() - k,
    {
        let c = &choices[k];
        let n = c.num_responses as u64;
        proof {
            lemma_count_below_total(cs, k as int);
        }
        assert((10 * (n as int)) / (t as int) <= 10) by (nonlinear_arith)
            requires
                (n as int) <= (t as int),
                (t as int) >= 1,
        ;
        let q = (100 * n) / t;
        let rem = (100 * n) % t;
        let pct = if 2 * rem > t || (2 * rem == t && q % 2 == 1) { q + 1 } else { q };
        let mut vote = to_decimal(n);
        vote.append(" (");
        vote.append(to_decimal(pct).as_str());
        vote.append("%)");
        let bars = fill_exec("#", ((10 * n) / t) as usize);
        let mut row = String::from_str("| ");
        row.append(pad_center_exec(c.text_content.as_str(), nw).as_str());
        row.append(" | ");
        row.append(pad_right_exec(bars.as_str(), 10, " ").as_str());
        row.append(" | ");
        row.append(pad_right_exec(vote.as_str(), vw, " ").as_str());
        row.append(" |");
        assert(row@ =~= g(cs[k as int]));
        let ghost before = lines@;
        lines.push(row);
        assert forall|j: int| 0 <= j < k + 1 implies (#[trigger] lines@[j + 2])@ == g(cs[j]) by {
            if j < k {
                assert(lines@[j + 2] == before[j + 2]);
            }
        }
        k = k + 1;
    }
    let ghost pl = poll_lines(cs);
    assert forall|j: int| 0 <= j < lines@.len() implies lines@.map_values(|l: String| l@)[j] == pl[j] by {
        if j >= 2 {
            assert(lines@[(j - 2) + 2]@ == g(cs[j - 2]));
        }
    }
    assert(lines@.map_values(|l: String| l@) =~= pl);
    lines
}

proof fn lemma_count_below_total(cs: Seq<PollChoice>, k: int)
    requires
        0 <= k < cs.len(),
    ensures
        cs[k].num_responses <= poll_widths(cs).2,
        poll_widths(cs).2 >= 0,
    decreases cs.len(),
{
    lemma_total_nonneg(cs.drop_last());
    if k < cs.len() - 1 {
        lemma_count_below_total(cs.drop_last(), k);
        assert(cs.drop_last()[k] == cs[k]);
    }
}

proof fn lemma_total_nonneg(cs: Seq<PollChoice>)
    ensures
        poll_widths(cs).2 >= 0,
    decreases cs.len(),
{
    if cs.len() > 0 {
        lemma_total_nonneg(cs.drop_last());
    }
}

proof fn lemma_u32_digits(n: u32)
    ensures
        dec_digits(n as nat).len() <= 10,
{
    crate::members::lemma_dec_len_pub(n as nat);
}

fn join_with_newlines(ls: &Vec<String>) -> (r: String)
    ensures
        r@ == join_lines(ls@.map_values(|l: String| l@)),
{
    let ghost lv = ls@.map_values(|l: String| l@);
    let mut r = String::new();
    let mut i: usize = 0;
    while i < ls.len()
        invariant
            0 <= i <= ls.len(),
            lv == ls@.map_values(|l: String| l@),
            r@ == join_lines(lv.take(i as int)),
        decreases ls.len() - i,
    {
        assert(lv.take(i + 1).drop_last() =~= lv.take(i as int));
        if i > 0 {
            r.append("\n");
        } else {
            assert(lv.take(1)[0] == lv[0]);
        }
        r.append(ls[i].as_str());
        assert(lv.take(i + 1).last() == ls@[i as int]@);
        i = i + 1;
    }
    assert(lv.take(ls.len() as int) =~= lv);
    r
}

fn stem_exec(n: &String) -> (r: String)
    ensures
        r@ == stem(n@),
{
    proof {
        lemma_last_index_bounds(n@, '.');
    }
    match find_last(n.as_str(), '.') {
        Some(i) => substring(n.as_str(), 0, i),
        None => n.clone(),
    }
}

fn ext_exec(n: &String) -> (r: String)
    ensures
        r@ == ext_of(n@),
{
    proof {
        lemma_last_index_bounds(n@, '.');
    }
    match find_last(n.as_str(), '.') {
        Some(i) => {
            let len = n.as_str().unicode_len();
            substring(n.as_str(), i + 1, len)
        },
        None => String::new(),
    }
}

fn opt_string_eq(a: Option<&String>, b: Option<&String>) -> (r: bool)
    ensures
        r == (match a {
            Some(x) => Some(x@),
            None => None::<Seq<char>>,
        } == match b {
            Some(y) => Some(y@),
            None => None::<Seq<char>>,
        }),
{
    match (a, b) {
        (Some(x), Some(y)) => *x == *y,
        (None, None) => true,
        _ => false,
    }
}

impl Post {
    fn media_entry(&self, m: &Media) -> (r: Option<(ArchiveContent, Option<FileReference>)>)
        ensures
            match r {
                Some(p) => media_step(*self, *m) == Some((p.0@, opt_file_view(p.1))),
                None => media_step(*self, *m) == None::<Step>,
            },
    {
        let skip_audio = match &self.audio {
            Some(a) => a.id == m.id,
            None => false,
        };
        let skip_preview = match &self.audio_preview {
            Some(a) => a.id == m.id,
            None => false,
        };
        if skip_audio || skip_preview {
            return None;
        }
        let thumb: Option<&String> = match &m.image_urls {
            Some(u) => Some(&u.thumbnail),
            None => None,
        };
        let square: Option<&String> = match &self.image {
            Some(i) => Some(&i.thumb_square_url),
            None => None,
        };
        match &self.audio {
            Some(a) => {
                if opt_string_eq(thumb, square) {
                    let mut name = stem_exec(&media_file_name(a));
                    name.append(".thumb.");
                    let e = ext_exec(&media_file_name(m));
                    name.append(e.as_str());
                    let f = FileReference::from_audio_thumb(m, name);
                    return Some((ArchiveContent::File(m.id.clone()), Some(f)));
                }
            },
            None => {},
        }
        Some((ArchiveContent::File(m.id.clone()), Some(FileReference::from_media(m))))
    }

    /// The post's content: the HTML body as markdown, the audio track, then
    /// the other media; each file is listed once.
    pub fn content(&self) -> (r: Result<ResolvedContent, ResolveError>)
        ensures
            match r {
                Ok(d) => post_content_spec(*self) == Ok::<DocView, ResolveError>(d@)
                    && unique_ids(d@.files),
                Err(e) => post_content_spec(*self) == Err::<DocView, ResolveError>(e),
            },
    {
        let mut doc = ResolvedContent { blocks: Vec::new(), files: Vec::new() };
        assert(doc@ == empty_doc()) by {
            assert(doc@.blocks =~= Seq::<ContentView>::empty());
            assert(doc@.files =~= Seq::<FileRefView>::empty());
        }
        match &self.content {
            Some(h) => match html_to_markdown(h.as_str()) {
                Some(md) => push_step(
                    &mut doc,
                    ArchiveContent::Text(replace_newlines(md.as_str())),
                    None,
                ),
                None => return Err(ResolveError::Markup),
            },
            None => {},
        }
        let ghost d0 = doc@;
        match &self.audio {
            Some(a) => push_step(
                &mut doc,
                ArchiveContent::File(a.id.clone()),
                Some(FileReference::from_media(a)),
            ),
            None => {},
        }
        let ghost d1 = doc@;
        let mut i: usize = 0;
        assert(self.media@.take(0) =~= Seq::<Media>::empty());
        while i < self.media.len()
            invariant
                0 <= i <= self.media.len(),
                markdown_doc(*self) == Ok::<DocView, ResolveError>(d0),
                d1 == audio_doc(d0, *self),
                doc@ == media_steps(d1, *self, self.media@.take(i as int)),
                unique_ids(doc@.files),
            decreases self.media.len() - i,
        {
            assert(self.media@.take(i + 1).drop_last() =~= self.media@.take(i as int));
            match self.media_entry(&self.media[i]) {
                Some(p) => push_step(&mut doc, p.0, p.1),
                None => {},
            }
            i = i + 1;
        }
        assert(self.media@.take(self.media.len() as int) =~= self.media@);
        match &self.poll {
            Some(poll) => {
                if poll.choices.len() >= 0x1000_0000 {
                    return Err(ResolveError::PollTooLarge);
                }
                let table = poll_table(&poll.choices);
                push_step(&mut doc, ArchiveContent::Text(join_with_newlines(&table)), None);
            },
            None => {},
        }
        Ok(doc)
    }
}

/// The author of a comment.
pub struct CommentUser {
    pub id: String,
    pub image_url: String,
    pub full_name: String,
    pub url: String,
}

/// A reply; replies have no replies of their own.
pub struct ChildComment {
    pub body: String,
    /// When it was written, as the platform gives it (RFC 3339).
    pub created: String,
    pub commenter: CommentUser,
}

/// A top-level comment with its replies.
pub struct Comment {
    pub body: String,
    /// When it was written, as the platform gives it (RFC 3339).
    pub created: String,
    pub commenter: CommentUser,
    pub replies: Vec<ChildComment>,
}

impl ChildComment {
    pub fn to_archive(&self) -> (r: ArchiveComment)
        ensures
            r.user == self.commenter.full_name,
            r.text == self.body,
            r.replies@.len() == 0,
    {
        ArchiveComment {
            user: self.commenter.full_name.clone(),
            text: self.body.clone(),
            replies: Vec::new(),
        }
    }
}

impl Comment {
    /// The comment as archived: commenter's name, text, replies in order.
    pub fn to_archive(&self) -> (r: ArchiveComment)
        ensures
            r.user == self.commenter.full_name,
            r.text == self.body,
            r.replies@.len() == self.replies@.len(),
            forall|i: int|
                0 <= i < r.replies@.len() ==> (#[trigger] r.replies@[i]).user
                    == self.replies@[i].commenter.full_name && r.replies@[i].text
                    == self.replies@[i].body && r.replies@[i].replies@.len() == 0,
    {
        let mut replies: Vec<ArchiveComment> = Vec::new();
        let mut i: usize = 0;
        while i < self.replies.len()
            invariant
                0 <= i <= self.replies.len(),
                replies@.len() == i,
                forall|j: int|
                    0 <= j < i ==> (#[trigger] replies@[j]).user
                        == self.replies@[j].commenter.full_name && replies@[j].text
                        == self.replies@[j].body && replies@[j].replies@.len() == 0,
            decreases self.replies.len() - i,
        {
            replies.push(self.replies[i].to_archive());
            i = i + 1;
        }
        ArchiveComment {
            user: self.commenter.full_name.clone(),
            text: self.body.clone(),
            replies,
        }
    }
}

impl Clone for Campaign {
    fn clone(&self) -> (r: Self)
        ensures
            r == *self,
    {
        Campaign {
            id: self.id.clone(),
            is_active: self.is_active,
            name: self.name.clone(),
            url: self.url.clone(),
        }
    }
}

impl Clone for Member {
    fn clone(&self) -> (r: Self)
        ensures
            r == *self,
    {
        Member {
            id: self.id.clone(),
            campaign_currency: self.campaign_currency.clone(),
            campaign_pledge_amount_cents: self.campaign_pledge_amount_cents,
            campaign: self.campaign.clone(),
        }
    }
}

/// The memberships that the configuration accepts, in order.
pub open spec fn accepted_members(c: Config, ms: Seq<Member>) -> Seq<Member>
    decreases ms.len(),
{
    if ms.len() == 0 {
        Seq::empty()
    } else {
        let r = accepted_members(c, ms.drop_last());
        if member_ok(c, ms.last()) {
            r.push(ms.last())
        } else {
            r
        }
    }
}

pub fn filter_members(config: &Config, members: &Vec<Member>) -> (r: Vec<Member>)
    ensures
        r@ == accepted_members(*config, members@),
{
    let mut r: Vec<Member> = Vec::new();
    let mut i: usize = 0;
    while i < members.len()
        invariant
            0 <= i <= members.len(),
            r@ == accepted_members(*config, members@.take(i as int)),
        decreases members.len() - i,
    {
        assert(members@.take(i + 1).drop_last() =~= members@.take(i as int));
        if config.filter_member(&members[i]) {
            r.push(members[i].clone());
        }
        i = i + 1;
    }
    assert(members@.take(members.len() as int) =~= members@);
    r
}

/// The post thumbnail: the image URL's file, recorded at 1200x630.
pub open spec fn thumb_ref(url: Seq<char>) -> FileRefView {
    FileRefView {
        id: url_name(url),
        filename: url_name(url),
        mime: mime_of(url_name(url)),
        url,
        extra: seq![("width"@, 1200u64), ("height"@, 630u64)],
    }
}

pub open spec fn post_thumb(p: Post) -> Option<FileRefView> {
    match p.image {
        Some(i) => Some(thumb_ref(i.url@)),
        None => None,
    }
}

/// The post's resolved content with its thumbnail added to the file table.
pub open spec fn record_doc(p: Post, d: DocView) -> DocView {
    match post_thumb(p) {
        Some(t) => DocView { blocks: d.blocks, files: with_file(d.files, t) },
        None => d,
    }
}

pub open spec fn post_tags(p: Post) -> Seq<Seq<char>> {
    if is_free_spec(p) {
        seq!["free"@]
    } else {
        Seq::empty()
    }
}

/// Everything that is persisted for one post.
pub struct PostRecord {
    pub source: String,
    pub title: String,
    pub published: i64,
    pub updated: i64,
    pub tags: Vec<String>,
    pub thumb: Option<FileReference>,
    pub content: ResolvedContent,
    pub comments: Vec<ArchiveComment>,
}

/// Why a post could not be made ready for persisting.
pub enum ConvertError {
    Resolve(ResolveError),
    /// The publication time is not RFC 3339.
    BadDate(String),
}

fn thumb_reference(url: &String) -> (r: FileReference)
    ensures
        r@ == thumb_ref(url@),
{
    let mut t = FileReference::from_url(url);
    t.extra = vec![(lit("width"), 1200u64), (lit("height"), 630u64)];
    assert(extra_view(t.extra@) =~= seq![("width"@, 1200u64), ("height"@, 630u64)]);
    t
}

/// The record of a post: its URL as source link, title, publication time
/// (also used as its update time), a `free` tag for free posts, the
/// thumbnail, the resolved content and the comments.
pub open spec fn record_ok(post: Post, comments: Seq<Comment>, rec: PostRecord) -> bool {
    &&& post_content_spec(post) is Ok
    &&& rfc3339_micros(post.published_at@) is Some
    &&& rec.content@ == record_doc(post, post_content_spec(post)->Ok_0)
    &&& unique_ids(rec.content@.files)
    &&& rec.source == post.url
    &&& rec.title == post.title
    &&& rec.published == rfc3339_micros(post.published_at@)->0
    &&& rec.updated == rec.published
    &&& rec.tags@.map_values(|t: String| t@) == post_tags(post)
    &&& opt_file_view(rec.thumb) == post_thumb(post)
    &&& rec.comments@.len() == comments.len()
    &&& forall|i: int|
        0 <= i < comments.len() ==> (#[trigger] rec.comments@[i]).user
            == comments[i].commenter.full_name && rec.comments@[i].text == comments[i].body
}

pub open spec fn conversion_error(post: Post) -> ConvertError {
    match post_content_spec(post) {
        Err(e) => ConvertError::Resolve(e),
        Ok(_) => ConvertError::BadDate(post.published_at),
    }
}

/// Makes a post ready for persisting; fails when its content cannot be
/// resolved or its publication time cannot be read.
pub fn conversion_post(post: &Post, comments: &Vec<Comment>) -> (r: Result<PostRecord, ConvertError>)
    ensures
        match r {
            Ok(rec) => record_ok(*post, comments@, rec),
            Err(e) => e == conversion_error(*post) && !(post_content_spec(*post) is Ok
                && rfc3339_micros(post.published_at@) is Some),
        },
{
    let mut content = match post.content() {
        Ok(d) => d,
        Err(e) => return Err(ConvertError::Resolve(e)),
    };
    let published = match parse_rfc3339(post.published_at.as_str()) {
        Some(t) => t,
        None => return Err(ConvertError::BadDate(post.published_at.clone())),
    };
    let thumb = match &post.image {
        Some(img) => {
            add_file(&mut content.files, thumb_reference(&img.url));
            Some(thumb_reference(&img.url))
        },
        None => None,
    };
    let mut tags: Vec<String> = Vec::new();
    if post.is_free() {
        tags.push(lit("free"));
    }
    assert(tags@.map_values(|t: String| t@) =~= post_tags(*post));
    let mut cs: Vec<ArchiveComment> = Vec::new();
    let mut i: usize = 0;
    while i < comments.len()
        invariant
            0 <= i <= comments.len(),
            cs@.len() == i,
            forall|j: int|
                0 <= j < i ==> (#[trigger] cs@[j]).user == comments@[j].commenter.full_name
                    && cs@[j].text == comments@[j].body,
        decreases comments.len() - i,
    {
        cs.push(comments[i].to_archive());
        i = i + 1;
    }
    Ok(
        PostRecord {
            source: post.url.clone(),
            title: post.title.clone(),
            published,
            updated: published,
            tags,
            thumb,
            content,
            comments: cs,
        },
    )
}

/// The records of a creator's batch: one per post, in order, or the error of
/// the first post that cannot be converted and no record at all.
pub open spec fn batch_ok(posts: Seq<(Post, Vec<Comment>)>, recs: Seq<PostRecord>) -> bool {
    recs.len() == posts.len() && forall|i: int|
        0 <= i < posts.len() ==> record_ok(posts[i].0, posts[i].1@, #[trigger] recs[i])
}

pub open spec fn convertible(p: Post) -> bool {
    post_content_spec(p) is Ok && rfc3339_micros(p.published_at@) is Some
}

/// Prepares a creator's whole batch before anything is written, so the batch
/// is persisted completely or not at all.
pub fn prepare_batch(posts: &Vec<(Post, Vec<Comment>)>) -> (r: Result<
    Vec<PostRecord>,
    ConvertError,
>)
    ensures
        match r {
            Ok(recs) => batch_ok(posts@, recs@),
            Err(e) => exists|i: int|
                0 <= i < posts@.len() && !convertible((#[trigger] posts@[i]).0) && e
                    == conversion_error(posts@[i].0) && forall|j: int|
                    0 <= j < i ==> convertible((#[trigger] posts@[j]).0),
        },
{
    let mut recs: Vec<PostRecord> = Vec::new();
    let mut i: usize = 0;
    while i < posts.len()
        invariant
            0 <= i <= posts.len(),
            recs@.len() == i,
            forall|j: int|
                0 <= j < i ==> record_ok(posts@[j].0, posts@[j].1@, #[trigger] recs@[j]),
            forall|j: int| 0 <= j < i ==> convertible((#[trigger] posts@[j]).0),
        decreases posts.len() - i,
    {
        match conversion_post(&posts[i].0, &posts[i].1) {
            Ok(rec) => recs.push(rec),
            Err(e) => {
                assert(!convertible(posts@[i as int].0));
                return Err(e);
            },
        }
        i = i + 1;
    }
    Ok(recs)
}

/// Transaction atomicity of a creator's batch: when any post of the batch
/// cannot be made ready, nothing of the batch is handed to the store; else
/// every post is, each exactly once and in order.
pub proof fn lemma_batch_all_or_nothing(posts: Seq<(Post, Vec<Comment>)>, recs: Seq<PostRecord>, k: int)
    requires
        batch_ok(posts, recs),
        0 <= k < posts.len(),
    ensures
        convertible(posts[k].0),
        recs.len() == posts.len(),
        recs[k].source == posts[k].0.url,
{
    assert(record_ok(posts[k].0, posts[k].1@, recs[k]));
}

} // verus!
