use creator_archiver::api::{FailureKind, FanboxAPIResponseError, Pages};
use creator_archiver::archive::{
    ArchiveAuthor, ArchiveAuthorsItem, ArchiveAuthorsList, ArchiveByType, ArchiveContent,
    ArchiveFile,
};
use creator_archiver::config::{CacheCleanup, Config, SaveType};
use creator_archiver::content::FileReference;
use creator_archiver::creator::{get_author_list, visible_posts, Creator, FanboxUser};
use creator_archiver::diff::PostSummary;
use creator_archiver::fanbox::{
    Comment as FanboxComment, CommentReply, PostBlock, PostBody, PostFile, PostImage, PostVideo,
};
use creator_archiver::patreon::{
    conversion_post, filter_members, prepare_batch, Campaign, ChildComment, Comment,
    CommentUser, ContentUnlockOption, ConvertError, Image, Media, MediaImageUrls, MediaMetadata,
    MediaMetadataDimensions, Member, Post, Reward,
};
use creator_archiver::patreon::{poll_table, Poll, PollChoice};
use creator_archiver::resolve::{resolve, FanboxPost};
use creator_archiver::utils::{cyrb53, to_decimal, to_hex};

fn config() -> Config {
    Config {
        session: "abc".to_string(),
        output: "./archive".to_string(),
        save: SaveType::Supporting,
        cache: None,
        no_cache: false,
        whitelist: vec![],
        blacklist: vec![],
        limit: 5,
        force: false,
        overwrite: false,
        skip_free: false,
    }
}

#[test]
fn save_type_choices() {
    assert!(SaveType::All.accept_following() && SaveType::All.accept_supporting());
    assert!(!SaveType::Following.accept_supporting());
    assert!(SaveType::Supporting.accept_supporting() && !SaveType::Supporting.accept_all());
    assert_eq!(SaveType::All.list(), vec!["following", "supporting"]);
    assert_eq!(SaveType::Following.list(), vec!["following"]);
    assert_eq!(SaveType::default().as_str(), "supporting");
}

#[test]
fn session_cookie_prefix() {
    let mut c = config();
    assert_eq!(c.session(), "session_id=abc");
    c.session = "session_id=xyz".to_string();
    assert_eq!(c.session(), "session_id=xyz");
    assert_eq!(config().fanbox_session(), "FANBOXSESSID=abc");
}

#[test]
fn cache_directory() {
    let mut c = config();
    assert_eq!(c.cache(), Some(".".to_string()));
    c.cache = Some("/tmp/c".to_string());
    assert_eq!(c.cache(), Some("/tmp/c".to_string()));
    c.no_cache = true;
    assert_eq!(c.cache(), None);
    let mut cleanup = CacheCleanup::new();
    cleanup.push("a.json".to_string(), vec![1, 2]);
    assert_eq!(cleanup.entries.len(), 1);
}

fn member(url: &str, cents: Option<u32>) -> Member {
    Member {
        id: "m".to_string(),
        campaign_currency: "USD".to_string(),
        campaign_pledge_amount_cents: cents,
        campaign: Campaign {
            id: "c".to_string(),
            is_active: true,
            name: "Name".to_string(),
            url: url.to_string(),
        },
    }
}

#[test]
fn member_filters() {
    let mut c = config();
    let ms = vec![
        member("https://www.patreon.com/alice", Some(500)),
        member("https://www.patreon.com/bob", None),
    ];
    assert_eq!(ms[1].cents(), 0);
    assert_eq!(filter_members(&c, &ms).len(), 2);
    c.skip_free = true;
    assert_eq!(filter_members(&c, &ms).len(), 1);
    c.skip_free = false;
    c.whitelist = vec!["bob".to_string()];
    let kept = filter_members(&c, &ms);
    assert_eq!(kept.len(), 1);
    assert_eq!(kept[0].campaign.url, "https://www.patreon.com/bob");
    c.whitelist = vec![];
    c.blacklist = vec!["alice".to_string()];
    assert_eq!(filter_members(&c, &ms).len(), 1);
    assert!(!c.filter_creator(&"alice".to_string()));
    assert!(c.filter_creator(&"carol".to_string()));
}

fn media(id: &str, name: Option<&str>, url: &str) -> Media {
    Media {
        id: id.to_string(),
        file_name: name.map(|s| s.to_string()),
        download_url: url.to_string(),
        image_urls: None,
        metadata: MediaMetadata { dimensions: None, duration_s: None },
    }
}

fn post() -> Post {
    Post {
        id: "1".to_string(),
        comment_count: 0,
        current_user_can_view: true,
        image: None,
        embed: None,
        content: None,
        post_metadata: None,
        post_type: "text_only".to_string(),
        published_at: "2024-01-02T03:04:05Z".to_string(),
        title: "Hello".to_string(),
        url: "https://www.patreon.com/posts/hello-1".to_string(),
        audio: None,
        audio_preview: None,
        media: vec![],
        poll: None,
        content_unlock_options: vec![],
        user_defined_tags: vec![],
    }
}

#[test]
fn free_posts() {
    let mut p = post();
    assert!(p.is_free());
    p.content_unlock_options = vec![ContentUnlockOption {
        id: "o".to_string(),
        reward: Reward { id: "r".to_string(), patron_amount_cents: 300 },
    }];
    assert!(!p.is_free());
    p.content_unlock_options.push(ContentUnlockOption {
        id: "o2".to_string(),
        reward: Reward { id: "r2".to_string(), patron_amount_cents: 0 },
    });
    assert!(p.is_free());
    let mut c = config();
    c.skip_free = true;
    assert!(!c.filter_post(&p));
}

#[test]
fn file_names_from_urls() {
    let f = FileReference::from_url(&"https://cdn.example.com/a/b/pic.png?token=1".to_string());
    assert_eq!(f.filename, "pic.png");
    assert_eq!(f.id, "pic.png");
    assert_eq!(f.mime, "image/png");
    let mut m = media("9", None, "https://cdn.example.com/x/song.mp3");
    m.metadata.duration_s = Some(61);
    m.metadata.dimensions = Some(MediaMetadataDimensions { w: 3, h: 4 });
    let r = FileReference::from_media(&m);
    assert_eq!(r.filename, "song.mp3");
    assert_eq!(r.mime, "audio/mpeg");
    assert_eq!(
        r.extra,
        vec![("width".to_string(), 3), ("height".to_string(), 4), ("duration_s".to_string(), 61)]
    );
}

#[test]
fn patreon_content_with_audio_cover() {
    let mut p = post();
    p.content = Some("<p>Hi <b>there</b></p><p>second</p>".to_string());
    p.image = Some(Image {
        large_url: String::new(),
        thumb_square_large_url: String::new(),
        thumb_square_url: "https://t/sq.jpg".to_string(),
        thumb_url: String::new(),
        url: "https://cdn.example.com/cover.jpg?x=1".to_string(),
        width: None,
        height: None,
    });
    let audio = media("a1", Some("track.mp3"), "https://cdn/track.mp3");
    let mut cover = media("c1", Some("cover.jpg"), "https://cdn/cover.jpg");
    cover.image_urls = Some(MediaImageUrls {
        default: String::new(),
        default_blurred: String::new(),
        default_blurred_small: String::new(),
        default_large: String::new(),
        default_small: String::new(),
        original: String::new(),
        thumbnail: "https://t/sq.jpg".to_string(),
        thumbnail_large: String::new(),
        thumbnail_small: String::new(),
        url: String::new(),
    });
    p.audio = Some(audio.clone_for_test());
    p.media = vec![audio, cover, media("m2", Some("other.png"), "https://cdn/other.png")];
    let doc = p.content().ok().unwrap();
    match &doc.blocks[0] {
        ArchiveContent::Text(t) => {
            assert!(t.contains("there"));
            assert!(!t.contains("<p>"));
            assert!(!t.contains('\n'));
        }
        _ => panic!("expected text first"),
    }
    assert_eq!(doc.blocks.len(), 4);
    let names: Vec<String> = doc.files.iter().map(|f| f.filename.clone()).collect();
    assert_eq!(names, vec!["track.mp3", "track.thumb.jpg", "other.png"]);
}

trait CloneForTest {
    fn clone_for_test(&self) -> Self;
}

impl CloneForTest for Media {
    fn clone_for_test(&self) -> Self {
        Media {
            id: self.id.clone(),
            file_name: self.file_name.clone(),
            download_url: self.download_url.clone(),
            image_urls: None,
            metadata: MediaMetadata { dimensions: None, duration_s: None },
        }
    }
}

fn comment() -> Comment {
    let user = |n: &str| CommentUser {
        id: "u".to_string(),
        image_url: String::new(),
        full_name: n.to_string(),
        url: String::new(),
    };
    Comment {
        body: "nice".to_string(),
        created: "2024-01-01T00:00:00Z".to_string(),
        commenter: user("Ann"),
        replies: vec![ChildComment { body: "thanks".to_string(), created: String::new(), commenter: user("Bo") }],
    }
}

#[test]
fn post_record_for_persisting() {
    let mut p = post();
    p.image = Some(Image {
        large_url: String::new(),
        thumb_square_large_url: String::new(),
        thumb_square_url: String::new(),
        thumb_url: String::new(),
        url: "https://cdn.example.com/cover.jpg?x=1".to_string(),
        width: None,
        height: None,
    });
    let rec = conversion_post(&p, &vec![comment()]).ok().unwrap();
    assert_eq!(rec.published, 1704164645000000);
    assert_eq!(rec.updated, rec.published);
    assert_eq!(rec.tags, vec!["free".to_string()]);
    assert_eq!(rec.source, p.url);
    let thumb = rec.thumb.unwrap();
    assert_eq!(thumb.filename, "cover.jpg");
    assert_eq!(thumb.extra, vec![("width".to_string(), 1200), ("height".to_string(), 630)]);
    assert_eq!(rec.content.files.len(), 1);
    assert_eq!(rec.comments[0].user, "Ann");
    assert_eq!(rec.comments[0].replies[0].text, "thanks");
}

#[test]
fn batch_is_all_or_nothing() {
    let good = post();
    let mut bad = post();
    bad.published_at = "yesterday".to_string();
    let ok = prepare_batch(&vec![(post(), vec![]), (post(), vec![comment()])]);
    assert_eq!(ok.ok().unwrap().len(), 2);
    match prepare_batch(&vec![(good, vec![]), (bad, vec![]), (post(), vec![])]) {
        Err(ConvertError::BadDate(s)) => assert_eq!(s, "yesterday"),
        _ => panic!("expected the whole batch to fail"),
    }
}

fn creator(id: &str, fee: u32) -> Creator {
    Creator {
        creator_id: id.to_string(),
        user: FanboxUser { icon_url: None, name: id.to_uppercase(), user_id: "1".to_string() },
        fee,
    }
}

#[test]
fn supporting_fee_wins_over_following() {
    let listings = vec![
        (false, vec![creator("a", 0), creator("b", 0)]),
        (true, vec![creator("b", 500)]),
        (false, vec![creator("b", 0), creator("c", 0)]),
    ];
    let merged = get_author_list(&config(), &listings);
    let ids: Vec<(String, u32)> = merged.iter().map(|c| (c.creator_id.clone(), c.fee)).collect();
    assert_eq!(
        ids,
        vec![("a".to_string(), 0), ("b".to_string(), 500), ("c".to_string(), 0)]
    );
}

#[test]
fn fee_tier_visibility() {
    let s = |id: &str, fee: u32| PostSummary {
        id: id.to_string(),
        creator_id: "a".to_string(),
        title: String::new(),
        fee_required: fee,
        published_at: 0,
        updated_at: 0,
        is_restricted: false,
    };
    let items = vec![s("1", 0), s("2", 500), s("3", 1000)];
    assert_eq!(visible_posts(&items, &creator("a", 500), false).len(), 2);
    assert_eq!(visible_posts(&items, &creator("a", 500), true).len(), 1);
}

fn item(id: &str, name: &str) -> ArchiveAuthorsItem {
    ArchiveAuthorsItem { id: id.to_string(), name: name.to_string(), ty: ArchiveByType::Fanbox, thumb: None }
}

fn author(id: &str, posts: &[&str]) -> ArchiveAuthor {
    ArchiveAuthor {
        id: id.to_string(),
        name: id.to_string(),
        posts: posts.iter().map(|p| p.to_string()).collect(),
        ty: ArchiveByType::Fanbox,
        thumb: None,
    }
}

#[test]
fn author_index_sorted_and_merged() {
    let mut list = ArchiveAuthorsList::from_vector(vec![author("c", &[]), author("a", &[])]);
    let ids: Vec<String> = list.0.iter().map(|i| i.id.clone()).collect();
    assert_eq!(ids, vec!["a", "c"]);
    list.extend(ArchiveAuthorsList(vec![item("b", "B"), item("a", "A2")]));
    let got: Vec<(String, String)> = list.0.iter().map(|i| (i.id.clone(), i.name.clone())).collect();
    assert_eq!(
        got,
        vec![
            ("a".to_string(), "A2".to_string()),
            ("b".to_string(), "B".to_string()),
            ("c".to_string(), "c".to_string())
        ]
    );
}

#[test]
fn author_posts_union_descending() {
    let mut a = author("x", &["1", "3"]);
    let mut newer = author("x", &["2", "3"]);
    newer.name = "renamed".to_string();
    a.extend(newer);
    assert_eq!(a.posts, vec!["3", "2", "1"]);
    assert_eq!(a.name, "renamed");
    let mut keep = item("k", "K");
    keep.thumb = Some(ArchiveFile::File { filename: "f".to_string(), path: "p".to_string() });
    keep.extend(item("k", "K2"));
    assert!(keep.thumb.is_some());
}

#[test]
fn archive_file_accessors() {
    let f = ArchiveFile::Image { width: 1, height: 2, filename: "a.png".to_string(), path: "x/a.png".to_string() };
    assert!(f.is_image());
    assert_eq!(f.filename(), "a.png");
    assert!(!ArchiveFile::Video { filename: "v".to_string(), path: "p".to_string() }.is_image());
}

#[test]
fn cyrb53_known_values() {
    assert_eq!(cyrb53(""), "468c7190d7d009e1");
    assert_eq!(cyrb53("a"), "47f70837788f55df");
    assert_eq!(cyrb53("hello"), "8031966e45ce3443");
    assert_eq!(to_hex(255), "ff");
    assert_eq!(to_decimal(1204), "1204");
}

fn fanbox_post(id: &str, updated: i64, blocks: Vec<PostBlock>, files: Vec<PostFile>) -> FanboxPost {
    FanboxPost {
        id: id.to_string(),
        title: format!("t{}", id),
        creator_id: "alice".to_string(),
        fee_required: 0,
        published: 0,
        updated,
        tags: vec![],
        body: PostBody {
            text: None,
            blocks: Some(blocks),
            images: None,
            videos: Some(vec![PostVideo { service_provider: "niconico".to_string(), video_id: "v".to_string() }]),
            files: Some(files),
            image_map: None,
            file_map: None,
            embed_map: None,
            url_embed_map: None,
        },
        comments: vec![FanboxComment {
            id: "c".to_string(),
            body: "first!".to_string(),
            created: 0,
            like_count: 0,
            user: FanboxUser { icon_url: None, name: "Eve".to_string(), user_id: "2".to_string() },
            replies: Some(vec![CommentReply {
                id: "r".to_string(),
                body: "thanks".to_string(),
                created: 1,
                user: FanboxUser { icon_url: None, name: "Ann".to_string(), user_id: "3".to_string() },
            }]),
        }],
    }
}

#[test]
fn resolve_skips_failing_posts_only() {
    let f = PostFile {
        id: "f".to_string(),
        name: "clip".to_string(),
        extension: "mp4".to_string(),
        size: 1,
        url: "https://x/clip.mp4".to_string(),
    };
    let mut good = fanbox_post("1", 10, vec![PostBlock::P { text: "hi".to_string(), styles: None }], vec![f]);
    good.body.videos = None;
    let mut newer = fanbox_post("2", 20, vec![], vec![]);
    newer.body.videos = None;
    let bad = fanbox_post("3", 5, vec![PostBlock::Video { video_id: "v".to_string() }], vec![]);
    let r = resolve(&vec![creator("alice", 0)], &vec![good, bad, newer], vec![None]);
    assert_eq!(r.posts.len(), 2);
    assert_eq!(r.failed.len(), 1);
    assert_eq!(r.failed[0].0, "3");
    assert_eq!(r.downloads.len(), 1);
    assert_eq!(r.downloads[0].path, "alice/1/clip.mp4");
    assert!(matches!(&r.posts[0].files[0], ArchiveFile::Video { path, .. } if path == "alice/1/clip.mp4"));
    assert_eq!(r.authors[0].posts, vec!["2", "1"]);
    assert_eq!(r.posts[0].comments[0].user, "Eve");
    assert_eq!(r.posts[0].comments[0].replies[0].text, "thanks");
}

#[test]
fn pages_and_errors() {
    let mut pages: Pages<u32> = Pages::new("p1".to_string());
    assert_eq!(pages.next_url(), Some(&"p1".to_string()));
    pages.accept(vec![1, 2], Some("p2".to_string()));
    pages.accept(vec![3], None);
    assert!(pages.next_url().is_none());
    assert_eq!(pages.finish(), vec![1, 2, 3]);
    let e = FanboxAPIResponseError { error: "general_error".to_string() };
    assert!(e.kind() == FailureKind::Session);
    let e = FanboxAPIResponseError { error: "not_found".to_string() };
    assert!(e.kind() == FailureKind::Item);
}

#[test]
fn member_table_lines() {
    let mut zed = member("https://www.patreon.com/zed", Some(1999));
    zed.campaign.id = "c1".to_string();
    zed.campaign.name = "Zed".to_string();
    let mut amy = member("https://www.patreon.com/amy", None);
    amy.campaign.id = "longcampaignid".to_string();
    amy.campaign.name = "Amy".to_string();
    amy.campaign_currency = "JPY".to_string();
    let lines = creator_archiver::members::display_members(&vec![zed, amy]);
    assert_eq!(
        lines,
        vec![
            "+- CreatorId ----+- Amount ---+- Name ------- - -",
            "| longcampaignid |   0.00 JPY | Amy",
            "| c1             |  19.99 USD | Zed",
            "+----------------+------------+-------------- - -",
        ]
    );
}

#[test]
fn poll_becomes_a_table() {
    let choice = |t: &str, n: u32, pos: u32| PollChoice {
        position: pos,
        num_responses: n,
        text_content: t.to_string(),
    };
    let choices = vec![choice("Yes", 3, 0), choice("No", 1, 1)];
    assert_eq!(
        poll_table(&choices),
        vec![
            "| Name | Percentage | Votes               |",
            "|------|------------|---------------------|",
            "| Yes  | #######    | 3 (75%)             |",
            "|  No  | ##         | 1 (25%)             |",
        ]
    );
    let mut p = post();
    p.poll = Some(Poll { choices });
    let doc = p.content().ok().unwrap();
    match doc.blocks.last().unwrap() {
        ArchiveContent::Text(t) => assert!(t.starts_with("| Name |") && t.contains("\n|  No  |")),
        _ => panic!("expected the poll table"),
    }
    let empty = poll_table(&vec![choice("A", 0, 0)]);
    assert_eq!(empty[2], "|  A   |            | 0 (0%)       |");
}

#[test]
fn index_keeps_every_author_sorted() {
    let list = ArchiveAuthorsList::from_vector(vec![author("b", &[]), author("a", &["1"]), author("b", &["2"])]);
    let got: Vec<(String, usize)> = list.0.iter().map(|i| (i.id.clone(), 0)).collect();
    assert_eq!(got.len(), 3);
    let ids: Vec<String> = list.0.iter().map(|i| i.id.clone()).collect();
    assert_eq!(ids, vec!["a", "b", "b"]);
}

#[test]
fn extend_sorts_an_unsorted_index() {
    let mut list = ArchiveAuthorsList(vec![item("b", "B"), item("a", "A")]);
    list.extend(ArchiveAuthorsList(vec![]));
    let ids: Vec<String> = list.0.iter().map(|i| i.id.clone()).collect();
    assert_eq!(ids, vec!["a", "b"]);
    let mut stored = ArchiveAuthorsList(vec![item("c", "C"), item("a", "A")]);
    stored.0[1].thumb = Some(ArchiveFile::File { filename: "t".to_string(), path: "a/t".to_string() });
    stored.extend(ArchiveAuthorsList(vec![item("a", "A2"), item("b", "B")]));
    let got: Vec<(String, String, bool)> =
        stored.0.iter().map(|i| (i.id.clone(), i.name.clone(), i.thumb.is_some())).collect();
    assert_eq!(
        got,
        vec![
            ("a".to_string(), "A2".to_string(), true),
            ("b".to_string(), "B".to_string(), false),
            ("c".to_string(), "C".to_string(), false)
        ]
    );
}

#[test]
fn resolve_stores_every_listed_file() {
    let img = |id: &str| PostImage {
        id: id.to_string(),
        extension: "png".to_string(),
        width: 8,
        height: 6,
        original_url: format!("https://x/{}.png", id),
        thumbnail_url: String::new(),
    };
    let mut p = fanbox_post("9", 1, vec![PostBlock::Image { image_id: "k2".to_string() }], vec![]);
    p.body.videos = None;
    p.body.images = Some(vec![img("flat")]);
    p.body.image_map = Some(vec![("k1".to_string(), img("side")), ("k2".to_string(), img("used"))]);
    let r = resolve(&vec![creator("alice", 0)], &vec![p], vec![]);
    assert_eq!(r.failed.len(), 0);
    let paths: Vec<String> = r.downloads.iter().map(|d| d.path.clone()).collect();
    assert_eq!(paths, vec!["alice/9/used.png", "alice/9/flat.png", "alice/9/side.png"]);
    assert_eq!(r.posts[0].files.len(), 3);
    match &r.posts[0].thumb {
        Some(ArchiveFile::Image { width, path, .. }) => {
            assert_eq!(*width, 8);
            assert_eq!(path, "alice/9/flat.png");
        }
        _ => panic!("expected the first listed image as thumbnail"),
    }
}

#[test]
fn side_tables_well_formed_and_times() {
    let mut p = fanbox_post("1", 1, vec![], vec![]);
    assert!(p.body.is_well_formed());
    let f = PostFile { id: "f".to_string(), name: "n".to_string(), extension: "zip".to_string(), size: 1, url: String::new() };
    p.body.file_map = Some(vec![("b".to_string(), f.clone_for_test()), ("a".to_string(), f)]);
    assert!(!p.body.is_well_formed());
    assert_eq!(post().published_time(), Some(1704164645000000));
    let mut bad = post();
    bad.published_at = "soon".to_string();
    assert_eq!(bad.published_time(), None);
}

impl CloneForTest for PostFile {
    fn clone_for_test(&self) -> Self {
        PostFile {
            id: self.id.clone(),
            name: self.name.clone(),
            extension: self.extension.clone(),
            size: self.size,
            url: self.url.clone(),
        }
    }
}
