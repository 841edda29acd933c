use creator_archiver::archive::ArchiveContent;
use creator_archiver::fanbox::{
    map_provider, set_style, PostBlock, PostBlockStyle, PostBody, PostEmbed, PostFile, PostImage,
    PostVideo, ResolveError,
};
use creator_archiver::text::apply_bold;

fn bold(offset: u32, length: u32) -> PostBlockStyle {
    PostBlockStyle { ty: "bold".to_string(), offset, length }
}

fn empty_body() -> PostBody {
    PostBody {
        text: None,
        blocks: None,
        images: None,
        videos: None,
        files: None,
        image_map: None,
        file_map: None,
        embed_map: None,
        url_embed_map: None,
    }
}

fn file(id: &str, name: &str) -> PostFile {
    PostFile {
        id: id.to_string(),
        name: name.to_string(),
        extension: "zip".to_string(),
        size: 10,
        url: format!("https://example.com/{}.zip", name),
    }
}

fn text_of(c: &ArchiveContent) -> String {
    match c {
        ArchiveContent::Text(t) => t.clone(),
        _ => panic!("not a text block"),
    }
}

#[test]
fn bold_hello_world() {
    let r = set_style(&"hello world".to_string(), &Some(vec![bold(0, 5)]));
    assert_eq!(r.ok().unwrap(), "**hello** world");
    assert_eq!(apply_bold(&"hello world".to_string(), 0, 5), "**hello** world");
}

#[test]
fn overlapping_styles_apply_highest_offset_first() {
    let t = "abcdef".to_string();
    let a = set_style(&t, &Some(vec![bold(0, 3), bold(2, 3)])).ok().unwrap();
    let b = set_style(&t, &Some(vec![bold(2, 3), bold(0, 3)])).ok().unwrap();
    assert_eq!(a, "**ab****cde**f");
    assert_eq!(a, b);
}

#[test]
fn style_past_the_end_is_clipped() {
    assert_eq!(apply_bold(&"abc".to_string(), 2, 10), "ab**c**");
    assert_eq!(apply_bold(&"abc".to_string(), 7, 1), "abc****");
}

#[test]
fn unknown_style_is_an_error() {
    let styles = vec![PostBlockStyle { ty: "italic".to_string(), offset: 0, length: 1 }];
    match set_style(&"x".to_string(), &Some(styles)) {
        Err(ResolveError::UnknownStyle(s)) => assert_eq!(s, "italic"),
        _ => panic!("expected an unknown style"),
    }
}

#[test]
fn missing_image_becomes_placeholder() {
    let mut body = empty_body();
    body.blocks = Some(vec![
        PostBlock::P { text: "before".to_string(), styles: None },
        PostBlock::Image { image_id: "img9".to_string() },
        PostBlock::File { file_id: "f9".to_string() },
        PostBlock::P { text: "after".to_string(), styles: None },
    ]);
    let doc = body.text().ok().unwrap();
    assert_eq!(doc.blocks.len(), 4);
    assert_eq!(text_of(&doc.blocks[1]), "[Image Mismatch: img9]");
    assert_eq!(text_of(&doc.blocks[2]), "[File Mismatch: f9]");
    assert_eq!(text_of(&doc.blocks[3]), "after");
    assert!(doc.files.is_empty());
}

#[test]
fn shared_file_is_listed_once() {
    let mut body = empty_body();
    body.file_map = Some(vec![("f1".to_string(), file("f1", "track"))]);
    body.blocks = Some(vec![
        PostBlock::File { file_id: "f1".to_string() },
        PostBlock::P { text: "caption".to_string(), styles: None },
        PostBlock::File { file_id: "f1".to_string() },
    ]);
    let doc = body.text().ok().unwrap();
    assert_eq!(doc.files.len(), 1);
    assert_eq!(doc.files[0].id, "f1");
    assert_eq!(doc.files[0].filename, "track.zip");
    assert_eq!(doc.files[0].mime, "application/zip");
    match (&doc.blocks[0], &doc.blocks[2]) {
        (ArchiveContent::File(a), ArchiveContent::File(b)) => {
            assert_eq!(a, "f1");
            assert_eq!(b, "f1");
        }
        _ => panic!("expected two file blocks"),
    }
}

#[test]
fn image_block_resolves_with_dimensions() {
    let mut body = empty_body();
    let img = PostImage {
        id: "i1".to_string(),
        extension: "png".to_string(),
        width: 640,
        height: 480,
        original_url: "https://example.com/i1.png".to_string(),
        thumbnail_url: "https://example.com/t.png".to_string(),
    };
    body.image_map = Some(vec![("i1".to_string(), img)]);
    body.blocks = Some(vec![PostBlock::Image { image_id: "i1".to_string() }]);
    let doc = body.text().ok().unwrap();
    assert_eq!(doc.files.len(), 1);
    assert_eq!(doc.files[0].filename, "i1.png");
    assert_eq!(doc.files[0].mime, "image/png");
    assert_eq!(doc.files[0].extra, vec![("width".to_string(), 640), ("height".to_string(), 480)]);
}

#[test]
fn header_and_empty_paragraph() {
    let mut body = empty_body();
    body.text = Some("intro".to_string());
    body.blocks = Some(vec![
        PostBlock::Header { text: "Title".to_string(), styles: None },
        PostBlock::P { text: String::new(), styles: None },
        PostBlock::UrlEmbed { url_embed_id: "u1".to_string() },
    ]);
    let doc = body.text().ok().unwrap();
    assert_eq!(text_of(&doc.blocks[0]), "intro");
    assert_eq!(text_of(&doc.blocks[1]), "# Title");
    assert_eq!(text_of(&doc.blocks[2]), "  ");
    assert_eq!(text_of(&doc.blocks[3]), "> u1");
}

#[test]
fn youtube_embed_uses_template() {
    let mut body = empty_body();
    body.embed_map = Some(vec![(
        "e1".to_string(),
        PostEmbed {
            id: "e1".to_string(),
            service_provider: "youtube".to_string(),
            content_id: "abc".to_string(),
        },
    )]);
    body.blocks = Some(vec![
        PostBlock::Embed { embed_id: "e1".to_string() },
        PostBlock::Embed { embed_id: "e2".to_string() },
    ]);
    let doc = body.text().ok().unwrap();
    assert_eq!(
        text_of(&doc.blocks[0]),
        "[![youtube](https://img.youtube.com/vi/abc/0.jpg)](https://www.youtube.com/watch?v=abc)"
    );
    assert_eq!(text_of(&doc.blocks[1]), "[Embed Mismatch: e2]");
}

#[test]
fn unknown_provider_fails_the_document() {
    let mut body = empty_body();
    body.videos = Some(vec![PostVideo {
        service_provider: "vimeo".to_string(),
        video_id: "v1".to_string(),
    }]);
    body.blocks = Some(vec![PostBlock::Video { video_id: "v1".to_string() }]);
    match body.text() {
        Err(ResolveError::UnknownProvider(p)) => assert_eq!(p, "vimeo"),
        _ => panic!("expected an unknown provider"),
    }
    assert!(map_provider(&"vimeo".to_string(), &"x".to_string()).is_err());
}

#[test]
fn flat_lists_follow_the_blocks() {
    let mut body = empty_body();
    body.files = Some(vec![file("f1", "a"), file("f1", "a"), file("f2", "b")]);
    body.videos = Some(vec![PostVideo {
        service_provider: "youtube".to_string(),
        video_id: "zz".to_string(),
    }]);
    let doc = body.content().ok().unwrap();
    assert_eq!(doc.blocks.len(), 4);
    assert_eq!(doc.files.len(), 2);
    assert!(text_of(&doc.blocks[0]).contains("watch?v=zz"));
}

#[test]
fn body_getters_list_both_forms() {
    let mut body = empty_body();
    let img = |id: &str| PostImage {
        id: id.to_string(),
        extension: "jpg".to_string(),
        width: 1,
        height: 1,
        original_url: format!("https://example.com/{}.jpg", id),
        thumbnail_url: String::new(),
    };
    body.images = Some(vec![img("a")]);
    body.image_map = Some(vec![("b".to_string(), img("b"))]);
    body.files = Some(vec![file("f1", "one")]);
    body.file_map = Some(vec![("f2".to_string(), file("f2", "two"))]);
    let ids: Vec<String> = body.images().iter().map(|i| i.id.clone()).collect();
    assert_eq!(ids, vec!["a", "b"]);
    let names: Vec<String> = body.files().iter().map(|f| f.filename()).collect();
    assert_eq!(names, vec!["one.zip", "two.zip"]);
    let as_file = img("c").to_post_file();
    assert_eq!(as_file.name, "c.jpg");
    assert_eq!(as_file.size, 0);
    body.videos = Some(vec![PostVideo { service_provider: "youtube".to_string(), video_id: "q".to_string() }]);
    assert_eq!(body.web_videos().ok().unwrap().len(), 1);
}
