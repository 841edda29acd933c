use creator_archiver::diff::{
    filter_unsynced_posts, record_synced, source_link, PostSummary, SyncIndex,
};
use creator_archiver::files::{download_steps, pending_downloads, plan_downloads, DownloadStep, PlannedDownload};
use creator_archiver::content::FileReference;

fn summary(id: &str, updated: i64) -> PostSummary {
    PostSummary {
        id: id.to_string(),
        creator_id: "alice".to_string(),
        title: format!("post {}", id),
        fee_required: 0,
        published_at: 1,
        updated_at: updated,
        is_restricted: false,
    }
}

#[test]
fn source_link_format() {
    assert_eq!(source_link("patreon", &"alice".to_string(), &"42".to_string()), "patreon/alice/42");
}

#[test]
fn diff_includes_new_and_newer_only() {
    let mut index = SyncIndex::new();
    index.record("fanbox/alice/1".to_string(), 100);
    index.record("fanbox/alice/2".to_string(), 100);
    let posts = vec![summary("1", 100), summary("2", 101), summary("3", 5)];
    let out = filter_unsynced_posts(&posts, "fanbox", &index);
    let ids: Vec<String> = out.iter().map(|p| p.id.clone()).collect();
    assert_eq!(ids, vec!["2".to_string(), "3".to_string()]);
}

#[test]
fn empty_index_fetches_everything() {
    let index = SyncIndex::new();
    let posts = vec![summary("1", 1), summary("2", 2)];
    assert_eq!(filter_unsynced_posts(&posts, "fanbox", &index).len(), 2);
}

#[test]
fn second_run_fetches_nothing() {
    let mut index = SyncIndex::new();
    index.record("fanbox/alice/1".to_string(), 50);
    let posts = vec![summary("1", 60), summary("2", 7), summary("1", 55)];
    let first = filter_unsynced_posts(&posts, "fanbox", &index);
    assert_eq!(first.len(), 3);
    record_synced(&mut index, "fanbox", &first);
    assert_eq!(filter_unsynced_posts(&posts, "fanbox", &index).len(), 0);
    assert_eq!(index.stored(&"fanbox/alice/1".to_string()), Some(60));
}

#[test]
fn record_never_moves_backwards() {
    let mut index = SyncIndex::new();
    index.record("l".to_string(), 10);
    index.record("l".to_string(), 3);
    assert_eq!(index.stored(&"l".to_string()), Some(10));
    assert_eq!(index.records.len(), 1);
}

fn reference(id: &str, name: &str) -> FileReference {
    FileReference {
        id: id.to_string(),
        filename: name.to_string(),
        mime: "image/png".to_string(),
        url: format!("https://example.com/{}", name),
        extra: vec![],
    }
}

#[test]
fn plan_paths_and_skips() {
    let files = vec![reference("a", "a.png"), reference("b", "b.png")];
    let plan = plan_downloads(&"alice".to_string(), &"7".to_string(), &files);
    assert_eq!(plan.len(), 2);
    assert_eq!(plan[0].path, "alice/7/a.png");
    assert_eq!(plan[0].folder, "alice/7");
    assert_eq!(plan[1].url, "https://example.com/b.png");
    let kept = pending_downloads(&plan, &vec![true, false], false);
    assert_eq!(kept.len(), 1);
    assert_eq!(kept[0].path, "alice/7/b.png");
    assert_eq!(pending_downloads(&plan, &vec![true, true], true).len(), 2);
}

#[test]
fn folders_are_created_once() {
    let d = |folder: &str, name: &str| PlannedDownload {
        folder: folder.to_string(),
        path: format!("{}/{}", folder, name),
        url: String::new(),
    };
    let plan = vec![d("x", "1"), d("y", "2"), d("x", "3")];
    let steps = download_steps(&plan);
    let mut dirs = 0;
    let mut downloads = 0;
    for s in steps.iter() {
        match s {
            DownloadStep::CreateDir(_) => dirs += 1,
            DownloadStep::Download(_) => downloads += 1,
        }
    }
    assert_eq!(dirs, 2);
    assert_eq!(downloads, 3);
    assert!(matches!(&steps[0], DownloadStep::CreateDir(f) if f == "x"));
    assert!(matches!(steps[1], DownloadStep::Download(0)));
    assert!(matches!(steps[4], DownloadStep::Download(2)));
}
