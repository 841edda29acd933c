//! File naming, MIME types and download planning.

use vstd::prelude::*;
use vstd::string::*;
use crate::content::{files_view, unique_ids, FileRefView, FileReference};

verus! {

/// The MIME type that `mime_guess` gives a file name by its extension.
pub uninterp spec fn mime_of(filename: Seq<char>) -> Seq<char>;

/// Relies on `mime_guess::MimeGuess::from_path(..).first_or_octet_stream()`: the
/// first MIME type registered for the name's extension, `application/octet-stream`
/// when there is none; it depends on the name alone.
#[verifier::external_body]
pub(crate) fn guess_mime(filename: &str) -> (r: String)
    ensures
        r@ == mime_of(filename@),
{
    mime_guess::MimeGuess::from_path(filename).first_or_octet_stream().to_string()
}

/// One file to fetch: the folder it goes in, its path and its source URL.
pub struct PlannedDownload {
    pub folder: String,
    pub path: String,
    pub url: String,
}

pub type PlannedView = (Seq<char>, Seq<char>, Seq<char>);

impl View for PlannedDownload {
    type V = PlannedView;

    open spec fn view(&self) -> PlannedView {
        (self.folder@, self.path@, self.url@)
    }
}

pub open spec fn plan_view(p: Seq<PlannedDownload>) -> Seq<PlannedView> {
    p.map_values(|d: PlannedDownload| d@)
}

pub open spec fn join_path(a: Seq<char>, b: Seq<char>) -> Seq<char> {
    a + "/"@ + b
}

/// Where a post's file is stored: `<creatorId>/<postId>/<filename>`.
pub open spec fn planned(creator: Seq<char>, post: Seq<char>, f: FileRefView) -> PlannedView {
    let folder = join_path(creator, post);
    (folder, join_path(folder, f.filename), f.url)
}

fn join_exec(a: &String, b: &String) -> (r: String)
    ensures
        r@ == join_path(a@, b@),
{
    let mut r = a.clone();
    r.append("/");
    r.append(b.as_str());
    r
}

/// One download per entry of a post's file table, in order.
pub fn plan_downloads(creator_id: &String, post_id: &String, files: &Vec<FileReference>) -> (r: Vec<
    PlannedDownload,
>)
    ensures
        plan_view(r@) == files_view(files@).map_values(
            |f: FileRefView| planned(creator_id@, post_id@, f),
        ),
{
    let folder = join_exec(creator_id, post_id);
    let mut r: Vec<PlannedDownload> = Vec::new();
    let mut i: usize = 0;
    while i < files.len()
        invariant
            0 <= i <= files.len(),
            folder@ == join_path(creator_id@, post_id@),
            plan_view(r@) == files_view(files@.take(i as int)).map_values(
                |f: FileRefView| planned(creator_id@, post_id@, f),
            ),
        decreases files.len() - i,
    {
        let d = PlannedDownload {
            folder: folder.clone(),
            path: join_exec(&folder, &files[i].filename),
            url: files[i].url.clone(),
        };
        let ghost prev = plan_view(r@);
        r.push(d);
        proof {
            let g = |f: FileRefView| planned(creator_id@, post_id@, f);
            assert(files_view(files@.take(i + 1)) =~= files_view(files@.take(i as int)).push(
                files@[i as int]@,
            ));
            assert(files_view(files@.take(i + 1)).map_values(g) =~= files_view(
                files@.take(i as int),
            ).map_values(g).push(g(files@[i as int]@)));
            assert(plan_view(r@) =~= prev.push(d@));
        }
        i = i + 1;
    }
    assert(files@.take(files.len() as int) =~= files@);
    r
}

/// A plan of unique file ids downloads each file id exactly once.
pub proof fn lemma_one_download_per_file(
    creator: Seq<char>,
    post: Seq<char>,
    files: Seq<FileRefView>,
    i: int,
    j: int,
)
    requires
        unique_ids(files),
        0 <= i < files.len(),
        0 <= j < files.len(),
        files[i].id == files[j].id,
    ensures
        i == j,
        files.map_values(|f: FileRefView| planned(creator, post, f)).len() == files.len(),
{
    if i < j {
        assert(files[i].id != files[j].id);
    } else if j < i {
        assert(files[j].id != files[i].id);
    }
}

/// The entries to fetch: all when overwriting, else those not yet present.
pub open spec fn pending(p: Seq<PlannedView>, present: Seq<bool>, overwrite: bool) -> Seq<
    PlannedView,
>
    decreases p.len(),
{
    if p.len() == 0 {
        Seq::empty()
    } else {
        let r = pending(p.drop_last(), present, overwrite);
        let i = p.len() - 1;
        if overwrite || !(i < present.len() && present[i]) {
            r.push(p.last())
        } else {
            r
        }
    }
}

impl Clone for PlannedDownload {
    fn clone(&self) -> (r: Self)
        ensures
            r == *self,
    {
        PlannedDownload {
            folder: self.folder.clone(),
            path: self.path.clone(),
            url: self.url.clone(),
        }
    }
}

/// Drops the entries whose file is already present, unless overwriting;
/// `present[i]` tells whether the target of `plan[i]` exists (a missing flag
/// counts as absent).
pub fn pending_downloads(plan: &Vec<PlannedDownload>, present: &Vec<bool>, overwrite: bool) -> (r: Vec<
    PlannedDownload,
>)
    ensures
        plan_view(r@) == pending(plan_view(plan@), present@, overwrite),
{
    let mut r: Vec<PlannedDownload> = Vec::new();
    let mut i: usize = 0;
    while i < plan.len()
        invariant
            0 <= i <= plan.len(),
            plan_view(r@) == pending(plan_view(plan@.take(i as int)), present@, overwrite),
        decreases plan.len() - i,
    {
        assert(plan_view(plan@.take(i + 1)).drop_last() =~= plan_view(plan@.take(i as int)));
        let here = i < present.len() && present[i];
        if overwrite || !here {
            r.push(plan[i].clone());
            assert(plan_view(r@) =~= pending(plan_view(plan@.take(i as int)), present@, overwrite).push(plan@[i as int]@));
        }
        i = i + 1;
    }
    assert(plan@.take(plan.len() as int) =~= plan@);
    r
}

/// What the download stage does, in order.
pub enum DownloadStep {
    /// Create a folder and its parents.
    CreateDir(String),
    /// Fetch the plan's entry with this index.
    Download(usize),
}

pub enum StepView {
    CreateDir(Seq<char>),
    Download(int),
}

impl View for DownloadStep {
    type V = StepView;

    open spec fn view(&self) -> StepView {
        match self {
            DownloadStep::CreateDir(f) => StepView::CreateDir(f@),
            DownloadStep::Download(i) => StepView::Download(*i as int),
        }
    }
}

pub open spec fn steps_view(s: Seq<DownloadStep>) -> Seq<StepView> {
    s.map_values(|d: DownloadStep| d@)
}

pub open spec fn folder_seen(folders: Seq<Seq<char>>, f: Seq<char>) -> bool {
    exists|k: int| 0 <= k < folders.len() && folders[k] == f
}

/// Each entry's download, preceded by the creation of its folder the first
/// time that folder comes up.
pub open spec fn steps_spec(folders: Seq<Seq<char>>) -> Seq<StepView>
    decreases folders.len(),
{
    if folders.len() == 0 {
        Seq::empty()
    } else {
        let n = folders.len() - 1;
        let r = steps_spec(folders.drop_last());
        if folder_seen(folders.drop_last(), folders[n]) {
            r.push(StepView::Download(n))
        } else {
            r.push(StepView::CreateDir(folders[n])).push(StepView::Download(n))
        }
    }
}

pub open spec fn folders_of(p: Seq<PlannedDownload>) -> Seq<Seq<char>> {
    p.map_values(|d: PlannedDownload| d.folder@)
}

/// The steps of the download stage: folders are created once each, before
/// the first download into them.
pub fn download_steps(plan: &Vec<PlannedDownload>) -> (r: Vec<DownloadStep>)
    ensures
        steps_view(r@) == steps_spec(folders_of(plan@)),
{
    let mut r: Vec<DownloadStep> = Vec::new();
    let mut i: usize = 0;
    while i < plan.len()
        invariant
            0 <= i <= plan.len(),
            steps_view(r@) == steps_spec(folders_of(plan@.take(i as int))),
        decreases plan.len() - i,
    {
        let ghost fs = folders_of(plan@.take(i + 1));
        assert(fs.drop_last() =~= folders_of(plan@.take(i as int)));
        let mut seen = false;
        let mut k: usize = 0;
        while k < i
            invariant
                0 <= k <= i < plan.len(),
                fs == folders_of(plan@.take(i + 1)),
                seen == folder_seen(fs.drop_last().take(k as int), plan@[i as int].folder@),
            decreases i - k,
        {
            assert(fs.drop_last().take(k + 1) =~= fs.drop_last().take(k as int).push(
                plan@[k as int].folder@,
            ));
            if plan[k].folder == plan[i].folder {
                seen = true;
            }
            assert(seen == folder_seen(fs.drop_last().take(k + 1), plan@[i as int].folder@)) by {
                let t = fs.drop_last().take(k + 1);
                if folder_seen(t, plan@[i as int].folder@) && !folder_seen(
                    fs.drop_last().take(k as int),
                    plan@[i as int].folder@,
                ) {
                    let w = choose|w: int| 0 <= w < t.len() && t[w] == plan@[i as int].folder@;
                    assert(w == k);
                }
                if folder_seen(fs.drop_last().take(k as int), plan@[i as int].folder@) {
                    let w = choose|w: int|
                        0 <= w < fs.drop_last().take(k as int).len() && fs.drop_last().take(
                            k as int,
                        )[w] == plan@[i as int].folder@;
                    assert(t[w] == plan@[i as int].folder@);
                }
                if plan@[k as int].folder@ == plan@[i as int].folder@ {
                    assert(t[k as int] == plan@[i as int].folder@);
                }
            }
            k = k + 1;
        }
        assert(fs.drop_last().take(i as int) =~= fs.drop_last());
        assert(fs[i as int] == plan@[i as int].folder@);
        if !seen {
            r.push(DownloadStep::CreateDir(plan[i].folder.clone()));
        }
        r.push(DownloadStep::Download(i));
        assert(steps_view(r@) =~= steps_spec(fs));
        i = i + 1;
    }
    assert(plan@.take(plan.len() as int) =~= plan@);
    r
}

} // verus!
