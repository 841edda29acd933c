//! Deciding which remote posts need a fresh fetch, from the `updatedAt` that
//! was recorded for each source link when it was last fully synced.

use vstd::prelude::*;
use vstd::string::*;
use crate::content::{first_index, is_first, lemma_first_index, lemma_first_index_none};

verus! {

/// What a listing says of a post; used for diffing only.
pub struct PostSummary {
    pub id: String,
    pub creator_id: String,
    pub title: String,
    pub fee_required: u32,
    pub published_at: i64,
    pub updated_at: i64,
    pub is_restricted: bool,
}

impl Clone for PostSummary {
    fn clone(&self) -> (r: Self)
        ensures
            r == *self,
    {
        PostSummary {
            id: self.id.clone(),
            creator_id: self.creator_id.clone(),
            title: self.title.clone(),
            fee_required: self.fee_required,
            published_at: self.published_at,
            updated_at: self.updated_at,
            is_restricted: self.is_restricted,
        }
    }
}

/// The `updatedAt` stored for one source link.
pub struct SyncRecord {
    pub link: String,
    pub updated_at: i64,
}

/// The synced state: for each source link, the latest `updatedAt` that was
/// fully synced. It never moves backwards, and each link has one record
/// (`wf`), which `new` establishes and `record` keeps.
pub struct SyncIndex {
    pub records: Vec<SyncRecord>,
}

pub type IndexView = Seq<(Seq<char>, i64)>;

impl View for SyncIndex {
    type V = IndexView;

    open spec fn view(&self) -> IndexView {
        self.records@.map_values(|r: SyncRecord| (r.link@, r.updated_at))
    }
}

/// No two records share a link: the index is a map from links to times.
pub open spec fn links_unique(v: IndexView) -> bool {
    forall|i: int, j: int| 0 <= i < j < v.len() ==> (#[trigger] v[i]).0 != (#[trigger] v[j]).0
}

impl SyncIndex {
    pub open spec fn wf(&self) -> bool {
        links_unique(self@)
    }
}

pub open spec fn link_is(l: Seq<char>) -> spec_fn((Seq<char>, i64)) -> bool {
    |e: (Seq<char>, i64)| e.0 == l
}

/// The timestamp stored for `link`, if any.
pub open spec fn stored(v: IndexView, link: Seq<char>) -> Option<i64> {
    match first_index(v, link_is(link)) {
        Some(i) => Some(v[i].1),
        None => None,
    }
}

/// A post is fetched again iff nothing is stored for it or the remote
/// timestamp is strictly newer.
pub open spec fn needs_fetch(remote: i64, st: Option<i64>) -> bool {
    match st {
        None => true,
        Some(t) => remote > t,
    }
}

/// `<platform>/<creatorId>/<postId>`.
pub open spec fn link_of(platform: Seq<char>, creator: Seq<char>, id: Seq<char>) -> Seq<char> {
    platform + "/"@ + creator + "/"@ + id
}

pub open spec fn post_link(platform: Seq<char>, p: PostSummary) -> Seq<char> {
    link_of(platform, p.creator_id@, p.id@)
}

pub open spec fn post_needs_fetch(platform: Seq<char>, v: IndexView, p: PostSummary) -> bool {
    needs_fetch(p.updated_at, stored(v, post_link(platform, p)))
}

/// The posts that need a fetch, in listing order.
pub open spec fn unsynced(platform: Seq<char>, posts: Seq<PostSummary>, v: IndexView) -> Seq<
    PostSummary,
>
    decreases posts.len(),
{
    if posts.len() == 0 {
        Seq::empty()
    } else {
        let r = unsynced(platform, posts.drop_last(), v);
        if post_needs_fetch(platform, v, posts.last()) {
            r.push(posts.last())
        } else {
            r
        }
    }
}

pub open spec fn max_i64(a: i64, b: i64) -> i64 {
    if a < b {
        b
    } else {
        a
    }
}

/// The index after recording that `link` was synced at `t`.
pub open spec fn record_spec(v: IndexView, link: Seq<char>, t: i64) -> IndexView {
    match first_index(v, link_is(link)) {
        Some(i) => v.update(i, (link, max_i64(v[i].1, t))),
        None => v.push((link, t)),
    }
}

/// The index after recording each post of `ps` in order.
pub open spec fn record_all(platform: Seq<char>, v: IndexView, ps: Seq<PostSummary>) -> IndexView
    decreases ps.len(),
{
    if ps.len() == 0 {
        v
    } else {
        let p = ps.last();
        record_spec(record_all(platform, v, ps.drop_last()), post_link(platform, p), p.updated_at)
    }
}

/// The source link of a post.
pub fn source_link(platform: &str, creator_id: &String, post_id: &String) -> (r: String)
    ensures
        r@ == link_of(platform@, creator_id@, post_id@),
{
    let mut r = String::from_str(platform);
    r.append("/");
    r.append(creator_id.as_str());
    r.append("/");
    r.append(post_id.as_str());
    r
}

impl SyncIndex {
    pub fn new() -> (r: Self)
        ensures
            r@ == Seq::<(Seq<char>, i64)>::empty(),
            r.wf(),
    {
        let r = SyncIndex { records: Vec::new() };
        assert(r@ =~= Seq::<(Seq<char>, i64)>::empty());
        r
    }

    fn find(&self, link: &String) -> (r: Option<usize>)
        ensures
            match r {
                Some(i) => is_first(self@, link_is(link@), i as int),
                None => forall|j: int| 0 <= j < self@.len() ==> !link_is(link@)(#[trigger] self@[j]),
            },
    {
        let mut i: usize = 0;
        while i < self.records.len()
            invariant
                0 <= i <= self.records.len(),
                forall|j: int| 0 <= j < i ==> !link_is(link@)(#[trigger] self@[j]),
            decreases self.records.len() - i,
        {
            if self.records[i].link == *link {
                return Some(i);
            }
            i = i + 1;
        }
        None
    }

    /// The timestamp stored for `link`.
    pub fn stored(&self, link: &String) -> (r: Option<i64>)
        ensures
            r == stored(self@, link@),
    {
        match self.find(link) {
            Some(i) => {
                proof {
                    lemma_first_index(self@, link_is(link@), i as int);
                }
                Some(self.records[i].updated_at)
            },
            None => {
                proof {
                    lemma_first_index_none(self@, link_is(link@));
                }
                None
            },
        }
    }

    /// Records that `link` was fully synced at `updated_at`; a stored value
    /// that is newer stays.
    pub fn record(&mut self, link: String, updated_at: i64)
        ensures
            final(self)@ == record_spec(old(self)@, link@, updated_at),
            old(self).wf() ==> final(self).wf(),
    {
        match self.find(&link) {
            Some(i) => {
                proof {
                    lemma_first_index(self@, link_is(link@), i as int);
                }
                let old_t = self.records[i].updated_at;
                let t = if old_t < updated_at {
                    updated_at
                } else {
                    old_t
                };
                self.records.set(i, SyncRecord { link, updated_at: t });
                assert(self@ =~= record_spec(old(self)@, link@, updated_at));
                assert(old(self).wf() ==> self.wf()) by {
                    if old(self).wf() {
                        assert forall|a: int, b: int| 0 <= a < b < self@.len() implies (#[trigger] self@[a]).0 != (#[trigger] self@[b]).0 by {
                            assert(self@[a].0 == old(self)@[a].0 && self@[b].0 == old(self)@[b].0);
                        }
                    }
                }
            },
            None => {
                proof {
                    lemma_first_index_none(self@, link_is(link@));
                }
                let ghost l = link@;
                self.records.push(SyncRecord { link, updated_at });
                assert(self@ =~= record_spec(old(self)@, l, updated_at));
                assert(old(self).wf() ==> self.wf()) by {
                    if old(self).wf() {
                        assert forall|a: int, b: int| 0 <= a < b < self@.len() implies (#[trigger] self@[a]).0 != (#[trigger] self@[b]).0 by {
                            assert(self@[a] == old(self)@[a]);
                            if b < old(self)@.len() {
                                assert(self@[b] == old(self)@[b]);
                            } else {
                                assert(!link_is(l)(old(self)@[a]));
                            }
                        }
                    }
                }
            },
        }
    }
}

/// The posts of a listing that need a fetch: those with no stored timestamp
/// and those whose remote `updatedAt` is strictly newer than the stored one.
pub fn filter_unsynced_posts(posts: &Vec<PostSummary>, platform: &str, index: &SyncIndex) -> (r: Vec<
    PostSummary,
>)
    ensures
        r@ == unsynced(platform@, posts@, index@),
{
    let mut r: Vec<PostSummary> = Vec::new();
    let mut i: usize = 0;
    while i < posts.len()
        invariant
            0 <= i <= posts.len(),
            r@ == unsynced(platform@, posts@.take(i as int), index@),
        decreases posts.len() - i,
    {
        assert(posts@.take(i + 1).drop_last() =~= posts@.take(i as int));
        let p = &posts[i];
        let link = source_link(platform, &p.creator_id, &p.id);
        let st = index.stored(&link);
        let fetch = match st {
            None => true,
            Some(t) => p.updated_at > t,
        };
        if fetch {
            r.push(p.clone());
        }
        i = i + 1;
    }
    assert(posts@.take(posts.len() as int) =~= posts@);
    r
}

/// Records every post of `posts` as synced at its own `updatedAt`.
pub fn record_synced(index: &mut SyncIndex, platform: &str, posts: &Vec<PostSummary>)
    ensures
        final(index)@ == record_all(platform@, old(index)@, posts@),
        old(index).wf() ==> final(index).wf(),
{
    let mut i: usize = 0;
    while i < posts.len()
        invariant
            0 <= i <= posts.len(),
            index@ == record_all(platform@, old(index)@, posts@.take(i as int)),
            old(index).wf() ==> index.wf(),
        decreases posts.len() - i,
    {
        assert(posts@.take(i + 1).drop_last() =~= posts@.take(i as int));
        let link = source_link(platform, &posts[i].creator_id, &posts[i].id);
        index.record(link, posts[i].updated_at);
        i = i + 1;
    }
    assert(posts@.take(posts.len() as int) =~= posts@);
}

/// Diff correctness: a post is in the re-fetch set iff it is in the listing
/// and nothing is stored for it or its remote `updatedAt` is strictly newer;
/// equal timestamps exclude.
pub proof fn lemma_diff_correct(platform: Seq<char>, posts: Seq<PostSummary>, v: IndexView)
    ensures
        forall|p: PostSummary|
            #[trigger] unsynced(platform, posts, v).contains(p) <==> (posts.contains(p)
                && post_needs_fetch(platform, v, p)),
        forall|t: i64| !needs_fetch(t, Some(t)),
    decreases posts.len(),
{
    if posts.len() > 0 {
        let init = posts.drop_last();
        let x = posts.last();
        lemma_diff_correct(platform, init, v);
        let r = unsynced(platform, init, v);
        assert forall|p: PostSummary| #[trigger]
            unsynced(platform, posts, v).contains(p) <==> (posts.contains(p) && post_needs_fetch(
                platform,
                v,
                p,
            )) by {
            assert(posts =~= init.push(x));
            if init.contains(p) {
                let k = choose|k: int| 0 <= k < init.len() && init[k] == p;
                assert(posts[k] == p);
            }
            if posts.contains(p) && p != x {
                let k = choose|k: int| 0 <= k < posts.len() && posts[k] == p;
                assert(k < init.len());
                assert(init[k] == p);
            }
            if r.contains(p) {
                let k = choose|k: int| 0 <= k < r.len() && r[k] == p;
                assert(r.push(x)[k] == p);
            }
            if post_needs_fetch(platform, v, x) {
                assert(r.push(x)[r.len() as int] == x);
                if r.push(x).contains(p) && p != x {
                    let k = choose|k: int| 0 <= k < r.push(x).len() && r.push(x)[k] == p;
                    assert(k < r.len());
                    assert(r[k] == p);
                }
            }
            assert(posts[posts.len() - 1] == x);
        }
    }
}

/// Some timestamp at least `t` is stored for `link`.
pub open spec fn covers(v: IndexView, link: Seq<char>, t: i64) -> bool {
    match stored(v, link) {
        Some(x) => x >= t,
        None => false,
    }
}

proof fn lemma_record_covers(v: IndexView, l: Seq<char>, t: i64)
    ensures
        covers(record_spec(v, l, t), l, t),
        forall|l2: Seq<char>, t2: i64|
            #[trigger] covers(v, l2, t2) ==> covers(record_spec(v, l, t), l2, t2),
{
    let v2 = record_spec(v, l, t);
    match first_index(v, link_is(l)) {
        Some(i) => {
            assert(is_first(v, link_is(l), i)) by {
                lemma_first_index_some(v, link_is(l));
            }
            assert(is_first(v2, link_is(l), i)) by {
                assert forall|j: int| 0 <= j < i implies !link_is(l)(#[trigger] v2[j]) by {
                    assert(v2[j] == v[j]);
                    assert(!link_is(l)(v[j]));
                }
            }
            lemma_first_index(v2, link_is(l), i);
            assert forall|l2: Seq<char>, t2: i64| #[trigger] covers(v, l2, t2) implies covers(
                v2,
                l2,
                t2,
            ) by {
                if l2 != l {
                    let k = first_index(v, link_is(l2))->0;
                    lemma_first_index_some(v, link_is(l2));
                    assert(k != i);
                    assert(is_first(v2, link_is(l2), k)) by {
                        assert forall|j: int| 0 <= j < k implies !link_is(l2)(#[trigger] v2[j]) by {
                            assert(!link_is(l2)(v[j]));
                            if j == i {
                            } else {
                                assert(v2[j] == v[j]);
                            }
                        }
                    }
                    lemma_first_index(v2, link_is(l2), k);
                }
            }
        },
        None => {
            assert(forall|j: int| 0 <= j < v.len() ==> !link_is(l)(#[trigger] v[j])) by {
                if exists|j: int| 0 <= j < v.len() && link_is(l)(#[trigger] v[j]) {
                    lemma_some_first(v, link_is(l));
                }
            }
            assert(is_first(v2, link_is(l), v.len() as int)) by {
                assert forall|j: int| 0 <= j < v.len() implies !link_is(l)(#[trigger] v2[j]) by {
                    assert(v2[j] == v[j]);
                }
            }
            lemma_first_index(v2, link_is(l), v.len() as int);
            assert forall|l2: Seq<char>, t2: i64| #[trigger] covers(v, l2, t2) implies covers(
                v2,
                l2,
                t2,
            ) by {
                let k = first_index(v, link_is(l2))->0;
                lemma_first_index_some(v, link_is(l2));
                assert(is_first(v2, link_is(l2), k)) by {
                    assert forall|j: int| 0 <= j < k implies !link_is(l2)(#[trigger] v2[j]) by {
                        assert(v2[j] == v[j]);
                    }
                }
                lemma_first_index(v2, link_is(l2), k);
            }
        },
    }
}

proof fn lemma_first_index_some<T>(s: Seq<T>, p: spec_fn(T) -> bool)
    requires
        first_index(s, p) is Some,
    ensures
        is_first(s, p, first_index(s, p)->0),
{
}

proof fn lemma_some_first<T>(s: Seq<T>, p: spec_fn(T) -> bool)
    requires
        exists|j: int| 0 <= j < s.len() && p(#[trigger] s[j]),
    ensures
        first_index(s, p) is Some,
    decreases s.len(),
{
    let j = choose|j: int| 0 <= j < s.len() && p(#[trigger] s[j]);
    if exists|k: int| 0 <= k < j && p(#[trigger] s[k]) {
        let k = choose|k: int| 0 <= k < j && p(#[trigger] s[k]);
        assert(s.take(j)[k] == s[k]);
        lemma_some_first(s.take(j), p);
        let m = first_index(s.take(j), p)->0;
        lemma_first_index_some(s.take(j), p);
        assert(is_first(s, p, m)) by {
            assert forall|k: int| 0 <= k < m implies !p(#[trigger] s[k]) by {
                assert(s.take(j)[k] == s[k]);
            }
            assert(s.take(j)[m] == s[m]);
        }
    } else {
        assert(is_first(s, p, j));
    }
}

proof fn lemma_record_all_covers(platform: Seq<char>, v: IndexView, ps: Seq<PostSummary>)
    ensures
        forall|i: int|
            0 <= i < ps.len() ==> covers(
                record_all(platform, v, ps),
                post_link(platform, #[trigger] ps[i]),
                ps[i].updated_at,
            ),
        forall|l: Seq<char>, t: i64|
            #[trigger] covers(v, l, t) ==> covers(record_all(platform, v, ps), l, t),
    decreases ps.len(),
{
    if ps.len() > 0 {
        let init = ps.drop_last();
        lemma_record_all_covers(platform, v, init);
        let w = record_all(platform, v, init);
        let p = ps.last();
        lemma_record_covers(w, post_link(platform, p), p.updated_at);
        assert forall|i: int| 0 <= i < ps.len() implies covers(
            record_all(platform, v, ps),
            post_link(platform, #[trigger] ps[i]),
            ps[i].updated_at,
        ) by {
            if i < init.len() {
                assert(init[i] == ps[i]);
                assert(covers(w, post_link(platform, init[i]), init[i].updated_at));
            }
        }
    }
}

proof fn lemma_unsynced_empty(platform: Seq<char>, posts: Seq<PostSummary>, v: IndexView)
    requires
        forall|i: int| 0 <= i < posts.len() ==> !post_needs_fetch(platform, v, #[trigger] posts[i]),
    ensures
        unsynced(platform, posts, v).len() == 0,
    decreases posts.len(),
{
    if posts.len() > 0 {
        let init = posts.drop_last();
        assert forall|i: int| 0 <= i < init.len() implies !post_needs_fetch(
            platform,
            v,
            #[trigger] init[i],
        ) by {
            assert(init[i] == posts[i]);
        }
        assert(!post_needs_fetch(platform, v, posts[posts.len() - 1]));
        lemma_unsynced_empty(platform, init, v);
    }
}

/// Idempotence: once every post that needed a fetch has been recorded as
/// synced, the same listing needs no fetch at all; recording nothing leaves
/// the index as it was.
pub proof fn lemma_second_run_fetches_nothing(
    platform: Seq<char>,
    posts: Seq<PostSummary>,
    v: IndexView,
)
    ensures
        unsynced(
            platform,
            posts,
            record_all(platform, v, unsynced(platform, posts, v)),
        ).len() == 0,
        record_all(platform, v, Seq::empty()) == v,
{
    let fetched = unsynced(platform, posts, v);
    let v2 = record_all(platform, v, fetched);
    lemma_diff_correct(platform, posts, v);
    lemma_record_all_covers(platform, v, fetched);
    assert forall|i: int| 0 <= i < posts.len() implies !post_needs_fetch(
        platform,
        v2,
        #[trigger] posts[i],
    ) by {
        let p = posts[i];
        assert(posts.contains(p));
        if post_needs_fetch(platform, v, p) {
            assert(fetched.contains(p));
            let k = choose|k: int| 0 <= k < fetched.len() && fetched[k] == p;
            assert(covers(v2, post_link(platform, fetched[k]), fetched[k].updated_at));
        } else {
            assert(covers(v, post_link(platform, p), p.updated_at));
        }
    }
    lemma_unsynced_empty(platform, posts, v2);
}

} // verus!
