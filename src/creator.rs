//! Fanbox creators: who is archived, with which fee tier.

use vstd::prelude::*;
use crate::config::{listed_ok, Config};
use crate::content::{first_index, lemma_first_index, lemma_first_index_none};
use crate::diff::PostSummary;

verus! {

pub struct FanboxUser {
    pub icon_url: Option<String>,
    pub name: String,
    pub user_id: String,
}

impl Clone for FanboxUser {
    fn clone(&self) -> (r: Self)
        ensures
            r == *self,
    {
        FanboxUser {
            icon_url: match &self.icon_url {
                Some(u) => Some(u.clone()),
                None => None,
            },
            name: self.name.clone(),
            user_id: self.user_id.clone(),
        }
    }
}

/// A creator and the fee of the tier the user pays for (0 when only followed).
pub struct Creator {
    pub creator_id: String,
    pub user: FanboxUser,
    pub fee: u32,
}

impl Clone for Creator {
    fn clone(&self) -> (r: Self)
        ensures
            r == *self,
    {
        Creator { creator_id: self.creator_id.clone(), user: self.user.clone(), fee: self.fee }
    }
}

impl Creator {
    pub fn id(&self) -> (r: &String)
        ensures
            *r == self.creator_id,
    {
        &self.creator_id
    }

    pub fn name(&self) -> (r: String)
        ensures
            r == self.user.name,
    {
        self.user.name.clone()
    }

    pub fn fee(&self) -> (r: u32)
        ensures
            r == self.fee,
    {
        self.fee
    }
}

pub struct FollowingCreator {
    pub user: FanboxUser,
    pub creator_id: String,
}

impl FollowingCreator {
    pub fn name(&self) -> (r: &String)
        ensures
            *r == self.user.name,
    {
        &self.user.name
    }

    pub fn creator_id(&self) -> (r: &String)
        ensures
            *r == self.creator_id,
    {
        &self.creator_id
    }

    /// A followed creator pays no fee.
    pub fn to_creator(self) -> (r: Creator)
        ensures
            r.creator_id == self.creator_id,
            r.user == self.user,
            r.fee == 0,
    {
        Creator { creator_id: self.creator_id, user: self.user, fee: 0 }
    }
}

pub struct SupportingCreator {
    pub id: String,
    pub title: String,
    pub fee: u32,
    pub user: FanboxUser,
    pub creator_id: String,
}

impl SupportingCreator {
    pub fn to_creator(self) -> (r: Creator)
        ensures
            r.creator_id == self.creator_id,
            r.user == self.user,
            r.fee == self.fee,
    {
        Creator { creator_id: self.creator_id, user: self.user, fee: self.fee }
    }
}

pub open spec fn creator_is(id: Seq<char>) -> spec_fn(Creator) -> bool {
    |c: Creator| c.creator_id@ == id
}

/// Adds a creator from a listing. A listing with fees (the supported
/// creators) replaces an entry of the same id; one without (the followed
/// creators) never does.
pub open spec fn put_creator(saved: Seq<Creator>, has_fee: bool, c: Creator) -> Seq<Creator> {
    match first_index(saved, creator_is(c.creator_id@)) {
        Some(i) => if has_fee {
            saved.update(i, c)
        } else {
            saved
        },
        None => saved.push(c),
    }
}

/// Merges one listing into `saved`, leaving out creators the lists reject.
pub open spec fn merge_listing(cfg: Config, saved: Seq<Creator>, has_fee: bool, cs: Seq<Creator>) -> Seq<
    Creator,
>
    decreases cs.len(),
{
    if cs.len() == 0 {
        saved
    } else {
        let s = merge_listing(cfg, saved, has_fee, cs.drop_last());
        if listed_ok(cfg, cs.last().creator_id@) {
            put_creator(s, has_fee, cs.last())
        } else {
            s
        }
    }
}

pub open spec fn merge_listings(cfg: Config, ls: Seq<(bool, Vec<Creator>)>) -> Seq<Creator>
    decreases ls.len(),
{
    if ls.len() == 0 {
        Seq::empty()
    } else {
        merge_listing(cfg, merge_listings(cfg, ls.drop_last()), ls.last().0, ls.last().1@)
    }
}

fn put_creator_exec(saved: &mut Vec<Creator>, has_fee: bool, c: &Creator)
    ensures
        final(saved)@ == put_creator(old(saved)@, has_fee, *c),
{
    let mut i: usize = 0;
    while i < saved.len()
        invariant
            0 <= i <= saved.len(),
            saved@ == old(saved)@,
            forall|j: int| 0 <= j < i ==> !creator_is(c.creator_id@)(#[trigger] saved@[j]),
        decreases saved.len() - i,
    {
        if saved[i].creator_id == c.creator_id {
            proof {
                lemma_first_index(saved@, creator_is(c.creator_id@), i as int);
            }
            if has_fee {
                saved.set(i, c.clone());
            }
            return;
        }
        i = i + 1;
    }
    proof {
        lemma_first_index_none(saved@, creator_is(c.creator_id@));
    }
    saved.push(c.clone());
}

/// The creators to archive from the followed and supported listings, each
/// `(has_fee, creators)`: one entry per creator id, in order of first
/// appearance, with the fee of a supported listing winning.
pub fn get_author_list(config: &Config, listings: &Vec<(bool, Vec<Creator>)>) -> (r: Vec<Creator>)
    ensures
        r@ == merge_listings(*config, listings@),
{
    let mut saved: Vec<Creator> = Vec::new();
    let mut k: usize = 0;
    while k < listings.len()
        invariant
            0 <= k <= listings.len(),
            saved@ == merge_listings(*config, listings@.take(k as int)),
        decreases listings.len() - k,
    {
        assert(listings@.take(k + 1).drop_last() =~= listings@.take(k as int));
        let has_fee = listings[k].0;
        let cs = &listings[k].1;
        let ghost s0 = saved@;
        let mut i: usize = 0;
        while i < cs.len()
            invariant
                0 <= i <= cs.len(),
                saved@ == merge_listing(*config, s0, has_fee, cs@.take(i as int)),
            decreases cs.len() - i,
        {
            assert(cs@.take(i + 1).drop_last() =~= cs@.take(i as int));
            if config.filter_creator(&cs[i].creator_id) {
                put_creator_exec(&mut saved, has_fee, &cs[i]);
            }
            i = i + 1;
        }
        assert(cs@.take(cs.len() as int) =~= cs@);
        k = k + 1;
    }
    assert(listings@.take(listings.len() as int) =~= listings@);
    saved
}

/// Posts of a listing that the user's fee tier opens, leaving out free ones
/// when asked to.
pub open spec fn visible(items: Seq<PostSummary>, fee: u32, skip_free: bool) -> Seq<PostSummary>
    decreases items.len(),
{
    if items.len() == 0 {
        Seq::empty()
    } else {
        let r = visible(items.drop_last(), fee, skip_free);
        let p = items.last();
        if p.fee_required > fee || (skip_free && p.fee_required == 0) {
            r
        } else {
            r.push(p)
        }
    }
}

pub fn visible_posts(items: &Vec<PostSummary>, creator: &Creator, skip_free: bool) -> (r: Vec<
    PostSummary,
>)
    ensures
        r@ == visible(items@, creator.fee, skip_free),
{
    let mut r: Vec<PostSummary> = Vec::new();
    let mut i: usize = 0;
    while i < items.len()
        invariant
            0 <= i <= items.len(),
            r@ == visible(items@.take(i as int), creator.fee, skip_free),
        decreases items.len() - i,
    {
        assert(items@.take(i + 1).drop_last() =~= items@.take(i as int));
        let p = &items[i];
        if !(p.fee_required > creator.fee() || (skip_free && p.fee_required == 0)) {
            r.push(p.clone());
        }
        i = i + 1;
    }
    assert(items@.take(items.len() as int) =~= items@);
    r
}

} // verus!
