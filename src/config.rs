//! What a run archives and how: plain values that the command line fills in.

use vstd::prelude::*;
use vstd::string::*;
use crate::patreon::{is_free_spec, Member, Post};
use crate::text::{
    after_last, contains_text, has_prefix, starts_with, text_after_last, vec_contains,
};

verus! {

/// Which subscriptions to archive.
#[derive(PartialEq, Eq, Structural, Clone, Copy)]
pub enum SaveType {
    All,
    Following,
    Supporting,
}

impl Default for SaveType {
    fn default() -> (r: Self)
        ensures
            r == SaveType::Supporting,
    {
        SaveType::Supporting
    }
}

impl SaveType {
    pub fn accept_all(&self) -> (r: bool)
        ensures
            r == (*self == SaveType::All),
    {
        *self == SaveType::All
    }

    pub fn accept_following(&self) -> (r: bool)
        ensures
            r == (*self == SaveType::Following || *self == SaveType::All),
    {
        *self == SaveType::Following || self.accept_all()
    }

    pub fn accept_supporting(&self) -> (r: bool)
        ensures
            r == (*self == SaveType::Supporting || *self == SaveType::All),
    {
        *self == SaveType::Supporting || self.accept_all()
    }

    /// The listings to read for this choice.
    pub fn list(&self) -> (r: Vec<&'static str>)
        ensures
            r@.map_values(|s: &str| s@) == match *self {
                SaveType::All => seq!["following"@, "supporting"@],
                SaveType::Following => seq!["following"@],
                SaveType::Supporting => seq!["supporting"@],
            },
    {
        let r = match self {
            SaveType::All => vec!["following", "supporting"],
            SaveType::Following => vec!["following"],
            SaveType::Supporting => vec!["supporting"],
        };
        assert(r@.map_values(|s: &str| s@) =~= match *self {
            SaveType::All => seq!["following"@, "supporting"@],
            SaveType::Following => seq!["following"@],
            SaveType::Supporting => seq!["supporting"@],
        });
        r
    }

    /// The lower-case name, as the command line spells it.
    pub fn as_str(&self) -> (r: &'static str)
        ensures
            r@ == match *self {
                SaveType::All => "all"@,
                SaveType::Following => "following"@,
                SaveType::Supporting => "supporting"@,
            },
    {
        match self {
            SaveType::All => "all",
            SaveType::Following => "following",
            SaveType::Supporting => "supporting",
        }
    }
}

/// Cache files waiting to be written when the run ends.
pub struct CacheCleanup {
    pub entries: Vec<(String, Vec<u8>)>,
}

impl CacheCleanup {
    pub fn new() -> (r: Self)
        ensures
            r.entries@.len() == 0,
    {
        CacheCleanup { entries: Vec::new() }
    }

    pub fn push(&mut self, path: String, data: Vec<u8>)
        ensures
            final(self).entries@ == old(self).entries@.push((path, data)),
    {
        self.entries.push((path, data));
    }
}

/// The settings of one run.
pub struct Config {
    pub session: String,
    pub output: String,
    pub save: SaveType,
    pub cache: Option<String>,
    pub no_cache: bool,
    pub whitelist: Vec<String>,
    pub blacklist: Vec<String>,
    pub limit: usize,
    pub force: bool,
    pub overwrite: bool,
    pub skip_free: bool,
}

/// The cookie for a session value: the value itself when it already names
/// the cookie, else `<name>=<value>`.
pub open spec fn cookie_of(name: Seq<char>, value: Seq<char>) -> Seq<char> {
    if has_prefix(value, name + "="@) {
        value
    } else {
        name + "="@ + value
    }
}

/// Whether a creator passes the lists: on the whitelist when there is one,
/// and never on the blacklist.
pub open spec fn listed_ok(c: Config, id: Seq<char>) -> bool {
    (c.whitelist@.len() == 0 || contains_text(c.whitelist@, id)) && !contains_text(
        c.blacklist@,
        id,
    )
}

pub open spec fn member_cents(m: Member) -> u32 {
    match m.campaign_pledge_amount_cents {
        Some(c) => c,
        None => 0,
    }
}

fn cookie(name: &str, value: &String) -> (r: String)
    ensures
        r@ == cookie_of(name@, value@),
{
    let mut prefix = String::from_str(name);
    prefix.append("=");
    if starts_with(value.as_str(), prefix.as_str()) {
        value.clone()
    } else {
        prefix.append(value.as_str());
        prefix
    }
}

/// Whether a membership is archived.
pub open spec fn member_ok(c: Config, m: Member) -> bool {
    !(c.skip_free && member_cents(m) == 0) && listed_ok(c, after_last(m.campaign.url@, '/'))
}

impl Config {
    /// The Patreon session cookie.
    pub fn session(&self) -> (r: String)
        ensures
            r@ == cookie_of("session_id"@, self.session@),
    {
        cookie("session_id", &self.session)
    }

    /// The Fanbox session cookie.
    pub fn fanbox_session(&self) -> (r: String)
        ensures
            r@ == cookie_of("FANBOXSESSID"@, self.session@),
    {
        cookie("FANBOXSESSID", &self.session)
    }

    pub fn save_types(&self) -> (r: SaveType)
        ensures
            r == self.save,
    {
        self.save
    }

    /// The cache directory: none when caching is off, else the one given or `.`.
    pub fn cache(&self) -> (r: Option<String>)
        ensures
            match r {
                None => self.no_cache,
                Some(d) => !self.no_cache && d@ == match self.cache {
                    Some(c) => c@,
                    None => "."@,
                },
            },
    {
        if self.no_cache {
            return None;
        }
        match &self.cache {
            Some(c) => Some(c.clone()),
            None => Some(String::from_str(".")),
        }
    }

    pub fn output(&self) -> (r: &String)
        ensures
            *r == self.output,
    {
        &self.output
    }

    pub fn limit(&self) -> (r: usize)
        ensures
            r == self.limit,
    {
        self.limit
    }

    pub fn overwrite(&self) -> (r: bool)
        ensures
            r == self.overwrite,
    {
        self.overwrite
    }

    pub fn force(&self) -> (r: bool)
        ensures
            r == self.force,
    {
        self.force
    }

    fn lists_accept(&self, id: &String) -> (r: bool)
        ensures
            r == listed_ok(*self, id@),
    {
        (self.whitelist.len() == 0 || vec_contains(&self.whitelist, id)) && !vec_contains(
            &self.blacklist,
            id,
        )
    }

    /// Whether a creator is archived, by the white- and blacklist.
    pub fn filter_creator(&self, creator_id: &String) -> (r: bool)
        ensures
            r == listed_ok(*self, creator_id@),
    {
        self.lists_accept(creator_id)
    }

    /// Whether a membership is archived: its campaign id (the last segment of
    /// the campaign URL) passes the lists, and it is not a free membership
    /// while free ones are skipped.
    pub fn filter_member(&self, member: &Member) -> (r: bool)
        ensures
            r == member_ok(*self, *member),
    {
        let id = text_after_last(member.campaign.url.as_str(), '/');
        !(self.skip_free && member.cents() == 0) && self.lists_accept(&id)
    }

    /// Whether a post is archived: the user can view it, and it is not free
    /// while free posts are skipped.
    pub fn filter_post(&self, post: &Post) -> (r: bool)
        ensures
            r == (!(self.skip_free && is_free_spec(*post)) && post.current_user_can_view),
    {
        !(self.skip_free && post.is_free()) && post.current_user_can_view
    }
}

} // verus!
