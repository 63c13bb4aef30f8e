//! A one-slot cache of template groups, keyed by directory.
use crate::rename::{group_of, pairs_view, plan_spec, rename_map};
use crate::templates::{
    copy_groups, groups_view, lemma_template_members_match, templates, templates_spec, TemplateGroup,
};
use crate::trusted::string_views;
use vstd::prelude::*;

verus! {

/// The views of a list of groups, as held by a cache.
pub type GroupsView = Seq<(Seq<char>, Seq<Seq<char>>)>;

/// Holds the template groups computed for the last directory asked for.
pub struct TemplateCache {
    dir: Option<String>,
    groups: Vec<TemplateGroup>,
}

impl View for TemplateCache {
    type V = Option<(Seq<char>, GroupsView)>;

    closed spec fn view(&self) -> Option<(Seq<char>, GroupsView)> {
        match self.dir {
            None => None,
            Some(d) => Some((d@, groups_view(self.groups@))),
        }
    }
}

/// The cache after asking for `dir` with the listing `names`: unchanged when
/// it holds `dir` already, else holding the groups of `names` for `dir`.
pub open spec fn cache_after(
    cache: Option<(Seq<char>, GroupsView)>,
    dir: Seq<char>,
    names: Seq<Seq<char>>,
) -> Option<(Seq<char>, GroupsView)> {
    match cache {
        Some(c) => if c.0 == dir {
            cache
        } else {
            Some((dir, templates_spec(names)))
        },
        None => Some((dir, templates_spec(names))),
    }
}

impl TemplateCache {
    /// An empty cache.
    pub fn new() -> (r: Self)
        ensures
            r@ is None,
    {
        TemplateCache { dir: None, groups: Vec::new() }
    }

    /// The groups held for `dir`, if the cache holds that directory.
    pub fn cached(&self, dir: &String) -> (r: Option<Vec<TemplateGroup>>)
        ensures
            match self@ {
                Some(c) => if c.0 == dir@ {
                    r matches Some(g) && groups_view(g@) == c.1
                } else {
                    r is None
                },
                None => r is None,
            },
    {
        match &self.dir {
            Some(d) => {
                if *d == *dir {
                    Some(copy_groups(&self.groups))
                } else {
                    None
                }
            },
            None => None,
        }
    }

    /// The template groups of `dir`, whose listing is `filenames`: the held
    /// ones when the cache holds `dir`, otherwise computed from the listing
    /// and held in place of the previous directory's.
    pub fn templates_in(&mut self, dir: &String, filenames: &Vec<String>) -> (r: Vec<TemplateGroup>)
        ensures
            final(self)@ == cache_after(old(self)@, dir@, string_views(filenames@)),
            final(self)@ matches Some(c) && groups_view(r@) == c.1,
    {
        match &self.dir {
            Some(d) => {
                if *d == *dir {
                    return copy_groups(&self.groups);
                }
            },
            None => {},
        }
        let groups = templates(filenames);
        let r = copy_groups(&groups);
        self.dir = Some(dir.clone());
        self.groups = groups;
        r
    }

    /// The rename plan for `a` renamed to `b` in `dir`, through the cache.
    /// When the groups were computed afresh and one holds `a`, the plan
    /// renames `a` to exactly `b`.
    pub fn plan_rename(&mut self, dir: &String, filenames: &Vec<String>, a: &String, b: &String) -> (r: Vec<(String, String)>)
        requires
            a@.len() + b@.len() <= usize::MAX,
        ensures
            final(self)@ == cache_after(old(self)@, dir@, string_views(filenames@)),
            final(self)@ matches Some(c) && pairs_view(r@) == plan_spec(c.1, a@, b@),
            old(self)@ != final(self)@ && group_of(templates_spec(string_views(filenames@)), a@) >= 0
                ==> pairs_view(r@).contains((a@, b@)),
    {
        let ghost before = self@;
        let groups = self.templates_in(dir, filenames);
        proof {
            if before != self@ {
                lemma_template_members_match(string_views(filenames@));
            }
        }
        rename_map(&groups, a, b)
    }
}

/// The plan for `a` renamed to `b` after asking the cache for `dir`.
pub open spec fn plan_after(
    cache: Option<(Seq<char>, GroupsView)>,
    dir: Seq<char>,
    names: Seq<Seq<char>>,
    a: Seq<char>,
    b: Seq<char>,
) -> Seq<(Seq<char>, Seq<char>)> {
    plan_spec(held_groups(cache_after(cache, dir, names)), a, b)
}

/// The groups that a cache holds, if any.
pub open spec fn held_groups(cache: Option<(Seq<char>, GroupsView)>) -> GroupsView {
    match cache {
        Some(c) => c.1,
        None => Seq::empty(),
    }
}

/// Planning the same rename twice in a row through the cache gives the same
/// plan: the first call leaves the cache holding the directory, and the
/// second reuses what it holds.
pub proof fn lemma_plan_twice(
    cache: Option<(Seq<char>, GroupsView)>,
    dir: Seq<char>,
    names: Seq<Seq<char>>,
    a: Seq<char>,
    b: Seq<char>,
)
    ensures
        plan_after(cache_after(cache, dir, names), dir, names, a, b) == plan_after(cache, dir, names, a, b),
{
}

} // verus!
