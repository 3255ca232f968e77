use crate::errors::LoadError;
use crate::render::{md_html_of, render_markdown};
use crate::store::CtfStore;
use crate::timestamp::{parse_rfc3339, rfc3339_secs};
use vstd::prelude::*;

verus! {

/// The competition definition as the organizer wrote it: title, home-page
/// markdown, and optional start and stop instants as RFC 3339 strings.
pub struct CtfDef {
    pub title: String,
    pub home: String,
    pub start: Option<String>,
    pub stop: Option<String>,
}

/// The singleton competition record: the home page rendered to HTML and
/// the bounds parsed to Unix seconds. A missing bound leaves the
/// competition unbounded on that side.
pub struct Ctf {
    pub title: String,
    pub home: String,
    pub start: Option<i64>,
    pub stop: Option<i64>,
}

/// What an optional timestamp string parses to.
pub open spec fn parsed_bound(s: Option<String>) -> Option<i64> {
    match s {
        Some(text) => rfc3339_secs(text@),
        None => None,
    }
}

/// Whether an optional timestamp string is well-formed: either absent or
/// a valid RFC 3339 instant.
pub open spec fn bound_ok(s: Option<String>) -> bool {
    match s {
        Some(text) => rfc3339_secs(text@) is Some,
        None => true,
    }
}

impl Ctf {
    /// Prepare the competition definition for the store: render the home
    /// page and parse the bounds. A malformed timestamp aborts the pass.
    pub fn new(def: &CtfDef) -> (r: Result<Ctf, LoadError>)
        ensures
            match r {
                Ok(c) => {
                    &&& bound_ok(def.start) && bound_ok(def.stop)
                    &&& c.title@ == def.title@
                    &&& c.home@ == md_html_of(def.home@, Map::empty())
                    &&& c.start == parsed_bound(def.start)
                    &&& c.stop == parsed_bound(def.stop)
                },
                Err(e) => {
                    &&& e is BadTimestamp
                    &&& !(bound_ok(def.start) && bound_ok(def.stop))
                },
            },
    {
        let start = match &def.start {
            Some(text) => match parse_rfc3339(text) {
                Some(secs) => Some(secs),
                None => {
                    return Err(LoadError::BadTimestamp);
                },
            },
            None => None,
        };
        let stop = match &def.stop {
            Some(text) => match parse_rfc3339(text) {
                Some(secs) => Some(secs),
                None => {
                    return Err(LoadError::BadTimestamp);
                },
            },
            None => None,
        };
        let empty: Vec<(String, String)> = Vec::new();
        let home = render_markdown(&def.home, &empty);
        Ok(Ctf { title: def.title.clone(), home, start, stop })
    }

    /// Upsert the singleton competition record: after the call the store
    /// holds exactly this competition; nothing else moves.
    pub fn push(&self, store: &mut CtfStore)
        requires
            old(store).wf(),
        ensures
            final(store).wf(),
            final(store).ctf matches Some(c) && c.title == self.title && c.home@ == self.home@
                && c.start == self.start && c.stop == self.stop,
            final(store).challenges == old(store).challenges,
            final(store).teams == old(store).teams,
            final(store).sessions == old(store).sessions,
            final(store).next_id == old(store).next_id,
            final(store).next_team_id == old(store).next_team_id,
            final(store).policy == old(store).policy,
    {
        store.ctf = Some(
            Ctf {
                title: self.title.clone(),
                home: self.home.clone(),
                start: self.start,
                stop: self.stop,
            },
        );
        proof {
            crate::store::lemma_wf_parts(*old(store), *store);
        }
    }
}

} // verus!
