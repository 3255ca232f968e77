use crate::bits::{is_solved, valid_id};
use crate::challenge::{Challenge, ChallengeView};
use crate::scoring::solver_count;
use crate::ctf::Ctf;
use crate::errors::LoadError;
use crate::policy::ValuePolicy;
use crate::util::clone_strings;
use vstd::prelude::*;

verus! {

/// A challenge row of the persistent store. The id is assigned once, on
/// first creation, and never reused: it doubles as the team bitmask's bit
/// position, so it must survive every later edit of the challenge.
pub struct ChallengeRecord {
    pub id: u32,
    pub slug: String,
    pub title: String,
    pub author: String,
    pub description: String,
    pub tags: Vec<String>,
    pub flag: String,
    pub enabled: bool,
    pub solves: u64,
}

/// The fields of a challenge row as mathematical values; what two passes
/// of reconciliation are compared by.
#[verifier::ext_equal]
pub ghost struct RecordView {
    pub id: u32,
    pub slug: Seq<char>,
    pub title: Seq<char>,
    pub author: Seq<char>,
    pub description: Seq<char>,
    pub tags: Seq<Seq<char>>,
    pub flag: Seq<char>,
    pub enabled: bool,
    pub solves: u64,
}

impl View for ChallengeRecord {
    type V = RecordView;

    open spec fn view(&self) -> RecordView {
        RecordView {
            id: self.id,
            slug: self.slug@,
            title: self.title@,
            author: self.author@,
            description: self.description@,
            tags: self.tags@.map_values(|s: String| s@),
            flag: self.flag@,
            enabled: self.enabled,
            solves: self.solves,
        }
    }
}

/// A registered team. `solves` is the 64-bit solve mask; `score` is the
/// derived, cached sum the scoring engine recomputes; `submit` is the
/// instant of the last accepted submission (the registration instant
/// until then).
pub struct Team {
    pub id: u32,
    pub name: String,
    pub email: String,
    pub hash: String,
    pub solves: u64,
    pub score: u64,
    pub submit: i64,
}

/// A bearer session: an opaque cookie owned by one team.
pub struct Session {
    pub cookie: String,
    pub team: u32,
}

/// The views of a sequence of challenge rows.
pub open spec fn rows_of(s: Seq<ChallengeRecord>) -> Seq<RecordView> {
    s.map_values(|c: ChallengeRecord| c@)
}

/// The slugs of a sequence of challenge rows.
pub open spec fn slugs_of(s: Seq<ChallengeRecord>) -> Seq<Seq<char>> {
    s.map_values(|c: ChallengeRecord| c.slug@)
}

/// The persistent store: the singleton competition record, the challenge
/// rows, the teams, and the sessions.
pub struct CtfStore {
    pub ctf: Option<Ctf>,
    pub challenges: Vec<ChallengeRecord>,
    pub teams: Vec<Team>,
    pub sessions: Vec<Session>,
    pub next_id: u32,
    pub next_team_id: u32,
    pub policy: ValuePolicy,
}

impl CtfStore {
    /// Challenge rows carry valid, strictly increasing ids below the
    /// monotone counter, and pairwise distinct slugs.
    pub open spec fn challenges_wf(self) -> bool {
        &&& 1 <= self.next_id <= 65
        &&& forall|i: int|
            0 <= i < self.challenges@.len() ==> valid_id(
                (#[trigger] self.challenges@[i]).id,
            ) && self.challenges@[i].id < self.next_id
        &&& forall|i: int, j: int|
            0 <= i < j < self.challenges@.len() ==> (#[trigger] self.challenges@[i]).id < (
            #[trigger] self.challenges@[j]).id
        &&& forall|i: int, j: int|
            0 <= i < j < self.challenges@.len() ==> (#[trigger] self.challenges@[i]).slug@ != (
            #[trigger] self.challenges@[j]).slug@
    }

    /// Teams carry strictly increasing positive ids below the team
    /// counter, and pairwise distinct names and emails.
    pub open spec fn teams_wf(self) -> bool {
        &&& 1 <= self.next_team_id
        &&& forall|i: int|
            0 <= i < self.teams@.len() ==> 1 <= (#[trigger] self.teams@[i]).id < self.next_team_id
        &&& forall|i: int, j: int|
            0 <= i < j < self.teams@.len() ==> (#[trigger] self.teams@[i]).id < (
            #[trigger] self.teams@[j]).id
        &&& forall|i: int, j: int|
            0 <= i < j < self.teams@.len() ==> (#[trigger] self.teams@[i]).name@ != (
            #[trigger] self.teams@[j]).name@
        &&& forall|i: int, j: int|
            0 <= i < j < self.teams@.len() ==> (#[trigger] self.teams@[i]).email@ != (
            #[trigger] self.teams@[j]).email@
    }

    /// Whether some team carries the id.
    pub open spec fn has_team_id(self, tid: u32) -> bool {
        exists|j: int| 0 <= j < self.teams@.len() && (#[trigger] self.teams@[j]).id == tid
    }

    /// Sessions carry pairwise distinct cookies, each owned by a team
    /// that exists.
    pub open spec fn sessions_wf(self) -> bool {
        &&& forall|i: int, j: int|
            0 <= i < j < self.sessions@.len() ==> (#[trigger] self.sessions@[i]).cookie@ != (
            #[trigger] self.sessions@[j]).cookie@
        &&& forall|i: int|
            0 <= i < self.sessions@.len() ==> self.has_team_id(
                (#[trigger] self.sessions@[i]).team,
            )
    }

    /// No team is credited for an id the monotone counter has not issued.
    pub open spec fn masks_wf(self) -> bool {
        forall|t: int, b: u32|
            0 <= t < self.teams@.len() && valid_id(b) && #[trigger] is_solved(
                self.teams@[t].solves,
                b,
            ) ==> b < self.next_id
    }

    /// Each challenge's cumulative solve counter equals the number of
    /// teams whose mask credits it.
    pub open spec fn counts_wf(self) -> bool {
        forall|c: int|
            0 <= c < self.challenges@.len() ==> (#[trigger] self.challenges@[c]).solves
                == solver_count(self.teams@, self.challenges@[c].id)
    }

    pub open spec fn wf(self) -> bool {
        &&& self.policy.wf()
        &&& self.challenges_wf()
        &&& self.teams_wf()
        &&& self.sessions_wf()
        &&& self.masks_wf()
        &&& self.counts_wf()
    }

    /// The slugs of the challenge rows, in row order.
    pub open spec fn slugs(self) -> Seq<Seq<char>> {
        slugs_of(self.challenges@)
    }

    pub open spec fn has_slug(self, slug: Seq<char>) -> bool {
        exists|i: int|
            0 <= i < self.challenges@.len() && (#[trigger] self.challenges@[i]).slug@ == slug
    }

    /// The challenge rows as mathematical values.
    pub open spec fn rows(self) -> Seq<RecordView> {
        rows_of(self.challenges@)
    }

    /// An empty store, ready for the first reconciliation pass.
    pub fn new_store(policy: ValuePolicy) -> (s: CtfStore)
        requires
            policy.wf(),
        ensures
            s.wf(),
            s.ctf is None,
            s.challenges@ =~= Seq::<ChallengeRecord>::empty(),
            s.teams@ =~= Seq::<Team>::empty(),
            s.sessions@ =~= Seq::<Session>::empty(),
            s.next_id == 1,
            s.next_team_id == 1,
            s.policy == policy,
    {
        CtfStore {
            ctf: None,
            challenges: Vec::new(),
            teams: Vec::new(),
            sessions: Vec::new(),
            next_id: 1,
            next_team_id: 1,
            policy,
        }
    }

    /// The row index holding a slug, where one does.
    pub fn find_challenge(&self, slug: &String) -> (r: Option<usize>)
        ensures
            match r {
                Some(i) => i < self.challenges@.len() && self.challenges@[i as int].slug@ == slug@,
                None => !self.has_slug(slug@),
            },
    {
        let mut i: usize = 0;
        while i < self.challenges.len()
            invariant
                0 <= i <= self.challenges@.len(),
                forall|j: int| 0 <= j < i ==> (#[trigger] self.challenges@[j]).slug@ != slug@,
            decreases self.challenges@.len() - i,
        {
            if self.challenges[i].slug == *slug {
                return Some(i);
            }
            i += 1;
        }
        None
    }

    /// The team index holding an id, where one does.
    pub fn find_team(&self, tid: u32) -> (r: Option<usize>)
        ensures
            match r {
                Some(i) => i < self.teams@.len() && self.teams@[i as int].id == tid,
                None => !self.has_team_id(tid),
            },
    {
        let mut i: usize = 0;
        while i < self.teams.len()
            invariant
                0 <= i <= self.teams@.len(),
                forall|j: int| 0 <= j < i ==> (#[trigger] self.teams@[j]).id != tid,
            decreases self.teams@.len() - i,
        {
            if self.teams[i].id == tid {
                return Some(i);
            }
            i += 1;
        }
        None
    }

    /// Whether a session cookie is live, and for which team.
    pub open spec fn session_team(self, cookie: Seq<char>) -> Option<u32> {
        if exists|i: int|
            0 <= i < self.sessions@.len() && (#[trigger] self.sessions@[i]).cookie@ == cookie {
            let i = choose|i: int|
                0 <= i < self.sessions@.len() && (#[trigger] self.sessions@[i]).cookie@ == cookie;
            Some(self.sessions@[i].team)
        } else {
            None
        }
    }

    /// Resolve a session cookie to the index of the owning team: the
    /// store-backed `lookup` the scoring engine depends on.
    pub fn lookup(&self, cookie: &String) -> (r: Option<usize>)
        requires
            self.wf(),
        ensures
            match r {
                Some(t) => {
                    &&& t < self.teams@.len()
                    &&& self.session_team(cookie@) == Some(self.teams@[t as int].id)
                },
                None => self.session_team(cookie@) is None,
            },
    {
        let mut i: usize = 0;
        while i < self.sessions.len()
            invariant
                self.wf(),
                0 <= i <= self.sessions@.len(),
                forall|j: int| 0 <= j < i ==> (#[trigger] self.sessions@[j]).cookie@ != cookie@,
            decreases self.sessions@.len() - i,
        {
            if self.sessions[i].cookie == *cookie {
                let tid = self.sessions[i].team;
                assert(self.has_team_id(tid));
                let t = self.find_team(tid);
                match t {
                    Some(idx) => {
                        proof {
                            let k = choose|k: int|
                                0 <= k < self.sessions@.len() && (#[trigger] self.sessions@[k]).cookie@
                                    == cookie@;
                            assert(k == i);
                        }
                        return Some(idx);
                    },
                    None => {
                        assert(false);
                    },
                }
            }
            i += 1;
        }
        None
    }
}

/// Team and session well-formedness do not depend on the competition
/// record or the challenge rows.
pub proof fn lemma_wf_people(pre: CtfStore, post: CtfStore)
    requires
        pre.wf(),
        post.teams == pre.teams,
        post.sessions == pre.sessions,
        post.next_team_id == pre.next_team_id,
        post.policy == pre.policy,
    ensures
        post.teams_wf(),
        post.sessions_wf(),
        post.policy.wf(),
{
    assert forall|i: int| 0 <= i < post.sessions@.len() implies post.has_team_id(
        (#[trigger] post.sessions@[i]).team,
    ) by {
        assert(pre.has_team_id(pre.sessions@[i].team));
        let j = choose|j: int|
            0 <= j < pre.teams@.len() && (#[trigger] pre.teams@[j]).id == pre.sessions@[i].team;
        assert(post.teams@[j].id == post.sessions@[i].team);
    }
}

/// Well-formedness does not depend on the competition record: a store that
/// agrees with a well-formed one on everything else is well-formed.
pub proof fn lemma_wf_parts(pre: CtfStore, post: CtfStore)
    requires
        pre.wf(),
        post.challenges == pre.challenges,
        post.teams == pre.teams,
        post.sessions == pre.sessions,
        post.next_id == pre.next_id,
        post.next_team_id == pre.next_team_id,
        post.policy == pre.policy,
    ensures
        post.wf(),
{
    lemma_wf_people(pre, post);
    assert forall|t: int, b: u32|
        0 <= t < post.teams@.len() && valid_id(b) && #[trigger] is_solved(
            post.teams@[t].solves,
            b,
        ) implies b < post.next_id by {
        assert(is_solved(pre.teams@[t].solves, b));
    }
    assert forall|c: int| 0 <= c < post.challenges@.len() implies (
    #[trigger] post.challenges@[c]).solves == solver_count(
        post.teams@,
        post.challenges@[c].id,
    ) by {
        assert(pre.challenges@[c].solves == solver_count(pre.teams@, pre.challenges@[c].id));
    }
}

/// Ids are strictly increasing, so a store can never hold more rows than
/// the bitmask has bits.
proof fn lemma_id_at_least(s: CtfStore, i: int)
    requires
        s.challenges_wf(),
        0 <= i < s.challenges@.len(),
    ensures
        s.challenges@[i].id >= i + 1,
    decreases i,
{
    if i > 0 {
        lemma_id_at_least(s, i - 1);
    }
}

pub proof fn lemma_challenge_capacity(s: CtfStore)
    requires
        s.challenges_wf(),
    ensures
        s.challenges@.len() <= 64,
        forall|i: int| 0 <= i < s.challenges@.len() ==> (#[trigger] s.challenges@[i]).id >= i + 1,
{
    assert forall|i: int| 0 <= i < s.challenges@.len() implies (#[trigger] s.challenges@[i]).id >= i
        + 1 by {
        lemma_id_at_least(s, i);
    }
    if s.challenges@.len() > 64 {
        lemma_id_at_least(s, 64);
        assert(false);
    }
}

/// A store that keeps every team's identity and mask, every challenge
/// row, and every session is well-formed, whatever happened to the cached
/// scores and submission instants.
pub proof fn lemma_wf_team_fields(pre: CtfStore, post: CtfStore)
    requires
        pre.wf(),
        post.challenges == pre.challenges,
        post.sessions == pre.sessions,
        post.next_id == pre.next_id,
        post.next_team_id == pre.next_team_id,
        post.policy == pre.policy,
        post.teams@.len() == pre.teams@.len(),
        forall|t: int|
            0 <= t < pre.teams@.len() ==> (#[trigger] post.teams@[t]).id == pre.teams@[t].id && (
            post.teams@[t]).name@ == pre.teams@[t].name@ && (post.teams@[t]).email@
                == pre.teams@[t].email@ && (post.teams@[t]).solves == pre.teams@[t].solves,
    ensures
        post.wf(),
{
    assert forall|i: int| 0 <= i < post.sessions@.len() implies post.has_team_id(
        (#[trigger] post.sessions@[i]).team,
    ) by {
        assert(pre.has_team_id(pre.sessions@[i].team));
        let j = choose|j: int|
            0 <= j < pre.teams@.len() && (#[trigger] pre.teams@[j]).id == pre.sessions@[i].team;
        assert(post.teams@[j].id == post.sessions@[i].team);
    }
    assert forall|t: int, b: u32|
        0 <= t < post.teams@.len() && valid_id(b) && #[trigger] is_solved(
            post.teams@[t].solves,
            b,
        ) implies b < post.next_id by {
        assert(is_solved(pre.teams@[t].solves, b));
    }
    assert forall|c: int| 0 <= c < post.challenges@.len() implies (
    #[trigger] post.challenges@[c]).solves == solver_count(
        post.teams@,
        post.challenges@[c].id,
    ) by {
        assert(pre.challenges@[c].solves == solver_count(pre.teams@, pre.challenges@[c].id));
        crate::scoring::lemma_solver_count_congruent(
            pre.teams@,
            post.teams@,
            post.challenges@[c].id,
        );
    }
}

/// The row an existing challenge becomes when its definition is re-read:
/// every organizer-authored field is replaced, while the id and the
/// cumulative solve counter survive.
pub open spec fn updated_row(old_row: RecordView, c: ChallengeView) -> RecordView {
    RecordView {
        id: old_row.id,
        solves: old_row.solves,
        slug: c.slug,
        title: c.title,
        author: c.author,
        description: c.description,
        tags: c.tags,
        flag: c.flag,
        enabled: c.enabled,
    }
}

/// The row a newly seen challenge is inserted as: the next sequential id
/// and a zero solve counter.
pub open spec fn fresh_row(c: ChallengeView, id: u32) -> RecordView {
    RecordView {
        id,
        solves: 0,
        slug: c.slug,
        title: c.title,
        author: c.author,
        description: c.description,
        tags: c.tags,
        flag: c.flag,
        enabled: c.enabled,
    }
}

/// What a successful upsert of a prepared challenge does to the rows: an
/// existing row with the same slug is replaced in place, keeping its id
/// and solve counter; a new slug is appended under the next sequential id.
pub open spec fn upsert_ok(pre: CtfStore, post: CtfStore, c: ChallengeView) -> bool {
    if pre.has_slug(c.slug) {
        exists|i: int|
            0 <= i < pre.challenges@.len() && (#[trigger] pre.challenges@[i]).slug@ == c.slug
                && post.rows() == pre.rows().update(i, updated_row(pre.challenges@[i]@, c))
                && post.next_id == pre.next_id
    } else {
        post.rows() == pre.rows().push(fresh_row(c, pre.next_id)) && post.next_id == pre.next_id
            + 1
    }
}

impl Challenge {
    /// Upsert the challenge by slug: an existing row keeps its id and its
    /// cumulative solve counter and takes every other field from this
    /// definition; a new slug is inserted under the next sequential id.
    /// Ids are a monotone counter bounded at the bitmask width: a 65th
    /// challenge is refused.
    pub fn push(&self, store: &mut CtfStore) -> (r: Result<(), LoadError>)
        requires
            old(store).wf(),
        ensures
            final(store).wf(),
            final(store).ctf == old(store).ctf,
            final(store).teams == old(store).teams,
            final(store).sessions == old(store).sessions,
            final(store).next_team_id == old(store).next_team_id,
            final(store).policy == old(store).policy,
            r is Ok == (old(store).has_slug(self.slug@) || old(store).next_id <= 64),
            match r {
                Ok(_) => upsert_ok(*old(store), *final(store), self@),
                Err(e) => {
                    &&& e is Capacity
                    &&& !old(store).has_slug(self.slug@)
                    &&& old(store).next_id == 65
                    &&& *final(store) == *old(store)
                },
            },
    {
        let found = store.find_challenge(&self.slug);
        match found {
            Some(i) => {
                let old_rec = store.challenges.remove(i);
                let rec = ChallengeRecord {
                    id: old_rec.id,
                    solves: old_rec.solves,
                    slug: self.slug.clone(),
                    title: self.title.clone(),
                    author: self.author.clone(),
                    description: self.description.clone(),
                    tags: clone_strings(&self.tags),
                    flag: self.flag.clone(),
                    enabled: self.enabled,
                };
                proof {
                    assert(rec@ =~= updated_row(old(store).challenges@[i as int]@, self@));
                }
                store.challenges.insert(i, rec);
                proof {
                    assert(store.challenges@ =~= old(store).challenges@.update(i as int, rec));
                    assert(store.rows() =~= old(store).rows().update(
                        i as int,
                        updated_row(old(store).challenges@[i as int]@, self@),
                    ));
                    assert(old(store).has_slug(self.slug@));
                    lemma_wf_people(*old(store), *store);
                    assert(store.challenges_wf());
                    assert forall|t: int, b: u32|
                        0 <= t < store.teams@.len() && valid_id(b) && #[trigger] is_solved(
                            store.teams@[t].solves,
                            b,
                        ) implies b < store.next_id by {
                        assert(is_solved(old(store).teams@[t].solves, b));
                    }
                    assert forall|c: int| 0 <= c < store.challenges@.len() implies (
                    #[trigger] store.challenges@[c]).solves == solver_count(
                        store.teams@,
                        store.challenges@[c].id,
                    ) by {
                        assert(old(store).challenges@[c].solves == solver_count(
                            old(store).teams@,
                            old(store).challenges@[c].id,
                        ));
                    }
                }
                Ok(())
            },
            None => {
                if store.next_id <= 64 {
                    let rec = ChallengeRecord {
                        id: store.next_id,
                        solves: 0,
                        slug: self.slug.clone(),
                        title: self.title.clone(),
                        author: self.author.clone(),
                        description: self.description.clone(),
                        tags: clone_strings(&self.tags),
                        flag: self.flag.clone(),
                        enabled: self.enabled,
                    };
                    proof {
                        assert(rec@ =~= fresh_row(self@, old(store).next_id));
                    }
                    store.challenges.push(rec);
                    store.next_id = store.next_id + 1;
                    proof {
                        assert(store.rows() =~= old(store).rows().push(
                            fresh_row(self@, old(store).next_id),
                        ));
                        lemma_wf_people(*old(store), *store);
                        assert(store.challenges_wf());
                        assert forall|t: int, b: u32|
                            0 <= t < store.teams@.len() && valid_id(b) && #[trigger] is_solved(
                                store.teams@[t].solves,
                                b,
                            ) implies b < store.next_id by {
                            assert(is_solved(old(store).teams@[t].solves, b));
                        }
                        assert forall|t: int|
                            0 <= t < store.teams@.len() implies !is_solved(
                                (#[trigger] store.teams@[t]).solves,
                                old(store).next_id,
                            ) by {
                            if is_solved(store.teams@[t].solves, old(store).next_id) {
                                assert(is_solved(old(store).teams@[t].solves, old(store).next_id));
                            }
                        }
                        crate::scoring::lemma_solver_count_zero(store.teams@, old(store).next_id);
                        assert forall|c: int| 0 <= c < store.challenges@.len() implies (
                        #[trigger] store.challenges@[c]).solves == solver_count(
                            store.teams@,
                            store.challenges@[c].id,
                        ) by {
                            if c < old(store).challenges@.len() {
                                assert(old(store).challenges@[c].solves == solver_count(
                                    old(store).teams@,
                                    old(store).challenges@[c].id,
                                ));
                            }
                        }
                    }
                    Ok(())
                } else {
                    Err(LoadError::Capacity)
                }
            },
        }
    }
}

} // verus!
