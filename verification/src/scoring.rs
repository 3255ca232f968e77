use crate::bits::{is_solved, valid_id};
use crate::policy::ValuePolicy;
use crate::store::{lemma_challenge_capacity, lemma_wf_team_fields, ChallengeRecord, CtfStore, Team};
use crate::timestamp::{check_within_bounds, within_bounds};
use vstd::prelude::*;

verus! {

/// How many of the teams have been credited for the challenge whose id is
/// `id`.
pub open spec fn solver_count(teams: Seq<Team>, id: u32) -> nat
    decreases teams.len(),
{
    if teams.len() == 0 {
        0
    } else {
        solver_count(teams.drop_last(), id) + if is_solved(teams.last().solves, id) {
            1nat
        } else {
            0nat
        }
    }
}

/// No team is credited for a challenge none has a bit for.
pub proof fn lemma_solver_count_zero(teams: Seq<Team>, id: u32)
    requires
        forall|t: int| 0 <= t < teams.len() ==> !is_solved((#[trigger] teams[t]).solves, id),
    ensures
        solver_count(teams, id) == 0,
    decreases teams.len(),
{
    if teams.len() > 0 {
        lemma_solver_count_zero(teams.drop_last(), id);
    }
}

/// Two team sequences that agree on the bit for `id` team for team have
/// the same solver count.
pub proof fn lemma_solver_count_congruent(a: Seq<Team>, b: Seq<Team>, id: u32)
    requires
        a.len() == b.len(),
        forall|t: int|
            0 <= t < a.len() ==> is_solved((#[trigger] a[t]).solves, id) == is_solved(
                (#[trigger] b[t]).solves,
                id,
            ),
    ensures
        solver_count(a, id) == solver_count(b, id),
    decreases a.len(),
{
    if a.len() > 0 {
        lemma_solver_count_congruent(a.drop_last(), b.drop_last(), id);
    }
}

/// Flipping exactly one team's bit for `id` from clear to set raises the
/// solver count by exactly one.
pub proof fn lemma_solver_count_step(a: Seq<Team>, b: Seq<Team>, id: u32, t: int)
    requires
        a.len() == b.len(),
        0 <= t < a.len(),
        !is_solved(a[t].solves, id),
        is_solved(b[t].solves, id),
        forall|j: int|
            0 <= j < a.len() && j != t ==> is_solved((#[trigger] a[j]).solves, id) == is_solved(
                (#[trigger] b[j]).solves,
                id,
            ),
    ensures
        solver_count(b, id) == solver_count(a, id) + 1,
    decreases a.len(),
{
    if t == a.len() - 1 {
        lemma_solver_count_congruent(a.drop_last(), b.drop_last(), id);
    } else {
        lemma_solver_count_step(a.drop_last(), b.drop_last(), id, t);
    }
}

/// The solver count never exceeds the number of teams; a team whose bit
/// is clear keeps it strictly below.
pub proof fn lemma_solver_count_le(teams: Seq<Team>, id: u32)
    ensures
        solver_count(teams, id) <= teams.len(),
    decreases teams.len(),
{
    if teams.len() > 0 {
        lemma_solver_count_le(teams.drop_last(), id);
    }
}

pub proof fn lemma_solver_count_strict(teams: Seq<Team>, id: u32, t: int)
    requires
        0 <= t < teams.len(),
        !is_solved(teams[t].solves, id),
    ensures
        solver_count(teams, id) < teams.len(),
    decreases teams.len(),
{
    if t == teams.len() - 1 {
        lemma_solver_count_le(teams.drop_last(), id);
    } else {
        lemma_solver_count_strict(teams.drop_last(), id, t);
    }
}

/// A team's score: the sum, over the challenge rows its mask credits, of
/// each challenge's current per-solve value.
pub open spec fn score_of(policy: ValuePolicy, challs: Seq<ChallengeRecord>, mask: u64) -> int
    decreases challs.len(),
{
    if challs.len() == 0 {
        0
    } else {
        score_of(policy, challs.drop_last(), mask) + if is_solved(mask, challs.last().id) {
            policy.value_of(challs.last().solves as nat)
        } else {
            0
        }
    }
}

/// A score is bounded by the number of rows times the initial value.
pub proof fn lemma_score_bound(policy: ValuePolicy, challs: Seq<ChallengeRecord>, mask: u64)
    requires
        policy.wf(),
    ensures
        0 <= score_of(policy, challs, mask) <= challs.len() * policy.initial,
    decreases challs.len(),
{
    if challs.len() == 0 {
    } else {
        lemma_score_bound(policy, challs.drop_last(), mask);
        crate::policy::lemma_value_monotone(policy, challs.last().solves as nat, challs.last().solves as nat);
        assert((challs.len() - 1) * policy.initial + policy.initial == challs.len()
            * policy.initial) by (nonlinear_arith);
    }
}

/// An empty mask scores nothing.
pub proof fn lemma_score_of_empty_mask(policy: ValuePolicy, challs: Seq<ChallengeRecord>)
    requires
        forall|c: int| 0 <= c < challs.len() ==> valid_id((#[trigger] challs[c]).id),
    ensures
        score_of(policy, challs, 0u64) == 0,
    decreases challs.len(),
{
    if challs.len() > 0 {
        lemma_score_of_empty_mask(policy, challs.drop_last());
        let id = challs.last().id;
        assert(0u64 & (1u64 << ((id - 1) as u64)) == 0) by (bit_vector);
    }
}

/// Compute a team's score over the challenge rows.
pub fn compute_score(policy: &ValuePolicy, challs: &Vec<ChallengeRecord>, mask: u64) -> (r: u64)
    requires
        policy.wf(),
        challs@.len() <= 64,
        forall|c: int| 0 <= c < challs@.len() ==> valid_id((#[trigger] challs@[c]).id),
    ensures
        r == score_of(*policy, challs@, mask),
{
    let mut acc: u64 = 0;
    let mut i: usize = 0;
    proof {
        assert(challs@.take(0) =~= Seq::<ChallengeRecord>::empty());
    }
    while i < challs.len()
        invariant
            policy.wf(),
            challs@.len() <= 64,
            forall|c: int| 0 <= c < challs@.len() ==> valid_id((#[trigger] challs@[c]).id),
            0 <= i <= challs@.len(),
            acc == score_of(*policy, challs@.take(i as int), mask),
            acc <= i * policy.initial,
        decreases challs@.len() - i,
    {
        proof {
            let next = challs@.take(i + 1);
            assert(next.drop_last() =~= challs@.take(i as int));
            assert(next.last() == challs@[i as int]);
            crate::policy::lemma_value_monotone(*policy, challs@[i as int].solves as nat, challs@[i as int].solves as nat);
            assert(i * policy.initial + policy.initial == (i + 1) * policy.initial)
                by (nonlinear_arith);
            assert((i + 1) * policy.initial <= 64 * policy.initial) by (nonlinear_arith)
                requires
                    0 <= i,
                    i + 1 <= 64,
            ;
        }
        if crate::bits::solved(mask, challs[i].id) {
            acc = acc + (policy.value(challs[i].solves) as u64);
        }
        i += 1;
    }
    proof {
        assert(challs@.take(challs@.len() as int) =~= challs@);
    }
    acc
}

/// Every team's cached score equals the sum of the current values of the
/// challenges its mask credits: the leaderboard is never incrementally
/// stale.
pub open spec fn scores_consistent(s: CtfStore) -> bool {
    forall|t: int|
        0 <= t < s.teams@.len() ==> (#[trigger] s.teams@[t]).score == score_of(
            s.policy,
            s.challenges@,
            s.teams@[t].solves,
        )
}

impl CtfStore {
    /// Recompute every team's score from scratch over the current value
    /// landscape.
    pub fn recompute_scores(&mut self)
        requires
            old(self).wf(),
        ensures
            final(self).wf(),
            final(self).ctf == old(self).ctf,
            final(self).challenges == old(self).challenges,
            final(self).sessions == old(self).sessions,
            final(self).next_id == old(self).next_id,
            final(self).next_team_id == old(self).next_team_id,
            final(self).policy == old(self).policy,
            final(self).teams@.len() == old(self).teams@.len(),
            forall|t: int|
                0 <= t < old(self).teams@.len() ==> (#[trigger] final(self).teams@[t]) == (Team {
                    score: final(self).teams@[t].score,
                    ..old(self).teams@[t]
                }),
            scores_consistent(*final(self)),
    {
        proof {
            lemma_challenge_capacity(*self);
        }
        let mut t: usize = 0;
        while t < self.teams.len()
            invariant
                old(self).wf(),
                self.ctf == old(self).ctf,
                self.challenges == old(self).challenges,
                self.sessions == old(self).sessions,
                self.next_id == old(self).next_id,
                self.next_team_id == old(self).next_team_id,
                self.policy == old(self).policy,
                self.teams@.len() == old(self).teams@.len(),
                0 <= t <= self.teams@.len(),
                forall|j: int|
                    0 <= j < t ==> (#[trigger] self.teams@[j]) == (Team {
                        score: self.teams@[j].score,
                        ..old(self).teams@[j]
                    }),
                forall|j: int|
                    0 <= j < t ==> (#[trigger] self.teams@[j]).score == score_of(
                        self.policy,
                        self.challenges@,
                        self.teams@[j].solves,
                    ),
                forall|j: int|
                    t <= j < self.teams@.len() ==> (#[trigger] self.teams@[j]) == old(
                        self,
                    ).teams@[j],
            decreases self.teams@.len() - t,
        {
            proof {
                lemma_challenge_capacity(*old(self));
            }
            let ghost teams_before = self.teams@;
            let tm = self.teams.remove(t);
            let sc = compute_score(&self.policy, &self.challenges, tm.solves);
            self.teams.insert(t, Team { score: sc, ..tm });
            proof {
                assert(self.teams@ =~= teams_before.update(
                    t as int,
                    (Team { score: sc, ..teams_before[t as int] }),
                ));
            }
            t += 1;
        }
        proof {
            lemma_wf_team_fields(*old(self), *self);
        }
    }

    /// The start bound of the competition record, where one is loaded.
    pub open spec fn start_bound(self) -> Option<i64> {
        match self.ctf {
            Some(c) => c.start,
            None => None,
        }
    }

    pub open spec fn stop_bound(self) -> Option<i64> {
        match self.ctf {
            Some(c) => c.stop,
            None => None,
        }
    }

    /// The index of the team carrying `tid`, where one does.
    pub open spec fn team_index(self, tid: u32) -> int {
        choose|j: int| 0 <= j < self.teams@.len() && (#[trigger] self.teams@[j]).id == tid
    }
}

/// Whether the submission could be credited: some challenge row carries
/// the slug, the guess equals its secret flag, and the team's bit for it
/// is still clear.
pub open spec fn can_credit(s: CtfStore, t: int, slug: Seq<char>, flag: Seq<char>) -> bool {
    exists|c: int|
        0 <= c < s.challenges@.len() && (#[trigger] s.challenges@[c]).slug@ == slug
            && s.challenges@[c].flag@ == flag && !is_solved(
            s.teams@[t].solves,
            s.challenges@[c].id,
        )
}

/// What a credited submission does to the store: the team's bit for the
/// challenge flips from clear to set and no other bit of any team moves,
/// the challenge's solve counter rises by exactly one, the team's last
/// submission instant becomes `now`, and every team's score is recomputed
/// to the new value landscape.
pub open spec fn credited_frame(pre: CtfStore, post: CtfStore, t: int, c: int, now: i64) -> bool {
    let cid = pre.challenges@[c].id;
    &&& post.ctf == pre.ctf
    &&& post.sessions == pre.sessions
    &&& post.next_id == pre.next_id
    &&& post.next_team_id == pre.next_team_id
    &&& post.policy == pre.policy
    &&& post.challenges@.len() == pre.challenges@.len()
    &&& (forall|j: int|
        0 <= j < pre.challenges@.len() && j != c ==> (#[trigger] post.challenges@[j])
            == pre.challenges@[j])
    &&& post.challenges@[c] == (ChallengeRecord {
        solves: (pre.challenges@[c].solves + 1) as u64,
        ..pre.challenges@[c]
    })
    &&& post.teams@.len() == pre.teams@.len()
    &&& (forall|j: int|
        0 <= j < pre.teams@.len() && j != t ==> (#[trigger] post.teams@[j]) == (Team {
            score: post.teams@[j].score,
            ..pre.teams@[j]
        }))
    &&& post.teams@[t] == (Team {
        score: post.teams@[t].score,
        solves: post.teams@[t].solves,
        submit: now,
        ..pre.teams@[t]
    })
    &&& !is_solved(pre.teams@[t].solves, cid)
    &&& is_solved(post.teams@[t].solves, cid)
    &&& (forall|b: u32|
        valid_id(b) && b != cid ==> is_solved(post.teams@[t].solves, b) == is_solved(
            pre.teams@[t].solves,
            b,
        ))
    &&& scores_consistent(post)
}

/// The outcome of one flag submission.
pub enum SubmitOutcome {
    /// The guarded bit-set fired: the team is now credited.
    Credited,
    /// Wrong flag, unknown slug, already solved, or outside the
    /// competition's time bounds; the caller is not told which, and
    /// nothing changed.
    Rejected,
    /// No live session for the cookie; nothing changed.
    Unauthenticated,
}

/// The full behaviour of one submission, as a relation between the store
/// before and after.
pub open spec fn submit_rel(
    pre: CtfStore,
    post: CtfStore,
    cookie: Seq<char>,
    slug: Seq<char>,
    flag: Seq<char>,
    now: i64,
    r: SubmitOutcome,
) -> bool {
    match pre.session_team(cookie) {
        None => r is Unauthenticated && post == pre,
        Some(tid) => {
            if !within_bounds(pre.start_bound(), pre.stop_bound(), now) {
                r is Rejected && post == pre
            } else {
                let t = pre.team_index(tid);
                if can_credit(pre, t, slug, flag) {
                    r is Credited && exists|c: int|
                        0 <= c < pre.challenges@.len() && (#[trigger] pre.challenges@[c]).slug@
                            == slug && pre.challenges@[c].flag@ == flag && !is_solved(
                            pre.teams@[t].solves,
                            pre.challenges@[c].id,
                        ) && credited_frame(pre, post, t, c, now)
                } else {
                    r is Rejected && post == pre
                }
            }
        },
    }
}

impl CtfStore {
    /// Submit a flag guess for a challenge: the single atomic conditional
    /// update of the scoring engine. The team's bit is set only if the
    /// guess equals the challenge's secret flag and the bit is not
    /// already set; on that transition the challenge's solve counter
    /// rises by one and every team's score is recomputed. On any failure
    /// nothing changes, and the caller is not told whether the flag was
    /// wrong or the challenge already solved.
    pub fn submit(&mut self, cookie: &String, slug: &String, flag: &String, now: i64) -> (r:
        SubmitOutcome)
        requires
            old(self).wf(),
            old(self).ctf is Some,
        ensures
            final(self).wf(),
            submit_rel(*old(self), *final(self), cookie@, slug@, flag@, now, r),
    {
        let t = match self.lookup(cookie) {
            None => {
                return SubmitOutcome::Unauthenticated;
            },
            Some(t) => t,
        };
        let (start, stop) = match &self.ctf {
            Some(c) => (c.start, c.stop),
            None => {
                proof {
                    assert(false);
                }
                (None, None)
            },
        };
        if !check_within_bounds(&start, &stop, now) {
            return SubmitOutcome::Rejected;
        }
        proof {
            let tid = self.session_team(cookie@)->Some_0;
            let j = self.team_index(tid);
            assert(self.teams@[j].id == tid ==> j == t as int);
        }
        let c = match self.find_challenge(slug) {
            None => {
                assert(!can_credit(*self, t as int, slug@, flag@));
                return SubmitOutcome::Rejected;
            },
            Some(c) => c,
        };
        if !(self.challenges[c].flag == *flag) {
            proof {
                assert forall|k: int|
                    0 <= k < self.challenges@.len() && (#[trigger] self.challenges@[k]).slug@
                        == slug@ implies self.challenges@[k].flag@ != flag@ by {
                    assert(k == c as int);
                }
            }
            return SubmitOutcome::Rejected;
        }
        let cid = self.challenges[c].id;
        if crate::bits::solved(self.teams[t].solves, cid) {
            proof {
                assert forall|k: int|
                    0 <= k < self.challenges@.len() && (#[trigger] self.challenges@[k]).slug@
                        == slug@ && self.challenges@[k].flag@ == flag@ implies is_solved(
                    self.teams@[t as int].solves,
                    self.challenges@[k].id,
                ) by {
                    assert(k == c as int);
                }
            }
            return SubmitOutcome::Rejected;
        }
        // The guarded conditional update fires: set the bit, stamp the
        // submission instant, bump the counter, and recompute the board.
        let ghost pre = *self;
        let ghost teams_before = self.teams@;
        let tm = self.teams.remove(t);
        let new_mask = crate::bits::set_solved(tm.solves, cid);
        self.teams.insert(t, Team { solves: new_mask, submit: now, ..tm });
        proof {
            assert(self.teams@ =~= teams_before.update(
                t as int,
                (Team { solves: new_mask, submit: now, ..teams_before[t as int] }),
            ));
        }
        let ghost mid_teams = self.teams@;
        let ghost challs_before = self.challenges@;
        let team_count = self.teams.len();
        proof {
            lemma_solver_count_strict(teams_before, cid, t as int);
            assert(self.challenges@[c as int].solves < teams_before.len());
            assert(teams_before.len() == team_count);
        }
        let ch = self.challenges.remove(c);
        let bumped = ChallengeRecord { solves: ch.solves + 1, ..ch };
        self.challenges.insert(c, bumped);
        proof {
            assert(self.challenges@ =~= challs_before.update(c as int, bumped));
            // Re-establish the store invariants for the recomputation.
            assert forall|j: int, b: u32|
                0 <= j < self.teams@.len() && valid_id(b) && #[trigger] is_solved(
                    self.teams@[j].solves,
                    b,
                ) implies b < self.next_id by {
                if j == t as int && b == cid {
                } else {
                    assert(is_solved(pre.teams@[j].solves, b));
                }
            }
            assert forall|k: int| 0 <= k < self.challenges@.len() implies (
            #[trigger] self.challenges@[k]).solves == solver_count(
                self.teams@,
                self.challenges@[k].id,
            ) by {
                assert(pre.challenges@[k].solves == solver_count(
                    pre.teams@,
                    pre.challenges@[k].id,
                ));
                if k == c as int {
                    lemma_solver_count_step(teams_before, mid_teams, cid, t as int);
                } else {
                    assert(pre.challenges@[k].id != cid);
                    lemma_solver_count_congruent(teams_before, mid_teams, pre.challenges@[k].id);
                }
            }
            assert forall|a: int| 0 <= a < self.challenges@.len() implies valid_id(
                (#[trigger] self.challenges@[a]).id,
            ) && self.challenges@[a].id < self.next_id by {
                assert(valid_id(pre.challenges@[a].id) && pre.challenges@[a].id < pre.next_id);
            }
            assert forall|a: int, b2: int| 0 <= a < b2 < self.challenges@.len() implies (
            #[trigger] self.challenges@[a]).id < (#[trigger] self.challenges@[b2]).id by {
                assert(pre.challenges@[a].id < pre.challenges@[b2].id);
            }
            assert forall|a: int, b2: int| 0 <= a < b2 < self.challenges@.len() implies (
            #[trigger] self.challenges@[a]).slug@ != (#[trigger] self.challenges@[b2]).slug@ by {
                assert(pre.challenges@[a].slug@ != pre.challenges@[b2].slug@);
            }
            assert forall|a: int| 0 <= a < self.teams@.len() implies 1 <= (
            #[trigger] self.teams@[a]).id < self.next_team_id by {
                assert(1 <= pre.teams@[a].id < pre.next_team_id);
            }
            assert forall|a: int, b2: int| 0 <= a < b2 < self.teams@.len() implies (
            #[trigger] self.teams@[a]).id < (#[trigger] self.teams@[b2]).id && (
            self.teams@[a]).name@ != (self.teams@[b2]).name@ && (self.teams@[a]).email@ != (
            self.teams@[b2]).email@ by {
                assert(pre.teams@[a].id < pre.teams@[b2].id);
                assert(pre.teams@[a].name@ != pre.teams@[b2].name@);
                assert(pre.teams@[a].email@ != pre.teams@[b2].email@);
            }
            assert forall|i2: int| 0 <= i2 < self.sessions@.len() implies self.has_team_id(
                (#[trigger] self.sessions@[i2]).team,
            ) by {
                assert(pre.has_team_id(pre.sessions@[i2].team));
                let j = choose|j: int|
                    0 <= j < pre.teams@.len() && (#[trigger] pre.teams@[j]).id
                        == pre.sessions@[i2].team;
                assert(self.teams@[j].id == self.sessions@[i2].team);
            }
            assert(self.wf());
        }
        let ghost mid = *self;
        self.recompute_scores();
        proof {
            assert(self.challenges@[c as int] == (ChallengeRecord {
                solves: (pre.challenges@[c as int].solves + 1) as u64,
                ..pre.challenges@[c as int]
            }));
            assert forall|j: int| 0 <= j < pre.teams@.len() && j != t as int implies (
            #[trigger] self.teams@[j]) == (Team {
                score: self.teams@[j].score,
                ..pre.teams@[j]
            }) by {
                assert(self.teams@[j] == (Team { score: self.teams@[j].score, ..mid.teams@[j] }));
                assert(mid.teams@[j] == pre.teams@[j]);
            }
            assert(mid.teams@[t as int] == (Team {
                solves: new_mask,
                submit: now,
                ..pre.teams@[t as int]
            }));
            assert(self.teams@[t as int] == (Team {
                score: self.teams@[t as int].score,
                solves: new_mask,
                submit: now,
                ..pre.teams@[t as int]
            }));
            assert(credited_frame(pre, *self, t as int, c as int, now));
            assert(can_credit(pre, t as int, slug@, flag@));
        }
        SubmitOutcome::Credited
    }
}

/// For every team and challenge, the solved bit transitions from clear to
/// set at most once. Concurrent submissions are serialized by the store's
/// exclusive borrow, so of two correct-flag submissions for the same pair
/// one lands first; this law shows the one landing second is rejected and
/// changes nothing, so the pair is credited exactly once and its solve
/// counter has risen exactly once.
pub proof fn lemma_credit_at_most_once(
    s0: CtfStore,
    s1: CtfStore,
    s2: CtfStore,
    cookie: Seq<char>,
    slug: Seq<char>,
    flag: Seq<char>,
    n1: i64,
    n2: i64,
    r1: SubmitOutcome,
    r2: SubmitOutcome,
)
    requires
        s0.wf(),
        s1.wf(),
        submit_rel(s0, s1, cookie, slug, flag, n1, r1),
        r1 is Credited,
        submit_rel(s1, s2, cookie, slug, flag, n2, r2),
    ensures
        r2 is Rejected,
        s2 == s1,
{
    let tid = s0.session_team(cookie)->Some_0;
    let t = s0.team_index(tid);
    let c = choose|c: int|
        0 <= c < s0.challenges@.len() && (#[trigger] s0.challenges@[c]).slug@ == slug
            && s0.challenges@[c].flag@ == flag && !is_solved(
            s0.teams@[t].solves,
            s0.challenges@[c].id,
        ) && credited_frame(s0, s1, t, c, n1);
    let i = choose|i: int|
        0 <= i < s0.sessions@.len() && (#[trigger] s0.sessions@[i]).cookie@ == cookie;
    assert(s1.sessions@[i].cookie@ == cookie);
    let i1 = choose|i1: int|
        0 <= i1 < s1.sessions@.len() && (#[trigger] s1.sessions@[i1]).cookie@ == cookie;
    assert(i1 == i);
    assert(s1.session_team(cookie) == Some(tid));
    assert(s1.teams@[t].id == tid);
    let t1 = s1.team_index(tid);
    assert(0 <= t1 < s1.teams@.len() && s1.teams@[t1].id == tid);
    assert(t1 == t);
    assert(!can_credit(s1, t, slug, flag)) by {
        if can_credit(s1, t, slug, flag) {
            let c1 = choose|c1: int|
                0 <= c1 < s1.challenges@.len() && (#[trigger] s1.challenges@[c1]).slug@ == slug
                    && s1.challenges@[c1].flag@ == flag && !is_solved(
                    s1.teams@[t].solves,
                    s1.challenges@[c1].id,
                );
            if c1 != c {
                assert(s1.challenges@[c1] == s0.challenges@[c1]);
                assert(s0.challenges@[c1].slug@ != s0.challenges@[c].slug@);
            }
        }
    }
}

/// After every successful submission, every team's cached score equals
/// the sum of the current per-solve values of the challenges it has
/// solved: the leaderboard is never incrementally stale.
pub proof fn lemma_scores_follow_credit(
    pre: CtfStore,
    post: CtfStore,
    cookie: Seq<char>,
    slug: Seq<char>,
    flag: Seq<char>,
    now: i64,
    r: SubmitOutcome,
)
    requires
        submit_rel(pre, post, cookie, slug, flag, now, r),
        r is Credited,
    ensures
        scores_consistent(post),
{
    let tid = pre.session_team(cookie)->Some_0;
    let t = pre.team_index(tid);
    let c = choose|c: int|
        0 <= c < pre.challenges@.len() && (#[trigger] pre.challenges@[c]).slug@ == slug
            && pre.challenges@[c].flag@ == flag && !is_solved(
            pre.teams@[t].solves,
            pre.challenges@[c].id,
        ) && credited_frame(pre, post, t, c, now);
    assert(credited_frame(pre, post, t, c, now));
}

} // verus!
