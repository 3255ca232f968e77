use crate::bits::is_solved;
use crate::scoring::solver_count;
use crate::store::{CtfStore, Session, Team};
use vstd::prelude::*;
use vstd::string::StrSliceExecFns;

verus! {

/// Registration, login, logout and profile editing: competitor
/// self-service over teams and sessions. Password hashing is the
/// caller's concern; the store holds and compares opaque hash strings,
/// and session cookies are minted by the caller.
///
/// Team names are at most 64 printable ASCII characters, space included.
pub open spec fn name_ok(name: Seq<char>) -> bool {
    name.len() <= 64 && forall|i: int|
        0 <= i < name.len() ==> 0x20 <= (#[trigger] name[i]) as u32 <= 0x7e
}

/// Whether a team name is acceptable.
pub fn check_name(name: &String) -> (r: bool)
    ensures
        r == name_ok(name@),
{
    let s = name.as_str();
    let n = s.unicode_len();
    if n > 64 {
        return false;
    }
    let mut i: usize = 0;
    while i < n
        invariant
            s@ == name@,
            n == s@.len(),
            0 <= i <= n,
            forall|j: int| 0 <= j < i ==> 0x20 <= (#[trigger] s@[j]) as u32 <= 0x7e,
        decreases n - i,
    {
        let c = s.get_char(i);
        let u = c as u32;
        if u < 0x20 || u > 0x7e {
            return false;
        }
        i += 1;
    }
    true
}

/// How a registration attempt ended.
pub enum RegisterOutcome {
    /// The team was created.
    Created,
    /// A required field was empty; nothing changed.
    MissingName,
    MissingEmail,
    MissingPassword,
    /// The team name is too long or holds a character outside printable
    /// ASCII; nothing changed.
    InvalidName,
    /// Another team already claimed the name or the email, or no team id
    /// is left to assign; nothing changed.
    Conflict,
}

/// Whether some team claims the name or the email.
pub open spec fn register_conflict(s: CtfStore, name: Seq<char>, email: Seq<char>) -> bool {
    exists|t: int|
        0 <= t < s.teams@.len() && ((#[trigger] s.teams@[t]).name@ == name || s.teams@[t].email@
            == email)
}

impl CtfStore {
    /// Register a team: requires non-empty fields, an acceptable name,
    /// and a name and email no other team claims. The new team starts
    /// with an empty solve mask, a zero score, and the registration
    /// instant as its submission tiebreaker.
    pub fn register(&mut self, name: &String, email: &String, hash: &String, now: i64) -> (r:
        RegisterOutcome)
        requires
            old(self).wf(),
        ensures
            final(self).wf(),
            final(self).ctf == old(self).ctf,
            final(self).challenges == old(self).challenges,
            final(self).sessions == old(self).sessions,
            final(self).next_id == old(self).next_id,
            final(self).policy == old(self).policy,
            r is MissingName <==> name@.len() == 0,
            name@.len() != 0 ==> (r is MissingEmail <==> email@.len() == 0),
            name@.len() != 0 && email@.len() != 0 ==> (r is MissingPassword <==> hash@.len() == 0),
            name@.len() != 0 && email@.len() != 0 && hash@.len() != 0 ==> (r is InvalidName <==> !name_ok(name@)),
            name@.len() != 0 && email@.len() != 0 && hash@.len() != 0 && name_ok(name@) ==> (
            r is Conflict <==> (register_conflict(*old(self), name@, email@) || old(
                self,
            ).next_team_id == u32::MAX)),
            if r is Created {
                &&& final(self).teams@ == old(self).teams@.push(
                    (Team {
                        id: old(self).next_team_id,
                        name: *name,
                        email: *email,
                        hash: *hash,
                        solves: 0,
                        score: 0,
                        submit: now,
                    }),
                )
                &&& final(self).next_team_id == old(self).next_team_id + 1
            } else {
                *final(self) == *old(self)
            },
            r is Created <==> (name@.len() != 0 && email@.len() != 0 && hash@.len() != 0
                && name_ok(name@) && !register_conflict(*old(self), name@, email@) && old(
                self,
            ).next_team_id < u32::MAX),
    {
        if name.as_str().unicode_len() == 0 {
            return RegisterOutcome::MissingName;
        }
        if email.as_str().unicode_len() == 0 {
            return RegisterOutcome::MissingEmail;
        }
        if hash.as_str().unicode_len() == 0 {
            return RegisterOutcome::MissingPassword;
        }
        if !check_name(name) {
            return RegisterOutcome::InvalidName;
        }
        if self.next_team_id == u32::MAX {
            // The id counter is exhausted; refuse rather than wrap and
            // break id uniqueness.
            return RegisterOutcome::Conflict;
        }
        let mut t: usize = 0;
        while t < self.teams.len()
            invariant
                *self == *old(self),
                old(self).wf(),
                name@.len() != 0 && email@.len() != 0 && hash@.len() != 0 && name_ok(name@),
                self.next_team_id < u32::MAX,
                0 <= t <= self.teams@.len(),
                forall|j: int|
                    0 <= j < t ==> (#[trigger] self.teams@[j]).name@ != name@
                        && self.teams@[j].email@ != email@,
            decreases self.teams@.len() - t,
        {
            if self.teams[t].name == *name || self.teams[t].email == *email {
                return RegisterOutcome::Conflict;
            }
            t += 1;
        }
        let ghost pre = *self;
        let team = Team {
            id: self.next_team_id,
            name: name.clone(),
            email: email.clone(),
            hash: hash.clone(),
            solves: 0,
            score: 0,
            submit: now,
        };
        self.teams.push(team);
        self.next_team_id = self.next_team_id + 1;
        proof {
            assert(self.teams@ =~= pre.teams@.push(team));
            assert(forall|b: u64| #[trigger] (0u64 & (1u64 << b)) == 0) by (bit_vector);
            assert forall|i2: int| 0 <= i2 < self.sessions@.len() implies self.has_team_id(
                (#[trigger] self.sessions@[i2]).team,
            ) by {
                assert(pre.has_team_id(pre.sessions@[i2].team));
                let j = choose|j: int|
                    0 <= j < pre.teams@.len() && (#[trigger] pre.teams@[j]).id
                        == pre.sessions@[i2].team;
                assert(self.teams@[j].id == self.sessions@[i2].team);
            }
            assert forall|t2: int, b: u32|
                0 <= t2 < self.teams@.len() && crate::bits::valid_id(b) && #[trigger] is_solved(
                    self.teams@[t2].solves,
                    b,
                ) implies b < self.next_id by {
                if t2 < pre.teams@.len() {
                    assert(is_solved(pre.teams@[t2].solves, b));
                } else {
                    assert(self.teams@[t2].solves == 0u64);
                    assert(0u64 & (1u64 << ((b - 1) as u64)) == 0);
                }
            }
            assert forall|c: int| 0 <= c < self.challenges@.len() implies (
            #[trigger] self.challenges@[c]).solves == solver_count(
                self.teams@,
                self.challenges@[c].id,
            ) by {
                assert(pre.challenges@[c].solves == solver_count(
                    pre.teams@,
                    pre.challenges@[c].id,
                ));
                assert(self.teams@.drop_last() =~= pre.teams@);
                assert(0u64 & (1u64 << ((self.challenges@[c].id - 1) as u64)) == 0);
            }
        }
        RegisterOutcome::Created
    }
}

/// How a login attempt ended.
pub enum LoginOutcome {
    /// A session was created under the caller's cookie.
    LoggedIn,
    /// A required field was empty; nothing changed.
    MissingName,
    MissingPassword,
    /// No team matches the name and password hash; nothing changed, and
    /// which of the two was wrong is not revealed.
    BadCredentials,
    /// The caller-minted cookie is already in use; nothing changed.
    TokenTaken,
}

impl CtfStore {
    /// Log a team in: against a matching name and password hash, record a
    /// session under the caller-minted cookie.
    pub fn login(&mut self, name: &String, hash: &String, cookie: &String) -> (r: LoginOutcome)
        requires
            old(self).wf(),
        ensures
            final(self).wf(),
            final(self).ctf == old(self).ctf,
            final(self).challenges == old(self).challenges,
            final(self).teams == old(self).teams,
            final(self).next_id == old(self).next_id,
            final(self).next_team_id == old(self).next_team_id,
            final(self).policy == old(self).policy,
            r is MissingName <==> name@.len() == 0,
            name@.len() != 0 ==> (r is MissingPassword <==> hash@.len() == 0),
            name@.len() != 0 && hash@.len() != 0 ==> (r is BadCredentials <==> !(exists|t: int|
                0 <= t < old(self).teams@.len() && (#[trigger] old(self).teams@[t]).name@ == name@
                    && old(self).teams@[t].hash@ == hash@)),
            r is TokenTaken ==> old(self).session_team(cookie@) is Some,
            if r is LoggedIn {
                &&& old(self).session_team(cookie@) is None
                &&& exists|t: int|
                    0 <= t < old(self).teams@.len() && (#[trigger] old(self).teams@[t]).name@
                        == name@ && old(self).teams@[t].hash@ == hash@ && final(self).sessions@
                        == old(self).sessions@.push(
                        (Session { cookie: *cookie, team: old(self).teams@[t].id }),
                    )
            } else {
                *final(self) == *old(self)
            },
    {
        if name.as_str().unicode_len() == 0 {
            return LoginOutcome::MissingName;
        }
        if hash.as_str().unicode_len() == 0 {
            return LoginOutcome::MissingPassword;
        }
        let mut t: usize = 0;
        let mut found: Option<usize> = None;
        while t < self.teams.len()
            invariant
                *self == *old(self),
                0 <= t <= self.teams@.len(),
                match found {
                    Some(f) => f < t && f < self.teams@.len() && self.teams@[f as int].name@
                        == name@ && self.teams@[f as int].hash@ == hash@,
                    None => forall|j: int|
                        0 <= j < t ==> !((#[trigger] self.teams@[j]).name@ == name@
                            && self.teams@[j].hash@ == hash@),
                },
            decreases self.teams@.len() - t,
        {
            if found.is_none() && self.teams[t].name == *name && self.teams[t].hash == *hash {
                found = Some(t);
            }
            t += 1;
        }
        let f = match found {
            None => {
                return LoginOutcome::BadCredentials;
            },
            Some(f) => f,
        };
        let mut s: usize = 0;
        while s < self.sessions.len()
            invariant
                *self == *old(self),
                old(self).wf(),
                name@.len() != 0 && hash@.len() != 0,
                f < self.teams@.len() && self.teams@[f as int].name@ == name@
                    && self.teams@[f as int].hash@ == hash@,
                0 <= s <= self.sessions@.len(),
                forall|j: int| 0 <= j < s ==> (#[trigger] self.sessions@[j]).cookie@ != cookie@,
            decreases self.sessions@.len() - s,
        {
            if self.sessions[s].cookie == *cookie {
                proof {
                    let k = choose|k: int|
                        0 <= k < self.sessions@.len() && (#[trigger] self.sessions@[k]).cookie@
                            == cookie@;
                    assert(k == s);
                }
                return LoginOutcome::TokenTaken;
            }
            s += 1;
        }
        let ghost pre = *self;
        let tid = self.teams[f].id;
        self.sessions.push(Session { cookie: cookie.clone(), team: tid });
        proof {
            assert(self.sessions@ =~= pre.sessions@.push(
                (Session { cookie: *cookie, team: tid }),
            ));
            assert forall|i2: int| 0 <= i2 < self.sessions@.len() implies self.has_team_id(
                (#[trigger] self.sessions@[i2]).team,
            ) by {
                if i2 < pre.sessions@.len() {
                    assert(pre.has_team_id(pre.sessions@[i2].team));
                    let j = choose|j: int|
                        0 <= j < pre.teams@.len() && (#[trigger] pre.teams@[j]).id
                            == pre.sessions@[i2].team;
                    assert(self.teams@[j].id == self.sessions@[i2].team);
                } else {
                    assert(self.teams@[f as int].id == tid);
                }
            }
            assert(pre.session_team(cookie@) is None);
        }
        LoginOutcome::LoggedIn
    }

    /// Log a session out: its cookie stops resolving; an unknown cookie
    /// is a no-op, as in the underlying delete.
    pub fn logout(&mut self, cookie: &String)
        requires
            old(self).wf(),
        ensures
            final(self).wf(),
            final(self).ctf == old(self).ctf,
            final(self).challenges == old(self).challenges,
            final(self).teams == old(self).teams,
            final(self).next_id == old(self).next_id,
            final(self).next_team_id == old(self).next_team_id,
            final(self).policy == old(self).policy,
            final(self).session_team(cookie@) is None,
            old(self).session_team(cookie@) is None ==> *final(self) == *old(self),
            old(self).session_team(cookie@) is Some ==> exists|i: int|
                0 <= i < old(self).sessions@.len() && (#[trigger] old(self).sessions@[i]).cookie@
                    == cookie@ && final(self).sessions@ == old(self).sessions@.remove(i),
    {
        let mut s: usize = 0;
        while s < self.sessions.len()
            invariant
                *self == *old(self),
                old(self).wf(),
                0 <= s <= self.sessions@.len(),
                forall|j: int| 0 <= j < s ==> (#[trigger] self.sessions@[j]).cookie@ != cookie@,
            decreases self.sessions@.len() - s,
        {
            if self.sessions[s].cookie == *cookie {
                let ghost pre = *self;
                self.sessions.remove(s);
                proof {
                    assert forall|i2: int| 0 <= i2 < self.sessions@.len() implies self.has_team_id(
                        (#[trigger] self.sessions@[i2]).team,
                    ) by {
                        let orig: int = if i2 < s {
                            i2
                        } else {
                            i2 + 1
                        };
                        assert(self.sessions@[i2] == pre.sessions@[orig]);
                        assert(pre.has_team_id(pre.sessions@[orig].team));
                        let j = choose|j: int|
                            0 <= j < pre.teams@.len() && (#[trigger] pre.teams@[j]).id
                                == pre.sessions@[orig].team;
                        assert(self.teams@[j].id == self.sessions@[i2].team);
                    }
                    assert forall|a: int, b: int|
                        0 <= a < b < self.sessions@.len() implies (
                    #[trigger] self.sessions@[a]).cookie@ != (
                    #[trigger] self.sessions@[b]).cookie@ by {
                        let oa: int = if a < s {
                            a
                        } else {
                            a + 1
                        };
                        let ob: int = if b < s {
                            b
                        } else {
                            b + 1
                        };
                        assert(self.sessions@[a] == pre.sessions@[oa]);
                        assert(self.sessions@[b] == pre.sessions@[ob]);
                    }
                    assert forall|j: int|
                        0 <= j < self.sessions@.len() implies (
                    #[trigger] self.sessions@[j]).cookie@ != cookie@ by {
                        let orig: int = if j < s {
                            j
                        } else {
                            j + 1
                        };
                        assert(self.sessions@[j] == pre.sessions@[orig]);
                        if orig > s {
                            assert(pre.sessions@[s as int].cookie@ == cookie@);
                        }
                    }
                    let k = choose|k: int|
                        0 <= k < pre.sessions@.len() && (#[trigger] pre.sessions@[k]).cookie@
                            == cookie@;
                    assert(k == s);
                }
                return ;
            }
            s += 1;
        }
    }
}

/// Whether the cookie resolves to a team whose stored hash equals the
/// submitted current-password hash: the sole authority for a profile
/// edit.
pub open spec fn profile_authorized(s: CtfStore, cookie: Seq<char>, current: Seq<char>) -> bool {
    match s.session_team(cookie) {
        None => false,
        Some(tid) => s.teams@[s.team_index(tid)].hash@ == current,
    }
}

/// Whether a team other than the session's own already claims the email.
pub open spec fn other_claims_email(s: CtfStore, cookie: Seq<char>, email: Seq<char>) -> bool {
    match s.session_team(cookie) {
        None => false,
        Some(tid) => exists|j: int|
            0 <= j < s.teams@.len() && j != s.team_index(tid) && (#[trigger] s.teams@[j]).email@
                == email,
    }
}

/// How a profile edit ended.
pub enum ProfileOutcome {
    /// The email, and the password where a new one was given, were
    /// updated.
    Updated,
    /// The email field was empty; nothing changed.
    MissingEmail,
    /// The current-password field was empty; nothing changed.
    MissingCurrentPassword,
    /// No live session, or the current password does not match; nothing
    /// changed, and which of the two is not revealed.
    Unauthorized,
    /// Another team already claims the email; nothing changed.
    Conflict,
}

impl CtfStore {
    /// Update the logged-in team's email, and its password where a
    /// non-empty new hash is given; the current password hash must match.
    pub fn update_profile(
        &mut self,
        cookie: &String,
        email: &String,
        new_hash: &String,
        current_hash: &String,
    ) -> (r: ProfileOutcome)
        requires
            old(self).wf(),
        ensures
            final(self).wf(),
            final(self).ctf == old(self).ctf,
            final(self).challenges == old(self).challenges,
            final(self).sessions == old(self).sessions,
            final(self).next_id == old(self).next_id,
            final(self).next_team_id == old(self).next_team_id,
            final(self).policy == old(self).policy,
            r is MissingEmail <==> email@.len() == 0,
            email@.len() != 0 ==> (r is MissingCurrentPassword <==> current_hash@.len() == 0),
            !(r is Updated) ==> *final(self) == *old(self),
            r is Updated ==> exists|t: int|
                0 <= t < old(self).teams@.len() && old(self).session_team(cookie@) == Some(
                    (#[trigger] old(self).teams@[t]).id,
                ) && old(self).teams@[t].hash@ == current_hash@ && final(self).teams@ == old(
                    self,
                ).teams@.update(
                    t,
                    (Team {
                        email: *email,
                        hash: if new_hash@.len() == 0 {
                            old(self).teams@[t].hash
                        } else {
                            *new_hash
                        },
                        ..old(self).teams@[t]
                    }),
                ),
            email@.len() != 0 && current_hash@.len() != 0 ==> (r is Unauthorized
                <==> !profile_authorized(*old(self), cookie@, current_hash@)),
            email@.len() != 0 && current_hash@.len() != 0 && profile_authorized(
                *old(self),
                cookie@,
                current_hash@,
            ) ==> (r is Conflict <==> other_claims_email(*old(self), cookie@, email@)),
            r is Updated <==> (email@.len() != 0 && current_hash@.len() != 0 && profile_authorized(
                *old(self),
                cookie@,
                current_hash@,
            ) && !other_claims_email(*old(self), cookie@, email@)),
    {
        if email.as_str().unicode_len() == 0 {
            return ProfileOutcome::MissingEmail;
        }
        if current_hash.as_str().unicode_len() == 0 {
            return ProfileOutcome::MissingCurrentPassword;
        }
        let t = match self.lookup(cookie) {
            None => {
                return ProfileOutcome::Unauthorized;
            },
            Some(t) => t,
        };
        proof {
            let tid = self.session_team(cookie@)->Some_0;
            assert(self.teams@[t as int].id == tid);
            let j2 = self.team_index(tid);
            assert(0 <= j2 < self.teams@.len() && self.teams@[j2].id == tid);
            assert(j2 == t as int);
        }
        if !(self.teams[t].hash == *current_hash) {
            return ProfileOutcome::Unauthorized;
        }
        let mut j: usize = 0;
        while j < self.teams.len()
            invariant
                *self == *old(self),
                old(self).wf(),
                email@.len() != 0 && current_hash@.len() != 0,
                t < self.teams@.len(),
                old(self).session_team(cookie@) == Some(self.teams@[t as int].id),
                t as int == old(self).team_index(old(self).session_team(cookie@)->Some_0),
                self.teams@[t as int].hash@ == current_hash@,
                0 <= j <= self.teams@.len(),
                forall|q: int|
                    0 <= q < j && q != t ==> (#[trigger] self.teams@[q]).email@ != email@,
            decreases self.teams@.len() - j,
        {
            if j != t && self.teams[j].email == *email {
                assert(other_claims_email(*old(self), cookie@, email@));
                return ProfileOutcome::Conflict;
            }
            j += 1;
        }
        assert(!other_claims_email(*old(self), cookie@, email@));
        let ghost pre = *self;
        let old_team = self.teams.remove(t);
        let keep_password = new_hash.as_str().unicode_len() == 0;
        let updated = if keep_password {
            Team { email: email.clone(), ..old_team }
        } else {
            Team { email: email.clone(), hash: new_hash.clone(), ..old_team }
        };
        self.teams.insert(t, updated);
        proof {
            assert(self.teams@ =~= pre.teams@.update(t as int, updated));
            assert forall|i2: int| 0 <= i2 < self.sessions@.len() implies self.has_team_id(
                (#[trigger] self.sessions@[i2]).team,
            ) by {
                assert(pre.has_team_id(pre.sessions@[i2].team));
                let w = choose|w: int|
                    0 <= w < pre.teams@.len() && (#[trigger] pre.teams@[w]).id
                        == pre.sessions@[i2].team;
                assert(self.teams@[w].id == self.sessions@[i2].team);
            }
            assert forall|a: int, b: int|
                0 <= a < b < self.teams@.len() implies (#[trigger] self.teams@[a]).id < (
            #[trigger] self.teams@[b]).id && (self.teams@[a]).name@ != (self.teams@[b]).name@ && (
            self.teams@[a]).email@ != (self.teams@[b]).email@ by {
                assert(pre.teams@[a].id < pre.teams@[b].id);
                assert(pre.teams@[a].name@ != pre.teams@[b].name@);
                assert(pre.teams@[a].email@ != pre.teams@[b].email@);
            }
            assert forall|a: int| 0 <= a < self.teams@.len() implies 1 <= (
            #[trigger] self.teams@[a]).id < self.next_team_id by {
                assert(1 <= pre.teams@[a].id < pre.next_team_id);
            }
            assert forall|t2: int, b: u32|
                0 <= t2 < self.teams@.len() && crate::bits::valid_id(b) && #[trigger] is_solved(
                    self.teams@[t2].solves,
                    b,
                ) implies b < self.next_id by {
                assert(is_solved(pre.teams@[t2].solves, b));
            }
            assert forall|c: int| 0 <= c < self.challenges@.len() implies (
            #[trigger] self.challenges@[c]).solves == solver_count(
                self.teams@,
                self.challenges@[c].id,
            ) by {
                assert(pre.challenges@[c].solves == solver_count(
                    pre.teams@,
                    pre.challenges@[c].id,
                ));
                crate::scoring::lemma_solver_count_congruent(
                    pre.teams@,
                    self.teams@,
                    self.challenges@[c].id,
                );
            }
        }
        ProfileOutcome::Updated
    }
}

} // verus!
