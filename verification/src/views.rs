use crate::bits::{is_solved, solved};
use crate::store::{ChallengeRecord, CtfStore, Team};
use crate::util::clone_strings;
use vstd::prelude::*;
use vstd::string::StrSliceExecFns;

verus! {

/// The read-side queries of the site: the scoreboard ranking and the
/// challenge listing, both recomputed at query time.
///
/// Lexicographic order on byte strings.
pub open spec fn lex_le(a: Seq<u8>, b: Seq<u8>) -> bool
    decreases a.len(),
{
    if a.len() == 0 {
        true
    } else if b.len() == 0 {
        false
    } else if a[0] < b[0] {
        true
    } else if a[0] > b[0] {
        false
    } else {
        lex_le(a.drop_first(), b.drop_first())
    }
}

/// The order is total.
pub proof fn lemma_lex_total(a: Seq<u8>, b: Seq<u8>)
    ensures
        lex_le(a, b) || lex_le(b, a),
    decreases a.len(),
{
    if a.len() > 0 && b.len() > 0 && a[0] == b[0] {
        lemma_lex_total(a.drop_first(), b.drop_first());
    }
}

/// The order is transitive.
pub proof fn lemma_lex_trans(a: Seq<u8>, b: Seq<u8>, c: Seq<u8>)
    requires
        lex_le(a, b),
        lex_le(b, c),
    ensures
        lex_le(a, c),
    decreases a.len(),
{
    if a.len() > 0 && b.len() > 0 && c.len() > 0 && a[0] == b[0] && b[0] == c[0] {
        lemma_lex_trans(a.drop_first(), b.drop_first(), c.drop_first());
    }
}

/// Compare two strings by their bytes.
pub fn str_le(a: &String, b: &String) -> (r: bool)
    ensures
        r == lex_le(vstd::utf8::encode_utf8(a@), vstd::utf8::encode_utf8(b@)),
{
    let av = a.as_str().as_bytes_vec();
    let bv = b.as_str().as_bytes_vec();
    let ghost fa = av@;
    let ghost fb = bv@;
    proof {
        assert(fa.skip(0) =~= fa);
        assert(fb.skip(0) =~= fb);
    }
    let mut i: usize = 0;
    while i < av.len()
        invariant
            av@ == fa,
            bv@ == fb,
            fa == vstd::utf8::encode_utf8(a@),
            fb == vstd::utf8::encode_utf8(b@),
            0 <= i <= fa.len(),
            i <= fb.len(),
            lex_le(fa, fb) == lex_le(fa.skip(i as int), fb.skip(i as int)),
        decreases fa.len() - i,
    {
        if i == bv.len() {
            proof {
                assert(fb.skip(i as int).len() == 0);
                assert(fa.skip(i as int).len() > 0);
            }
            return false;
        }
        let ca = av[i];
        let cb = bv[i];
        proof {
            assert(fa.skip(i as int)[0] == fa[i as int]);
            assert(fb.skip(i as int)[0] == fb[i as int]);
            assert(fa.skip(i as int).drop_first() =~= fa.skip(i + 1));
            assert(fb.skip(i as int).drop_first() =~= fb.skip(i + 1));
        }
        if ca < cb {
            return true;
        }
        if ca > cb {
            return false;
        }
        i += 1;
    }
    proof {
        assert(fa.skip(i as int).len() == 0);
    }
    true
}

/// A seat on the scoreboard: dense 1-based place, team name, solve mask,
/// cached score, and the last-submission instant the tie is broken by.
pub struct ScoreboardRow {
    pub place: usize,
    pub name: String,
    pub solves: u64,
    pub score: u64,
    pub submit: i64,
}

/// What a scoreboard seat shows, as mathematical values.
pub open spec fn row_data(r: ScoreboardRow) -> (Seq<char>, u64, u64, i64) {
    (r.name@, r.solves, r.score, r.submit)
}

pub open spec fn team_data(t: Team) -> (Seq<char>, u64, u64, i64) {
    (t.name@, t.solves, t.score, t.submit)
}

/// The scoreboard order: score descending, ties broken by the earlier
/// last-submission instant.
pub open spec fn board_before(s1: u64, t1: i64, s2: u64, t2: i64) -> bool {
    s1 > s2 || (s1 == s2 && t1 <= t2)
}

/// Inserting anywhere adds one occurrence to the multiset.
proof fn lemma_insert_to_multiset<T>(s: Seq<T>, k: int, x: T)
    requires
        0 <= k <= s.len(),
    ensures
        s.insert(k, x).to_multiset() == s.to_multiset().insert(x),
{
    broadcast use vstd::seq_lib::group_to_multiset_ensures;

    let s2 = s.insert(k, x);
    assert(s2.remove(k) =~= s);
    assert(s2[k] == x);
    assert(s2.to_multiset().remove(x) =~= s.to_multiset());
    assert(s2.contains(x));
    assert(s2.to_multiset().count(x) > 0);
    assert(s2.to_multiset() =~= s.to_multiset().insert(x));
}

impl CtfStore {
    /// Whether the competition has started by `now`. Before the start
    /// instant the challenge listing and the scoreboard are hidden; a
    /// missing start bound leaves them visible.
    pub fn started(&self, now: i64) -> (r: bool)
        ensures
            r == !(self.start_bound() matches Some(s) && now < s),
    {
        match &self.ctf {
            Some(c) => match c.start {
                Some(s) => now >= s,
                None => true,
            },
            None => true,
        }
    }

    /// The scoreboard: every team, ordered by score descending with ties
    /// broken by the earlier last accepted submission, each seat carrying
    /// its dense 1-based place. Callers gate the page on `started`, as
    /// the listing's `available` flag does.
    pub fn scoreboard(&self) -> (r: Vec<ScoreboardRow>)
        requires
            self.wf(),
        ensures
            r@.len() == self.teams@.len(),
            forall|q: int| 0 <= q < r@.len() ==> (#[trigger] r@[q]).place == q + 1,
            forall|q: int, w: int|
                0 <= q < w < r@.len() ==> board_before(
                    (#[trigger] r@[q]).score,
                    r@[q].submit,
                    (#[trigger] r@[w]).score,
                    r@[w].submit,
                ),
            r@.map_values(|x: ScoreboardRow| row_data(x)).to_multiset() == self.teams@.map_values(
                |t: Team| team_data(t),
            ).to_multiset(),
    {
        broadcast use vstd::seq_lib::group_to_multiset_ensures;

        let mut rows: Vec<ScoreboardRow> = Vec::new();
        let mut i: usize = 0;
        while i < self.teams.len()
            invariant
                0 <= i <= self.teams@.len(),
                rows@.len() == i,
                forall|q: int|
                    0 <= q < i ==> row_data(#[trigger] rows@[q]) == team_data(self.teams@[q])
                        && rows@[q].place == 0,
            decreases self.teams@.len() - i,
        {
            let t = &self.teams[i];
            rows.push(
                ScoreboardRow {
                    place: 0,
                    name: t.name.clone(),
                    solves: t.solves,
                    score: t.score,
                    submit: t.submit,
                },
            );
            i += 1;
        }
        proof {
            assert(rows@.map_values(|x: ScoreboardRow| row_data(x)) =~= self.teams@.map_values(
                |t: Team| team_data(t),
            ));
        }
        let ghost whole = rows@.map_values(|x: ScoreboardRow| row_data(x)).to_multiset();
        proof {
            broadcast use vstd::seq_lib::group_to_multiset_ensures;

            assert(whole.len() == self.teams@.len());
        }
        // Insertion sort by the board order.
        let mut sorted: Vec<ScoreboardRow> = Vec::new();
        loop
            invariant
                sorted@.map_values(|x: ScoreboardRow| row_data(x)).to_multiset().add(
                    rows@.map_values(|x: ScoreboardRow| row_data(x)).to_multiset(),
                ) =~= whole,
                forall|q: int, w: int|
                    0 <= q < w < sorted@.len() ==> board_before(
                        (#[trigger] sorted@[q]).score,
                        sorted@[q].submit,
                        (#[trigger] sorted@[w]).score,
                        sorted@[w].submit,
                    ),
            ensures
                rows@.len() == 0,
                sorted@.map_values(|x: ScoreboardRow| row_data(x)).to_multiset().add(
                    rows@.map_values(|x: ScoreboardRow| row_data(x)).to_multiset(),
                ) =~= whole,
                forall|q: int, w: int|
                    0 <= q < w < sorted@.len() ==> board_before(
                        (#[trigger] sorted@[q]).score,
                        sorted@[q].submit,
                        (#[trigger] sorted@[w]).score,
                        sorted@[w].submit,
                    ),
            decreases rows@.len(),
        {
            let ghost rows_pre = rows@;
            let x = match rows.pop() {
                None => {
                    break ;
                },
                Some(x) => x,
            };
            proof {
                broadcast use vstd::seq_lib::group_to_multiset_ensures;

                assert(rows_pre =~= rows@.push(x));
                assert(rows_pre.map_values(|y: ScoreboardRow| row_data(y)) =~= rows@.map_values(
                    |y: ScoreboardRow| row_data(y),
                ).push(row_data(x)));
                assert(rows_pre.map_values(|y: ScoreboardRow| row_data(y)).to_multiset()
                    =~= rows@.map_values(|y: ScoreboardRow| row_data(y)).to_multiset().insert(
                    row_data(x),
                ));
            }
            let mut k: usize = 0;
            loop
                invariant
                    0 <= k <= sorted@.len(),
                    forall|q: int|
                        0 <= q < k ==> board_before(
                            (#[trigger] sorted@[q]).score,
                            sorted@[q].submit,
                            x.score,
                            x.submit,
                        ),
                ensures
                    0 <= k <= sorted@.len(),
                    forall|q: int|
                        0 <= q < k ==> board_before(
                            (#[trigger] sorted@[q]).score,
                            sorted@[q].submit,
                            x.score,
                            x.submit,
                        ),
                    k == sorted@.len() || !board_before(
                        sorted@[k as int].score,
                        sorted@[k as int].submit,
                        x.score,
                        x.submit,
                    ),
                decreases sorted@.len() - k,
            {
                if k >= sorted.len() {
                    break ;
                }
                if !board_before_exec(&sorted[k], &x) {
                    break ;
                }
                k += 1;
            }
            let ghost sorted_pre = sorted@;
            sorted.insert(k, x);
            proof {
                broadcast use vstd::seq_lib::group_to_multiset_ensures;

                lemma_insert_to_multiset(
                    sorted_pre.map_values(|y: ScoreboardRow| row_data(y)),
                    k as int,
                    row_data(x),
                );
                assert(sorted@.map_values(|y: ScoreboardRow| row_data(y)) =~= sorted_pre.map_values(
                    |y: ScoreboardRow| row_data(y),
                ).insert(k as int, row_data(x)));
                let sm = sorted_pre.map_values(|y: ScoreboardRow| row_data(y)).to_multiset();
                let rm = rows@.map_values(|y: ScoreboardRow| row_data(y)).to_multiset();
                assert(sm.insert(row_data(x)).add(rm) =~= sm.add(rm.insert(row_data(x))));
                assert(sorted@.map_values(|y: ScoreboardRow| row_data(y)).to_multiset().add(rm)
                    =~= whole);
                assert forall|q: int, w: int|
                    0 <= q < w < sorted@.len() implies board_before(
                    (#[trigger] sorted@[q]).score,
                    sorted@[q].submit,
                    (#[trigger] sorted@[w]).score,
                    sorted@[w].submit,
                ) by {
                    let oq: int = if q < k {
                        q
                    } else {
                        q - 1
                    };
                    let ow: int = if w < k {
                        w
                    } else {
                        w - 1
                    };
                    if q == k as int {
                        assert(sorted@[q] == x);
                        if k < sorted_pre.len() {
                            assert(!board_before(
                                sorted_pre[k as int].score,
                                sorted_pre[k as int].submit,
                                x.score,
                                x.submit,
                            ));
                        }
                        assert(sorted@[w] == sorted_pre[ow]);
                    } else if w == k as int {
                        assert(sorted@[w] == x);
                        assert(sorted@[q] == sorted_pre[oq]);
                    } else {
                        assert(sorted@[q] == sorted_pre[oq]);
                        assert(sorted@[w] == sorted_pre[ow]);
                    }
                }
            }
        }
        proof {
            broadcast use vstd::multiset::axiom_count_le_len;
            broadcast use vstd::seq_lib::group_to_multiset_ensures;

            let leftover = rows@.map_values(|y: ScoreboardRow| row_data(y)).to_multiset();
            assert(leftover.len() == 0);
            assert(leftover =~= vstd::multiset::Multiset::<(Seq<char>, u64, u64, i64)>::empty());
            assert(sorted@.map_values(|y: ScoreboardRow| row_data(y)).to_multiset() =~= whole);
            assert(sorted@.len() == self.teams@.len());
        }
        // Assign dense places in order.
        let mut result: Vec<ScoreboardRow> = Vec::new();
        let mut q: usize = 0;
        while q < sorted.len()
            invariant
                0 <= q <= sorted@.len(),
                result@.len() == q,
                forall|w: int|
                    0 <= w < q ==> row_data(#[trigger] result@[w]) == row_data(sorted@[w])
                        && result@[w].place == w + 1,
                forall|a: int, b: int|
                    0 <= a < b < sorted@.len() ==> board_before(
                        (#[trigger] sorted@[a]).score,
                        sorted@[a].submit,
                        (#[trigger] sorted@[b]).score,
                        sorted@[b].submit,
                    ),
                sorted@.map_values(|y: ScoreboardRow| row_data(y)).to_multiset() == whole,
            decreases sorted@.len() - q,
        {
            let s = &sorted[q];
            result.push(
                ScoreboardRow {
                    place: q + 1,
                    name: s.name.clone(),
                    solves: s.solves,
                    score: s.score,
                    submit: s.submit,
                },
            );
            q += 1;
        }
        proof {
            assert(result@.map_values(|y: ScoreboardRow| row_data(y)) =~= sorted@.map_values(
                |y: ScoreboardRow| row_data(y),
            ));
        }
        result
    }
}

/// The board order, decided in code.
fn board_before_exec(a: &ScoreboardRow, b: &ScoreboardRow) -> (r: bool)
    ensures
        r == board_before(a.score, a.submit, b.score, b.submit),
{
    a.score > b.score || (a.score == b.score && a.submit <= b.submit)
}

/// One challenge as the listing shows it: the rendered description, the
/// current per-solve worth, and whether the viewing team has solved it.
pub struct ChallengeEntry {
    pub slug: String,
    pub title: String,
    pub author: String,
    pub description: String,
    pub tags: Vec<String>,
    pub solves: u64,
    pub value: u32,
    pub solved: bool,
}

/// What a listing entry shows, as mathematical values.
pub open spec fn entry_data(e: ChallengeEntry) -> (
    Seq<char>,
    Seq<char>,
    Seq<char>,
    Seq<char>,
    Seq<Seq<char>>,
    u64,
    u32,
    bool,
) {
    (
        e.slug@,
        e.title@,
        e.author@,
        e.description@,
        e.tags@.map_values(|s: String| s@),
        e.solves,
        e.value,
        e.solved,
    )
}

/// What a challenge row should show to a viewer holding `mask`.
pub open spec fn listing_data(s: CtfStore, mask: u64, c: ChallengeRecord) -> (
    Seq<char>,
    Seq<char>,
    Seq<char>,
    Seq<char>,
    Seq<Seq<char>>,
    u64,
    u32,
    bool,
) {
    (
        c.slug@,
        c.title@,
        c.author@,
        c.description@,
        c.tags@.map_values(|s: String| s@),
        c.solves,
        s.policy.value_of(c.solves as nat) as u32,
        is_solved(mask, c.id),
    )
}

/// The listing order: cheapest first, ties broken by slug.
pub open spec fn listing_before(v1: u32, s1: Seq<char>, v2: u32, s2: Seq<char>) -> bool {
    v1 < v2 || (v1 == v2 && lex_le(vstd::utf8::encode_utf8(s1), vstd::utf8::encode_utf8(s2)))
}

fn listing_before_exec(a: &ChallengeEntry, b: &ChallengeEntry) -> (r: bool)
    ensures
        r == listing_before(a.value, a.slug@, b.value, b.slug@),
{
    a.value < b.value || (a.value == b.value && str_le(&a.slug, &b.slug))
}

/// The solve mask the viewer sees the listing through: the session team's
/// mask, or an empty mask for a visitor.
pub open spec fn viewer_mask(s: CtfStore, cookie: Seq<char>) -> u64 {
    match s.session_team(cookie) {
        None => 0u64,
        Some(tid) => s.teams@[s.team_index(tid)].solves,
    }
}

/// The challenge listing a viewer sees.
pub struct ChallengeListing {
    /// False before the competition's start instant: the list is hidden.
    pub available: bool,
    /// Whether the cookie resolves to a team; only then may the page show
    /// submission forms.
    pub authenticated: bool,
    pub entries: Vec<ChallengeEntry>,
}

impl CtfStore {
    /// The challenge listing: every enabled challenge with its current
    /// worth and the viewer's solved flag, cheapest first, ties broken by
    /// slug; hidden before the competition starts.
    pub fn challenge_listing(&self, cookie: &String, now: i64) -> (r: ChallengeListing)
        requires
            self.wf(),
            self.ctf is Some,
        ensures
            r.available == !(self.start_bound() matches Some(s) && now < s),
            r.authenticated == (self.session_team(cookie@) is Some),
            !r.available ==> r.entries@.len() == 0,
            r.available ==> r.entries@.map_values(|e: ChallengeEntry| entry_data(e)).to_multiset()
                == self.challenges@.filter(|c: ChallengeRecord| c.enabled).map_values(
                |c: ChallengeRecord| listing_data(*self, viewer_mask(*self, cookie@), c),
            ).to_multiset(),
            forall|q: int, w: int|
                0 <= q < w < r.entries@.len() ==> listing_before(
                    (#[trigger] r.entries@[q]).value,
                    r.entries@[q].slug@,
                    (#[trigger] r.entries@[w]).value,
                    r.entries@[w].slug@,
                ),
    {
        broadcast use vstd::seq_lib::group_to_multiset_ensures;

        let authenticated;
        let mask: u64;
        match self.lookup(cookie) {
            Some(t) => {
                proof {
                    let tid = self.session_team(cookie@)->Some_0;
                    let j = self.team_index(tid);
                    assert(self.teams@[j].id == tid ==> j == t as int);
                }
                authenticated = true;
                mask = self.teams[t].solves;
            },
            None => {
                authenticated = false;
                mask = 0;
            },
        }
        let started = self.started(now);
        if !started {
            return ChallengeListing { available: false, authenticated, entries: Vec::new() };
        }
        let ghost pred = |c: ChallengeRecord| c.enabled;
        let mut entries: Vec<ChallengeEntry> = Vec::new();
        proof {
            assert(entries@.map_values(|e: ChallengeEntry| entry_data(e))
                =~= self.challenges@.take(0).filter(pred).map_values(
                |c: ChallengeRecord| listing_data(*self, mask, c),
            ));
        }
        let mut i: usize = 0;
        while i < self.challenges.len()
            invariant
                self.wf(),
                mask == viewer_mask(*self, cookie@),
                pred == (|c: ChallengeRecord| c.enabled),
                0 <= i <= self.challenges@.len(),
                entries@.map_values(|e: ChallengeEntry| entry_data(e)) == self.challenges@.take(
                    i as int,
                ).filter(pred).map_values(|c: ChallengeRecord| listing_data(*self, mask, c)),
            decreases self.challenges@.len() - i,
        {
            let ghost entries_before = entries@;
            let c = &self.challenges[i];
            if c.enabled {
                let value = self.policy.value(c.solves);
                let entry = ChallengeEntry {
                    slug: c.slug.clone(),
                    title: c.title.clone(),
                    author: c.author.clone(),
                    description: c.description.clone(),
                    tags: clone_strings(&c.tags),
                    solves: c.solves,
                    value,
                    solved: solved(mask, c.id),
                };
                proof {
                    assert(entry_data(entry) =~= listing_data(
                        *self,
                        mask,
                        self.challenges@[i as int],
                    ));
                }
                entries.push(entry);
                proof {
                    reveal_with_fuel(Seq::filter, 2);
                    let next = self.challenges@.take(i + 1);
                    assert(next.drop_last() =~= self.challenges@.take(i as int));
                    assert(next.last() == self.challenges@[i as int]);
                    assert(next.filter(pred) == self.challenges@.take(i as int).filter(pred).push(
                        self.challenges@[i as int],
                    ));
                    assert(entries@ =~= entries_before.push(entry));
                    assert(entries@.map_values(|e: ChallengeEntry| entry_data(e))
                        =~= entries_before.map_values(|e: ChallengeEntry| entry_data(e)).push(
                        entry_data(entry),
                    ));
                    assert(entries@.map_values(|e: ChallengeEntry| entry_data(e)) =~= next.filter(
                        pred,
                    ).map_values(|c: ChallengeRecord| listing_data(*self, mask, c)));
                }
            } else {
                proof {
                    reveal_with_fuel(Seq::filter, 2);
                    let next = self.challenges@.take(i + 1);
                    assert(next.drop_last() =~= self.challenges@.take(i as int));
                    assert(next.last() == self.challenges@[i as int]);
                    assert(next.filter(pred) == self.challenges@.take(i as int).filter(pred));
                    assert(entries@.map_values(|e: ChallengeEntry| entry_data(e)) =~= next.filter(
                        pred,
                    ).map_values(|c: ChallengeRecord| listing_data(*self, mask, c)));
                }
            }
            i += 1;
        }
        proof {
            assert(self.challenges@.take(self.challenges@.len() as int) =~= self.challenges@);
        }
        let ghost whole = entries@.map_values(|e: ChallengeEntry| entry_data(e)).to_multiset();
        // Insertion sort by the listing order.
        let mut sorted: Vec<ChallengeEntry> = Vec::new();
        loop
            invariant
                sorted@.map_values(|e: ChallengeEntry| entry_data(e)).to_multiset().add(
                    entries@.map_values(|e: ChallengeEntry| entry_data(e)).to_multiset(),
                ) =~= whole,
                forall|q: int, w: int|
                    0 <= q < w < sorted@.len() ==> listing_before(
                        (#[trigger] sorted@[q]).value,
                        sorted@[q].slug@,
                        (#[trigger] sorted@[w]).value,
                        sorted@[w].slug@,
                    ),
            ensures
                entries@.len() == 0,
                sorted@.map_values(|e: ChallengeEntry| entry_data(e)).to_multiset().add(
                    entries@.map_values(|e: ChallengeEntry| entry_data(e)).to_multiset(),
                ) =~= whole,
                forall|q: int, w: int|
                    0 <= q < w < sorted@.len() ==> listing_before(
                        (#[trigger] sorted@[q]).value,
                        sorted@[q].slug@,
                        (#[trigger] sorted@[w]).value,
                        sorted@[w].slug@,
                    ),
            decreases entries@.len(),
        {
            let ghost entries_pre = entries@;
            let x = match entries.pop() {
                None => {
                    break ;
                },
                Some(x) => x,
            };
            proof {
                broadcast use vstd::seq_lib::group_to_multiset_ensures;

                assert(entries_pre =~= entries@.push(x));
                assert(entries_pre.map_values(|e: ChallengeEntry| entry_data(e))
                    =~= entries@.map_values(|e: ChallengeEntry| entry_data(e)).push(entry_data(x)));
                assert(entries_pre.map_values(|e: ChallengeEntry| entry_data(e)).to_multiset()
                    =~= entries@.map_values(|e: ChallengeEntry| entry_data(e)).to_multiset().insert(
                    entry_data(x),
                ));
            }
            let mut k: usize = 0;
            loop
                invariant
                    0 <= k <= sorted@.len(),
                    forall|q: int|
                        0 <= q < k ==> listing_before(
                            (#[trigger] sorted@[q]).value,
                            sorted@[q].slug@,
                            x.value,
                            x.slug@,
                        ),
                ensures
                    0 <= k <= sorted@.len(),
                    forall|q: int|
                        0 <= q < k ==> listing_before(
                            (#[trigger] sorted@[q]).value,
                            sorted@[q].slug@,
                            x.value,
                            x.slug@,
                        ),
                    k == sorted@.len() || !listing_before(
                        sorted@[k as int].value,
                        sorted@[k as int].slug@,
                        x.value,
                        x.slug@,
                    ),
                decreases sorted@.len() - k,
            {
                if k >= sorted.len() {
                    break ;
                }
                if !listing_before_exec(&sorted[k], &x) {
                    break ;
                }
                k += 1;
            }
            let ghost sorted_pre = sorted@;
            sorted.insert(k, x);
            proof {
                broadcast use vstd::seq_lib::group_to_multiset_ensures;

                lemma_insert_to_multiset(
                    sorted_pre.map_values(|e: ChallengeEntry| entry_data(e)),
                    k as int,
                    entry_data(x),
                );
                assert(sorted@.map_values(|e: ChallengeEntry| entry_data(e))
                    =~= sorted_pre.map_values(|e: ChallengeEntry| entry_data(e)).insert(
                    k as int,
                    entry_data(x),
                ));
                let sm = sorted_pre.map_values(|e: ChallengeEntry| entry_data(e)).to_multiset();
                let rm = entries@.map_values(|e: ChallengeEntry| entry_data(e)).to_multiset();
                assert(sm.insert(entry_data(x)).add(rm) =~= sm.add(rm.insert(entry_data(x))));
                assert(sorted@.map_values(|e: ChallengeEntry| entry_data(e)).to_multiset().add(rm)
                    =~= whole);
                if k < sorted_pre.len() {
                    lemma_lex_total(
                        vstd::utf8::encode_utf8(sorted_pre[k as int].slug@),
                        vstd::utf8::encode_utf8(x.slug@),
                    );
                }
                assert forall|q: int, w: int|
                    0 <= q < w < sorted@.len() implies listing_before(
                    (#[trigger] sorted@[q]).value,
                    sorted@[q].slug@,
                    (#[trigger] sorted@[w]).value,
                    sorted@[w].slug@,
                ) by {
                    let oq: int = if q < k {
                        q
                    } else {
                        q - 1
                    };
                    let ow: int = if w < k {
                        w
                    } else {
                        w - 1
                    };
                    if q == k as int {
                        assert(sorted@[q] == x);
                        assert(sorted@[w] == sorted_pre[ow]);
                        assert(ow >= k);
                        if ow > k {
                            assert(listing_before(
                                sorted_pre[k as int].value,
                                sorted_pre[k as int].slug@,
                                sorted_pre[ow].value,
                                sorted_pre[ow].slug@,
                            ));
                        }
                        if x.value == sorted_pre[ow].value && !lex_le(
                            vstd::utf8::encode_utf8(x.slug@),
                            vstd::utf8::encode_utf8(sorted_pre[ow].slug@),
                        ) {
                            if ow > k {
                                lemma_lex_trans(
                                    vstd::utf8::encode_utf8(x.slug@),
                                    vstd::utf8::encode_utf8(sorted_pre[k as int].slug@),
                                    vstd::utf8::encode_utf8(sorted_pre[ow].slug@),
                                );
                            }
                        }
                    } else if w == k as int {
                        assert(sorted@[w] == x);
                        assert(sorted@[q] == sorted_pre[oq]);
                    } else {
                        assert(sorted@[q] == sorted_pre[oq]);
                        assert(sorted@[w] == sorted_pre[ow]);
                    }
                }
            }
        }
        proof {
            broadcast use vstd::multiset::axiom_count_le_len;
            broadcast use vstd::seq_lib::group_to_multiset_ensures;

            let leftover = entries@.map_values(|e: ChallengeEntry| entry_data(e)).to_multiset();
            assert(leftover.len() == 0);
            assert(leftover =~= vstd::multiset::Multiset::<
                (Seq<char>, Seq<char>, Seq<char>, Seq<char>, Seq<Seq<char>>, u64, u32, bool),
            >::empty());
            assert(sorted@.map_values(|e: ChallengeEntry| entry_data(e)).to_multiset() =~= whole);
        }
        ChallengeListing { available: true, authenticated, entries: sorted }
    }

    /// The rendered home page, once a competition record is loaded.
    pub fn home_html(&self) -> (r: Option<&String>)
        ensures
            r is Some <==> self.ctf is Some,
            r matches Some(h) ==> self.ctf matches Some(c) && h@ == c.home@,
    {
        match &self.ctf {
            Some(c) => Some(&c.home),
            None => None,
        }
    }

    /// The competition title shown on every page.
    pub fn title(&self) -> (r: Option<&String>)
        ensures
            r is Some <==> self.ctf is Some,
            r matches Some(t) ==> self.ctf matches Some(c) && t@ == c.title@,
    {
        match &self.ctf {
            Some(c) => Some(&c.title),
            None => None,
        }
    }

    /// Whether the cookie resolves to a live session; the page layout
    /// shows the profile and logout links only then.
    pub fn session_active(&self, cookie: &String) -> (r: bool)
        requires
            self.wf(),
        ensures
            r == (self.session_team(cookie@) is Some),
    {
        self.lookup(cookie).is_some()
    }

    /// The logged-in team's name and email, for the profile page.
    pub fn team_profile(&self, cookie: &String) -> (r: Option<(String, String)>)
        requires
            self.wf(),
        ensures
            r is Some <==> self.session_team(cookie@) is Some,
            r matches Some(p) ==> exists|t: int|
                0 <= t < self.teams@.len() && self.session_team(cookie@) == Some(
                    (#[trigger] self.teams@[t]).id,
                ) && p.0@ == self.teams@[t].name@ && p.1@ == self.teams@[t].email@,
    {
        match self.lookup(cookie) {
            Some(t) => Some((self.teams[t].name.clone(), self.teams[t].email.clone())),
            None => None,
        }
    }
}

} // verus!
