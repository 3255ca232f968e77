use crate::assets::{names_of, sweep_plan};
use crate::challenge::{
    asset_links, def_assets, AssetPlanView, Challenge, ChallengeDef, ChallengeView, StoredAsset,
};
use crate::ctf::{bound_ok, parsed_bound, Ctf, CtfDef};
use crate::errors::LoadError;
use crate::render::md_html_of;
use crate::store::{
    fresh_row, lemma_wf_people, rows_of, updated_row, ChallengeRecord, CtfStore, RecordView,
};
use crate::util::clone_strings;
use vstd::prelude::*;

verus! {

/// Everything one reconciliation pass reads from the organizer's
/// repository: the competition definition, every challenge definition
/// found in a subdirectory, and the asset directories currently on disk.
pub struct RepoSnapshot {
    pub ctf: CtfDef,
    pub challenges: Vec<ChallengeDef>,
    pub asset_dirs: Vec<String>,
}

/// The filesystem work a successful pass asks for: files to place into
/// the asset store, and stale asset directories to delete.
pub struct ReconcilePlan {
    pub stored: Vec<StoredAsset>,
    pub removed: Vec<String>,
}

/// The view a definition renders to: description converted to HTML with
/// attachment links rewritten, everything else carried over.
pub open spec fn rendered_view(d: ChallengeDef) -> ChallengeView {
    ChallengeView {
        slug: d.slug@,
        title: d.title@,
        author: d.author@,
        description: md_html_of(d.description@, asset_links(d.files@)),
        tags: d.tags@.map_values(|s: String| s@),
        files: d.files@.map_values(|f: crate::challenge::AssetFile| f.name@),
        flag: d.flag@,
        enabled: d.enabled,
    }
}

/// Whether some definition in the pass carries the slug.
pub open spec fn has_def(defs: Seq<ChallengeDef>, slug: Seq<char>) -> bool {
    exists|k: int| 0 <= k < defs.len() && (#[trigger] defs[k]).slug@ == slug
}

/// The index of the definition carrying the slug, where one does.
pub open spec fn def_index(defs: Seq<ChallengeDef>, slug: Seq<char>) -> int {
    choose|k: int| 0 <= k < defs.len() && (#[trigger] defs[k]).slug@ == slug
}

/// Whether the definitions carry pairwise distinct slugs.
pub open spec fn defs_distinct(defs: Seq<ChallengeDef>) -> bool {
    forall|i: int, j: int|
        0 <= i < j < defs.len() ==> (#[trigger] defs[i]).slug@ != (#[trigger] defs[j]).slug@
}

/// The definitions whose slug the store has not seen: the challenges this
/// pass will insert, in definition order.
pub open spec fn new_defs(defs: Seq<ChallengeDef>, slugs: Seq<Seq<char>>) -> Seq<ChallengeDef> {
    defs.filter(|d: ChallengeDef| !slugs.contains(d.slug@))
}

/// The rows that survive the pass: every existing row whose slug is still
/// defined, in store order, updated in place from its definition; rows
/// whose slug is gone are dropped.
pub open spec fn surviving_rows(rows: Seq<RecordView>, defs: Seq<ChallengeDef>) -> Seq<RecordView>
    decreases rows.len(),
{
    if rows.len() == 0 {
        Seq::empty()
    } else {
        let rest = surviving_rows(rows.drop_last(), defs);
        let r = rows.last();
        if has_def(defs, r.slug) {
            rest.push(updated_row(r, rendered_view(defs[def_index(defs, r.slug)])))
        } else {
            rest
        }
    }
}

/// The rows the pass inserts for definitions the store has not seen:
/// sequential ids from `start_id` on, zero solves.
pub open spec fn fresh_rows(news: Seq<ChallengeDef>, start_id: int) -> Seq<RecordView>
    decreases news.len(),
{
    if news.len() == 0 {
        Seq::empty()
    } else {
        fresh_rows(news.drop_last(), start_id).push(
            fresh_row(rendered_view(news.last()), (start_id + news.len() - 1) as u32),
        )
    }
}

/// Every asset copy the pass plans, over all definitions in order.
pub open spec fn planned_assets(defs: Seq<ChallengeDef>) -> Seq<AssetPlanView>
    decreases defs.len(),
{
    if defs.len() == 0 {
        Seq::empty()
    } else {
        planned_assets(defs.drop_last()) + def_assets(defs.last().files@)
    }
}

/// The content keys the pass keeps alive.
pub open spec fn all_keys(defs: Seq<ChallengeDef>) -> Seq<Seq<char>> {
    planned_assets(defs).map_values(|a: AssetPlanView| a.hash)
}

/// When a pass commits: well-formed timestamps, pairwise distinct slugs,
/// and room under the bitmask width for every newly seen challenge.
pub open spec fn load_ok(pre: CtfStore, ctf_def: CtfDef, defs: Seq<ChallengeDef>) -> bool {
    &&& bound_ok(ctf_def.start) && bound_ok(ctf_def.stop)
    &&& defs_distinct(defs)
    &&& pre.next_id + new_defs(defs, pre.slugs()).len() <= 65
}

/// The definition index holding a slug, where one does.
fn find_def(defs: &Vec<ChallengeDef>, slug: &String) -> (r: Option<usize>)
    ensures
        match r {
            Some(k) => k < defs@.len() && defs@[k as int].slug@ == slug@,
            None => !has_def(defs@, slug@),
        },
{
    let mut k: usize = 0;
    while k < defs.len()
        invariant
            0 <= k <= defs@.len(),
            forall|j: int| 0 <= j < k ==> (#[trigger] defs@[j]).slug@ != slug@,
        decreases defs@.len() - k,
    {
        if defs[k].slug == *slug {
            return Some(k);
        }
        k += 1;
    }
    None
}

/// The definitions whose slug the store already holds: the challenges a
/// pass updates in place rather than inserts.
pub open spec fn matched_defs(defs: Seq<ChallengeDef>, slugs: Seq<Seq<char>>) -> Seq<ChallengeDef> {
    defs.filter(|d: ChallengeDef| slugs.contains(d.slug@))
}

/// Newly seen and already-held definitions partition the pass.
proof fn lemma_split_counts(defs: Seq<ChallengeDef>, slugs: Seq<Seq<char>>)
    ensures
        new_defs(defs, slugs).len() + matched_defs(defs, slugs).len() == defs.len(),
    decreases defs.len(),
{
    reveal_with_fuel(Seq::filter, 2);
    if defs.len() > 0 {
        lemma_split_counts(defs.drop_last(), slugs);
    }
}

/// The already-held definitions come from the pass and carry pairwise
/// distinct slugs.
proof fn lemma_matched_facts(defs: Seq<ChallengeDef>, slugs: Seq<Seq<char>>)
    requires
        defs_distinct(defs),
    ensures
        forall|q: int|
            0 <= q < matched_defs(defs, slugs).len() ==> defs.contains(
                #[trigger] matched_defs(defs, slugs)[q],
            ),
        forall|q: int, w: int|
            0 <= q < w < matched_defs(defs, slugs).len() ==> (#[trigger] matched_defs(
                defs,
                slugs,
            )[q]).slug@ != (#[trigger] matched_defs(defs, slugs)[w]).slug@,
    decreases defs.len(),
{
    reveal_with_fuel(Seq::filter, 2);
    if defs.len() > 0 {
        assert forall|a: int, b: int|
            0 <= a < b < defs.drop_last().len() implies (#[trigger] defs.drop_last()[a]).slug@ != (
        #[trigger] defs.drop_last()[b]).slug@ by {
            assert(defs[a].slug@ != defs[b].slug@);
        }
        lemma_matched_facts(defs.drop_last(), slugs);
        let sub = matched_defs(defs.drop_last(), slugs);
        let cur = matched_defs(defs, slugs);
        assert forall|q: int| 0 <= q < cur.len() implies defs.contains(#[trigger] cur[q]) by {
            if q < sub.len() {
                assert(defs.drop_last().contains(sub[q]));
                let w = choose|w: int|
                    0 <= w < defs.drop_last().len() && defs.drop_last()[w] == sub[q];
                assert(defs[w] == cur[q]);
            } else {
                assert(cur[q] == defs.last());
                assert(defs[defs.len() - 1] == defs.last());
            }
        }
        assert forall|q: int, w: int| 0 <= q < w < cur.len() implies (#[trigger] cur[q]).slug@ != (
        #[trigger] cur[w]).slug@ by {
            if w < sub.len() {
                assert(cur[q] == sub[q] && cur[w] == sub[w]);
            } else {
                assert(cur[w] == defs.last());
                assert(cur[q] == sub[q]);
                assert(defs.drop_last().contains(sub[q]));
                let p = choose|p: int|
                    0 <= p < defs.drop_last().len() && defs.drop_last()[p] == sub[q];
                assert(defs[p].slug@ != defs[defs.len() - 1].slug@);
            }
        }
    }
}

/// A list of pairwise distinct values drawn from another list is never
/// longer than it.
proof fn lemma_distinct_drawn_le(xs: Seq<Seq<char>>, ys: Seq<Seq<char>>)
    requires
        xs.no_duplicates(),
        forall|q: int| 0 <= q < xs.len() ==> ys.contains(#[trigger] xs[q]),
    ensures
        xs.len() <= ys.len(),
{
    broadcast use vstd::seq_lib::seq_to_set_is_finite;

    xs.unique_seq_to_set();
    ys.lemma_cardinality_of_set();
    assert(xs.to_set().subset_of(ys.to_set())) by {
        assert forall|x: Seq<char>| xs.to_set().contains(x) implies ys.to_set().contains(x) by {
            assert(xs.contains(x));
            assert(ys.contains(x));
        }
    }
    vstd::set_lib::lemma_len_subset(xs.to_set(), ys.to_set());
}

/// Whatever the store already holds, a pass bringing sixty-five or more
/// pairwise distinct challenge definitions can never commit: ids start at
/// 1 and are never reused, so a sixty-fifth simultaneously present
/// challenge always runs past the bitmask width.
pub proof fn lemma_overfull_pass_refused(pre: CtfStore, ctf_def: CtfDef, defs: Seq<ChallengeDef>)
    requires
        pre.wf(),
        defs_distinct(defs),
        defs.len() >= 65,
    ensures
        !load_ok(pre, ctf_def, defs),
{
    if load_ok(pre, ctf_def, defs) {
        lemma_split_counts(defs, pre.slugs());
        lemma_matched_facts(defs, pre.slugs());
        crate::store::lemma_challenge_capacity(pre);
        let rows = pre.challenges@.len() as int;
        assert(pre.next_id >= rows + 1) by {
            if rows > 0 {
                assert(pre.challenges@[rows - 1].id >= rows);
                assert(pre.challenges@[rows - 1].id < pre.next_id);
            }
        }
        let matched = matched_defs(defs, pre.slugs());
        let ms = matched.map_values(|d: ChallengeDef| d.slug@);
        assert forall|q: int, w: int|
            0 <= q < ms.len() && 0 <= w < ms.len() && q != w implies ms[q] != ms[w] by {
            if q < w {
                assert(matched[q].slug@ != matched[w].slug@);
            } else {
                assert(matched[w].slug@ != matched[q].slug@);
            }
        }
        assert forall|q: int| 0 <= q < ms.len() implies pre.slugs().contains(#[trigger] ms[q]) by {
            broadcast use vstd::seq_lib::group_filter_ensures;

            assert(ms[q] == matched[q].slug@);
        }
        lemma_distinct_drawn_le(ms, pre.slugs());
        assert(pre.slugs().len() == rows);
        assert(false);
    }
}

/// A prefix never holds more newly seen definitions than the whole pass.
proof fn lemma_new_defs_prefix(defs: Seq<ChallengeDef>, slugs: Seq<Seq<char>>, k: int)
    requires
        0 <= k <= defs.len(),
    ensures
        new_defs(defs.take(k), slugs).len() <= new_defs(defs, slugs).len(),
    decreases defs.len() - k,
{
    reveal_with_fuel(Seq::filter, 2);
    if k < defs.len() {
        lemma_new_defs_prefix(defs, slugs, k + 1);
        let next = defs.take(k + 1);
        assert(next.drop_last() =~= defs.take(k));
        assert(next.last() == defs[k]);
    } else {
        assert(defs.take(k) =~= defs);
    }
}

/// Two filters with pointwise equal predicates select the same elements.
proof fn lemma_filter_congruent(
    s: Seq<Seq<char>>,
    p1: spec_fn(Seq<char>) -> bool,
    p2: spec_fn(Seq<char>) -> bool,
)
    requires
        forall|x: Seq<char>| #[trigger] p1(x) == p2(x),
    ensures
        s.filter(p1) == s.filter(p2),
    decreases s.len(),
{
    reveal_with_fuel(Seq::filter, 2);
    if s.len() > 0 {
        lemma_filter_congruent(s.drop_last(), p1, p2);
    }
}

/// One reconciliation pass, fail-fast and all-or-nothing. The competition
/// definition is rendered and upserted; every challenge definition found
/// on disk is rendered, hashed and upserted by slug, preserving ids and
/// cumulative solve counters; every row whose slug is no longer defined
/// is deleted; and the pass plans the asset-store copies and the sweep of
/// stale asset directories. A malformed timestamp, a duplicate slug, or a
/// 65th challenge aborts the whole pass with the store untouched.
pub fn load(store: &mut CtfStore, repo: &RepoSnapshot) -> (r: Result<ReconcilePlan, LoadError>)
    requires
        old(store).wf(),
    ensures
        final(store).wf(),
        final(store).teams == old(store).teams,
        final(store).sessions == old(store).sessions,
        final(store).next_team_id == old(store).next_team_id,
        final(store).policy == old(store).policy,
        r is Ok <==> load_ok(*old(store), repo.ctf, repo.challenges@),
        match r {
            Ok(plan) => {
                &&& final(store).ctf matches Some(c) && c.title@ == repo.ctf.title@ && c.home@
                    == md_html_of(repo.ctf.home@, Map::empty()) && c.start == parsed_bound(
                    repo.ctf.start,
                ) && c.stop == parsed_bound(repo.ctf.stop)
                &&& final(store).rows() == surviving_rows(old(store).rows(), repo.challenges@)
                    + fresh_rows(
                    new_defs(repo.challenges@, old(store).slugs()),
                    old(store).next_id as int,
                )
                &&& final(store).next_id == old(store).next_id + new_defs(
                    repo.challenges@,
                    old(store).slugs(),
                ).len()
                &&& plan.stored@.map_values(|a: StoredAsset| a@) == planned_assets(
                    repo.challenges@,
                )
                &&& names_of(plan.removed@) == names_of(repo.asset_dirs@).filter(
                    |d: Seq<char>| !all_keys(repo.challenges@).contains(d),
                )
            },
            Err(e) => {
                &&& *final(store) == *old(store)
                &&& (e is BadTimestamp ==> !(bound_ok(repo.ctf.start) && bound_ok(repo.ctf.stop)))
                &&& (e is DuplicateSlug ==> !defs_distinct(repo.challenges@))
                &&& (e is Capacity ==> old(store).next_id + new_defs(
                    repo.challenges@,
                    old(store).slugs(),
                ).len() > 65)
            },
        },
{
    let ctf = match Ctf::new(&repo.ctf) {
        Ok(c) => c,
        Err(e) => {
            return Err(e);
        },
    };
    let defs = &repo.challenges;
    // Fail fast on duplicate slugs: one repository may define a slug once.
    let mut i: usize = 0;
    while i < defs.len()
        invariant
            *store == *old(store),
            old(store).wf(),
            defs@ == repo.challenges@,
            bound_ok(repo.ctf.start) && bound_ok(repo.ctf.stop),
            0 <= i <= defs@.len(),
            forall|a: int, b: int|
                0 <= a < i && a < b < defs@.len() ==> (#[trigger] defs@[a]).slug@ != (
                #[trigger] defs@[b]).slug@,
        decreases defs@.len() - i,
    {
        let slug_i = defs[i].slug.clone();
        let mut j: usize = i + 1;
        while j < defs.len()
            invariant
                *store == *old(store),
                old(store).wf(),
                defs@ == repo.challenges@,
                bound_ok(repo.ctf.start) && bound_ok(repo.ctf.stop),
                0 <= i < j <= defs@.len(),
                slug_i@ == defs@[i as int].slug@,
                forall|b: int| i < b < j ==> (#[trigger] defs@[b]).slug@ != defs@[i as int].slug@,
            decreases defs@.len() - j,
        {
            if defs[j].slug == slug_i {
                assert(repo.challenges@[i as int].slug@ == repo.challenges@[j as int].slug@);
                assert(!defs_distinct(repo.challenges@));
                return Err(LoadError::DuplicateSlug);
            }
            j += 1;
        }
        i += 1;
    }
    assert(defs_distinct(defs@));
    // Render every definition and plan its asset copies.
    let mut prepared: Vec<Challenge> = Vec::new();
    let mut stored: Vec<StoredAsset> = Vec::new();
    proof {
        assert(stored@.map_values(|a: StoredAsset| a@) =~= planned_assets(defs@.take(0)));
    }
    let mut d: usize = 0;
    while d < defs.len()
        invariant
            0 <= d <= defs@.len(),
            prepared@.len() == d,
            forall|q: int| 0 <= q < d ==> (#[trigger] prepared@[q])@ == rendered_view(defs@[q]),
            stored@.map_values(|a: StoredAsset| a@) == planned_assets(defs@.take(d as int)),
        decreases defs@.len() - d,
    {
        let (ch, assets) = Challenge::new(&defs[d]);
        proof {
            assert(ch@.tags =~= rendered_view(defs@[d as int]).tags);
            assert(ch@.files =~= rendered_view(defs@[d as int]).files);
            assert(ch@ =~= rendered_view(defs@[d as int]));
        }
        let ghost stored_before = stored@;
        let ghost assets_view = assets@;
        let mut assets = assets;
        stored.append(&mut assets);
        prepared.push(ch);
        proof {
            let next = defs@.take(d + 1);
            assert(next.drop_last() =~= defs@.take(d as int));
            assert(next.last() == defs@[d as int]);
            assert(assets_view.map_values(|a: StoredAsset| a@) =~= def_assets(
                defs@[d as int].files@,
            ));
            assert(stored@.map_values(|a: StoredAsset| a@) =~= stored_before.map_values(
                |a: StoredAsset| a@,
            ) + assets_view.map_values(|a: StoredAsset| a@));
            assert(stored@.map_values(|a: StoredAsset| a@) =~= planned_assets(next));
        }
        d += 1;
    }
    proof {
        assert(defs@.take(defs@.len() as int) =~= defs@);
    }
    // First pass over the store: keep and update every row still defined,
    // drop the rest.
    let ghost pre = *old(store);
    let mut out: Vec<ChallengeRecord> = Vec::new();
    proof {
        assert(rows_of(out@) =~= surviving_rows(rows_of(pre.challenges@).take(0), defs@));
    }
    let mut i2: usize = 0;
    while i2 < store.challenges.len()
        invariant
            *store == *old(store),
            old(store).wf(),
            defs_distinct(defs@),
            prepared@.len() == defs@.len(),
            forall|q: int|
                0 <= q < defs@.len() ==> (#[trigger] prepared@[q])@ == rendered_view(defs@[q]),
            0 <= i2 <= old(store).challenges@.len(),
            rows_of(out@) == surviving_rows(
                rows_of(old(store).challenges@).take(i2 as int),
                defs@,
            ),
            forall|q: int|
                0 <= q < out@.len() ==> exists|p: int|
                    0 <= p < i2 && (#[trigger] out@[q]).id == old(store).challenges@[p].id
                        && out@[q].slug@ == old(store).challenges@[p].slug@ && out@[q].solves == old(
                        store,
                    ).challenges@[p].solves,
            forall|q: int, r2: int| 0 <= q < r2 < out@.len() ==> (#[trigger] out@[q]).id < (
            #[trigger] out@[r2]).id,
        decreases old(store).challenges@.len() - i2,
    {
        let slug = store.challenges[i2].slug.clone();
        let ghost out_before = out@;
        match find_def(defs, &slug) {
            Some(k) => {
                let rec = ChallengeRecord {
                    id: store.challenges[i2].id,
                    solves: store.challenges[i2].solves,
                    slug: prepared[k].slug.clone(),
                    title: prepared[k].title.clone(),
                    author: prepared[k].author.clone(),
                    description: prepared[k].description.clone(),
                    tags: clone_strings(&prepared[k].tags),
                    flag: prepared[k].flag.clone(),
                    enabled: prepared[k].enabled,
                };
                out.push(rec);
                proof {
                    let rows = rows_of(old(store).challenges@);
                    let next = rows.take(i2 + 1);
                    assert(next.drop_last() =~= rows.take(i2 as int));
                    assert(next.last() == old(store).challenges@[i2 as int]@);
                    assert(defs@[k as int].slug@ == next.last().slug);
                    assert(has_def(defs@, next.last().slug));
                    let k2 = def_index(defs@, next.last().slug);
                    assert(0 <= k2 < defs@.len() && defs@[k2].slug@ == next.last().slug);
                    assert(k2 == k as int);
                    assert(rec@ =~= updated_row(next.last(), rendered_view(defs@[k as int])));
                    assert(rows_of(out@) =~= surviving_rows(next, defs@));
                    assert forall|q: int| 0 <= q < out@.len() implies exists|p: int|
                        0 <= p < i2 + 1 && (#[trigger] out@[q]).id == old(store).challenges@[p].id
                            && out@[q].slug@ == old(store).challenges@[p].slug@ && out@[q].solves
                            == old(store).challenges@[p].solves by {
                        if q < out_before.len() {
                            let p = choose|p: int|
                                0 <= p < i2 && (#[trigger] out_before[q]).id == old(
                                    store,
                                ).challenges@[p].id && out_before[q].slug@ == old(
                                    store,
                                ).challenges@[p].slug@ && out_before[q].solves == old(
                                    store,
                                ).challenges@[p].solves;
                            assert(0 <= p < i2 + 1 && out@[q].id == old(store).challenges@[p].id
                                && out@[q].slug@ == old(store).challenges@[p].slug@ && out@[q].solves
                                == old(store).challenges@[p].solves);
                        } else {
                            assert(out@[q].id == old(store).challenges@[i2 as int].id && out@[q].slug@
                                == old(store).challenges@[i2 as int].slug@ && out@[q].solves == old(
                                store,
                            ).challenges@[i2 as int].solves);
                        }
                    }
                    assert forall|q: int, r2: int| 0 <= q < r2 < out@.len() implies (
                    #[trigger] out@[q]).id < (#[trigger] out@[r2]).id by {
                        if r2 == out@.len() - 1 {
                            let p = choose|p: int|
                                0 <= p < i2 && (#[trigger] out_before[q]).id == old(
                                    store,
                                ).challenges@[p].id && out_before[q].slug@ == old(
                                    store,
                                ).challenges@[p].slug@ && out_before[q].solves == old(
                                    store,
                                ).challenges@[p].solves;
                            assert(old(store).challenges@[p].id < old(
                                store,
                            ).challenges@[i2 as int].id);
                        }
                    }
                }
            },
            None => {
                proof {
                    let rows = rows_of(old(store).challenges@);
                    let next = rows.take(i2 + 1);
                    assert(next.drop_last() =~= rows.take(i2 as int));
                    assert(next.last() == old(store).challenges@[i2 as int]@);
                    assert(!has_def(defs@, next.last().slug));
                    assert(rows_of(out@) =~= surviving_rows(next, defs@));
                }
            },
        }
        i2 += 1;
    }
    let survived_len = out.len();
    proof {
        let rows = rows_of(old(store).challenges@);
        assert(rows.take(old(store).challenges@.len() as int) =~= rows);
    }
    // Second pass over the definitions: insert every newly seen slug
    // under the next sequential id, refusing a 65th challenge.
    let ghost survived = out@;
    let mut count: usize = 0;
    proof {
        assert(new_defs(defs@.take(0), pre.slugs()) =~= Seq::<ChallengeDef>::empty());
        reveal_with_fuel(Seq::filter, 1);
        assert(rows_of(out@) =~= rows_of(out@) + fresh_rows(
            new_defs(defs@.take(0), pre.slugs()),
            pre.next_id as int,
        ));
    }
    let mut k3: usize = 0;
    while k3 < defs.len()
        invariant
            *store == *old(store),
            old(store).wf(),
            pre == *old(store),
            defs@ == repo.challenges@,
            bound_ok(repo.ctf.start) && bound_ok(repo.ctf.stop),
            defs_distinct(defs@),
            prepared@.len() == defs@.len(),
            forall|q: int|
                0 <= q < defs@.len() ==> (#[trigger] prepared@[q])@ == rendered_view(defs@[q]),
            0 <= k3 <= defs@.len(),
            count <= k3,
            out@.len() == survived_len + count,
            survived.len() == survived_len,
            forall|q: int| 0 <= q < survived_len ==> out@[q] == survived[q],
            count == new_defs(defs@.take(k3 as int), pre.slugs()).len(),
            pre.next_id + count <= 65,
            rows_of(out@) == surviving_rows(rows_of(pre.challenges@), defs@) + fresh_rows(
                new_defs(defs@.take(k3 as int), pre.slugs()),
                pre.next_id as int,
            ),
            forall|q: int|
                survived_len <= q < out@.len() ==> (#[trigger] out@[q]).id == pre.next_id + q
                    - survived_len && out@[q].solves == 0 && !pre.has_slug(out@[q].slug@)
                    && crate::bits::valid_id(out@[q].id),
            forall|q: int|
                survived_len <= q < out@.len() ==> exists|p: int|
                    0 <= p < k3 && (#[trigger] out@[q]).slug@ == defs@[p].slug@,
            forall|q: int, r2: int|
                survived_len <= q < r2 < out@.len() ==> (#[trigger] out@[q]).slug@ != (
                #[trigger] out@[r2]).slug@,
            forall|q: int| 0 <= q < survived_len ==> exists|p: int|
                0 <= p < pre.challenges@.len() && (#[trigger] out@[q]).id
                    == pre.challenges@[p].id && out@[q].slug@ == pre.challenges@[p].slug@
                    && out@[q].solves == pre.challenges@[p].solves,
            forall|q: int, r2: int| 0 <= q < r2 < out@.len() ==> (#[trigger] out@[q]).id < (
            #[trigger] out@[r2]).id,
        decreases defs@.len() - k3,
    {
        let slug = prepared[k3].slug.clone();
        let ghost out_before = out@;
        let found = store.find_challenge(&slug);
        proof {
            let next = defs@.take(k3 + 1);
            assert(next.drop_last() =~= defs@.take(k3 as int));
            assert(next.last() == defs@[k3 as int]);
            reveal_with_fuel(Seq::filter, 2);
        }
        match found {
            Some(ci) => {
                proof {
                    reveal_with_fuel(Seq::filter, 2);
                    assert(pre.slugs().contains(defs@[k3 as int].slug@)) by {
                        assert(crate::store::slugs_of(pre.challenges@)[ci as int]
                            == pre.challenges@[ci as int].slug@);
                    }
                    assert(new_defs(defs@.take(k3 + 1), pre.slugs()) =~= new_defs(
                        defs@.take(k3 as int),
                        pre.slugs(),
                    ));
                }
            },
            None => {
                proof {
                    reveal_with_fuel(Seq::filter, 2);
                    assert(!pre.has_slug(defs@[k3 as int].slug@));
                    assert(!pre.slugs().contains(defs@[k3 as int].slug@)) by {
                        if pre.slugs().contains(defs@[k3 as int].slug@) {
                            let w = choose|w: int|
                                0 <= w < pre.slugs().len() && pre.slugs()[w] == defs@[k3 as int].slug@;
                            assert(pre.challenges@[w].slug@ == defs@[k3 as int].slug@);
                        }
                    }
                    assert(new_defs(defs@.take(k3 + 1), pre.slugs()) =~= new_defs(
                        defs@.take(k3 as int),
                        pre.slugs(),
                    ).push(defs@[k3 as int]));
                }
                if store.next_id > 64 || count >= 64 - (store.next_id as usize - 1) {
                    proof {
                        reveal_with_fuel(Seq::filter, 2);
                        assert(new_defs(defs@.take(k3 + 1), pre.slugs()).len() == count + 1);
                        lemma_new_defs_prefix(defs@, pre.slugs(), k3 + 1);
                        assert(pre.next_id + new_defs(defs@, pre.slugs()).len() > 65);
                    }
                    return Err(LoadError::Capacity);
                }
                let id: u32 = store.next_id + (count as u32);
                let rec = ChallengeRecord {
                    id,
                    solves: 0,
                    slug: prepared[k3].slug.clone(),
                    title: prepared[k3].title.clone(),
                    author: prepared[k3].author.clone(),
                    description: prepared[k3].description.clone(),
                    tags: clone_strings(&prepared[k3].tags),
                    flag: prepared[k3].flag.clone(),
                    enabled: prepared[k3].enabled,
                };
                out.push(rec);
                count += 1;
                proof {
                    reveal_with_fuel(Seq::filter, 2);
                    let news = new_defs(defs@.take(k3 as int), pre.slugs());
                    let news2 = new_defs(defs@.take(k3 + 1), pre.slugs());
                    assert(news2.drop_last() =~= news);
                    assert(news2.last() == defs@[k3 as int]);
                    assert(news2.len() == count);
                    assert(rec@ =~= fresh_row(rendered_view(defs@[k3 as int]), id));
                    assert(fresh_rows(news2, pre.next_id as int) =~= fresh_rows(
                        news,
                        pre.next_id as int,
                    ).push(fresh_row(rendered_view(defs@[k3 as int]), id)));
                    assert(rows_of(out@) =~= rows_of(out_before).push(rec@));
                    assert(rows_of(out@) =~= surviving_rows(rows_of(pre.challenges@), defs@)
                        + fresh_rows(news2, pre.next_id as int));
                    assert forall|q: int, r2: int|
                        survived_len <= q < r2 < out@.len() implies (#[trigger] out@[q]).slug@ != (
                    #[trigger] out@[r2]).slug@ by {
                        if r2 == out@.len() - 1 {
                            let p = choose|p: int|
                                0 <= p < k3 && (#[trigger] out_before[q]).slug@ == defs@[p].slug@;
                            assert(defs@[p].slug@ != defs@[k3 as int].slug@);
                        }
                    }
                    assert forall|q: int, r2: int| 0 <= q < r2 < out@.len() implies (
                    #[trigger] out@[q]).id < (#[trigger] out@[r2]).id by {
                        if r2 == out@.len() - 1 && q < survived_len {
                            let p = choose|p: int|
                                0 <= p < pre.challenges@.len() && (#[trigger] out_before[q]).id
                                    == pre.challenges@[p].id && out_before[q].slug@
                                    == pre.challenges@[p].slug@ && out_before[q].solves
                                    == pre.challenges@[p].solves;
                            assert(pre.challenges@[p].id < pre.next_id);
                        }
                    }
                }
            },
        }
        k3 += 1;
    }
    proof {
        assert(defs@.take(defs@.len() as int) =~= defs@);
    }
    // Commit: the pass succeeded, replace the competition record, the
    // rows, and the id counter in one step.
    ctf.push(store);
    let ghost mid = *store;
    store.challenges = out;
    store.next_id = store.next_id + (count as u32);
    proof {
        lemma_wf_people(pre, *store);
        assert forall|a: int| 0 <= a < store.challenges@.len() implies crate::bits::valid_id(
            (#[trigger] store.challenges@[a]).id,
        ) && store.challenges@[a].id < store.next_id by {
            if a < survived_len {
                let p = choose|p: int|
                    0 <= p < pre.challenges@.len() && (#[trigger] store.challenges@[a]).id
                        == pre.challenges@[p].id && store.challenges@[a].slug@
                        == pre.challenges@[p].slug@ && store.challenges@[a].solves
                        == pre.challenges@[p].solves;
                assert(crate::bits::valid_id(pre.challenges@[p].id));
            }
        }
        assert forall|a: int, b2: int|
            0 <= a < b2 < store.challenges@.len() implies (#[trigger] store.challenges@[a]).slug@
            != (#[trigger] store.challenges@[b2]).slug@ by {
            if b2 < survived_len {
                let p = choose|p: int|
                    0 <= p < pre.challenges@.len() && (#[trigger] store.challenges@[a]).id
                        == pre.challenges@[p].id && store.challenges@[a].slug@
                        == pre.challenges@[p].slug@ && store.challenges@[a].solves
                        == pre.challenges@[p].solves;
                let p2 = choose|p2: int|
                    0 <= p2 < pre.challenges@.len() && (#[trigger] store.challenges@[b2]).id
                        == pre.challenges@[p2].id && store.challenges@[b2].slug@
                        == pre.challenges@[p2].slug@ && store.challenges@[b2].solves
                        == pre.challenges@[p2].solves;
                assert(p != p2);
            } else if a < survived_len {
                let p = choose|p: int|
                    0 <= p < pre.challenges@.len() && (#[trigger] store.challenges@[a]).id
                        == pre.challenges@[p].id && store.challenges@[a].slug@
                        == pre.challenges@[p].slug@ && store.challenges@[a].solves
                        == pre.challenges@[p].solves;
                if store.challenges@[a].slug@ == store.challenges@[b2].slug@ {
                    assert(pre.has_slug(store.challenges@[b2].slug@));
                }
            }
        }
        assert forall|c: int| 0 <= c < store.challenges@.len() implies (
        #[trigger] store.challenges@[c]).solves == crate::scoring::solver_count(
            store.teams@,
            store.challenges@[c].id,
        ) by {
            if c < survived_len {
                let p = choose|p: int|
                    0 <= p < pre.challenges@.len() && (#[trigger] store.challenges@[c]).id
                        == pre.challenges@[p].id && store.challenges@[c].slug@
                        == pre.challenges@[p].slug@ && store.challenges@[c].solves
                        == pre.challenges@[p].solves;
                assert(pre.challenges@[p].solves == crate::scoring::solver_count(
                    pre.teams@,
                    pre.challenges@[p].id,
                ));
            } else {
                let id = store.challenges@[c].id;
                assert(id >= pre.next_id);
                assert forall|t: int| 0 <= t < store.teams@.len() implies !crate::bits::is_solved(
                    (#[trigger] store.teams@[t]).solves,
                    id,
                ) by {
                    if crate::bits::is_solved(store.teams@[t].solves, id) {
                        assert(crate::bits::is_solved(pre.teams@[t].solves, id));
                    }
                }
                crate::scoring::lemma_solver_count_zero(store.teams@, id);
            }
        }
        assert forall|t: int, b: u32|
            0 <= t < store.teams@.len() && crate::bits::valid_id(b)
                && #[trigger] crate::bits::is_solved(store.teams@[t].solves, b) implies b
            < store.next_id by {
            assert(crate::bits::is_solved(pre.teams@[t].solves, b));
        }
        assert(store.wf());
    }
    // Keep every planned hash alive for the sweep.
    let mut live: Vec<String> = Vec::new();
    let mut a: usize = 0;
    while a < stored.len()
        invariant
            0 <= a <= stored@.len(),
            live@.len() == a,
            forall|q: int| 0 <= q < a ==> (#[trigger] live@[q])@ == stored@[q].hash@,
        decreases stored@.len() - a,
    {
        live.push(stored[a].hash.clone());
        a += 1;
    }
    proof {
        assert(stored@.map_values(|x: StoredAsset| x@) == planned_assets(defs@));
        assert(names_of(live@) =~= all_keys(defs@)) by {
            assert forall|q: int| 0 <= q < live@.len() implies names_of(live@)[q] == all_keys(
                defs@,
            )[q] by {
                assert(stored@.map_values(|x: StoredAsset| x@)[q] == planned_assets(defs@)[q]);
                assert(stored@[q]@.hash == planned_assets(defs@)[q].hash);
            }
        }
    }
    let removed = sweep_plan(&repo.asset_dirs, &live);
    proof {
        lemma_filter_congruent(
            names_of(repo.asset_dirs@),
            |x: Seq<char>| !names_of(live@).contains(x),
            |x: Seq<char>| !all_keys(defs@).contains(x),
        );
    }
    Ok(ReconcilePlan { stored, removed })
}

/// Whether a row is what some old row became: updated in place from the
/// definition that still carries its slug.
pub open spec fn from_surviving(
    rows: Seq<RecordView>,
    defs: Seq<ChallengeDef>,
    x: RecordView,
) -> bool {
    exists|p: int|
        0 <= p < rows.len() && has_def(defs, (#[trigger] rows[p]).slug) && x == updated_row(
            rows[p],
            rendered_view(defs[def_index(defs, rows[p].slug)]),
        )
}

/// Whether some surviving row carries the slug.
pub open spec fn kept_slug(rows: Seq<RecordView>, defs: Seq<ChallengeDef>, slug: Seq<char>) -> bool {
    exists|q: int|
        0 <= q < surviving_rows(rows, defs).len() && (#[trigger] surviving_rows(rows, defs)[q]).slug
            == slug
}

/// What the surviving rows are made of: each comes from exactly one old
/// row whose slug is still defined, updated in place; and every old row
/// whose slug is still defined is represented.
proof fn lemma_surviving_elems(rows: Seq<RecordView>, defs: Seq<ChallengeDef>)
    ensures
        surviving_rows(rows, defs).len() <= rows.len(),
        forall|q: int|
            0 <= q < surviving_rows(rows, defs).len() ==> from_surviving(
                rows,
                defs,
                #[trigger] surviving_rows(rows, defs)[q],
            ),
        forall|p: int|
            0 <= p < rows.len() && has_def(defs, (#[trigger] rows[p]).slug) ==> kept_slug(
                rows,
                defs,
                rows[p].slug,
            ),
    decreases rows.len(),
{
    if rows.len() > 0 {
        lemma_surviving_elems(rows.drop_last(), defs);
        let s = surviving_rows(rows, defs);
        let rest = surviving_rows(rows.drop_last(), defs);
        assert forall|q: int| 0 <= q < surviving_rows(rows, defs).len() implies from_surviving(
            rows,
            defs,
            #[trigger] surviving_rows(rows, defs)[q],
        ) by {
            if q < rest.len() {
                assert(s[q] == rest[q]);
                assert(from_surviving(rows.drop_last(), defs, rest[q]));
                let p2 = choose|p2: int|
                    0 <= p2 < rows.drop_last().len() && has_def(
                        defs,
                        (#[trigger] rows.drop_last()[p2]).slug,
                    ) && rest[q] == updated_row(
                        rows.drop_last()[p2],
                        rendered_view(defs[def_index(defs, rows.drop_last()[p2].slug)]),
                    );
                assert(rows[p2] == rows.drop_last()[p2]);
                assert(0 <= p2 < rows.len() && has_def(defs, rows[p2].slug) && s[q] == updated_row(
                    rows[p2],
                    rendered_view(defs[def_index(defs, rows[p2].slug)]),
                ));
            } else {
                assert(s[q] == updated_row(
                    rows.last(),
                    rendered_view(defs[def_index(defs, rows.last().slug)]),
                ));
                assert(rows[rows.len() - 1] == rows.last());
                assert(0 <= rows.len() - 1 < rows.len() && has_def(
                    defs,
                    rows[rows.len() - 1].slug,
                ) && s[q] == updated_row(
                    rows[rows.len() - 1],
                    rendered_view(defs[def_index(defs, rows[rows.len() - 1].slug)]),
                ));
            }
        }
        assert forall|p: int|
            0 <= p < rows.len() && has_def(defs, (#[trigger] rows[p]).slug) implies kept_slug(
            rows,
            defs,
            rows[p].slug,
        ) by {
            if p < rows.len() - 1 {
                assert(rows.drop_last()[p] == rows[p]);
                assert(kept_slug(rows.drop_last(), defs, rows.drop_last()[p].slug));
                let q = choose|q: int|
                    0 <= q < rest.len() && (#[trigger] surviving_rows(rows.drop_last(), defs)[q]).slug
                        == rows.drop_last()[p].slug;
                assert(s[q] == rest[q]);
                assert(0 <= q < s.len() && s[q].slug == rows[p].slug);
            } else {
                if has_def(defs, rows.last().slug) {
                    let d = defs[def_index(defs, rows.last().slug)];
                    assert(s[s.len() - 1] == updated_row(rows.last(), rendered_view(d)));
                    assert(d.slug@ == rows.last().slug);
                    assert(0 <= s.len() - 1 < s.len() && s[s.len() - 1].slug == rows[p].slug);
                }
            }
        }
    }
}

/// What the inserted rows are made of: the k-th newly seen definition
/// becomes a fresh row under id `start_id + k`.
proof fn lemma_fresh_elems(news: Seq<ChallengeDef>, start_id: int)
    ensures
        fresh_rows(news, start_id).len() == news.len(),
        forall|q: int|
            0 <= q < news.len() ==> #[trigger] fresh_rows(news, start_id)[q] == fresh_row(
                rendered_view(news[q]),
                (start_id + q) as u32,
            ),
    decreases news.len(),
{
    if news.len() > 0 {
        lemma_fresh_elems(news.drop_last(), start_id);
        assert forall|q: int| 0 <= q < news.len() implies #[trigger] fresh_rows(news, start_id)[q]
            == fresh_row(rendered_view(news[q]), (start_id + q) as u32) by {
            if q < news.len() - 1 {
                assert(news.drop_last()[q] == news[q]);
            } else {
                assert(news[q] == news.last());
            }
        }
    }
}

/// Every newly seen definition comes from the pass's definitions.
proof fn lemma_new_defs_from(defs: Seq<ChallengeDef>, slugs: Seq<Seq<char>>)
    ensures
        forall|q: int|
            0 <= q < new_defs(defs, slugs).len() ==> defs.contains(
                #[trigger] new_defs(defs, slugs)[q],
            ),
    decreases defs.len(),
{
    reveal_with_fuel(Seq::filter, 2);
    if defs.len() > 0 {
        lemma_new_defs_from(defs.drop_last(), slugs);
        let sub = new_defs(defs.drop_last(), slugs);
        assert forall|q: int| 0 <= q < new_defs(defs, slugs).len() implies defs.contains(
            #[trigger] new_defs(defs, slugs)[q],
        ) by {
            if q < sub.len() {
                assert(new_defs(defs, slugs)[q] == sub[q]);
                let w = choose|w: int|
                    0 <= w < defs.drop_last().len() && defs.drop_last()[w] == sub[q];
                assert(defs[w] == sub[q]);
            } else {
                assert(new_defs(defs, slugs)[q] == defs.last());
                assert(defs[defs.len() - 1] == defs.last());
            }
        }
    }
}

/// When every definition's slug is already present, nothing is newly seen.
proof fn lemma_new_defs_none(defs: Seq<ChallengeDef>, slugs: Seq<Seq<char>>)
    requires
        forall|k: int| 0 <= k < defs.len() ==> slugs.contains((#[trigger] defs[k]).slug@),
    ensures
        new_defs(defs, slugs).len() == 0,
    decreases defs.len(),
{
    reveal_with_fuel(Seq::filter, 2);
    if defs.len() > 0 {
        lemma_new_defs_none(defs.drop_last(), slugs);
        assert(defs[defs.len() - 1] == defs.last());
    }
}

/// Rows that already agree with their definitions pass through a
/// reconciliation unchanged.
proof fn lemma_surviving_fixed(rows: Seq<RecordView>, defs: Seq<ChallengeDef>)
    requires
        forall|q: int|
            0 <= q < rows.len() ==> has_def(defs, (#[trigger] rows[q]).slug) && rows[q]
                == updated_row(rows[q], rendered_view(defs[def_index(defs, rows[q].slug)])),
    ensures
        surviving_rows(rows, defs) == rows,
    decreases rows.len(),
{
    if rows.len() > 0 {
        assert forall|q: int| 0 <= q < rows.drop_last().len() implies has_def(
            defs,
            (#[trigger] rows.drop_last()[q]).slug,
        ) && rows.drop_last()[q] == updated_row(
            rows.drop_last()[q],
            rendered_view(defs[def_index(defs, rows.drop_last()[q].slug)]),
        ) by {
            assert(rows.drop_last()[q] == rows[q]);
        }
        lemma_surviving_fixed(rows.drop_last(), defs);
        assert(rows[rows.len() - 1] == rows.last());
        assert(surviving_rows(rows, defs) =~= rows);
    }
}

/// Re-running reconciliation on an unchanged repository is a no-op: the
/// rows a successful pass leaves behind already agree with every
/// definition, so a second pass over the same definitions keeps every row
/// as it is, inserts nothing, and never moves the id counter.
pub proof fn lemma_load_idempotent(pre: CtfStore, mid: CtfStore, defs: Seq<ChallengeDef>)
    requires
        defs_distinct(defs),
        mid.rows() == surviving_rows(pre.rows(), defs) + fresh_rows(
            new_defs(defs, pre.slugs()),
            pre.next_id as int,
        ),
    ensures
        surviving_rows(mid.rows(), defs) == mid.rows(),
        new_defs(defs, mid.slugs()).len() == 0,
{
    broadcast use vstd::seq_lib::group_filter_ensures;

    let surv = surviving_rows(pre.rows(), defs);
    let news = new_defs(defs, pre.slugs());
    let fresh = fresh_rows(news, pre.next_id as int);
    lemma_surviving_elems(pre.rows(), defs);
    lemma_fresh_elems(news, pre.next_id as int);
    // Every row the pass left behind matches its definition exactly.
    assert forall|q: int| 0 <= q < mid.rows().len() implies has_def(
        defs,
        (#[trigger] mid.rows()[q]).slug,
    ) && mid.rows()[q] == updated_row(
        mid.rows()[q],
        rendered_view(defs[def_index(defs, mid.rows()[q].slug)]),
    ) by {
        if q < surv.len() {
            assert(from_surviving(pre.rows(), defs, surv[q]));
            let p = choose|p: int|
                0 <= p < pre.rows().len() && has_def(defs, (#[trigger] pre.rows()[p]).slug)
                    && surv[q] == updated_row(
                    pre.rows()[p],
                    rendered_view(defs[def_index(defs, pre.rows()[p].slug)]),
                );
            let d = defs[def_index(defs, pre.rows()[p].slug)];
            assert(mid.rows()[q] == updated_row(pre.rows()[p], rendered_view(d)));
            assert(mid.rows()[q].slug == d.slug@);
            let k = def_index(defs, mid.rows()[q].slug);
            assert(defs[k].slug@ == mid.rows()[q].slug);
            assert(k == def_index(defs, pre.rows()[p].slug));
            assert(mid.rows()[q] =~= updated_row(mid.rows()[q], rendered_view(defs[k])));
        } else {
            let q2 = q - surv.len();
            assert(mid.rows()[q] == fresh[q2]);
            assert(fresh[q2] == fresh_row(rendered_view(news[q2]), (pre.next_id + q2) as u32));
            lemma_new_defs_from(defs, pre.slugs());
            assert(defs.contains(news[q2]));
            let k0 = choose|k0: int| 0 <= k0 < defs.len() && defs[k0] == news[q2];
            assert(defs[k0].slug@ == mid.rows()[q].slug);
            assert(has_def(defs, mid.rows()[q].slug));
            let k = def_index(defs, mid.rows()[q].slug);
            assert(defs[k].slug@ == defs[k0].slug@);
            assert(k == k0);
            assert(mid.rows()[q] =~= updated_row(mid.rows()[q], rendered_view(defs[k])));
        }
    }
    lemma_surviving_fixed(mid.rows(), defs);
    // Every definition's slug is present after the pass.
    assert forall|k: int| 0 <= k < defs.len() implies mid.slugs().contains(
        (#[trigger] defs[k]).slug@,
    ) by {
        assert(forall|w: int|
            0 <= w < mid.challenges@.len() ==> #[trigger] mid.slugs()[w] == mid.rows()[w].slug);
        if pre.slugs().contains(defs[k].slug@) {
            let p = choose|p: int|
                0 <= p < pre.slugs().len() && #[trigger] pre.slugs()[p] == defs[k].slug@;
            assert(pre.rows()[p].slug == defs[k].slug@);
            assert(has_def(defs, pre.rows()[p].slug));
            assert(kept_slug(pre.rows(), defs, pre.rows()[p].slug));
            let q = choose|q: int|
                0 <= q < surv.len() && (#[trigger] surviving_rows(pre.rows(), defs)[q]).slug
                    == pre.rows()[p].slug;
            assert(mid.rows()[q] == surv[q]);
            assert(mid.rows()[q].slug == defs[k].slug@);
            assert(mid.slugs()[q] == defs[k].slug@);
        } else {
            assert(news.contains(defs[k]));
            let q2 = choose|q2: int| 0 <= q2 < news.len() && #[trigger] news[q2] == defs[k];
            assert(mid.rows()[surv.len() + q2].slug == defs[k].slug@);
            assert(mid.slugs()[surv.len() + q2] == defs[k].slug@);
        }
    }
    lemma_new_defs_none(defs, mid.slugs());
}

/// A challenge whose directory is gone from the repository disappears
/// from the store on the next successful pass: no surviving or fresh row
/// carries its slug. Its assets, where no surviving challenge references
/// them, fall to the sweep, which removes exactly the directories no
/// definition keeps alive.
pub proof fn lemma_absent_slug_dropped(
    pre: CtfStore,
    mid: CtfStore,
    defs: Seq<ChallengeDef>,
    slug: Seq<char>,
)
    requires
        !has_def(defs, slug),
        mid.rows() == surviving_rows(pre.rows(), defs) + fresh_rows(
            new_defs(defs, pre.slugs()),
            pre.next_id as int,
        ),
    ensures
        forall|q: int| 0 <= q < mid.rows().len() ==> (#[trigger] mid.rows()[q]).slug != slug,
{
    broadcast use vstd::seq_lib::group_filter_ensures;

    let surv = surviving_rows(pre.rows(), defs);
    let news = new_defs(defs, pre.slugs());
    lemma_surviving_elems(pre.rows(), defs);
    lemma_fresh_elems(news, pre.next_id as int);
    assert forall|q: int| 0 <= q < mid.rows().len() implies (#[trigger] mid.rows()[q]).slug
        != slug by {
        if q < surv.len() {
            assert(from_surviving(pre.rows(), defs, surv[q]));
            let p = choose|p: int|
                0 <= p < pre.rows().len() && has_def(defs, (#[trigger] pre.rows()[p]).slug)
                    && surv[q] == updated_row(
                    pre.rows()[p],
                    rendered_view(defs[def_index(defs, pre.rows()[p].slug)]),
                );
            assert(mid.rows()[q].slug == defs[def_index(defs, pre.rows()[p].slug)].slug@);
            assert(has_def(defs, mid.rows()[q].slug));
        } else {
            let q2 = q - surv.len();
            assert(mid.rows()[q] == fresh_rows(news, pre.next_id as int)[q2]);
            lemma_new_defs_from(defs, pre.slugs());
            assert(defs.contains(news[q2]));
            let k0 = choose|k0: int| 0 <= k0 < defs.len() && defs[k0] == news[q2];
            assert(defs[k0].slug@ == mid.rows()[q].slug);
            assert(has_def(defs, mid.rows()[q].slug));
        }
    }
}

} // verus!
