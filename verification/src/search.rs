use vstd::prelude::*;

use crate::db::{
    has_key, int_vec, key_index, opt_reg, vector_candidates, vector_hit, Database,
};
use crate::index::{hit_views, HitView};
use crate::rank::{take_count, KeyPair};
use crate::skill::{views_of, SkillView};

verus! {

broadcast use vstd::seq_lib::group_filter_ensures, vstd::seq_lib::group_to_multiset_ensures;

/// One ranked hit of the hybrid retrieval service, enriched with the full
/// record: similarity in thousandths on the vector path, a rank-based score
/// on the lexical fallback path.
pub struct SearchResult {
    pub slug: String,
    pub name: String,
    pub registry: String,
    pub description: String,
    pub github_url: String,
    pub score: i128,
}

/// Mathematical image of one service hit.
#[verifier::ext_equal]
pub struct ResultView {
    pub slug: Seq<char>,
    pub name: Seq<char>,
    pub registry: Seq<char>,
    pub description: Seq<char>,
    pub github_url: Seq<char>,
    pub score: int,
}

impl View for SearchResult {
    type V = ResultView;

    open spec fn view(&self) -> ResultView {
        ResultView {
            slug: self.slug@,
            name: self.name@,
            registry: self.registry@,
            description: self.description@,
            github_url: self.github_url@,
            score: self.score as int,
        }
    }
}

/// The views of a sequence of service hits, in order.
pub open spec fn result_views(r: Seq<SearchResult>) -> Seq<ResultView> {
    r.map(|i: int, x: SearchResult| x@)
}

/// The service hit built from a store record and a score.
pub open spec fn make_result(v: SkillView, score: int) -> ResultView {
    ResultView {
        slug: v.slug,
        name: v.name,
        registry: v.registry,
        description: v.description,
        github_url: v.github_url,
        score: score,
    }
}

/// The rank-based score of the lexical fallback, in thousandths: one minus
/// a tenth per rank.
pub open spec fn rank_score(k: int) -> int {
    1000 - 100 * k
}

/// The similarity a squared distance converts to, in thousandths: one minus
/// the distance.
pub open spec fn sim_score(dist: int) -> int {
    1000 - dist
}

/// True when the raw hit passes the registry filter.
pub open spec fn hit_keep(x: HitView, reg: Option<Seq<char>>) -> bool {
    match reg {
        Some(g) => x.registry == g,
        None => true,
    }
}

/// The raw hits that pass the registry filter, in order.
pub open spec fn keep_hits(h: Seq<HitView>, reg: Option<Seq<char>>) -> Seq<HitView> {
    h.filter(|x: HitView| hit_keep(x, reg))
}

/// True when the service hit passes the registry filter.
pub open spec fn reg_ok(x: ResultView, reg: Option<Seq<char>>) -> bool {
    match reg {
        Some(g) => x.registry == g,
        None => true,
    }
}

/// The smaller of two mathematical integers.
pub open spec fn min_i(a: int, b: int) -> int {
    if a < b {
        a
    } else {
        b
    }
}

/// Enrichment of the ranked text hits from rank `k` on: each surviving hit
/// becomes the full store record under its rank-based score; a hit whose
/// record has vanished from the store is silently dropped.
pub open spec fn enrich_hits(s: Seq<SkillView>, taken: Seq<HitView>, k: int) -> Seq<ResultView>
    decreases taken.len() - k when 0 <= k <= taken.len()
{
    if k < 0 || k >= taken.len() {
        Seq::empty()
    } else {
        let rest = enrich_hits(s, taken, k + 1);
        if has_key(s, taken[k].registry, taken[k].slug) {
            seq![
                make_result(
                    s[key_index(s, taken[k].registry, taken[k].slug)],
                    rank_score(k),
                ),
            ] + rest
        } else {
            rest
        }
    }
}

/// The whole lexical fallback as a function of the store, the raw hits and
/// the request: filter by registry, keep the top `limit`, score by rank,
/// enrich from the store, drop vanished hits.
pub open spec fn fallback_spec(
    s: Seq<SkillView>,
    h: Seq<HitView>,
    limit: int,
    reg: Option<Seq<char>>,
) -> Seq<ResultView> {
    let kept = keep_hits(h, reg);
    enrich_hits(s, kept.take(min_i(limit, kept.len() as int)), 0)
}

/// Law: an empty enrichment means every remaining hit had vanished from the
/// store — the fallback is never spuriously empty while a surviving text
/// hit exists.
pub proof fn lemma_enrich_empty(s: Seq<SkillView>, taken: Seq<HitView>, k: int)
    requires
        0 <= k <= taken.len(),
        enrich_hits(s, taken, k).len() == 0,
    ensures
        forall|j: int| k <= j < taken.len() ==> !has_key(s, (#[trigger] taken[j]).registry, taken[j].slug),
    decreases taken.len() - k,
{
    if k < taken.len() {
        lemma_enrich_empty(s, taken, k + 1);
    }
}

/// Law: a ranked text hit whose record is still stored always survives
/// enrichment — a search for something the index returned round-trips to
/// the full record, under its rank-based score.
pub proof fn lemma_enrich_contains(s: Seq<SkillView>, taken: Seq<HitView>, k: int, j: int)
    requires
        0 <= k <= j < taken.len(),
        has_key(s, (#[trigger] taken[j]).registry, taken[j].slug),
    ensures
        enrich_hits(s, taken, k).contains(
            make_result(s[key_index(s, taken[j].registry, taken[j].slug)], rank_score(j)),
        ),
    decreases taken.len() - k,
{
    let e = enrich_hits(s, taken, k);
    let target = make_result(s[key_index(s, taken[j].registry, taken[j].slug)], rank_score(j));
    if k == j {
        assert(e[0] == target);
        assert(0 <= 0 < e.len());
    } else {
        lemma_enrich_contains(s, taken, k + 1, j);
        let rest = enrich_hits(s, taken, k + 1);
        let x = choose|x: int| 0 <= x < rest.len() && rest[x] == target;
        if has_key(s, taken[k].registry, taken[k].slug) {
            assert(e[x + 1] == rest[x]);
            assert(0 <= x + 1 < e.len());
        } else {
            assert(e == rest);
        }
    }
}

/// Every enriched hit keeps the registry its raw hit carried, provided all
/// remaining raw hits pass the filter.
pub proof fn lemma_enrich_reg(s: Seq<SkillView>, taken: Seq<HitView>, k: int, g: Seq<char>)
    requires
        0 <= k <= taken.len(),
        forall|j: int| k <= j < taken.len() ==> (#[trigger] taken[j]).registry == g,
    ensures
        forall|x: int|
            0 <= x < enrich_hits(s, taken, k).len() ==> (#[trigger] enrich_hits(s, taken, k)[x]).registry
                == g,
    decreases taken.len() - k,
{
    if k < taken.len() {
        lemma_enrich_reg(s, taken, k + 1, g);
        let e = enrich_hits(s, taken, k);
        let rest = enrich_hits(s, taken, k + 1);
        if has_key(s, taken[k].registry, taken[k].slug) {
            let i = key_index(s, taken[k].registry, taken[k].slug);
            assert(0 <= i < s.len() && crate::db::key_at(s, i, taken[k].registry, taken[k].slug));
            assert forall|x: int| 0 <= x < e.len() implies (#[trigger] e[x]).registry == g by {
                if x > 0 {
                    assert(e[x] == rest[x - 1]);
                }
            }
        }
    }
}

/// A copy of one raw hit, preserving its view.
pub fn clone_hit(h: &crate::index::SearchResult) -> (r: crate::index::SearchResult)
    ensures
        r@ == h@,
{
    crate::index::SearchResult {
        slug: h.slug.clone(),
        name: h.name.clone(),
        description: h.description.clone(),
        registry: h.registry.clone(),
        score: h.score,
    }
}

/// The lexical fallback path: the raw index hits, filtered to the requested
/// registry, cut to the top `limit`, scored by rank and enriched with the
/// full records; a hit whose record is gone from the store is dropped.
pub fn text_fallback(
    db: &Database,
    text_hits: &Vec<crate::index::SearchResult>,
    limit: usize,
    registry: Option<&String>,
) -> (r: Vec<SearchResult>)
    requires
        db.wf(),
    ensures
        result_views(r@) == fallback_spec(
            db.skills(),
            hit_views(text_hits@),
            limit as int,
            opt_reg(registry),
        ),
{
    let ghost regv = opt_reg(registry);
    let n = text_hits.len();
    let mut kept: Vec<crate::index::SearchResult> = Vec::new();
    let mut i: usize = 0;
    proof {
        assert(hit_views(text_hits@).take(0) =~= Seq::<HitView>::empty());
        reveal(Seq::filter);
    }
    while i < n
        invariant
            n == text_hits@.len(),
            0 <= i <= n,
            regv == opt_reg(registry),
            hit_views(kept@) == keep_hits(hit_views(text_hits@).take(i as int), regv),
        decreases n - i,
    {
        proof {
            let hv = hit_views(text_hits@);
            reveal(Seq::filter);
            assert(hv.take(i + 1 as int).drop_last() =~= hv.take(i as int));
            assert(hv.take(i + 1 as int).last() == hv[i as int]);
        }
        let passes = match registry {
            Some(g) => text_hits[i].registry == *g,
            None => true,
        };
        if passes {
            let h = clone_hit(&text_hits[i]);
            kept.push(h);
            proof {
                let hv = hit_views(text_hits@);
                assert(hit_views(kept@) =~= keep_hits(hv.take(i as int), regv).push(hv[i as int]));
            }
        }
        i = i + 1;
    }
    proof {
        assert(hit_views(text_hits@).take(n as int) =~= hit_views(text_hits@));
    }
    let t = take_count(limit, kept.len());
    let ghost kept_full = hit_views(kept@);
    kept.truncate(t);
    proof {
        assert(hit_views(kept@) =~= kept_full.take(t as int));
    }
    let ghost taken = hit_views(kept@);
    let m = kept.len();
    let mut out: Vec<SearchResult> = Vec::new();
    let mut k: usize = 0;
    while k < m
        invariant
            db.wf(),
            m == kept@.len(),
            taken == hit_views(kept@),
            0 <= k <= m,
            result_views(out@) + enrich_hits(db.skills(), taken, k as int) == enrich_hits(
                db.skills(),
                taken,
                0,
            ),
        decreases m - k,
    {
        let ghost out0 = out@;
        match db.get_skill(&kept[k].registry, &kept[k].slug) {
            Some(srec) => {
                let score: i128 = 1000 - 100 * (k as i128);
                let res = SearchResult {
                    slug: srec.slug,
                    name: srec.name,
                    registry: srec.registry,
                    description: srec.description,
                    github_url: srec.github_url,
                    score: score,
                };
                proof {
                    assert(taken[k as int] == kept@[k as int]@);
                    assert(res@ == make_result(
                        db.skills()[key_index(db.skills(), taken[k as int].registry, taken[k as int].slug)],
                        rank_score(k as int),
                    ));
                }
                out.push(res);
                proof {
                    assert(result_views(out@) =~= result_views(out0).push(res@));
                    assert(enrich_hits(db.skills(), taken, k as int) == seq![res@] + enrich_hits(
                        db.skills(),
                        taken,
                        k as int + 1,
                    ));
                    assert(result_views(out0).push(res@) + enrich_hits(
                        db.skills(),
                        taken,
                        k as int + 1,
                    ) =~= result_views(out0) + enrich_hits(db.skills(), taken, k as int));
                }
            },
            None => {
                proof {
                    assert(!has_key(db.skills(), taken[k as int].registry, taken[k as int].slug));
                    assert(enrich_hits(db.skills(), taken, k as int) == enrich_hits(
                        db.skills(),
                        taken,
                        k as int + 1,
                    ));
                }
            },
        }
        k = k + 1;
    }
    proof {
        assert(enrich_hits(db.skills(), taken, m as int) =~= Seq::<ResultView>::empty());
        assert(result_views(out@) + enrich_hits(db.skills(), taken, m as int) =~= result_views(
            out@,
        ));
        assert(min_i(limit as int, kept_full.len() as int) == t as int);
    }
    out
}

/// True when the hit's record is still in the store and carries the trust
/// flag.
pub open spec fn trusted_result(s: Seq<SkillView>, x: ResultView) -> bool {
    has_key(s, x.registry, x.slug) && s[key_index(s, x.registry, x.slug)].trusted
}

/// The hits whose records are trusted, in order.
pub open spec fn trusted_results(s: Seq<SkillView>, rs: Seq<ResultView>) -> Seq<ResultView> {
    rs.filter(|x: ResultView| trusted_result(s, x))
}

/// A copy of one service hit, preserving its view.
fn clone_result(x: &SearchResult) -> (r: SearchResult)
    ensures
        r@ == x@,
{
    SearchResult {
        slug: x.slug.clone(),
        name: x.name.clone(),
        registry: x.registry.clone(),
        description: x.description.clone(),
        github_url: x.github_url.clone(),
        score: x.score,
    }
}

/// Keeps only the hits whose record is still stored and trusted, in order;
/// the user-facing trusted-only switch.
pub fn retain_trusted(db: &Database, results: &Vec<SearchResult>) -> (r: Vec<SearchResult>)
    requires
        db.wf(),
    ensures
        result_views(r@) == trusted_results(db.skills(), result_views(results@)),
{
    let n = results.len();
    let mut out: Vec<SearchResult> = Vec::new();
    let mut i: usize = 0;
    proof {
        assert(result_views(results@).take(0) =~= Seq::<ResultView>::empty());
        reveal(Seq::filter);
    }
    while i < n
        invariant
            db.wf(),
            n == results@.len(),
            0 <= i <= n,
            result_views(out@) == trusted_results(
                db.skills(),
                result_views(results@).take(i as int),
            ),
        decreases n - i,
    {
        proof {
            let rv = result_views(results@);
            reveal(Seq::filter);
            assert(rv.take(i + 1 as int).drop_last() =~= rv.take(i as int));
            assert(rv.take(i + 1 as int).last() == rv[i as int]);
        }
        let keep = match db.get_skill(&results[i].registry, &results[i].slug) {
            Some(rec) => rec.trusted,
            None => false,
        };
        if keep {
            let x = clone_result(&results[i]);
            out.push(x);
            proof {
                let rv = result_views(results@);
                assert(result_views(out@) =~= trusted_results(
                    db.skills(),
                    rv.take(i as int),
                ).push(rv[i as int]));
            }
        }
        i = i + 1;
    }
    proof {
        assert(result_views(results@).take(n as int) =~= result_views(results@));
    }
    out
}

/// The (popularity, record position) pairs the popularity ranking draws
/// from: every record, or only the trusted ones, in store order.
pub open spec fn top_candidates(s: Seq<SkillView>, trusted_only: bool) -> Seq<KeyPair>
    decreases s.len(),
{
    if s.len() == 0 {
        Seq::empty()
    } else {
        let prefix = top_candidates(s.drop_last(), trusted_only);
        let i = s.len() - 1;
        if !trusted_only || s[i as int].trusted {
            prefix.push((s[i as int].stars as i64, i as usize))
        } else {
            prefix
        }
    }
}

/// What it means for one (popularity, record position) pair to be a true
/// ranking candidate.
pub open spec fn top_candidate_ok(s: Seq<SkillView>, trusted_only: bool, p: KeyPair) -> bool {
    &&& 0 <= p.1 < s.len()
    &&& !trusted_only || s[p.1 as int].trusted
    &&& p.0 as int == s[p.1 as int].stars
}

pub proof fn lemma_top_candidates_ok(s: Seq<SkillView>, trusted_only: bool)
    requires
        s.len() <= usize::MAX as int,
        forall|i: int|
            0 <= i < s.len() ==> i64::MIN as int <= (#[trigger] s[i]).stars <= i64::MAX as int,
    ensures
        forall|j: int|
            0 <= j < top_candidates(s, trusted_only).len() ==> top_candidate_ok(
                s,
                trusted_only,
                #[trigger] top_candidates(s, trusted_only)[j],
            ),
    decreases s.len(),
{
    if s.len() > 0 {
        lemma_top_candidates_ok(s.drop_last(), trusted_only);
        let cands = top_candidates(s, trusted_only);
        let prefix = top_candidates(s.drop_last(), trusted_only);
        assert forall|j: int| 0 <= j < cands.len() implies top_candidate_ok(
            s,
            trusted_only,
            #[trigger] cands[j],
        ) by {
            if j < prefix.len() {
                assert(top_candidate_ok(s.drop_last(), trusted_only, prefix[j]));
                assert(s.drop_last()[prefix[j].1 as int] == s[prefix[j].1 as int]);
            }
        }
    }
}

/// The view `v` is one of the stored records and passes the trust filter.
pub open spec fn stored_top(s: Seq<SkillView>, trusted_only: bool, v: SkillView) -> bool {
    exists|i: int| 0 <= i < s.len() && #[trigger] s[i] == v && (!trusted_only || s[i].trusted)
}

/// The most popular records: every record (or, with `trusted_only`, every
/// trusted one) ranked by its popularity metric, descending, cut to the
/// best `limit`. Ties are broken arbitrarily.
#[verifier::rlimit(100)]
#[verifier::spinoff_prover]
pub fn top_skills(db: &Database, limit: usize, trusted_only: bool) -> (r: Vec<crate::skill::Skill>)
    requires
        db.wf(),
    ensures
        r@.len() == (if (limit as int) < top_candidates(db.skills(), trusted_only).len() {
            limit as int
        } else {
            top_candidates(db.skills(), trusted_only).len() as int
        }),
        forall|x: int, y: int|
            0 <= x < y < r@.len() ==> (#[trigger] views_of(r@)[x]).stars >= (
            #[trigger] views_of(r@)[y]).stars,
        forall|k: int|
            0 <= k < r@.len() ==> stored_top(db.skills(), trusted_only, #[trigger] views_of(r@)[k]),
        exists|full: Seq<KeyPair>|
            full.to_multiset() == top_candidates(db.skills(), trusted_only).to_multiset()
                && crate::rank::sorted_desc(full) && (forall|k: int|
                0 <= k < r@.len() ==> 0 <= (#[trigger] full[k]).1 < db.skills().len()
                    && views_of(r@)[k] == db.skills()[full[k].1 as int]),
{
    let mut pairs: Vec<KeyPair> = Vec::new();
    let n = db.skill_count();
    let mut i: usize = 0;
    proof {
        assert(db.skills().take(0) =~= Seq::<SkillView>::empty());
    }
    while i < n
        invariant
            db.wf(),
            n == db.skills().len(),
            0 <= i <= n,
            pairs@ == top_candidates(db.skills().take(i as int), trusted_only),
        decreases n - i,
    {
        proof {
            let sv = db.skills();
            assert(sv.take(i + 1 as int).drop_last() =~= sv.take(i as int));
            assert(sv.take(i + 1 as int).last() == sv[i as int]);
        }
        let row = db.skill_at(i);
        if !trusted_only || row.trusted {
            pairs.push((row.stars, i));
            proof {
                let sv = db.skills();
                assert(pairs@ =~= top_candidates(sv.take(i as int), trusted_only).push(
                    (sv[i as int].stars as i64, i as usize),
                ));
            }
        }
        i = i + 1;
    }
    proof {
        assert(db.skills().take(n as int) =~= db.skills());
        db.lemma_stars_in_range();
        lemma_top_candidates_ok(db.skills(), trusted_only);
    }
    let ghost cands = top_candidates(db.skills(), trusted_only);
    let mut sorted = crate::rank::sort_pairs(pairs, false);
    let ghost full = sorted@;
    let t = take_count(limit, sorted.len());
    sorted.truncate(t);
    proof {
        assert(sorted@ == full.take(t as int));
        assert forall|x: int| 0 <= x < full.len() implies top_candidate_ok(
            db.skills(),
            trusted_only,
            #[trigger] full[x],
        ) by {
            assert(full.contains(full[x]));
            assert(full.to_multiset().count(full[x]) > 0);
            assert(cands.to_multiset().count(full[x]) > 0);
            assert(cands.contains(full[x]));
            let idx = choose|idx: int| 0 <= idx < cands.len() && cands[idx] == full[x];
            assert(top_candidate_ok(db.skills(), trusted_only, cands[idx]));
        }
    }
    let m = sorted.len();
    let mut out: Vec<crate::skill::Skill> = Vec::new();
    let mut k: usize = 0;
    while k < m
        invariant
            db.wf(),
            m == sorted@.len(),
            m <= full.len(),
            sorted@ == full.take(m as int),
            0 <= k <= m,
            out@.len() == k,
            forall|x: int|
                0 <= x < full.len() ==> top_candidate_ok(db.skills(), trusted_only, #[trigger] full[x]),
            forall|x: int|
                0 <= x < k ==> #[trigger] views_of(out@)[x] == db.skills()[full[x].1 as int],
        decreases m - k,
    {
        let p = sorted[k];
        proof {
            assert(full.take(m as int)[k as int] == full[k as int]);
            assert(top_candidate_ok(db.skills(), trusted_only, p));
        }
        let ghost out0 = out@;
        let row = db.skill_at(p.1);
        let s = crate::skill::clone_skill(row);
        out.push(s);
        proof {
            assert(out@ == out0.push(s));
            assert forall|x: int| 0 <= x < k + 1 implies #[trigger] views_of(out@)[x]
                == db.skills()[full[x].1 as int] by {
                assert(views_of(out@)[x] == out@[x]@);
                if x < k {
                    assert(out@[x] == out0[x]);
                    assert(views_of(out0)[x] == out0[x]@);
                }
            }
        }
        k = k + 1;
    }
    proof {
        let sv = db.skills();
        assert forall|x: int, y: int| 0 <= x < y < out@.len() implies (
        #[trigger] views_of(out@)[x]).stars >= (#[trigger] views_of(out@)[y]).stars by {
            assert(crate::rank::sorted_desc(full));
            assert(full[x].0 >= full[y].0);
            assert(views_of(out@)[x] == sv[full[x].1 as int]);
            assert(views_of(out@)[y] == sv[full[y].1 as int]);
            assert(full[x].0 as int == sv[full[x].1 as int].stars);
            assert(full[y].0 as int == sv[full[y].1 as int].stars);
        }
        assert forall|k2: int| 0 <= k2 < out@.len() implies stored_top(
            sv,
            trusted_only,
            #[trigger] views_of(out@)[k2],
        ) by {
            let i2 = full[k2].1 as int;
            assert(0 <= i2 < sv.len() && sv[i2] == views_of(out@)[k2] && (!trusted_only
                || sv[i2].trusted));
        }
        assert(full.to_multiset() == cands.to_multiset() && crate::rank::sorted_desc(full) && (
        forall|k2: int|
            0 <= k2 < out@.len() ==> 0 <= (#[trigger] full[k2]).1 < db.skills().len()
                && views_of(out@)[k2] == db.skills()[full[k2].1 as int]));
    }
    out
}

/// Hybrid retrieval: the nearest-neighbour scan over the stored embeddings
/// is always preferred when it returns anything; each of its distances is
/// converted to a similarity of one minus the distance, and the closest
/// `limit` records are handed back. Only an empty vector result falls back
/// to the lexical hits, which are then scored by rank, and either path
/// enriches its hits with the full records. With a registry filter, every
/// returned record belongs to that registry; a limit of zero returns an
/// empty ranking and never an error.
#[verifier::rlimit(100)]
#[verifier::spinoff_prover]
pub fn search(
    db: &Database,
    query_vec: &Vec<i32>,
    text_hits: &Vec<crate::index::SearchResult>,
    limit: usize,
    registry: Option<&String>,
) -> (r: Vec<SearchResult>)
    requires
        db.wf(),
        crate::db::bounded_vector(int_vec(query_vec@)),
        limit <= usize::MAX / 2,
    ensures
        limit == 0 ==> r@.len() == 0,
        forall|k: int|
            0 <= k < r@.len() ==> reg_ok(#[trigger] result_views(r@)[k], opt_reg(registry)),
        (vector_candidates(db.skills(), db.embeddings(), int_vec(query_vec@), opt_reg(registry)).len()
            == 0 || limit == 0) ==> result_views(r@) == fallback_spec(
            db.skills(),
            hit_views(text_hits@),
            limit as int,
            opt_reg(registry),
        ),
        (vector_candidates(db.skills(), db.embeddings(), int_vec(query_vec@), opt_reg(registry)).len()
            > 0 && limit > 0) ==> {
            &&& r@.len() == min_i(
                limit as int,
                vector_candidates(
                    db.skills(),
                    db.embeddings(),
                    int_vec(query_vec@),
                    opt_reg(registry),
                ).len() as int,
            )
            &&& (forall|a: int, b: int|
                0 <= a < b < r@.len() ==> (#[trigger] result_views(r@)[a]).score >= (
                #[trigger] result_views(r@)[b]).score)
            &&& (exists|full: Seq<KeyPair>|
                full.to_multiset() == vector_candidates(
                    db.skills(),
                    db.embeddings(),
                    int_vec(query_vec@),
                    opt_reg(registry),
                ).to_multiset() && crate::rank::sorted_asc(full) && (forall|k: int|
                    0 <= k < r@.len() ==> 0 <= (#[trigger] full[k]).1 < db.skills().len()
                        && result_views(r@)[k] == make_result(
                        db.skills()[full[k].1 as int],
                        sim_score(full[k].0 as int),
                    )))
        },
{
    let two = limit * 2;
    let vres = db.vector_search(query_vec, two, registry);
    if vres.len() == 0 || limit == 0 {
        let r = text_fallback(db, text_hits, limit, registry);
        proof {
            let hv = hit_views(text_hits@);
            let regv = opt_reg(registry);
            let kept = keep_hits(hv, regv);
            let taken = kept.take(min_i(limit as int, kept.len() as int));
            if limit == 0 {
                assert(taken =~= Seq::<HitView>::empty());
                assert(enrich_hits(db.skills(), taken, 0).len() == 0);
                assert(r@.len() == result_views(r@).len());
            }
            match registry {
                Some(g) => {
                    assert forall|j: int| 0 <= j < taken.len() implies (
                    #[trigger] taken[j]).registry == g@ by {
                        assert(taken[j] == kept[j]);
                        assert(hit_keep(kept[j], regv));
                    }
                    lemma_enrich_reg(db.skills(), taken, 0, g@);
                    assert forall|k: int| 0 <= k < r@.len() implies reg_ok(
                        #[trigger] result_views(r@)[k],
                        regv,
                    ) by {
                        assert(result_views(r@)[k] == enrich_hits(db.skills(), taken, 0)[k]);
                    }
                },
                None => {
                },
            }
        }
        r
    } else {
        let ghost s = db.skills();
        let ghost e = db.embeddings();
        let ghost q = int_vec(query_vec@);
        let ghost regv = opt_reg(registry);
        let ghost cands = vector_candidates(s, e, q, regv);
        let ghost full = choose|full: Seq<KeyPair>|
            full.to_multiset() == cands.to_multiset() && crate::rank::sorted_asc(full) && (forall|
                k: int,
            |
                0 <= k < vres@.len() ==> 0 <= (#[trigger] full[k]).1 < db.skills().len()
                    && vres@[k].0 as int == db.skills()[full[k].1 as int].id && vres@[k].1
                    == full[k].0);
        proof {
            assert(full.to_multiset() == cands.to_multiset() && crate::rank::sorted_asc(full) && (
            forall|k: int|
                0 <= k < vres@.len() ==> 0 <= (#[trigger] full[k]).1 < db.skills().len()
                    && vres@[k].0 as int == db.skills()[full[k].1 as int].id && vres@[k].1
                    == full[k].0));
        }
        let m = take_count(limit, vres.len());
        let mut out: Vec<SearchResult> = Vec::new();
        let mut k: usize = 0;
        while k < m
            invariant
                db.wf(),
                s == db.skills(),
                e == db.embeddings(),
                q == int_vec(query_vec@),
                regv == opt_reg(registry),
                cands == vector_candidates(s, e, q, regv),
                m <= vres@.len(),
                0 <= k <= m,
                out@.len() == k,
                forall|x: int|
                    0 <= x < vres@.len() ==> vector_hit(s, e, q, regv, #[trigger] vres@[x]),
                forall|x: int|
                    0 <= x < vres@.len() ==> 0 <= (#[trigger] full[x]).1 < s.len() && vres@[x].0
                        as int == s[full[x].1 as int].id && vres@[x].1 == full[x].0,
                forall|x: int|
                    0 <= x < k ==> #[trigger] result_views(out@)[x] == make_result(
                        s[full[x].1 as int],
                        sim_score(full[x].0 as int),
                    ),
            decreases m - k,
        {
            let hit = vres[k];
            let id = hit.0;
            let dist = hit.1;
            match db.get_skill_by_id(id) {
                Some(srec) => {
                    let score: i128 = 1000 - (dist as i128);
                    let ghost out0 = out@;
                    let res = SearchResult {
                        slug: srec.slug,
                        name: srec.name,
                        registry: srec.registry,
                        description: srec.description,
                        github_url: srec.github_url,
                        score: score,
                    };
                    proof {
                        let i0 = choose|i0: int|
                            0 <= i0 < s.len() && (#[trigger] s[i0]).id == id as int && srec@
                                == s[i0];
                        assert(0 <= i0 < s.len() && s[i0].id == id as int && srec@ == s[i0]);
                        let f = full[k as int].1 as int;
                        assert(s[f].id == id as int);
                        if i0 != f {
                            if i0 < f {
                                assert(s[i0].id != s[f].id);
                            } else {
                                assert(s[f].id != s[i0].id);
                            }
                            assert(false);
                        }
                        assert(res@ == make_result(s[f], sim_score(full[k as int].0 as int)));
                    }
                    out.push(res);
                    proof {
                        assert forall|x: int| 0 <= x < k + 1 implies #[trigger] result_views(
                            out@,
                        )[x] == make_result(s[full[x].1 as int], sim_score(full[x].0 as int)) by {
                            assert(result_views(out@)[x] == out@[x]@);
                            if x < k {
                                assert(out@[x] == out0[x]);
                                assert(result_views(out0)[x] == out0[x]@);
                            }
                        }
                    }
                },
                None => {
                    proof {
                        assert(vector_hit(s, e, q, regv, vres@[k as int]));
                        let iw = choose|i: int|
                            0 <= i < s.len() && (#[trigger] s[i]).id == vres@[k as int].0 as int
                                && crate::db::reg_match(s[i], regv) && crate::db::has_emb(
                                e,
                                s[i].id,
                            ) && vres@[k as int].1 as int == crate::db::sq_dist(
                                q,
                                crate::db::emb_of(e, s[i].id),
                            );
                        assert(0 <= iw < s.len() && s[iw].id == id as int);
                        assert(false);
                    }
                },
            }
            k = k + 1;
        }
        proof {
            assert forall|x: int| 0 <= x < out@.len() implies reg_ok(
                #[trigger] result_views(out@)[x],
                regv,
            ) by {
                assert(vector_hit(s, e, q, regv, vres@[x]));
                let iw = choose|i: int|
                    0 <= i < s.len() && (#[trigger] s[i]).id == vres@[x].0 as int
                        && crate::db::reg_match(s[i], regv) && crate::db::has_emb(e, s[i].id)
                        && vres@[x].1 as int == crate::db::sq_dist(
                        q,
                        crate::db::emb_of(e, s[i].id),
                    );
                assert(0 <= iw < s.len() && s[iw].id == vres@[x].0 as int && crate::db::reg_match(
                    s[iw],
                    regv,
                ));
                let f = full[x].1 as int;
                assert(s[f].id == vres@[x].0 as int);
                if iw != f {
                    if iw < f {
                        assert(s[iw].id != s[f].id);
                    } else {
                        assert(s[f].id != s[iw].id);
                    }
                    assert(false);
                }
                assert(result_views(out@)[x].registry == s[f].registry);
            }
            assert forall|a: int, b: int| 0 <= a < b < out@.len() implies (
            #[trigger] result_views(out@)[a]).score >= (#[trigger] result_views(out@)[b]).score by {
                assert(crate::rank::sorted_asc(full));
                assert(full[a].0 <= full[b].0);
                assert(result_views(out@)[a] == make_result(
                    s[full[a].1 as int],
                    sim_score(full[a].0 as int),
                ));
                assert(result_views(out@)[b] == make_result(
                    s[full[b].1 as int],
                    sim_score(full[b].0 as int),
                ));
            }
            assert(full.to_multiset() == cands.to_multiset() && crate::rank::sorted_asc(full) && (
            forall|k2: int|
                0 <= k2 < out@.len() ==> 0 <= (#[trigger] full[k2]).1 < db.skills().len()
                    && result_views(out@)[k2] == make_result(
                    db.skills()[full[k2].1 as int],
                    sim_score(full[k2].0 as int),
                )));
            assert(vres@.len() as int == min_i(2 * limit as int, cands.len() as int));
            assert(out@.len() as int == min_i(limit as int, cands.len() as int));
        }
        out
    }
}

} // verus!
