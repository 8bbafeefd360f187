//! Query-time assembly: ranked candidates from the index, enriched from
//! the store, scored by the quality overlay, filtered and truncated.
//!
//! The retriever over-fetches four times the requested count before
//! filtering; a heavily filtered query can still return fewer rows than
//! requested even when more matches exist beyond that window.  That is
//! the documented approximation, not a defect.  A candidate whose store
//! row has vanished between rebuild and query is silently dropped.

use vstd::prelude::*;
use vstd::string::*;
use crate::db::{key_index, Database, Skill, SkillView};
use crate::index::{
    filt_view, search_spec, sort_of, tokens_of, SearchIndex, SearchResultView,
};
use crate::quality::{lookup, norm_of, qkey, QualityEntryView, QualityScores};

verus! {

/// A store row together with the scores the retriever attached.
#[derive(Debug, Clone)]
pub struct ScoredSkill {
    pub skill: Skill,
    pub search_score: i64,
    pub quality_score: i64,
}

pub struct ScoredSkillView {
    pub skill: SkillView,
    pub search_score: int,
    pub quality_score: int,
}

impl View for ScoredSkill {
    type V = ScoredSkillView;

    open spec fn view(&self) -> ScoredSkillView {
        ScoredSkillView {
            skill: self.skill@,
            search_score: self.search_score as int,
            quality_score: self.quality_score as int,
        }
    }
}

pub open spec fn scored_views(v: Seq<ScoredSkill>) -> Seq<ScoredSkillView> {
    v.map_values(|s: ScoredSkill| s@)
}

/// A row's quality score: by normalized slug, falling back to the
/// normalized name, and 0 on a double miss.
pub open spec fn quality_of(
    pairs: Seq<(Seq<char>, QualityEntryView)>,
    registry: Seq<char>,
    slug: Seq<char>,
    name: Seq<char>,
) -> int {
    match lookup(pairs, qkey(registry, norm_of(slug))) {
        Some(e) => e.score,
        None => match lookup(pairs, qkey(registry, norm_of(name))) {
            Some(e) => e.score,
            None => 0,
        },
    }
}

/// Walking ranked candidates: fetch the row, attach the quality score,
/// apply the trusted-only and minimum-score filters, stop at the budget.
pub open spec fn enrich_spec(
    cands: Seq<SearchResultView>,
    store: Seq<SkillView>,
    pairs: Seq<(Seq<char>, QualityEntryView)>,
    trusted_only: bool,
    min_score: int,
    budget: int,
) -> Seq<ScoredSkillView>
    decreases cands.len(),
{
    if cands.len() == 0 || budget <= 0 {
        Seq::empty()
    } else {
        let c = cands[0];
        let rest = cands.skip(1);
        let i = key_index(store, c.registry, c.slug);
        if i >= 0 {
            let sk = store[i];
            let q = quality_of(pairs, sk.registry, sk.slug, sk.name);
            if (!trusted_only || sk.trusted) && q >= min_score {
                seq![
                    ScoredSkillView { skill: sk, search_score: c.score, quality_score: q },
                ] + enrich_spec(rest, store, pairs, trusted_only, min_score, budget - 1)
            } else {
                enrich_spec(rest, store, pairs, trusted_only, min_score, budget)
            }
        } else {
            enrich_spec(rest, store, pairs, trusted_only, min_score, budget)
        }
    }
}

/// Four candidates are requested for every answer owed, capped at the
/// machine's limit.
pub open spec fn over_fetch(limit: int) -> int {
    if limit * 4 > usize::MAX {
        usize::MAX as int
    } else {
        limit * 4
    }
}

/// The retriever, end to end: what `search_skills` returns.
pub open spec fn retrieve_spec(
    store: Seq<SkillView>,
    docs: Seq<crate::index::SearchDocView>,
    pairs: Seq<(Seq<char>, QualityEntryView)>,
    q: Seq<Seq<char>>,
    filt: Option<Seq<char>>,
    limit: int,
    trusted_only: bool,
    min_score: int,
) -> Seq<ScoredSkillView> {
    enrich_spec(
        search_spec(docs, q, filt, over_fetch(limit)),
        store,
        pairs,
        trusted_only,
        min_score,
        limit,
    )
}

/// A row's quality score as the retriever attaches it: looked up by the
/// normalized slug, falling back to the normalized name, and 0 on a
/// double miss.
pub fn quality_score_for(quality: &QualityScores, skill: &Skill) -> (r: i64)
    ensures
        r as int == quality_of(quality.pairs_view(), skill@.registry, skill@.slug, skill@.name),
{
    match quality.get_score(skill.registry.as_str(), skill.slug.as_str()) {
        Some(s) => s,
        None => match quality.get_score(skill.registry.as_str(), skill.name.as_str()) {
            Some(s) => s,
            None => 0,
        },
    }
}

/// Answer a query: over-fetch ranked candidates, enrich each from the
/// store, attach quality scores, filter by trust and minimum score,
/// and return at most `limit` rows, in rank order.
pub fn search_skills(
    db: &Database,
    index: &SearchIndex,
    quality: &QualityScores,
    query: &str,
    limit: usize,
    registry: Option<&str>,
    trusted_only: bool,
    min_score: i64,
) -> (r: Vec<ScoredSkill>)
    ensures
        scored_views(r@) == retrieve_spec(
            db.skills_view(),
            index.docs_view(),
            quality.pairs_view(),
            tokens_of(query@),
            filt_view(registry),
            limit as int,
            trusted_only,
            min_score as int,
        ),
{
    let fetch: usize = if limit > usize::MAX / 4 {
        usize::MAX
    } else {
        limit * 4
    };
    proof {
        assert(fetch as int == over_fetch(limit as int));
    }
    let cands = index.search(query, fetch, registry);
    let ghost cv = crate::index::result_views(cands@);
    let ghost store = db.skills_view();
    let ghost pairs = quality.pairs_view();
    let mut out: Vec<ScoredSkill> = Vec::new();
    let mut i: usize = 0;
    proof {
        assert(cv.skip(0) =~= cv);
        assert(scored_views(out@) =~= Seq::<ScoredSkillView>::empty());
    }
    while i < cands.len() && out.len() < limit
        invariant
            cv == crate::index::result_views(cands@),
            cv.len() == cands@.len(),
            store == db.skills_view(),
            pairs == quality.pairs_view(),
            i <= cands@.len(),
            out@.len() <= limit,
            enrich_spec(cv, store, pairs, trusted_only, min_score as int, limit as int)
                == scored_views(out@) + enrich_spec(
                cv.skip(i as int),
                store,
                pairs,
                trusted_only,
                min_score as int,
                limit - out@.len(),
            ),
        decreases cands@.len() - i,
    {
        let c = &cands[i];
        proof {
            assert(cv[i as int] == cands@[i as int]@);
            assert(cv.skip(i as int)[0] == cv[i as int]);
            assert(cv.skip(i as int).skip(1) =~= cv.skip(i as int + 1));
        }
        let ghost prev = scored_views(out@);
        match db.get_skill(c.registry.as_str(), c.slug.as_str()) {
            Some(sk) => {
                let q = quality_score_for(quality, &sk);
                let keep = (!trusted_only || sk.trusted) && q >= min_score;
                if keep {
                    let row = ScoredSkill { skill: sk, search_score: c.score, quality_score: q };
                    out.push(row);
                    proof {
                        let ci = cv[i as int];
                        let pushed = ScoredSkillView {
                            skill: store[key_index(store, ci.registry, ci.slug)],
                            search_score: ci.score,
                            quality_score: q as int,
                        };
                        let rest = enrich_spec(
                            cv.skip(i as int + 1),
                            store,
                            pairs,
                            trusted_only,
                            min_score as int,
                            limit - out@.len(),
                        );
                        assert(scored_views(out@) =~= prev.push(pushed));
                        assert(prev + (seq![pushed] + rest) =~= scored_views(out@) + rest);
                    }
                }
            },
            None => {},
        }
        i += 1;
    }
    proof {
        if i as int == cv.len() {
            assert(cv.skip(i as int) =~= Seq::<SearchResultView>::empty());
        }
        assert(enrich_spec(
            cv.skip(i as int),
            store,
            pairs,
            trusted_only,
            min_score as int,
            limit - out@.len(),
        ) =~= Seq::<ScoredSkillView>::empty());
        assert(scored_views(out@) + Seq::<ScoredSkillView>::empty() =~= scored_views(out@));
    }
    out
}

/// The star-ranked candidates of the `top` listing: `(stars, index)`
/// for every row passing the trust and quality filters, in store order.
pub open spec fn star_cands(
    store: Seq<SkillView>,
    pairs: Seq<(Seq<char>, QualityEntryView)>,
    trusted_only: bool,
    min_score: int,
) -> Seq<(int, int)>
    decreases store.len(),
{
    if store.len() == 0 {
        Seq::empty()
    } else {
        let sk = store.last();
        let q = quality_of(pairs, sk.registry, sk.slug, sk.name);
        star_cands(store.drop_last(), pairs, trusted_only, min_score) + if (!trusted_only
            || sk.trusted) && q >= min_score {
            seq![(sk.stars, store.len() - 1)]
        } else {
            Seq::empty()
        }
    }
}

pub open spec fn top_results_from(
    store: Seq<SkillView>,
    pairs: Seq<(Seq<char>, QualityEntryView)>,
    cut: Seq<(int, int)>,
) -> Seq<ScoredSkillView>
    decreases cut.len(),
{
    if cut.len() == 0 {
        Seq::empty()
    } else {
        let sk = store[cut.last().1];
        top_results_from(store, pairs, cut.drop_last()).push(
            ScoredSkillView {
                skill: sk,
                search_score: 0,
                quality_score: quality_of(pairs, sk.registry, sk.slug, sk.name),
            },
        )
    }
}

/// What `top_skills` returns: the filtered rows, ordered by descending
/// stars — store order breaking ties — truncated to the limit.
pub open spec fn top_spec(
    store: Seq<SkillView>,
    pairs: Seq<(Seq<char>, QualityEntryView)>,
    trusted_only: bool,
    min_score: int,
    limit: int,
) -> Seq<ScoredSkillView> {
    let sorted = sort_of(star_cands(store, pairs, trusted_only, min_score));
    let cut = if sorted.len() <= limit {
        sorted
    } else {
        sorted.take(limit)
    };
    top_results_from(store, pairs, cut)
}

/// List the stored skills with the highest star counts, after the trust
/// and minimum-quality filters, at most `limit` of them.
pub fn top_skills(
    db: &Database,
    quality: &QualityScores,
    limit: usize,
    trusted_only: bool,
    min_score: i64,
) -> (r: Vec<ScoredSkill>)
    ensures
        scored_views(r@) == top_spec(
            db.skills_view(),
            quality.pairs_view(),
            trusted_only,
            min_score as int,
            limit as int,
        ),
{
    let rows = db.get_all_skills();
    let ghost store = db.skills_view();
    let ghost pairs = quality.pairs_view();

    let mut cands: Vec<(i64, usize)> = Vec::new();
    let mut i: usize = 0;
    proof {
        assert(crate::index::pair_views(cands@) =~= Seq::<(int, int)>::empty());
        assert(store.take(0) =~= Seq::<SkillView>::empty());
    }
    while i < rows.len()
        invariant
            crate::db::skill_views(rows@) == store,
            store.len() == rows@.len(),
            pairs == quality.pairs_view(),
            i <= rows@.len(),
            crate::index::pair_views(cands@) == star_cands(
                store.take(i as int),
                pairs,
                trusted_only,
                min_score as int,
            ),
            forall|k: int|
                0 <= k < cands@.len() ==> 0 <= (#[trigger] crate::index::pair_views(cands@)[k]).1
                    < i,
        decreases rows@.len() - i,
    {
        let row = &rows[i];
        let ghost prev = crate::index::pair_views(cands@);
        proof {
            assert(store[i as int] == rows@[i as int]@);
            assert(store.take(i as int + 1).drop_last() =~= store.take(i as int));
            assert(store.take(i as int + 1).last() == store[i as int]);
        }
        let q = quality_score_for(quality, row);
        let keep = (!trusted_only || row.trusted) && q >= min_score;
        if keep {
            cands.push((row.stars, i));
            proof {
                assert(crate::index::pair_views(cands@) =~= prev.push((
                    row.stars as int,
                    i as int,
                )));
                assert(star_cands(store.take(i as int + 1), pairs, trusted_only, min_score as int)
                    =~= prev.push((store[i as int].stars, i as int)));
            }
        } else {
            proof {
                assert(star_cands(store.take(i as int + 1), pairs, trusted_only, min_score as int)
                    =~= prev + Seq::<(int, int)>::empty());
                assert(prev + Seq::<(int, int)>::empty() =~= prev);
            }
        }
        i += 1;
    }
    proof {
        assert(store.take(rows@.len() as int) =~= store);
    }

    let ghost cv = crate::index::pair_views(cands@);
    let mut sorted: Vec<(i64, usize)> = Vec::new();
    let mut k: usize = 0;
    proof {
        assert(crate::index::pair_views(sorted@) =~= Seq::<(int, int)>::empty());
        assert(cv.take(0) =~= Seq::<(int, int)>::empty());
    }
    while k < cands.len()
        invariant
            cv == crate::index::pair_views(cands@),
            cv.len() == cands@.len(),
            k <= cands@.len(),
            crate::index::pair_views(sorted@) == sort_of(cv.take(k as int)),
        decreases cands@.len() - k,
    {
        let x = cands[k];
        proof {
            assert(cv[k as int] == (cands@[k as int].0 as int, cands@[k as int].1 as int));
            assert(cv.take(k as int + 1).drop_last() =~= cv.take(k as int));
            assert(cv.take(k as int + 1).last() == cv[k as int]);
        }
        crate::index::insert_candidate(&mut sorted, x);
        k += 1;
    }
    proof {
        assert(cv.take(cands@.len() as int) =~= cv);
    }

    let ghost sortv = sort_of(cv);
    proof {
        crate::index::lemma_sort_of_props(cv);
    }
    if sorted.len() > limit {
        sorted.truncate(limit);
        proof {
            assert(crate::index::pair_views(sorted@) =~= sortv.take(limit as int));
        }
    }
    let ghost cut = if sortv.len() <= limit as int {
        sortv
    } else {
        sortv.take(limit as int)
    };
    proof {
        assert(crate::index::pair_views(sorted@) == cut);
        broadcast use vstd::seq_lib::group_to_multiset_ensures;

        assert forall|m: int| 0 <= m < cut.len() implies 0 <= (#[trigger] cut[m]).1
            < store.len() by {
            if sortv.len() <= limit as int {
                assert(sortv.to_multiset().contains(cut[m]));
                assert(cv.to_multiset().contains(cut[m]));
                assert(cv.contains(cut[m]));
                let w = choose|w: int| 0 <= w < cv.len() && cv[w] == cut[m];
            } else {
                assert(cut[m] == sortv[m]);
                assert(sortv.to_multiset().contains(sortv[m]));
                assert(cv.to_multiset().contains(sortv[m]));
                assert(cv.contains(sortv[m]));
                let w = choose|w: int| 0 <= w < cv.len() && cv[w] == sortv[m];
            }
        }
    }

    let mut out: Vec<ScoredSkill> = Vec::new();
    let mut m: usize = 0;
    proof {
        assert(scored_views(out@) =~= top_results_from(store, pairs, cut.take(0)));
        assert(cut.take(0) =~= Seq::<(int, int)>::empty());
    }
    while m < sorted.len()
        invariant
            cut == crate::index::pair_views(sorted@),
            cut.len() == sorted@.len(),
            m <= sorted@.len(),
            crate::db::skill_views(rows@) == store,
            store.len() == rows@.len(),
            pairs == quality.pairs_view(),
            forall|w: int| 0 <= w < cut.len() ==> 0 <= (#[trigger] cut[w]).1 < store.len(),
            scored_views(out@) == top_results_from(store, pairs, cut.take(m as int)),
        decreases sorted@.len() - m,
    {
        let p = sorted[m];
        proof {
            assert(cut[m as int] == (sorted@[m as int].0 as int, sorted@[m as int].1 as int));
            assert(0 <= cut[m as int].1 < store.len());
        }
        let row = &rows[p.1];
        let q = quality_score_for(quality, row);
        let res = ScoredSkill { skill: row.duplicate(), search_score: 0, quality_score: q };
        let ghost prev = scored_views(out@);
        proof {
            assert(store[p.1 as int] == rows@[p.1 as int]@);
        }
        out.push(res);
        proof {
            assert(scored_views(out@) =~= prev.push(
                ScoredSkillView {
                    skill: store[cut[m as int].1],
                    search_score: 0,
                    quality_score: quality_of(
                        pairs,
                        store[cut[m as int].1].registry,
                        store[cut[m as int].1].slug,
                        store[cut[m as int].1].name,
                    ),
                },
            ));
            assert(cut.take(m as int + 1).drop_last() =~= cut.take(m as int));
            assert(cut.take(m as int + 1).last() == cut[m as int]);
        }
        m += 1;
    }
    proof {
        assert(cut.take(sorted@.len() as int) =~= cut);
    }
    out
}

} // verus!
