//! The full-text projection of the store and its ranked queries.
//!
//! A rebuild replaces every document with one per current store row; a
//! query tokenizes its text, scores each document by how many distinct
//! query terms occur among the document's tokens, keeps the documents
//! with a positive score (and, when a registry filter is given, exactly
//! that registry), and returns them ordered by descending score — ties
//! resolved by document order, so results are deterministic — truncated
//! to the requested limit.

use vstd::prelude::*;
use vstd::string::*;
use crate::db::{Database, SkillView};
use crate::text::{char_is_alphanumeric, is_alphanumeric_char, lower_of, lowercase, str_eq, views_of};

verus! {

/// Maximal runs of alphanumeric characters, accumulator form.
pub open spec fn token_acc(s: Seq<char>, cur: Seq<char>) -> Seq<Seq<char>>
    decreases s.len(),
{
    if s.len() == 0 {
        if cur.len() > 0 {
            seq![cur]
        } else {
            Seq::empty()
        }
    } else if is_alphanumeric_char(s[0]) {
        token_acc(s.skip(1), cur.push(s[0]))
    } else if cur.len() > 0 {
        seq![cur] + token_acc(s.skip(1), Seq::empty())
    } else {
        token_acc(s.skip(1), Seq::empty())
    }
}

/// The index's tokens of a text: lowercase it, then split it into
/// maximal alphanumeric runs.
pub open spec fn tokens_of(s: Seq<char>) -> Seq<Seq<char>> {
    token_acc(lower_of(s), Seq::empty())
}

/// Tokenize a text as the index does.
pub fn tokenize(s: &str) -> (r: Vec<String>)
    ensures
        views_of(r@) == tokens_of(s@),
{
    let low = lowercase(s);
    let n = low.as_str().unicode_len();
    let mut out: Vec<String> = Vec::new();
    let mut cur: String = String::new();
    let mut i: usize = 0;
    proof {
        assert(low@.skip(0) =~= low@);
        assert(views_of(Seq::<String>::empty()) + token_acc(low@, Seq::<char>::empty())
            =~= token_acc(low@, Seq::<char>::empty()));
    }
    while i < n
        invariant
            n == low@.len(),
            low@ == lower_of(s@),
            i <= n,
            tokens_of(s@) == views_of(out@) + token_acc(low@.skip(i as int), cur@),
        decreases n - i,
    {
        let c = low.as_str().get_char(i);
        proof {
            assert(low@.skip(i as int)[0] == low@[i as int]);
            assert(low@.skip(i as int).skip(1) =~= low@.skip(i as int + 1));
        }
        if char_is_alphanumeric(c) {
            let piece = low.as_str().substring_char(i, i + 1);
            proof {
                assert(piece@ =~= seq![low@[i as int]]);
                assert(cur@ + piece@ =~= cur@.push(low@[i as int]));
            }
            cur.append(piece);
        } else {
            if !cur.as_str().is_empty() {
                let ghost prev_out = views_of(out@);
                let ghost prev_cur = cur@;
                let ghost rest = token_acc(low@.skip(i as int + 1), Seq::<char>::empty());
                out.push(cur);
                cur = String::new();
                proof {
                    assert(views_of(out@) =~= prev_out + seq![prev_cur]);
                    assert((prev_out + seq![prev_cur]) + rest =~= prev_out + (seq![prev_cur]
                        + rest));
                }
            } else {
                proof {
                    assert(cur@ =~= Seq::<char>::empty());
                }
            }
        }
        i += 1;
    }
    proof {
        assert(low@.skip(n as int) =~= Seq::<char>::empty());
    }
    if !cur.as_str().is_empty() {
        let ghost prev_out = views_of(out@);
        let ghost prev_cur = cur@;
        out.push(cur);
        proof {
            assert(views_of(out@) =~= prev_out + seq![prev_cur]);
        }
    } else {
        proof {
            assert(views_of(out@) + Seq::<Seq<char>>::empty() =~= views_of(out@));
        }
    }
    out
}

/// How many of the query's tokens occur among a document's tokens; a
/// token counts once however often it occurs.
pub open spec fn score_of(q: Seq<Seq<char>>, d: Seq<Seq<char>>) -> nat
    decreases q.len(),
{
    if q.len() == 0 {
        0
    } else {
        score_of(q.drop_last(), d) + if d.contains(q.last()) {
            1nat
        } else {
            0
        }
    }
}

fn contains_token(d: &Vec<String>, t: &str) -> (r: bool)
    ensures
        r == views_of(d@).contains(t@),
{
    let ghost dv = views_of(d@);
    let mut j: usize = 0;
    while j < d.len()
        invariant
            dv == views_of(d@),
            dv.len() == d@.len(),
            j <= d@.len(),
            forall|k: int| 0 <= k < j ==> #[trigger] dv[k] != t@,
        decreases d@.len() - j,
    {
        proof {
            assert(dv[j as int] == d@[j as int]@);
        }
        if str_eq(d[j].as_str(), t) {
            proof {
                assert(dv.contains(t@)) by {
                    assert(dv[j as int] == t@);
                }
            }
            return true;
        }
        j += 1;
    }
    proof {
        assert(!dv.contains(t@)) by {
            if dv.contains(t@) {
                let w = choose|w: int| 0 <= w < dv.len() && dv[w] == t@;
                assert(dv[w] != t@);
            }
        }
    }
    false
}

fn score_tokens(q: &Vec<String>, d: &Vec<String>) -> (r: usize)
    ensures
        r as int == score_of(views_of(q@), views_of(d@)),
        r <= q@.len(),
{
    let ghost qv = views_of(q@);
    let ghost dv = views_of(d@);
    let mut r: usize = 0;
    let mut i: usize = 0;
    proof {
        assert(qv.take(0) =~= Seq::<Seq<char>>::empty());
    }
    while i < q.len()
        invariant
            qv == views_of(q@),
            dv == views_of(d@),
            qv.len() == q@.len(),
            i <= q@.len(),
            r <= i,
            r as int == score_of(qv.take(i as int), dv),
        decreases q@.len() - i,
    {
        proof {
            assert(qv.take(i as int + 1).drop_last() =~= qv.take(i as int));
            assert(qv.take(i as int + 1).last() == qv[i as int]);
            assert(qv[i as int] == q@[i as int]@);
        }
        if contains_token(d, q[i].as_str()) {
            r += 1;
        }
        i += 1;
    }
    proof {
        assert(qv.take(q@.len() as int) =~= qv);
    }
    r
}

/// A score clamped into `i64`; in practice a score — at most the number
/// of query tokens — never reaches the clamp.
pub open spec fn cap_i64(n: int) -> int {
    if n > i64::MAX {
        i64::MAX as int
    } else {
        n
    }
}

/// The ranking order on `(score, document index)` pairs: higher score
/// first, document order among equal scores.  A strict total order on
/// pairs with distinct indices, so a sort under it is deterministic.
pub open spec fn ranks_before(a: (int, int), b: (int, int)) -> bool {
    a.0 > b.0 || (a.0 == b.0 && a.1 < b.1)
}

pub open spec fn insert_ranked(x: (int, int), s: Seq<(int, int)>) -> Seq<(int, int)>
    decreases s.len(),
{
    if s.len() == 0 {
        seq![x]
    } else if ranks_before(x, s[0]) {
        seq![x] + s
    } else {
        seq![s[0]] + insert_ranked(x, s.skip(1))
    }
}

/// Insertion sort under the ranking order, processing left to right.
pub open spec fn sort_of(s: Seq<(int, int)>) -> Seq<(int, int)>
    decreases s.len(),
{
    if s.len() == 0 {
        Seq::empty()
    } else {
        insert_ranked(s.last(), sort_of(s.drop_last()))
    }
}

/// Prepending inserts into the multiset, like pushing.
proof fn lemma_multiset_cons(x: (int, int), s: Seq<(int, int)>)
    ensures
        (seq![x] + s).to_multiset() == s.to_multiset().insert(x),
    decreases s.len(),
{
    broadcast use vstd::seq_lib::group_to_multiset_ensures;

    if s.len() == 0 {
        assert(seq![x] + s =~= Seq::<(int, int)>::empty().push(x));
        assert(s =~= Seq::<(int, int)>::empty());
    } else {
        let s0 = s.drop_last();
        let a = s.last();
        lemma_multiset_cons(x, s0);
        assert(seq![x] + s =~= (seq![x] + s0).push(a));
        assert(s0.push(a) =~= s);
        assert(s0.to_multiset().insert(x).insert(a) =~= s0.to_multiset().insert(a).insert(x));
    }
}

pub proof fn lemma_insert_ranked_props(x: (int, int), s: Seq<(int, int)>)
    ensures
        insert_ranked(x, s).len() == s.len() + 1,
        insert_ranked(x, s).to_multiset() == s.to_multiset().insert(x),
    decreases s.len(),
{
    broadcast use vstd::seq_lib::group_to_multiset_ensures;

    if s.len() == 0 {
        assert(seq![x] =~= s.push(x));
    } else if ranks_before(x, s[0]) {
        lemma_multiset_cons(x, s);
    } else {
        lemma_insert_ranked_props(x, s.skip(1));
        lemma_multiset_cons(s[0], insert_ranked(x, s.skip(1)));
        lemma_multiset_cons(s[0], s.skip(1));
        assert(seq![s[0]] + s.skip(1) =~= s);
        assert(s.skip(1).to_multiset().insert(x).insert(s[0]) =~= s.skip(
            1,
        ).to_multiset().insert(s[0]).insert(x));
    }
}

pub proof fn lemma_sort_of_props(s: Seq<(int, int)>)
    ensures
        sort_of(s).len() == s.len(),
        sort_of(s).to_multiset() == s.to_multiset(),
    decreases s.len(),
{
    broadcast use vstd::seq_lib::group_to_multiset_ensures;

    if s.len() > 0 {
        lemma_sort_of_props(s.drop_last());
        lemma_insert_ranked_props(s.last(), sort_of(s.drop_last()));
        assert(s.drop_last().push(s.last()) =~= s);
        assert(s.drop_last().push(s.last()).to_multiset() == s.drop_last().to_multiset().insert(
            s.last(),
        ));
    }
}

/// One element of a ranked insertion: where the new pair lands.
proof fn lemma_insert_ranked_at(x: (int, int), s: Seq<(int, int)>, j: int)
    requires
        0 <= j <= s.len(),
        forall|k: int| 0 <= k < j ==> !ranks_before(x, #[trigger] s[k]),
        j < s.len() ==> ranks_before(x, s[j]),
    ensures
        insert_ranked(x, s) == s.insert(j, x),
    decreases s.len(),
{
    if s.len() == 0 {
        assert(s.insert(0, x) =~= seq![x]);
    } else if j == 0 {
        assert(seq![x] + s =~= s.insert(0, x));
    } else {
        assert(!ranks_before(x, s[0]));
        assert forall|k: int| 0 <= k < j - 1 implies !ranks_before(x, #[trigger] s.skip(1)[k]) by {
            assert(s.skip(1)[k] == s[k + 1]);
        }
        if j - 1 < s.skip(1).len() {
            assert(s.skip(1)[j - 1] == s[j]);
        }
        lemma_insert_ranked_at(x, s.skip(1), j - 1);
        assert(seq![s[0]] + s.skip(1).insert(j - 1, x) =~= s.insert(j, x));
    }
}

pub open spec fn pair_views(v: Seq<(i64, usize)>) -> Seq<(int, int)> {
    v.map_values(|p: (i64, usize)| (p.0 as int, p.1 as int))
}

/// Insert a candidate into a run of already ranked candidates.
pub(crate) fn insert_candidate(out: &mut Vec<(i64, usize)>, x: (i64, usize))
    ensures
        pair_views(final(out)@) == insert_ranked(
            (x.0 as int, x.1 as int),
            pair_views(old(out)@),
        ),
{
    let ghost v = pair_views(out@);
    let ghost xv = (x.0 as int, x.1 as int);
    let mut j: usize = 0;
    while j < out.len()
        invariant
            out == old(out),
            v == pair_views(out@),
            xv == (x.0 as int, x.1 as int),
            v.len() == out@.len(),
            j <= out@.len(),
            forall|k: int| 0 <= k < j ==> !ranks_before(xv, #[trigger] v[k]),
        decreases out@.len() - j,
    {
        let p = out[j];
        proof {
            assert(v[j as int] == (out@[j as int].0 as int, out@[j as int].1 as int));
        }
        if x.0 > p.0 || (x.0 == p.0 && x.1 < p.1) {
            proof {
                lemma_insert_ranked_at(xv, v, j as int);
            }
            out.insert(j, x);
            proof {
                assert(pair_views(out@) =~= v.insert(j as int, xv));
            }
            return ;
        }
        j += 1;
    }
    proof {
        lemma_insert_ranked_at(xv, v, v.len() as int);
    }
    out.push(x);
    proof {
        assert(pair_views(out@) =~= v.insert(v.len() as int, xv));
    }
}

/// One indexed document: the retrievable fields and the token list the
/// scorer walks.
pub struct SearchDoc {
    pub slug: String,
    pub name: String,
    pub description: String,
    pub registry: String,
    pub tokens: Vec<String>,
}

pub struct SearchDocView {
    pub slug: Seq<char>,
    pub name: Seq<char>,
    pub description: Seq<char>,
    pub registry: Seq<char>,
    pub tokens: Seq<Seq<char>>,
}

impl View for SearchDoc {
    type V = SearchDocView;

    open spec fn view(&self) -> SearchDocView {
        SearchDocView {
            slug: self.slug@,
            name: self.name@,
            description: self.description@,
            registry: self.registry@,
            tokens: views_of(self.tokens@),
        }
    }
}

pub open spec fn doc_views(v: Seq<SearchDoc>) -> Seq<SearchDocView> {
    v.map_values(|d: SearchDoc| d@)
}

/// The tokenized-only projection of a row: name, description and the
/// full manifest text, to widen recall beyond the title fields.
pub open spec fn content_of(sk: SkillView) -> Seq<char> {
    sk.name + seq![' '] + sk.description + seq![' '] + sk.skill_md
}

/// The document a store row is projected to.
pub open spec fn doc_of(sk: SkillView) -> SearchDocView {
    SearchDocView {
        slug: sk.slug,
        name: sk.name,
        description: sk.description,
        registry: sk.registry,
        tokens: tokens_of(sk.name) + tokens_of(sk.description) + tokens_of(content_of(sk)),
    }
}

pub open spec fn docs_of(skills: Seq<SkillView>) -> Seq<SearchDocView> {
    skills.map_values(|sk: SkillView| doc_of(sk))
}

/// One ranked answer: the retrievable fields of a matching document and
/// its score.
#[derive(Debug, Clone)]
pub struct SearchResult {
    pub slug: String,
    pub name: String,
    pub description: String,
    pub registry: String,
    pub score: i64,
}

pub struct SearchResultView {
    pub slug: Seq<char>,
    pub name: Seq<char>,
    pub description: Seq<char>,
    pub registry: Seq<char>,
    pub score: int,
}

impl View for SearchResult {
    type V = SearchResultView;

    open spec fn view(&self) -> SearchResultView {
        SearchResultView {
            slug: self.slug@,
            name: self.name@,
            description: self.description@,
            registry: self.registry@,
            score: self.score as int,
        }
    }
}

impl SearchResult {
    /// `registry:slug`, unique per result because the store keys rows so.
    pub fn unique_key(&self) -> (r: String)
        ensures
            r@ == self.registry@ + seq![':'] + self.slug@,
    {
        let k = self.registry.clone().concat(":").concat(self.slug.as_str());
        proof {
            reveal_strlit(":");
            assert(":"@ =~= seq![':']);
        }
        k
    }
}

pub open spec fn result_views(v: Seq<SearchResult>) -> Seq<SearchResultView> {
    v.map_values(|r: SearchResult| r@)
}

/// Whether a document passes the optional exact registry filter.
pub open spec fn passes(d: SearchDocView, filt: Option<Seq<char>>) -> bool {
    match filt {
        Some(reg) => d.registry == reg,
        None => true,
    }
}

/// The candidates of a query: `(clamped score, document index)` for each
/// document that passes the filter and shares at least one token with
/// the query, in document order.
pub open spec fn cand_pairs(
    docs: Seq<SearchDocView>,
    q: Seq<Seq<char>>,
    filt: Option<Seq<char>>,
) -> Seq<(int, int)>
    decreases docs.len(),
{
    if docs.len() == 0 {
        Seq::empty()
    } else {
        cand_pairs(docs.drop_last(), q, filt) + if passes(docs.last(), filt) && score_of(
            q,
            docs.last().tokens,
        ) > 0 {
            seq![(cap_i64(score_of(q, docs.last().tokens) as int), docs.len() - 1)]
        } else {
            Seq::empty()
        }
    }
}

pub open spec fn result_of(docs: Seq<SearchDocView>, p: (int, int)) -> SearchResultView {
    SearchResultView {
        slug: docs[p.1].slug,
        name: docs[p.1].name,
        description: docs[p.1].description,
        registry: docs[p.1].registry,
        score: p.0,
    }
}

pub open spec fn results_from(docs: Seq<SearchDocView>, pairs: Seq<(int, int)>) -> Seq<
    SearchResultView,
>
    decreases pairs.len(),
{
    if pairs.len() == 0 {
        Seq::empty()
    } else {
        results_from(docs, pairs.drop_last()).push(result_of(docs, pairs.last()))
    }
}

/// The whole query: rank the candidates, truncate, read the fields out.
pub open spec fn search_spec(
    docs: Seq<SearchDocView>,
    q: Seq<Seq<char>>,
    filt: Option<Seq<char>>,
    limit: int,
) -> Seq<SearchResultView> {
    let sorted = sort_of(cand_pairs(docs, q, filt));
    let cut = if sorted.len() <= limit {
        sorted
    } else {
        sorted.take(limit)
    };
    results_from(docs, cut)
}

pub open spec fn filt_view(registry: Option<&str>) -> Option<Seq<char>> {
    match registry {
        Some(reg) => Some(reg@),
        None => None,
    }
}

/// The full-text index: the documents of the last rebuild.
pub struct SearchIndex {
    docs: Vec<SearchDoc>,
}

impl SearchIndex {
    /// The indexed documents, in store order as of the last rebuild.
    pub closed spec fn docs_view(&self) -> Seq<SearchDocView> {
        doc_views(self.docs@)
    }

    /// A fresh index with no documents.
    pub fn open_or_create() -> (r: SearchIndex)
        ensures
            r.docs_view() == Seq::<SearchDocView>::empty(),
    {
        let r = SearchIndex { docs: Vec::new() };
        proof {
            assert(r.docs_view() =~= Seq::<SearchDocView>::empty());
        }
        r
    }

    /// Full replace: discard every document and write one per current
    /// store row.  The only way newly synced rows become searchable.
    pub fn rebuild(&mut self, db: &Database)
        ensures
            final(self).docs_view() == docs_of(db.skills_view()),
    {
        let rows = db.get_all_skills();
        let ghost skills = db.skills_view();
        let mut docs: Vec<SearchDoc> = Vec::new();
        let mut i: usize = 0;
        proof {
            assert(doc_views(docs@) =~= docs_of(skills).take(0));
        }
        while i < rows.len()
            invariant
                crate::db::skill_views(rows@) == skills,
                skills.len() == rows@.len(),
                i <= rows@.len(),
                doc_views(docs@) == docs_of(skills).take(i as int),
            decreases rows@.len() - i,
        {
            let row = &rows[i];
            proof {
                assert(skills[i as int] == rows@[i as int]@);
            }
            let content = row.name.clone().concat(" ").concat(row.description.as_str()).concat(
                " ",
            ).concat(row.skill_md.as_str());
            proof {
                reveal_strlit(" ");
                assert(" "@ =~= seq![' ']);
                assert(content@ == content_of(skills[i as int]));
            }
            let mut toks = tokenize(row.name.as_str());
            let mut t2 = tokenize(row.description.as_str());
            let mut t3 = tokenize(content.as_str());
            let ghost v1 = views_of(toks@);
            let ghost v2 = views_of(t2@);
            let ghost v3 = views_of(t3@);
            toks.append(&mut t2);
            proof {
                assert(views_of(toks@) =~= v1 + v2);
            }
            toks.append(&mut t3);
            proof {
                assert(views_of(toks@) =~= (v1 + v2) + v3);
            }
            let doc = SearchDoc {
                slug: row.slug.clone(),
                name: row.name.clone(),
                description: row.description.clone(),
                registry: row.registry.clone(),
                tokens: toks,
            };
            let ghost prev = doc_views(docs@);
            proof {
                assert(doc@ == doc_of(skills[i as int]));
            }
            docs.push(doc);
            proof {
                assert(doc_views(docs@) =~= prev.push(doc_of(skills[i as int])));
                assert(docs_of(skills)[i as int] == doc_of(skills[i as int]));
                assert(docs_of(skills).take(i as int + 1) =~= docs_of(skills).take(i as int).push(
                    docs_of(skills)[i as int],
                ));
            }
            i += 1;
        }
        proof {
            assert(docs_of(skills).take(rows@.len() as int) =~= docs_of(skills));
        }
        self.docs = docs;
    }

    /// Evaluate a free-text query, with an optional exact registry
    /// filter, returning at most `limit` results ranked by descending
    /// score, document order breaking ties.
    pub fn search(&self, query_str: &str, limit: usize, registry: Option<&str>) -> (r: Vec<
        SearchResult,
    >)
        ensures
            result_views(r@) == search_spec(
                self.docs_view(),
                tokens_of(query_str@),
                filt_view(registry),
                limit as int,
            ),
    {
        let ghost docs = self.docs_view();
        let ghost fv = filt_view(registry);
        let q = tokenize(query_str);
        let ghost qv = tokens_of(query_str@);

        // Gather candidates in document order.
        let mut cands: Vec<(i64, usize)> = Vec::new();
        let mut i: usize = 0;
        proof {
            assert(pair_views(cands@) =~= Seq::<(int, int)>::empty());
            assert(docs.take(0) =~= Seq::<SearchDocView>::empty());
        }
        while i < self.docs.len()
            invariant
                docs == self.docs_view(),
                docs.len() == self.docs@.len(),
                qv == views_of(q@),
                fv == filt_view(registry),
                i <= self.docs@.len(),
                pair_views(cands@) == cand_pairs(docs.take(i as int), qv, fv),
                forall|k: int|
                    0 <= k < cands@.len() ==> 0 <= (#[trigger] pair_views(cands@)[k]).1 < i,
            decreases self.docs@.len() - i,
        {
            let doc = &self.docs[i];
            let ghost prev = pair_views(cands@);
            proof {
                assert(docs[i as int] == self.docs@[i as int]@);
                assert(docs.take(i as int + 1).drop_last() =~= docs.take(i as int));
                assert(docs.take(i as int + 1).last() == docs[i as int]);
            }
            let ok = match registry {
                Some(reg) => str_eq(doc.registry.as_str(), reg),
                None => true,
            };
            if ok {
                let sc = score_tokens(&q, &doc.tokens);
                if sc > 0 {
                    let capped: i64 = if sc as u64 > i64::MAX as u64 {
                        i64::MAX
                    } else {
                        sc as i64
                    };
                    cands.push((capped, i));
                    proof {
                        assert(capped as int == cap_i64(score_of(qv, docs[i as int].tokens) as int));
                        assert(pair_views(cands@) =~= prev.push((capped as int, i as int)));
                        assert(cand_pairs(docs.take(i as int + 1), qv, fv) =~= prev.push((
                            capped as int,
                            i as int,
                        )));
                    }
                }
            }
            proof {
                if !(passes(docs[i as int], fv) && score_of(qv, docs[i as int].tokens) > 0) {
                    assert(cand_pairs(docs.take(i as int + 1), qv, fv) =~= prev
                        + Seq::<(int, int)>::empty());
                    assert(prev + Seq::<(int, int)>::empty() =~= prev);
                }
            }
            i += 1;
        }
        proof {
            assert(docs.take(self.docs@.len() as int) =~= docs);
        }

        // Rank them.
        let ghost cv = pair_views(cands@);
        let mut sorted: Vec<(i64, usize)> = Vec::new();
        let mut k: usize = 0;
        proof {
            assert(pair_views(sorted@) =~= Seq::<(int, int)>::empty());
            assert(cv.take(0) =~= Seq::<(int, int)>::empty());
        }
        while k < cands.len()
            invariant
                cv == pair_views(cands@),
                cv.len() == cands@.len(),
                k <= cands@.len(),
                pair_views(sorted@) == sort_of(cv.take(k as int)),
                forall|m: int| 0 <= m < cv.len() ==> 0 <= (#[trigger] cv[m]).1 < docs.len(),
                docs == self.docs_view(),
                docs.len() == self.docs@.len(),
            decreases cands@.len() - k,
        {
            let x = cands[k];
            proof {
                assert(cv[k as int] == (cands@[k as int].0 as int, cands@[k as int].1 as int));
                assert(cv.take(k as int + 1).drop_last() =~= cv.take(k as int));
                assert(cv.take(k as int + 1).last() == cv[k as int]);
            }
            insert_candidate(&mut sorted, x);
            k += 1;
        }
        proof {
            assert(cv.take(cands@.len() as int) =~= cv);
        }

        // Truncate to the limit.
        let ghost sortv = sort_of(cv);
        proof {
            lemma_sort_of_props(cv);
        }
        if sorted.len() > limit {
            sorted.truncate(limit);
            proof {
                assert(pair_views(sorted@) =~= sortv.take(limit as int));
            }
        }
        let ghost cut = if sortv.len() <= limit as int {
            sortv
        } else {
            sortv.take(limit as int)
        };
        proof {
            assert(pair_views(sorted@) == cut);
            broadcast use vstd::seq_lib::group_to_multiset_ensures;

            assert forall|m: int| 0 <= m < cut.len() implies 0 <= (#[trigger] cut[m]).1
                < docs.len() by {
                if sortv.len() <= limit as int {
                    assert(sortv.to_multiset().contains(cut[m]));
                    assert(cv.to_multiset().contains(cut[m]));
                    assert(cv.contains(cut[m]));
                    let w = choose|w: int| 0 <= w < cv.len() && cv[w] == cut[m];
                } else {
                    assert(cut[m] == sortv[m]);
                    assert(sortv.to_multiset().contains(sortv[m]));
                    assert(cv.to_multiset().contains(sortv[m]));
                    assert(cv.contains(sortv[m]));
                    let w = choose|w: int| 0 <= w < cv.len() && cv[w] == sortv[m];
                }
            }
        }

        // Read the fields out, in rank order.
        let mut out: Vec<SearchResult> = Vec::new();
        let mut m: usize = 0;
        proof {
            assert(result_views(out@) =~= results_from(docs, cut.take(0)));
            assert(cut.take(0) =~= Seq::<(int, int)>::empty());
        }
        while m < sorted.len()
            invariant
                cut == pair_views(sorted@),
                cut.len() == sorted@.len(),
                m <= sorted@.len(),
                docs == self.docs_view(),
                docs.len() == self.docs@.len(),
                forall|w: int| 0 <= w < cut.len() ==> 0 <= (#[trigger] cut[w]).1 < docs.len(),
                result_views(out@) == results_from(docs, cut.take(m as int)),
            decreases sorted@.len() - m,
        {
            let p = sorted[m];
            proof {
                assert(cut[m as int] == (sorted@[m as int].0 as int, sorted@[m as int].1 as int));
                assert(0 <= cut[m as int].1 < docs.len());
            }
            let doc = &self.docs[p.1];
            let res = SearchResult {
                slug: doc.slug.clone(),
                name: doc.name.clone(),
                description: doc.description.clone(),
                registry: doc.registry.clone(),
                score: p.0,
            };
            let ghost prev = result_views(out@);
            proof {
                assert(docs[p.1 as int] == self.docs@[p.1 as int]@);
                assert(res@ == result_of(docs, cut[m as int]));
            }
            out.push(res);
            proof {
                assert(result_views(out@) =~= prev.push(result_of(docs, cut[m as int])));
                assert(cut.take(m as int + 1).drop_last() =~= cut.take(m as int));
                assert(cut.take(m as int + 1).last() == cut[m as int]);
            }
            m += 1;
        }
        proof {
            assert(cut.take(sorted@.len() as int) =~= cut);
        }
        out
    }
}

pub proof fn lemma_cand_pairs_sound(
    docs: Seq<SearchDocView>,
    q: Seq<Seq<char>>,
    filt: Option<Seq<char>>,
    k: int,
)
    requires
        0 <= k < cand_pairs(docs, q, filt).len(),
    ensures
        ({
            let p = cand_pairs(docs, q, filt)[k];
            &&& 0 <= p.1 < docs.len()
            &&& passes(docs[p.1], filt)
            &&& score_of(q, docs[p.1].tokens) > 0
            &&& p.0 == cap_i64(score_of(q, docs[p.1].tokens) as int)
        }),
    decreases docs.len(),
{
    let pre = cand_pairs(docs.drop_last(), q, filt);
    if k < pre.len() {
        lemma_cand_pairs_sound(docs.drop_last(), q, filt, k);
        assert(docs.drop_last()[pre[k].1] == docs[pre[k].1]);
        assert(cand_pairs(docs, q, filt)[k] == pre[k]);
    }
}

pub proof fn lemma_cand_pairs_complete(
    docs: Seq<SearchDocView>,
    q: Seq<Seq<char>>,
    filt: Option<Seq<char>>,
    i: int,
)
    requires
        0 <= i < docs.len(),
        passes(docs[i], filt),
        score_of(q, docs[i].tokens) > 0,
    ensures
        cand_pairs(docs, q, filt).contains(
            (cap_i64(score_of(q, docs[i].tokens) as int), i),
        ),
    decreases docs.len(),
{
    let pre = cand_pairs(docs.drop_last(), q, filt);
    let p = (cap_i64(score_of(q, docs[i].tokens) as int), i);
    if i == docs.len() - 1 {
        assert(cand_pairs(docs, q, filt)[pre.len() as int] == p);
    } else {
        assert(docs.drop_last()[i] == docs[i]);
        lemma_cand_pairs_complete(docs.drop_last(), q, filt, i);
        let w = choose|w: int| 0 <= w < pre.len() && pre[w] == p;
        assert(cand_pairs(docs, q, filt)[w] == p);
    }
}

proof fn lemma_cand_pairs_none(
    docs: Seq<SearchDocView>,
    q: Seq<Seq<char>>,
    filt: Option<Seq<char>>,
)
    requires
        forall|i: int|
            0 <= i < docs.len() ==> !(passes(#[trigger] docs[i], filt) && score_of(
                q,
                docs[i].tokens,
            ) > 0),
    ensures
        cand_pairs(docs, q, filt) == Seq::<(int, int)>::empty(),
    decreases docs.len(),
{
    if docs.len() > 0 {
        assert forall|i: int| 0 <= i < docs.drop_last().len() implies !(passes(
            #[trigger] docs.drop_last()[i],
            filt,
        ) && score_of(q, docs.drop_last()[i].tokens) > 0) by {
            assert(docs.drop_last()[i] == docs[i]);
        }
        lemma_cand_pairs_none(docs.drop_last(), q, filt);
        assert(docs.last() == docs[docs.len() - 1]);
        assert(cand_pairs(docs, q, filt) =~= Seq::<(int, int)>::empty());
    }
}

proof fn lemma_results_from_len(docs: Seq<SearchDocView>, pairs: Seq<(int, int)>)
    ensures
        results_from(docs, pairs).len() == pairs.len(),
    decreases pairs.len(),
{
    if pairs.len() > 0 {
        lemma_results_from_len(docs, pairs.drop_last());
    }
}

proof fn lemma_results_from_index(docs: Seq<SearchDocView>, pairs: Seq<(int, int)>, k: int)
    requires
        0 <= k < pairs.len(),
    ensures
        results_from(docs, pairs).len() == pairs.len(),
        results_from(docs, pairs)[k] == result_of(docs, pairs[k]),
    decreases pairs.len(),
{
    lemma_results_from_len(docs, pairs);
    if k < pairs.len() - 1 {
        assert(pairs.drop_last()[k] == pairs[k]);
        lemma_results_from_index(docs, pairs.drop_last(), k);
    }
}

/// Law: index freshness, the matching half — after a rebuild from the
/// store, a query sharing a token with a stored skill's name,
/// description or manifest returns that skill, whenever the limit
/// admits every candidate.
pub proof fn lemma_search_finds_match(
    skills: Seq<SkillView>,
    q: Seq<Seq<char>>,
    filt: Option<Seq<char>>,
    limit: int,
    i: int,
)
    requires
        0 <= i < skills.len(),
        passes(doc_of(skills[i]), filt),
        score_of(q, doc_of(skills[i]).tokens) > 0,
        cand_pairs(docs_of(skills), q, filt).len() <= limit,
    ensures
        exists|k: int|
            0 <= k < search_spec(docs_of(skills), q, filt, limit).len() && (
            #[trigger] search_spec(docs_of(skills), q, filt, limit)[k]).slug == skills[i].slug
                && search_spec(docs_of(skills), q, filt, limit)[k].registry == skills[i].registry,
{
    broadcast use vstd::seq_lib::group_to_multiset_ensures;

    let docs = docs_of(skills);
    assert(docs[i] == doc_of(skills[i]));
    let p = (cap_i64(score_of(q, docs[i].tokens) as int), i);
    lemma_cand_pairs_complete(docs, q, filt, i);
    let cands = cand_pairs(docs, q, filt);
    lemma_sort_of_props(cands);
    let sorted = sort_of(cands);
    assert(cands.to_multiset().count(p) > 0);
    assert(sorted.contains(p));
    let k = choose|k: int| 0 <= k < sorted.len() && sorted[k] == p;
    assert(search_spec(docs, q, filt, limit) == results_from(docs, sorted));
    lemma_results_from_index(docs, sorted, k);
    assert(search_spec(docs, q, filt, limit)[k].slug == skills[i].slug);
    assert(search_spec(docs, q, filt, limit)[k].registry == skills[i].registry);
}

/// Law: index freshness, the empty half — a query matching no document
/// returns the empty sequence.
pub proof fn lemma_search_empty(
    docs: Seq<SearchDocView>,
    q: Seq<Seq<char>>,
    filt: Option<Seq<char>>,
    limit: int,
)
    requires
        0 <= limit,
        forall|i: int|
            0 <= i < docs.len() ==> !(passes(#[trigger] docs[i], filt) && score_of(
                q,
                docs[i].tokens,
            ) > 0),
    ensures
        search_spec(docs, q, filt, limit) == Seq::<SearchResultView>::empty(),
{
    lemma_cand_pairs_none(docs, q, filt);
}

/// Law: registry filter correctness — every result of a filtered
/// search carries exactly the filter's registry.
pub proof fn lemma_search_registry_filtered(
    docs: Seq<SearchDocView>,
    q: Seq<Seq<char>>,
    reg: Seq<char>,
    limit: int,
    k: int,
)
    requires
        0 <= limit,
        0 <= k < search_spec(docs, q, Some(reg), limit).len(),
    ensures
        search_spec(docs, q, Some(reg), limit)[k].registry == reg,
{
    broadcast use vstd::seq_lib::group_to_multiset_ensures;

    let cands = cand_pairs(docs, q, Some(reg));
    lemma_sort_of_props(cands);
    let sorted = sort_of(cands);
    let cut = if sorted.len() <= limit {
        sorted
    } else {
        sorted.take(limit)
    };
    lemma_results_from_len(docs, cut);
    lemma_results_from_index(docs, cut, k);
    assert(sorted.contains(cut[k])) by {
        if sorted.len() <= limit {
        } else {
            assert(cut[k] == sorted[k]);
        }
    }
    assert(cands.to_multiset().count(cut[k]) > 0);
    assert(cands.contains(cut[k]));
    let w = choose|w: int| 0 <= w < cands.len() && cands[w] == cut[k];
    lemma_cand_pairs_sound(docs, q, Some(reg), w);
    assert(docs[cut[k].1].registry == reg);
}

proof fn lemma_score_positive(q: Seq<Seq<char>>, d: Seq<Seq<char>>, t: Seq<char>)
    requires
        q.contains(t),
        d.contains(t),
    ensures
        score_of(q, d) > 0,
    decreases q.len(),
{
    let i = choose|i: int| 0 <= i < q.len() && q[i] == t;
    if i == q.len() - 1 {
        assert(d.contains(q.last()));
    } else {
        assert(q.drop_last().contains(t)) by {
            assert(q.drop_last()[i] == q[i]);
        }
        lemma_score_positive(q.drop_last(), d, t);
    }
}

/// Law: sharing one token with a document's name, its description or
/// its combined content is enough to score it positive — so the
/// freshness law applies to a query matching any of the three.
pub proof fn lemma_token_match_scores(q: Seq<Seq<char>>, sk: SkillView, t: Seq<char>)
    requires
        q.contains(t),
        tokens_of(sk.name).contains(t) || tokens_of(sk.description).contains(t) || tokens_of(
            content_of(sk),
        ).contains(t),
    ensures
        score_of(q, doc_of(sk).tokens) > 0,
{
    let a = tokens_of(sk.name);
    let b = tokens_of(sk.description);
    let c = tokens_of(content_of(sk));
    let d = doc_of(sk).tokens;
    assert(d.contains(t)) by {
        if a.contains(t) {
            let i = choose|i: int| 0 <= i < a.len() && a[i] == t;
            assert(d[i] == t);
        } else if b.contains(t) {
            let i = choose|i: int| 0 <= i < b.len() && b[i] == t;
            assert(d[a.len() + i] == t);
        } else {
            let i = choose|i: int| 0 <= i < c.len() && c[i] == t;
            assert(d[a.len() + b.len() + i] == t);
        }
    }
    lemma_score_positive(q, d, t);
}

} // verus!
