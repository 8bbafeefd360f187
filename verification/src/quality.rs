//! The curated quality overlay: a read-only table mapping a normalized
//! `registry:slug` key to a curated entry with a 0–100 score.
//!
//! Each dataset entry is filed under two keys — its normalized name and
//! the normalized last path segment of its url — to tolerate naming
//! drift between the curated dataset and live registry slugs.  Lookups
//! that miss resolve to no score; the retriever turns that into the
//! concrete default 0.

use vstd::prelude::*;
use vstd::string::*;
use crate::text::{
    char_is_alphanumeric, is_alphanumeric_char, lower_of, lowercase, split_char, split_char_spec,
    str_eq, views_of,
};

verus! {

/// The characters a normalized key keeps: alphanumerics, `-` and `_`.
pub open spec fn keep_char(c: char) -> bool {
    is_alphanumeric_char(c) || c == '-' || c == '_'
}

pub open spec fn keep_pred() -> spec_fn(char) -> bool {
    |c: char| keep_char(c)
}

/// Key normalization: lowercase, then strip every character that is not
/// alphanumeric, `-` or `_`.
pub open spec fn norm_of(s: Seq<char>) -> Seq<char> {
    lower_of(s).filter(keep_pred())
}

/// Normalize a lookup key.
pub fn normalize_slug(s: &str) -> (r: String)
    ensures
        r@ == norm_of(s@),
{
    let low = lowercase(s);
    let n = low.as_str().unicode_len();
    let mut out = String::new();
    let mut i: usize = 0;
    proof {
        reveal(Seq::filter);
        assert(low@.take(0) =~= Seq::<char>::empty());
        assert(low@.take(0).filter(keep_pred()) =~= Seq::<char>::empty());
    }
    while i < n
        invariant
            n == low@.len(),
            low@ == lower_of(s@),
            i <= n,
            out@ == low@.take(i as int).filter(keep_pred()),
        decreases n - i,
    {
        let c = low.as_str().get_char(i);
        let keep = char_is_alphanumeric(c) || c == '-' || c == '_';
        proof {
            reveal(Seq::filter);
            assert(low@.take(i as int + 1).drop_last() =~= low@.take(i as int));
            assert(low@.take(i as int + 1).last() == low@[i as int]);
        }
        if keep {
            let piece = low.as_str().substring_char(i, i + 1);
            proof {
                assert(piece@ =~= seq![low@[i as int]]);
            }
            out.append(piece);
        }
        i += 1;
    }
    proof {
        assert(low@.take(n as int) =~= low@);
    }
    out
}

/// The last non-empty segment, scanning from the end.
pub open spec fn last_nonempty(segs: Seq<Seq<char>>) -> Seq<char>
    decreases segs.len(),
{
    if segs.len() == 0 {
        Seq::empty()
    } else if segs.last().len() > 0 {
        segs.last()
    } else {
        last_nonempty(segs.drop_last())
    }
}

/// The last non-empty `/`-separated segment of a url, or empty.
pub open spec fn url_slug_of(url: Seq<char>) -> Seq<char> {
    last_nonempty(split_char_spec(url, '/'))
}

/// The slug a url carries: its last non-empty path segment.
pub fn extract_slug_from_url(url: &str) -> (r: String)
    ensures
        r@ == url_slug_of(url@),
{
    let segs = split_char(url, '/');
    let ghost views = views_of(segs@);
    let mut j: usize = segs.len();
    proof {
        assert(views.take(segs@.len() as int) =~= views);
    }
    while j > 0
        invariant
            views == views_of(segs@),
            views == split_char_spec(url@, '/'),
            j <= segs@.len(),
            views.len() == segs@.len(),
            last_nonempty(views) == last_nonempty(views.take(j as int)),
        decreases j,
    {
        let seg = &segs[j - 1];
        proof {
            assert(views.take(j as int).last() == views[j as int - 1]);
            assert(views[j as int - 1] == segs@[j as int - 1]@);
            assert(views.take(j as int).drop_last() =~= views.take(j as int - 1));
        }
        if !seg.as_str().is_empty() {
            return seg.clone();
        }
        j -= 1;
    }
    proof {
        assert(views.take(0) =~= Seq::<Seq<char>>::empty());
    }
    String::new()
}

/// One curated dataset entry.
#[derive(Debug, Clone)]
pub struct QualityEntry {
    pub name: String,
    pub registry: String,
    pub score: i64,
    pub stars: i64,
    pub rationale: String,
    pub url: String,
}

pub struct QualityEntryView {
    pub name: Seq<char>,
    pub registry: Seq<char>,
    pub score: int,
    pub stars: int,
    pub rationale: Seq<char>,
    pub url: Seq<char>,
}

impl View for QualityEntry {
    type V = QualityEntryView;

    open spec fn view(&self) -> QualityEntryView {
        QualityEntryView {
            name: self.name@,
            registry: self.registry@,
            score: self.score as int,
            stars: self.stars as int,
            rationale: self.rationale@,
            url: self.url@,
        }
    }
}

impl QualityEntry {
    /// An exact copy, field for field.
    pub fn duplicate(&self) -> (r: QualityEntry)
        ensures
            r@ == self@,
    {
        QualityEntry {
            name: self.name.clone(),
            registry: self.registry.clone(),
            score: self.score,
            stars: self.stars,
            rationale: self.rationale.clone(),
            url: self.url.clone(),
        }
    }
}

pub open spec fn entry_views(v: Seq<QualityEntry>) -> Seq<QualityEntryView> {
    v.map_values(|e: QualityEntry| e@)
}

pub open spec fn pair_views(v: Seq<(String, QualityEntry)>) -> Seq<(Seq<char>, QualityEntryView)> {
    v.map_values(|p: (String, QualityEntry)| (p.0@, p.1@))
}

pub open spec fn entries_of(pairs: Seq<(Seq<char>, QualityEntryView)>) -> Seq<QualityEntryView> {
    pairs.map_values(|p: (Seq<char>, QualityEntryView)| p.1)
}

/// Index of the first pair filed under `key`, or -1.
pub open spec fn pair_index(pairs: Seq<(Seq<char>, QualityEntryView)>, key: Seq<char>) -> int
    decreases pairs.len(),
{
    if pairs.len() == 0 {
        -1
    } else if pairs[0].0 == key {
        0
    } else if pair_index(pairs.skip(1), key) == -1 {
        -1
    } else {
        pair_index(pairs.skip(1), key) + 1
    }
}

pub proof fn lemma_pair_index(pairs: Seq<(Seq<char>, QualityEntryView)>, key: Seq<char>)
    ensures
        -1 <= pair_index(pairs, key) < pairs.len(),
        pair_index(pairs, key) >= 0 ==> pairs[pair_index(pairs, key)].0 == key,
        forall|i: int|
            0 <= i < pairs.len() && (pair_index(pairs, key) == -1 || i < pair_index(pairs, key))
                ==> (#[trigger] pairs[i]).0 != key,
    decreases pairs.len(),
{
    if pairs.len() > 0 && pairs[0].0 != key {
        lemma_pair_index(pairs.skip(1), key);
        let k = pair_index(pairs, key);
        assert forall|i: int| 0 <= i < pairs.len() && (k == -1 || i < k) implies (
        #[trigger] pairs[i]).0 != key by {
            if i >= 1 {
                assert(pairs.skip(1)[i - 1] == pairs[i]);
            }
        }
        if k >= 0 {
            assert(pairs.skip(1)[k - 1] == pairs[k]);
        }
    }
}

/// The entry filed under `key`, if any: the first matching pair.
pub open spec fn lookup(
    pairs: Seq<(Seq<char>, QualityEntryView)>,
    key: Seq<char>,
) -> Option<QualityEntryView> {
    let i = pair_index(pairs, key);
    if i >= 0 {
        Some(pairs[i].1)
    } else {
        None
    }
}

/// `registry:slug`, the shape of every table key.
pub open spec fn qkey(registry: Seq<char>, slug: Seq<char>) -> Seq<char> {
    registry + seq![':'] + slug
}

/// Filing an entry under a key: replace the pair already under it, or
/// append a new one.
pub open spec fn put(
    pairs: Seq<(Seq<char>, QualityEntryView)>,
    key: Seq<char>,
    e: QualityEntryView,
) -> Seq<(Seq<char>, QualityEntryView)> {
    let i = pair_index(pairs, key);
    if i >= 0 {
        pairs.update(i, (key, e))
    } else {
        pairs.push((key, e))
    }
}

/// Filing one dataset entry: under its normalized name, and, when
/// different, under the normalized last path segment of its url.
pub open spec fn load_step(
    pairs: Seq<(Seq<char>, QualityEntryView)>,
    e: QualityEntryView,
) -> Seq<(Seq<char>, QualityEntryView)> {
    let key = qkey(e.registry, norm_of(e.name));
    let alt = qkey(e.registry, norm_of(url_slug_of(e.url)));
    let once = put(pairs, key, e);
    if alt != key {
        put(once, alt, e)
    } else {
        once
    }
}

pub open spec fn load_fold(
    pairs: Seq<(Seq<char>, QualityEntryView)>,
    entries: Seq<QualityEntryView>,
) -> Seq<(Seq<char>, QualityEntryView)>
    decreases entries.len(),
{
    if entries.len() == 0 {
        pairs
    } else {
        load_fold(load_step(pairs, entries[0]), entries.skip(1))
    }
}

/// The static quality table, built once from the curated dataset and
/// read-only afterwards.
pub struct QualityScores {
    pairs: Vec<(String, QualityEntry)>,
}

impl QualityScores {
    /// Every `(key, entry)` pair, in filing order.
    pub closed spec fn pairs_view(&self) -> Seq<(Seq<char>, QualityEntryView)> {
        pair_views(self.pairs@)
    }

    /// Position of the first pair under `key`, if any.
    fn find_pair(&self, key: &str) -> (r: Option<usize>)
        ensures
            match r {
                Some(i) => 0 <= i < self.pairs_view().len() && pair_index(
                    self.pairs_view(),
                    key@,
                ) == i as int,
                None => pair_index(self.pairs_view(), key@) == -1,
            },
    {
        let ghost v = self.pairs_view();
        let mut i: usize = 0;
        while i < self.pairs.len()
            invariant
                v == self.pairs_view(),
                v.len() == self.pairs@.len(),
                i <= self.pairs@.len(),
                forall|k: int| 0 <= k < i ==> (#[trigger] v[k]).0 != key@,
            decreases self.pairs@.len() - i,
        {
            proof {
                assert(v[i as int] == (self.pairs@[i as int].0@, self.pairs@[i as int].1@));
            }
            if str_eq(self.pairs[i].0.as_str(), key) {
                proof {
                    lemma_pair_index(v, key@);
                    assert(pair_index(v, key@) == i as int);
                }
                return Some(i);
            }
            i += 1;
        }
        proof {
            lemma_pair_index(v, key@);
        }
        None
    }

    /// File `entry` under `key`, replacing what the key held.
    fn put_pair(&mut self, key: String, entry: QualityEntry)
        ensures
            final(self).pairs_view() == put(old(self).pairs_view(), key@, entry@),
    {
        let ghost v = self.pairs_view();
        match self.find_pair(key.as_str()) {
            Some(i) => {
                self.pairs[i] = (key, entry);
                proof {
                    assert(self.pairs_view() =~= v.update(i as int, (key@, entry@)));
                }
            },
            None => {
                self.pairs.push((key, entry));
                proof {
                    assert(self.pairs_view() =~= v.push((key@, entry@)));
                }
            },
        }
    }

    /// Build the table from the curated dataset's entries.
    pub fn load(entries: Vec<QualityEntry>) -> (qs: QualityScores)
        ensures
            qs.pairs_view() == load_fold(
                Seq::<(Seq<char>, QualityEntryView)>::empty(),
                entry_views(entries@),
            ),
    {
        let ghost all = entry_views(entries@);
        let mut qs = QualityScores { pairs: Vec::new() };
        proof {
            assert(qs.pairs_view() =~= Seq::<(Seq<char>, QualityEntryView)>::empty());
            assert(all.skip(0) =~= all);
        }
        let mut i: usize = 0;
        while i < entries.len()
            invariant
                all == entry_views(entries@),
                all.len() == entries@.len(),
                i <= entries@.len(),
                load_fold(Seq::<(Seq<char>, QualityEntryView)>::empty(), all) == load_fold(
                    qs.pairs_view(),
                    all.skip(i as int),
                ),
            decreases entries@.len() - i,
        {
            let ghost pre = qs.pairs_view();
            let e = &entries[i];
            proof {
                assert(all[i as int] == entries@[i as int]@);
                assert(all.skip(i as int)[0] == all[i as int]);
                assert(all.skip(i as int).skip(1) =~= all.skip(i as int + 1));
            }
            let norm_name = normalize_slug(e.name.as_str());
            let key = e.registry.clone().concat(":").concat(norm_name.as_str());
            let url_slug = extract_slug_from_url(e.url.as_str());
            let norm_url = normalize_slug(url_slug.as_str());
            let alt = e.registry.clone().concat(":").concat(norm_url.as_str());
            proof {
                reveal_strlit(":");
                assert(":"@ =~= seq![':']);
                assert(key@ == qkey(all[i as int].registry, norm_of(all[i as int].name)));
                assert(alt@ == qkey(
                    all[i as int].registry,
                    norm_of(url_slug_of(all[i as int].url)),
                ));
            }
            let distinct = !str_eq(alt.as_str(), key.as_str());
            qs.put_pair(key, e.duplicate());
            if distinct {
                qs.put_pair(alt, e.duplicate());
            }
            proof {
                assert(qs.pairs_view() == load_step(pre, all[i as int]));
            }
            i += 1;
        }
        proof {
            assert(all.skip(entries@.len() as int) =~= Seq::<QualityEntryView>::empty());
        }
        qs
    }

    /// The curated score under `registry` for `slug`, looked up by the
    /// slug's normalized form; a miss is `None`, not an error.
    pub fn get_score(&self, registry: &str, slug: &str) -> (r: Option<i64>)
        ensures
            match r {
                Some(score) => {
                    &&& lookup(self.pairs_view(), qkey(registry@, norm_of(slug@))) is Some
                    &&& score as int == lookup(
                        self.pairs_view(),
                        qkey(registry@, norm_of(slug@)),
                    )->0.score
                },
                None => lookup(self.pairs_view(), qkey(registry@, norm_of(slug@))) is None,
            },
    {
        match self.get_entry(registry, slug) {
            Some(e) => Some(e.score),
            None => None,
        }
    }

    /// The curated entry under `registry` for `slug`, by normalized form.
    pub fn get_entry(&self, registry: &str, slug: &str) -> (r: Option<&QualityEntry>)
        ensures
            match r {
                Some(e) => {
                    &&& lookup(self.pairs_view(), qkey(registry@, norm_of(slug@))) is Some
                    &&& e@ == lookup(self.pairs_view(), qkey(registry@, norm_of(slug@)))->0
                },
                None => lookup(self.pairs_view(), qkey(registry@, norm_of(slug@))) is None,
            },
    {
        let norm = normalize_slug(slug);
        let key = registry.to_owned().concat(":").concat(norm.as_str());
        proof {
            reveal_strlit(":");
            assert(":"@ =~= seq![':']);
            assert(key@ == qkey(registry@, norm_of(slug@)));
        }
        match self.find_pair(key.as_str()) {
            Some(i) => Some(&self.pairs[i].1),
            None => None,
        }
    }

    /// Every filed entry, one per key, in filing order.
    pub fn all_entries(&self) -> (r: Vec<QualityEntry>)
        ensures
            entry_views(r@) == entries_of(self.pairs_view()),
    {
        let ghost v = self.pairs_view();
        let mut out: Vec<QualityEntry> = Vec::new();
        let mut i: usize = 0;
        proof {
            assert(entry_views(out@) =~= entries_of(v).take(0));
        }
        while i < self.pairs.len()
            invariant
                v == self.pairs_view(),
                v.len() == self.pairs@.len(),
                i <= self.pairs@.len(),
                entry_views(out@) == entries_of(v).take(i as int),
            decreases self.pairs@.len() - i,
        {
            let ghost prev = entry_views(out@);
            out.push(self.pairs[i].1.duplicate());
            proof {
                assert(v[i as int] == (self.pairs@[i as int].0@, self.pairs@[i as int].1@));
                assert(entry_views(out@) =~= prev.push(v[i as int].1));
                assert(entries_of(v).take(i as int + 1) =~= entries_of(v).take(i as int).push(
                    entries_of(v)[i as int],
                ));
            }
            i += 1;
        }
        proof {
            assert(entries_of(v).take(self.pairs@.len() as int) =~= entries_of(v));
        }
        out
    }
}

/// Law: a lookup sees a slug only through its normalized form — two
/// slugs that normalize alike resolve to the same entry, under any
/// table and registry.
pub proof fn lemma_lookup_normalized(
    pairs: Seq<(Seq<char>, QualityEntryView)>,
    registry: Seq<char>,
    s1: Seq<char>,
    s2: Seq<char>,
)
    requires
        norm_of(s1) == norm_of(s2),
    ensures
        lookup(pairs, qkey(registry, norm_of(s1))) == lookup(pairs, qkey(registry, norm_of(s2))),
{
}

} // verus!
