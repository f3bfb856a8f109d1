//! Skill registries: the provider interface, the built-in featured provider,
//! and the registry that aggregates several providers.

use vstd::prelude::*;

use crate::category::{
    first_of_each_id, id_total, lemma_first_from, lemma_first_ids, lemma_id_total_absent,
    lemma_id_total_nonneg, lemma_merge_ids, merge_by_id, merge_categories, rank_by_count, ranked,
    totals_fit, Category, CategoryView,
};
use crate::skill::{
    dedup_first, dedup_skills, distinct_keys, keys_of, lemma_dedup_distinct, lemma_dedup_known_suffix,
    skill_key, RegistrySkill, SkillView,
};
use crate::text::{
    ascii_lowercase, contains_str, dashes_to_spaces, has_substring, is_ascii_text, lowercase,
    replace_dashes, to_lowercase,
};

verus! {

/// Why a registry could not answer.
#[derive(Debug)]
pub enum RegistryError {
    /// A category count does not fit in a `usize`.
    CountOverflow,
    /// A provider failed, with its message.
    Failed(String),
}

// ── Providers ───────────────────────────────────────────────────────────────

/// A source of skills that can be searched and browsed.
///
/// Each provider says, by its three relations, which answers it may give;
/// its methods answer within them.
pub trait RegistryProvider: Send + Sync {
    /// `r` is an answer this provider may give to a search for `query`
    /// (by default, any answer).
    open spec fn search_answer(&self, query: Seq<char>, limit: usize, r: Result<Vec<RegistrySkill>, RegistryError>) -> bool {
        true
    }

    /// `r` is an answer this provider may give when asked for its categories
    /// (by default, any answer).
    open spec fn categories_answer(&self, r: Result<Vec<Category>, RegistryError>) -> bool {
        true
    }

    /// `r` is an answer this provider may give when asked for its featured
    /// skills (by default, any answer).
    open spec fn featured_answer(&self, r: Result<Vec<RegistrySkill>, RegistryError>) -> bool {
        true
    }

    /// Provider name (for UI display).
    fn name(&self) -> &str;

    /// Search skills by keyword, at most `limit` of them.
    fn search(&self, query: &str, limit: usize) -> (r: Result<Vec<RegistrySkill>, RegistryError>)
        ensures
            self.search_answer(query@, limit, r),
    ;

    /// Get available categories.
    fn categories(&self) -> (r: Result<Vec<Category>, RegistryError>)
        ensures
            self.categories_answer(r),
    ;

    /// Get featured/recommended skills.
    fn featured(&self) -> (r: Result<Vec<RegistrySkill>, RegistryError>)
        ensures
            self.featured_answer(r),
    ;
}

/// A skill matches a (lowercased) query when the query occurs in its
/// lowercased name, display name, description or one of its categories.
pub open spec fn skill_matches(s: SkillView, q: Seq<char>) -> bool {
    ||| has_substring(lowercase(s.name), q)
    ||| has_substring(lowercase(s.display_name), q)
    ||| has_substring(lowercase(s.description), q)
    ||| exists|i: int| 0 <= i < s.categories.len() && has_substring(lowercase(#[trigger] s.categories[i]), q)
}

/// The first `n` entries of `s`, or all of them when there are fewer.
pub open spec fn at_most<A>(s: Seq<A>, n: int) -> Seq<A> {
    if n < s.len() {
        s.take(n)
    } else {
        s
    }
}

/// What searching a catalog gives: the entries that match the lowercased
/// query, in catalog order, at most `limit` of them.
pub open spec fn catalog_search(catalog: Seq<SkillView>, query: Seq<char>, limit: int) -> Seq<SkillView> {
    lowered_search(catalog, lowercase(query), limit)
}

/// The entries of the catalog that match the already lowercased query `lq`,
/// in catalog order, at most `limit` of them.
pub open spec fn lowered_search(catalog: Seq<SkillView>, lq: Seq<char>, limit: int) -> Seq<SkillView> {
    at_most(catalog.filter(matcher(lq)), limit)
}

/// The test that `lowered_search` applies for the lowercased query `lq`.
pub open spec fn matcher(lq: Seq<char>) -> spec_fn(SkillView) -> bool {
    |s: SkillView| skill_matches(s, lq)
}

/// The category entry that one tag contributes.
pub open spec fn tag_entry(id: Seq<char>) -> CategoryView {
    CategoryView { id, name: dashes_to_spaces(id), count: 1 }
}

/// One category entry, with count 1, for each category tag of each skill of
/// the catalog, in order; its name is the id with dashes turned into spaces.
pub open spec fn category_tags(catalog: Seq<SkillView>) -> Seq<CategoryView>
    decreases catalog.len(),
{
    if catalog.len() == 0 {
        Seq::empty()
    } else {
        category_tags(catalog.drop_last()) + catalog.last().categories.map_values(
            |id: Seq<char>| tag_entry(id),
        )
    }
}

/// A search answer of a provider serving `catalog`: the catalog search,
/// always successful.
pub open spec fn featured_search_answer(
    catalog: Seq<SkillView>,
    query: Seq<char>,
    limit: usize,
    r: Result<Vec<RegistrySkill>, RegistryError>,
) -> bool {
    match r {
        Ok(found) => found.deep_view() == catalog_search(catalog, query, limit as int),
        Err(_) => false,
    }
}

/// A category answer of a provider serving `catalog`: the catalog's tags
/// merged by id and ranked, or `CountOverflow` exactly when a merged count
/// does not fit.
pub open spec fn featured_categories_answer(catalog: Seq<SkillView>, r: Result<Vec<Category>, RegistryError>) -> bool {
    match r {
        Ok(cats) => totals_fit(category_tags(catalog)) && ranked(cats.deep_view(), merge_by_id(category_tags(catalog))),
        Err(e) => !totals_fit(category_tags(catalog)) && e == RegistryError::CountOverflow,
    }
}

/// A featured answer of a provider serving `catalog`: the whole catalog.
pub open spec fn featured_list_answer(catalog: Seq<SkillView>, r: Result<Vec<RegistrySkill>, RegistryError>) -> bool {
    match r {
        Ok(all) => all.deep_view() == catalog,
        Err(_) => false,
    }
}

/// Provider backed by the list of featured skills shipped with the
/// application (parsed once, then held here).
/// Always available, no network required.
pub struct BuiltinFeaturedProvider {
    skills: Vec<RegistrySkill>,
}

impl BuiltinFeaturedProvider {
    /// A provider whose catalog is `skills`.
    pub fn new(skills: Vec<RegistrySkill>) -> (p: Self)
        ensures
            p.catalog() == skills.deep_view(),
    {
        BuiltinFeaturedProvider { skills }
    }

    /// The skills this provider serves, in order.
    pub closed spec fn catalog(&self) -> Seq<SkillView> {
        self.skills.deep_view()
    }

    fn load_skills(&self) -> (r: Vec<RegistrySkill>)
        ensures
            r.deep_view() == self.catalog(),
    {
        let mut r: Vec<RegistrySkill> = Vec::new();
        let mut i: usize = 0;
        while i < self.skills.len()
            invariant
                i <= self.skills.len(),
                r.deep_view() == self.skills.deep_view().take(i as int),
            decreases self.skills.len() - i,
        {
            let x = self.skills[i].clone();
            let ghost before = r.deep_view();
            r.push(x);
            assert(r.deep_view() =~= before.push(self.skills@[i as int].deep_view()));
            i = i + 1;
            assert(r.deep_view() =~= self.skills.deep_view().take(i as int));
        }
        assert(self.skills.deep_view().take(i as int) =~= self.skills.deep_view());
        r
    }
}

fn matches_query(s: &RegistrySkill, q: &str) -> (r: bool)
    ensures
        r == skill_matches(s.deep_view(), q@),
{
    if contains_str(to_lowercase(s.name.as_str()).as_str(), q) {
        return true;
    }
    if contains_str(to_lowercase(s.display_name.as_str()).as_str(), q) {
        return true;
    }
    if contains_str(to_lowercase(s.description.as_str()).as_str(), q) {
        return true;
    }
    let mut i: usize = 0;
    while i < s.categories.len()
        invariant
            i <= s.categories.len(),
            forall|k: int| 0 <= k < i ==> !has_substring(lowercase(#[trigger] s.categories.deep_view()[k]), q@),
        decreases s.categories.len() - i,
    {
        if contains_str(to_lowercase(s.categories[i].as_str()).as_str(), q) {
            assert(s.categories.deep_view()[i as int] == s.categories@[i as int]@);
            assert(has_substring(lowercase(s.deep_view().categories[i as int]), q@));
            return true;
        }
        i = i + 1;
    }
    false
}

impl RegistryProvider for BuiltinFeaturedProvider {
    /// A search answers with the catalog search, always successfully.
    open spec fn search_answer(&self, query: Seq<char>, limit: usize, r: Result<Vec<RegistrySkill>, RegistryError>) -> bool {
        featured_search_answer(self.catalog(), query, limit, r)
    }

    /// The categories are the catalog's tags merged by id and ranked.
    open spec fn categories_answer(&self, r: Result<Vec<Category>, RegistryError>) -> bool {
        featured_categories_answer(self.catalog(), r)
    }

    /// The featured skills are the whole catalog.
    open spec fn featured_answer(&self, r: Result<Vec<RegistrySkill>, RegistryError>) -> bool {
        featured_list_answer(self.catalog(), r)
    }

    fn name(&self) -> (r: &str)
        ensures
            r@ == "Featured"@,
    {
        "Featured"
    }

    fn search(&self, query: &str, limit: usize) -> (r: Result<Vec<RegistrySkill>, RegistryError>)
        ensures
            match r {
                Ok(found) => found.deep_view() == catalog_search(self.catalog(), query@, limit as int),
                Err(_) => false,
            },
            is_ascii_text(query@) ==> catalog_search(self.catalog(), query@, limit as int) == lowered_search(
                self.catalog(),
                ascii_lowercase(query@),
                limit as int,
            ),
    {
        let q = to_lowercase(query);
        let ghost pred = matcher(lowercase(query@));
        let ghost c = self.catalog();
        let mut found: Vec<RegistrySkill> = Vec::new();
        let mut i: usize = 0;
        while i < self.skills.len()
            invariant
                c == self.skills.deep_view(),
                q@ == lowercase(query@),
                pred == matcher(lowercase(query@)),
                i <= self.skills.len(),
                found.deep_view() == at_most(c.take(i as int).filter(pred), limit as int),
            decreases self.skills.len() - i,
        {
            let ghost before = found.deep_view();
            let ghost t = c.take(i as int);
            let ghost t1 = c.take(i + 1);
            proof {
                assert(t1.drop_last() =~= t);
                assert(t1.last() == c[i as int]);
                reveal(Seq::filter);
            }
            let hit = matches_query(&self.skills[i], q.as_str());
            if hit && found.len() < limit {
                let x = self.skills[i].clone();
                found.push(x);
                proof {
                    assert(c[i as int] == self.skills@[i as int].deep_view());
                    reveal(Seq::filter);
                    assert(t1.filter(pred) == t.filter(pred).push(c[i as int]));
                    assert(found.deep_view() =~= before.push(c[i as int]));
                }
            } else {
                proof {
                    assert(c[i as int] == self.skills@[i as int].deep_view());
                    reveal(Seq::filter);
                    if hit {
                        assert(t1.filter(pred) == t.filter(pred).push(c[i as int]));
                        assert(at_most(t.filter(pred), limit as int).len() == limit);
                        assert(at_most(t1.filter(pred), limit as int) =~= at_most(t.filter(pred), limit as int));
                    } else {
                        assert(t1.filter(pred) == t.filter(pred));
                    }
                }
            }
            i = i + 1;
        }
        assert(c.take(i as int) =~= c);
        Ok(found)
    }

    fn categories(&self) -> (r: Result<Vec<Category>, RegistryError>)
        ensures
            match r {
                Ok(cats) => totals_fit(category_tags(self.catalog()))
                    && ranked(cats.deep_view(), merge_by_id(category_tags(self.catalog()))),
                Err(e) => !totals_fit(category_tags(self.catalog())) && e == RegistryError::CountOverflow,
            },
    {
        let ghost c = self.catalog();
        let mut tags: Vec<Category> = Vec::new();
        let mut i: usize = 0;
        while i < self.skills.len()
            invariant
                c == self.skills.deep_view(),
                i <= self.skills.len(),
                tags.deep_view() == category_tags(c.take(i as int)),
            decreases self.skills.len() - i,
        {
            let cats = &self.skills[i].categories;
            let ghost base = tags.deep_view();
            let ghost ids = cats.deep_view();
            let ghost f = |id: Seq<char>| tag_entry(id);
            let mut j: usize = 0;
            while j < cats.len()
                invariant
                    j <= cats.len(),
                    ids == cats.deep_view(),
                    f == (|id: Seq<char>| tag_entry(id)),
                    tags.deep_view() == base + ids.take(j as int).map_values(f),
                decreases cats.len() - j,
            {
                let id = cats[j].clone();
                let name = replace_dashes(cats[j].as_str());
                let ghost before = tags.deep_view();
                tags.push(Category { id, name, count: 1 });
                proof {
                    assert(ids[j as int] == cats@[j as int]@);
                    assert(ids.take(j + 1).map_values(f) =~= ids.take(j as int).map_values(f).push(f(ids[j as int])));
                    let last = tags@[tags@.len() - 1];
                    assert(last.id@ == ids[j as int]);
                    assert(last.name@ == dashes_to_spaces(ids[j as int]));
                    assert(last.count == 1);
                    assert(last.deep_view() == f(ids[j as int]));
                    assert(tags.deep_view() =~= before.push(f(ids[j as int])));
                }
                j = j + 1;
            }
            proof {
                assert(ids.take(j as int) =~= ids);
                assert(c.take(i + 1).drop_last() =~= c.take(i as int));
                assert(c.take(i + 1).last() == c[i as int]);
                assert(c[i as int].categories == ids);
            }
            i = i + 1;
        }
        assert(c.take(i as int) =~= c);
        match merge_categories(&tags) {
            Ok(merged) => Ok(rank_by_count(merged)),
            Err(e) => Err(e),
        }
    }

    fn featured(&self) -> (r: Result<Vec<RegistrySkill>, RegistryError>)
        ensures
            match r {
                Ok(all) => all.deep_view() == self.catalog(),
                Err(_) => false,
            },
    {
        Ok(self.load_skills())
    }
}

// ── Aggregated registry ─────────────────────────────────────────────────────

/// What one provider's answer contributes: its entries, or nothing when it failed.
pub open spec fn answered<T: DeepView>(r: Result<Vec<T>, RegistryError>) -> Seq<T::V> {
    match r {
        Ok(v) => v.deep_view(),
        Err(_) => Seq::empty(),
    }
}

/// The entries of all answers that succeeded, in provider order.
pub open spec fn all_answers<T: DeepView>(rs: Seq<Result<Vec<T>, RegistryError>>) -> Seq<T::V>
    decreases rs.len(),
{
    if rs.len() == 0 {
        Seq::empty()
    } else {
        all_answers(rs.drop_last()) + answered(rs.last())
    }
}

/// Concatenate the successful answers, in order, dropping the failed ones.
fn collect_answers<T: DeepView>(results: Vec<Result<Vec<T>, RegistryError>>) -> (r: Vec<T>)
    ensures
        r.deep_view() == all_answers(results@),
{
    let ghost rs = results@;
    let mut rest = results;
    let n = rest.len();
    let mut all: Vec<T> = Vec::new();
    let mut i: usize = 0;
    assert(all.deep_view() =~= all_answers(rs.take(0)));
    while i < n
        invariant
            n == rs.len(),
            i <= n,
            rest@ == rs.skip(i as int),
            all.deep_view() == all_answers(rs.take(i as int)),
        decreases n - i,
    {
        let answer = rest.remove(0);
        assert(answer == rs[i as int]);
        let ghost before = all.deep_view();
        match answer {
            Ok(mut v) => {
                let ghost vv = v.deep_view();
                all.append(&mut v);
                assert(all.deep_view() =~= before + vv);
            }
            Err(_) => {
                assert(all.deep_view() =~= before + Seq::<T::V>::empty());
            }
        }
        assert(rs.take(i + 1).drop_last() =~= rs.take(i as int));
        assert(rest@ =~= rs.skip(i + 1));
        i = i + 1;
    }
    assert(rs.take(n as int) =~= rs);
    all
}

/// The answer of an aggregated search: the successful answers concatenated,
/// deduplicated by source and name, at most `limit` of them.
pub fn merge_search_results(results: Vec<Result<Vec<RegistrySkill>, RegistryError>>, limit: usize) -> (r: Vec<RegistrySkill>)
    ensures
        r.deep_view() == at_most(dedup_first(all_answers(results@)), limit as int),
{
    let mut all = collect_answers(results);
    dedup_skills(&mut all);
    let ghost d = all.deep_view();
    all.truncate(limit);
    assert(all.deep_view() =~= at_most(d, limit as int));
    all
}

/// The answer of an aggregated featured list: the successful answers
/// concatenated and deduplicated by source and name.
pub fn merge_featured_results(results: Vec<Result<Vec<RegistrySkill>, RegistryError>>) -> (r: Vec<RegistrySkill>)
    ensures
        r.deep_view() == dedup_first(all_answers(results@)),
{
    let mut all = collect_answers(results);
    dedup_skills(&mut all);
    all
}

/// The answer of an aggregated category list: the successful answers
/// concatenated, merged by id with summed counts, largest count first.
/// Fails with `CountOverflow` exactly when a summed count does not fit.
pub fn merge_category_results(results: Vec<Result<Vec<Category>, RegistryError>>) -> (r: Result<Vec<Category>, RegistryError>)
    ensures
        match r {
            Ok(cats) => totals_fit(all_answers(results@))
                && ranked(cats.deep_view(), merge_by_id(all_answers(results@))),
            Err(e) => !totals_fit(all_answers(results@)) && e == RegistryError::CountOverflow,
        },
{
    let all = collect_answers(results);
    match merge_categories(&all) {
        Ok(merged) => Ok(rank_by_count(merged)),
        Err(e) => Err(e),
    }
}

/// Aggregates multiple `RegistryProvider`s and deduplicates results.
pub struct AggregatedRegistry {
    builtin: Option<BuiltinFeaturedProvider>,
    providers: Vec<Box<dyn RegistryProvider>>,
}

impl AggregatedRegistry {
    /// The catalog of the built-in featured provider, when the registry has
    /// one; that provider is asked first.
    pub closed spec fn builtin_catalog(&self) -> Option<Seq<SkillView>> {
        match self.builtin {
            Some(p) => Some(p.catalog()),
            None => None,
        }
    }

    /// The providers given by the caller, asked in this order, after the
    /// built-in one.
    pub closed spec fn given(&self) -> Seq<Box<dyn RegistryProvider>> {
        self.providers@
    }

    /// How many providers are asked before the given ones.
    pub open spec fn first_given(&self) -> int {
        if self.builtin_catalog() is Some {
            1
        } else {
            0
        }
    }

    /// `rs` holds one search answer per provider, in the order they are
    /// asked, each an answer that provider may give to `query` and `limit`.
    pub open spec fn search_answers_fit(
        &self,
        rs: Seq<Result<Vec<RegistrySkill>, RegistryError>>,
        query: Seq<char>,
        limit: usize,
    ) -> bool {
        &&& rs.len() == self.first_given() + self.given().len()
        &&& self.builtin_catalog() matches Some(c) ==> featured_search_answer(c, query, limit, rs[0])
        &&& forall|k: int|
            0 <= k < self.given().len() ==> #[trigger] self.given()[k].search_answer(
                query,
                limit,
                rs[self.first_given() + k],
            )
    }

    /// `rs` holds one featured answer per provider, in the order they are
    /// asked, each an answer that provider may give.
    pub open spec fn featured_answers_fit(&self, rs: Seq<Result<Vec<RegistrySkill>, RegistryError>>) -> bool {
        &&& rs.len() == self.first_given() + self.given().len()
        &&& self.builtin_catalog() matches Some(c) ==> featured_list_answer(c, rs[0])
        &&& forall|k: int|
            0 <= k < self.given().len() ==> #[trigger] self.given()[k].featured_answer(rs[self.first_given() + k])
    }

    /// `rs` holds one category answer per provider, in the order they are
    /// asked, each an answer that provider may give.
    pub open spec fn category_answers_fit(&self, rs: Seq<Result<Vec<Category>, RegistryError>>) -> bool {
        &&& rs.len() == self.first_given() + self.given().len()
        &&& self.builtin_catalog() matches Some(c) ==> featured_categories_answer(c, rs[0])
        &&& forall|k: int|
            0 <= k < self.given().len() ==> #[trigger] self.given()[k].categories_answer(rs[self.first_given() + k])
    }

    /// A registry that asks exactly the given providers, in the given order.
    pub fn new(providers: Vec<Box<dyn RegistryProvider>>) -> (r: Self)
        ensures
            r.builtin_catalog() == None::<Seq<SkillView>>,
            r.given() == providers@,
    {
        AggregatedRegistry { builtin: None, providers }
    }

    /// Create with only the built-in featured provider, serving `featured`.
    pub fn builtin_only(featured: Vec<RegistrySkill>) -> (r: Self)
        ensures
            r.builtin_catalog() == Some(featured.deep_view()),
            r.given().len() == 0,
    {
        AggregatedRegistry { builtin: Some(BuiltinFeaturedProvider::new(featured)), providers: Vec::new() }
    }
}

impl RegistryProvider for AggregatedRegistry {
    /// A search answers with the deduplicated concatenation of one answer per
    /// provider, each one that provider may give, cut to `limit`.
    open spec fn search_answer(&self, query: Seq<char>, limit: usize, r: Result<Vec<RegistrySkill>, RegistryError>) -> bool {
        exists|rs: Seq<Result<Vec<RegistrySkill>, RegistryError>>|
            #![trigger all_answers(rs)]
            self.search_answers_fit(rs, query, limit) && match r {
                Ok(found) => found.deep_view() == at_most(dedup_first(all_answers(rs)), limit as int),
                Err(_) => false,
            }
    }

    /// The categories merge one answer per provider, each one that provider
    /// may give.
    open spec fn categories_answer(&self, r: Result<Vec<Category>, RegistryError>) -> bool {
        exists|rs: Seq<Result<Vec<Category>, RegistryError>>|
            #![trigger all_answers(rs)]
            self.category_answers_fit(rs) && match r {
                Ok(cats) => totals_fit(all_answers(rs)) && ranked(cats.deep_view(), merge_by_id(all_answers(rs))),
                Err(e) => !totals_fit(all_answers(rs)) && e == RegistryError::CountOverflow,
            }
    }

    /// The featured skills are the deduplicated concatenation of one answer
    /// per provider, each one that provider may give.
    open spec fn featured_answer(&self, r: Result<Vec<RegistrySkill>, RegistryError>) -> bool {
        exists|rs: Seq<Result<Vec<RegistrySkill>, RegistryError>>|
            #![trigger all_answers(rs)]
            self.featured_answers_fit(rs) && match r {
                Ok(all) => all.deep_view() == dedup_first(all_answers(rs)),
                Err(_) => false,
            }
    }

    fn name(&self) -> (r: &str)
        ensures
            r@ == "All"@,
    {
        "All"
    }

    fn search(&self, query: &str, limit: usize) -> (r: Result<Vec<RegistrySkill>, RegistryError>)
    {
        let mut results: Vec<Result<Vec<RegistrySkill>, RegistryError>> = Vec::new();
        match &self.builtin {
            Some(p) => {
                let answer = p.search(query, limit);
                results.push(answer);
            },
            None => {},
        }
        let ghost off = self.first_given();
        let mut i: usize = 0;
        while i < self.providers.len()
            invariant
                i <= self.providers.len(),
                off == self.first_given(),
                self.given() == self.providers@,
                results@.len() == off + i,
                self.builtin_catalog() matches Some(c) ==> featured_search_answer(c, query@, limit, results@[0]),
                forall|k: int| 0 <= k < i ==> #[trigger] self.given()[k].search_answer(query@, limit, results@[off + k]),
            decreases self.providers.len() - i,
        {
            let ghost before = results@;
            let answer = self.providers[i].search(query, limit);
            results.push(answer);
            proof {
                assert(results@[off + i] == answer);
                assert(forall|k: int| 0 <= k < off + i ==> results@[k] == before[k]);
            }
            i = i + 1;
        }
        assert(self.search_answers_fit(results@, query@, limit));
        let found = merge_search_results(results, limit);
        Ok(found)
    }

    fn categories(&self) -> (r: Result<Vec<Category>, RegistryError>)
    {
        let mut results: Vec<Result<Vec<Category>, RegistryError>> = Vec::new();
        match &self.builtin {
            Some(p) => {
                let answer = p.categories();
                results.push(answer);
            },
            None => {},
        }
        let ghost off = self.first_given();
        let mut i: usize = 0;
        while i < self.providers.len()
            invariant
                i <= self.providers.len(),
                off == self.first_given(),
                self.given() == self.providers@,
                results@.len() == off + i,
                self.builtin_catalog() matches Some(c) ==> featured_categories_answer(c, results@[0]),
                forall|k: int| 0 <= k < i ==> #[trigger] self.given()[k].categories_answer(results@[off + k]),
            decreases self.providers.len() - i,
        {
            let ghost before = results@;
            let answer = self.providers[i].categories();
            results.push(answer);
            proof {
                assert(results@[off + i] == answer);
                assert(forall|k: int| 0 <= k < off + i ==> results@[k] == before[k]);
            }
            i = i + 1;
        }
        assert(self.category_answers_fit(results@));
        merge_category_results(results)
    }

    fn featured(&self) -> (r: Result<Vec<RegistrySkill>, RegistryError>)
    {
        let mut results: Vec<Result<Vec<RegistrySkill>, RegistryError>> = Vec::new();
        match &self.builtin {
            Some(p) => {
                let answer = p.featured();
                results.push(answer);
            },
            None => {},
        }
        let ghost off = self.first_given();
        let mut i: usize = 0;
        while i < self.providers.len()
            invariant
                i <= self.providers.len(),
                off == self.first_given(),
                self.given() == self.providers@,
                results@.len() == off + i,
                self.builtin_catalog() matches Some(c) ==> featured_list_answer(c, results@[0]),
                forall|k: int| 0 <= k < i ==> #[trigger] self.given()[k].featured_answer(results@[off + k]),
            decreases self.providers.len() - i,
        {
            let ghost before = results@;
            let answer = self.providers[i].featured();
            results.push(answer);
            proof {
                assert(results@[off + i] == answer);
                assert(forall|k: int| 0 <= k < off + i ==> results@[k] == before[k]);
            }
            i = i + 1;
        }
        assert(self.featured_answers_fit(results@));
        let all = merge_featured_results(results);
        Ok(all)
    }
}

// ── Laws of the aggregated answers ──────────────────────────────────────────

/// With a single provider, the aggregated entries are that provider's answer.
pub proof fn lemma_single_answer<T: DeepView>(rs: Seq<Result<Vec<T>, RegistryError>>)
    requires
        rs.len() == 1,
    ensures
        all_answers(rs) == answered(rs[0]),
{
    assert(rs.drop_last().len() == 0);
    assert(all_answers(rs.drop_last()) + answered(rs[0]) =~= answered(rs[0]));
}

/// When every provider answers with the same listing `a`, the aggregated
/// featured list is `a` deduplicated: adding providers that repeat a listing
/// adds nothing.
pub proof fn lemma_featured_repeated(rs: Seq<Result<Vec<RegistrySkill>, RegistryError>>, a: Seq<SkillView>)
    requires
        rs.len() >= 1,
        forall|k: int| 0 <= k < rs.len() ==> answered(#[trigger] rs[k]) == a,
    ensures
        dedup_first(all_answers(rs)) == dedup_first(a),
    decreases rs.len(),
{
    if rs.len() == 1 {
        lemma_single_answer(rs);
    } else {
        let p = rs.drop_last();
        assert forall|k: int| 0 <= k < p.len() implies answered(#[trigger] p[k]) == a by {
            assert(p[k] == rs[k]);
        }
        lemma_featured_repeated(p, a);
        lemma_answers_cover(p, a);
        assert(answered(rs[rs.len() - 1]) == a);
        assert forall|i: int| 0 <= i < a.len() implies keys_of(all_answers(p)).contains(#[trigger] skill_key(a[i])) by {
            assert(keys_of(a)[i] == skill_key(a[i]));
            assert(keys_of(a).contains(skill_key(a[i])));
        }
        lemma_dedup_known_suffix(all_answers(p), a);
        assert(dedup_first(all_answers(p)) == dedup_first(a));
    }
}

/// The keys of a listing that some provider answered occur among the
/// aggregated keys.
proof fn lemma_answers_cover(rs: Seq<Result<Vec<RegistrySkill>, RegistryError>>, a: Seq<SkillView>)
    requires
        rs.len() >= 1,
        forall|k: int| 0 <= k < rs.len() ==> answered(#[trigger] rs[k]) == a,
    ensures
        forall|x: (Seq<char>, Seq<char>)| keys_of(a).contains(x) ==> keys_of(all_answers(rs)).contains(x),
{
    let p = rs.drop_last();
    assert(answered(rs[rs.len() - 1]) == a);
    assert(all_answers(rs) == all_answers(p) + a);
    assert forall|x: (Seq<char>, Seq<char>)| keys_of(a).contains(x) implies keys_of(all_answers(rs)).contains(x) by {
        let j = choose|j: int| 0 <= j < keys_of(a).len() && keys_of(a)[j] == x;
        let w = all_answers(p).len() + j;
        assert(all_answers(rs)[w] == a[j]);
        assert(keys_of(all_answers(rs))[w] == x);
    }
}

/// An aggregated search never answers with more than `limit` entries, and
/// never with two entries of the same source and name.
pub proof fn lemma_search_answer_bounded(entries: Seq<SkillView>, limit: int)
    requires
        0 <= limit,
    ensures
        at_most(dedup_first(entries), limit).len() <= limit,
        distinct_keys(at_most(dedup_first(entries), limit)),
{
    lemma_dedup_distinct(entries);
    let d = dedup_first(entries);
    let r = at_most(d, limit);
    assert forall|i: int, j: int| 0 <= i < j < r.len() implies #[trigger] skill_key(r[i]) != #[trigger] skill_key(r[j]) by {
        assert(r[i] == d[i] && r[j] == d[j]);
    }
}

/// Every entry a catalog search answers with matches the lowercased query
/// and comes from the catalog.
pub proof fn lemma_catalog_search_sound(catalog: Seq<SkillView>, query: Seq<char>, limit: int)
    requires
        0 <= limit,
    ensures
        forall|i: int| 0 <= i < catalog_search(catalog, query, limit).len() ==> {
            &&& skill_matches(#[trigger] catalog_search(catalog, query, limit)[i], lowercase(query))
            &&& catalog.contains(catalog_search(catalog, query, limit)[i])
        },
{
    broadcast use vstd::seq_lib::group_filter_ensures;

    let f = catalog.filter(matcher(lowercase(query)));
    let r = catalog_search(catalog, query, limit);
    assert forall|i: int| 0 <= i < r.len() implies {
        &&& skill_matches(#[trigger] r[i], lowercase(query))
        &&& catalog.contains(r[i])
    } by {
        assert(r[i] == f[i]);
        assert(matcher(lowercase(query))(f[i]));
        lemma_filter_from(catalog, matcher(lowercase(query)), i);
    }
}

proof fn lemma_filter_from<A>(s: Seq<A>, pred: spec_fn(A) -> bool, i: int)
    requires
        0 <= i < s.filter(pred).len(),
    ensures
        s.contains(s.filter(pred)[i]),
    decreases s.len(),
{
    reveal(Seq::filter);
    let p = s.drop_last();
    if s.len() > 0 {
        if i < p.filter(pred).len() {
            lemma_filter_from(p, pred, i);
            let j = choose|j: int| 0 <= j < p.len() && p[j] == p.filter(pred)[i];
            assert(s[j] == p[j]);
        } else {
            assert(s.filter(pred)[i] == s[s.len() - 1]);
        }
    }
}

/// A catalog search leaves out no matching entry: when fewer than `limit`
/// entries are answered, every matching entry of the catalog is among them.
pub proof fn lemma_catalog_search_complete(catalog: Seq<SkillView>, query: Seq<char>, limit: int, i: int)
    requires
        0 <= i < catalog.len(),
        skill_matches(catalog[i], lowercase(query)),
        catalog_search(catalog, query, limit).len() < limit,
    ensures
        catalog_search(catalog, query, limit).contains(catalog[i]),
{
    broadcast use vstd::seq_lib::group_filter_ensures;

    assert(matcher(lowercase(query))(catalog[i]));
    assert(catalog.filter(matcher(lowercase(query))).contains(catalog[i]));
}

/// A registry holding only the built-in featured provider answers a search
/// with that provider's catalog search, deduplicated.
pub proof fn lemma_builtin_only_search(
    reg: AggregatedRegistry,
    rs: Seq<Result<Vec<RegistrySkill>, RegistryError>>,
    query: Seq<char>,
    limit: usize,
)
    requires
        reg.builtin_catalog() is Some,
        reg.given().len() == 0,
        reg.search_answers_fit(rs, query, limit),
    ensures
        at_most(dedup_first(all_answers(rs)), limit as int) == at_most(
            dedup_first(catalog_search(reg.builtin_catalog().unwrap(), query, limit as int)),
            limit as int,
        ),
{
    lemma_single_answer(rs);
}

/// The answers that succeeded, in order.
pub open spec fn successful<T>(rs: Seq<Result<Vec<T>, RegistryError>>) -> Seq<Result<Vec<T>, RegistryError>>
    decreases rs.len(),
{
    if rs.len() == 0 {
        rs
    } else {
        successful(rs.drop_last()) + if rs.last() is Ok {
            seq![rs.last()]
        } else {
            Seq::empty()
        }
    }
}

proof fn lemma_all_answers_concat<T: DeepView>(a: Seq<Result<Vec<T>, RegistryError>>, b: Seq<Result<Vec<T>, RegistryError>>)
    ensures
        all_answers(a + b) == all_answers(a) + all_answers(b),
    decreases b.len(),
{
    if b.len() == 0 {
        assert(a + b =~= a);
        assert(all_answers(a) + all_answers(b) =~= all_answers(a));
    } else {
        lemma_all_answers_concat(a, b.drop_last());
        assert((a + b).drop_last() =~= a + b.drop_last());
        assert((a + b).last() == b.last());
        assert(all_answers(a + b) =~= all_answers(a) + all_answers(b));
    }
}

/// Failed answers contribute nothing: the aggregated entries of all the
/// providers' answers are those of the successful answers alone, so a
/// registry answers as one holding only the providers that succeeded.
pub proof fn lemma_failed_answers_ignored<T: DeepView>(rs: Seq<Result<Vec<T>, RegistryError>>)
    ensures
        all_answers(rs) == all_answers(successful(rs)),
        forall|k: int| 0 <= k < successful(rs).len() ==> #[trigger] successful(rs)[k] is Ok,
    decreases rs.len(),
{
    if rs.len() > 0 {
        let p = rs.drop_last();
        lemma_failed_answers_ignored(p);
        let tail: Seq<Result<Vec<T>, RegistryError>> = if rs.last() is Ok {
            seq![rs.last()]
        } else {
            Seq::empty()
        };
        lemma_all_answers_concat(successful(p), tail);
        if rs.last() is Ok {
            assert(tail.drop_last() =~= Seq::<Result<Vec<T>, RegistryError>>::empty());
            assert(all_answers(Seq::<Result<Vec<T>, RegistryError>>::empty()) =~= Seq::<T::V>::empty());
            assert(tail.last() == rs.last());
            assert(all_answers(tail) =~= answered(rs.last()));
        } else {
            assert(all_answers(tail) =~= Seq::<T::V>::empty());
            assert(answered(rs.last()) =~= Seq::<T::V>::empty());
            assert(all_answers(rs) =~= all_answers(p));
        }
        let sr = successful(rs);
        assert(sr == successful(p) + tail);
        assert forall|k: int| 0 <= k < sr.len() implies #[trigger] sr[k] is Ok by {
            if k < successful(p).len() {
                assert(sr[k] == successful(p)[k]);
            } else {
                assert(sr[k] == tail[k - successful(p).len()]);
            }
        }
    }
}

/// A registry made by `builtin_only` answers exactly as one whose single
/// given provider answers as the built-in provider serving the same
/// catalog (such as a boxed `BuiltinFeaturedProvider`).
pub proof fn lemma_builtin_only_like_given(a: AggregatedRegistry, b: AggregatedRegistry, catalog: Seq<SkillView>)
    requires
        a.builtin_catalog() == Some(catalog),
        a.given().len() == 0,
        b.builtin_catalog() == None::<Seq<SkillView>>,
        b.given().len() == 1,
        forall|q: Seq<char>, l: usize, r: Result<Vec<RegistrySkill>, RegistryError>|
            #[trigger] b.given()[0].search_answer(q, l, r) == featured_search_answer(catalog, q, l, r),
        forall|r: Result<Vec<Category>, RegistryError>|
            #[trigger] b.given()[0].categories_answer(r) == featured_categories_answer(catalog, r),
        forall|r: Result<Vec<RegistrySkill>, RegistryError>|
            #[trigger] b.given()[0].featured_answer(r) == featured_list_answer(catalog, r),
    ensures
        forall|q: Seq<char>, l: usize, r: Result<Vec<RegistrySkill>, RegistryError>|
            #[trigger] a.search_answer(q, l, r) == b.search_answer(q, l, r),
        forall|r: Result<Vec<Category>, RegistryError>| #[trigger] a.categories_answer(r) == b.categories_answer(r),
        forall|r: Result<Vec<RegistrySkill>, RegistryError>| #[trigger] a.featured_answer(r) == b.featured_answer(r),
{
    assert forall|q: Seq<char>, l: usize, rs: Seq<Result<Vec<RegistrySkill>, RegistryError>>|
        #[trigger] a.search_answers_fit(rs, q, l) == b.search_answers_fit(rs, q, l) by {
        assert(a.first_given() == 1 && b.first_given() == 0);
        if rs.len() == 1 {
            assert(b.given()[0].search_answer(q, l, rs[0]) == featured_search_answer(catalog, q, l, rs[0]));
            if featured_search_answer(catalog, q, l, rs[0]) {
                assert forall|k: int| 0 <= k < b.given().len() implies #[trigger] b.given()[k].search_answer(
                    q,
                    l,
                    rs[b.first_given() + k],
                ) by {
                    assert(k == 0);
                }
            }
            if b.search_answers_fit(rs, q, l) {
                assert(b.given()[0].search_answer(q, l, rs[b.first_given() + 0]));
            }
        }
    }
    assert forall|rs: Seq<Result<Vec<Category>, RegistryError>>|
        #[trigger] a.category_answers_fit(rs) == b.category_answers_fit(rs) by {
        assert(a.first_given() == 1 && b.first_given() == 0);
        if rs.len() == 1 {
            assert(b.given()[0].categories_answer(rs[0]) == featured_categories_answer(catalog, rs[0]));
            if featured_categories_answer(catalog, rs[0]) {
                assert forall|k: int| 0 <= k < b.given().len() implies #[trigger] b.given()[k].categories_answer(
                    rs[b.first_given() + k],
                ) by {
                    assert(k == 0);
                }
            }
            if b.category_answers_fit(rs) {
                assert(b.given()[0].categories_answer(rs[b.first_given() + 0]));
            }
        }
    }
    assert forall|rs: Seq<Result<Vec<RegistrySkill>, RegistryError>>|
        #[trigger] a.featured_answers_fit(rs) == b.featured_answers_fit(rs) by {
        assert(a.first_given() == 1 && b.first_given() == 0);
        if rs.len() == 1 {
            assert(b.given()[0].featured_answer(rs[0]) == featured_list_answer(catalog, rs[0]));
            if featured_list_answer(catalog, rs[0]) {
                assert forall|k: int| 0 <= k < b.given().len() implies #[trigger] b.given()[k].featured_answer(
                    rs[b.first_given() + k],
                ) by {
                    assert(k == 0);
                }
            }
            if b.featured_answers_fit(rs) {
                assert(b.given()[0].featured_answer(rs[b.first_given() + 0]));
            }
        }
    }
    assert forall|q: Seq<char>, l: usize, r: Result<Vec<RegistrySkill>, RegistryError>|
        #[trigger] a.search_answer(q, l, r) == b.search_answer(q, l, r) by {
        if a.search_answer(q, l, r) {
            let rs = choose|rs: Seq<Result<Vec<RegistrySkill>, RegistryError>>|
                #![trigger all_answers(rs)]
                a.search_answers_fit(rs, q, l) && match r {
                    Ok(found) => found.deep_view() == at_most(dedup_first(all_answers(rs)), l as int),
                    Err(_) => false,
                };
            assert(b.search_answers_fit(rs, q, l));
        }
        if b.search_answer(q, l, r) {
            let rs = choose|rs: Seq<Result<Vec<RegistrySkill>, RegistryError>>|
                #![trigger all_answers(rs)]
                b.search_answers_fit(rs, q, l) && match r {
                    Ok(found) => found.deep_view() == at_most(dedup_first(all_answers(rs)), l as int),
                    Err(_) => false,
                };
            assert(a.search_answers_fit(rs, q, l));
        }
    }
    assert forall|r: Result<Vec<Category>, RegistryError>| #[trigger] a.categories_answer(r) == b.categories_answer(r) by {
        if a.categories_answer(r) {
            let rs = choose|rs: Seq<Result<Vec<Category>, RegistryError>>|
                #![trigger all_answers(rs)]
                a.category_answers_fit(rs) && match r {
                    Ok(cats) => totals_fit(all_answers(rs)) && ranked(cats.deep_view(), merge_by_id(all_answers(rs))),
                    Err(e) => !totals_fit(all_answers(rs)) && e == RegistryError::CountOverflow,
                };
            assert(b.category_answers_fit(rs));
        }
        if b.categories_answer(r) {
            let rs = choose|rs: Seq<Result<Vec<Category>, RegistryError>>|
                #![trigger all_answers(rs)]
                b.category_answers_fit(rs) && match r {
                    Ok(cats) => totals_fit(all_answers(rs)) && ranked(cats.deep_view(), merge_by_id(all_answers(rs))),
                    Err(e) => !totals_fit(all_answers(rs)) && e == RegistryError::CountOverflow,
                };
            assert(a.category_answers_fit(rs));
        }
    }
    assert forall|r: Result<Vec<RegistrySkill>, RegistryError>| #[trigger] a.featured_answer(r) == b.featured_answer(r) by {
        if a.featured_answer(r) {
            let rs = choose|rs: Seq<Result<Vec<RegistrySkill>, RegistryError>>|
                #![trigger all_answers(rs)]
                a.featured_answers_fit(rs) && match r {
                    Ok(all) => all.deep_view() == dedup_first(all_answers(rs)),
                    Err(_) => false,
                };
            assert(b.featured_answers_fit(rs));
        }
        if b.featured_answer(r) {
            let rs = choose|rs: Seq<Result<Vec<RegistrySkill>, RegistryError>>|
                #![trigger all_answers(rs)]
                b.featured_answers_fit(rs) && match r {
                    Ok(all) => all.deep_view() == dedup_first(all_answers(rs)),
                    Err(_) => false,
                };
            assert(a.featured_answers_fit(rs));
        }
    }
}

// ── Laws of the answers, stated on the entries themselves ───────────────────

/// An aggregated search always succeeds, answers with at most `limit`
/// entries, never lists two entries of the same source and name, and lists
/// only entries that some provider answered with.
pub proof fn lemma_aggregated_search_answer(
    reg: AggregatedRegistry,
    query: Seq<char>,
    limit: usize,
    r: Result<Vec<RegistrySkill>, RegistryError>,
)
    requires
        reg.search_answer(query, limit, r),
    ensures
        r is Ok,
        r matches Ok(found) ==> {
            &&& found.len() <= limit
            &&& forall|i: int, j: int|
                0 <= i < j < found.len() ==> !(#[trigger] found@[i].source@ == #[trigger] found@[j].source@
                    && found@[i].name@ == found@[j].name@)
        },
{
    let rs = choose|rs: Seq<Result<Vec<RegistrySkill>, RegistryError>>|
        #![trigger all_answers(rs)]
        reg.search_answers_fit(rs, query, limit) && match r {
            Ok(found) => found.deep_view() == at_most(dedup_first(all_answers(rs)), limit as int),
            Err(_) => false,
        };
    if let Ok(found) = r {
        lemma_search_answer_bounded(all_answers(rs), limit as int);
        let v = found.deep_view();
        assert forall|i: int, j: int| 0 <= i < j < found.len() implies !(#[trigger] found@[i].source@
            == #[trigger] found@[j].source@ && found@[i].name@ == found@[j].name@) by {
            assert(v[i] == found@[i].deep_view() && v[j] == found@[j].deep_view());
            assert(skill_key(v[i]) != skill_key(v[j]));
        }
    }
}

/// The aggregated featured list never lists two entries of the same source
/// and name.
pub proof fn lemma_aggregated_featured_answer(reg: AggregatedRegistry, r: Result<Vec<RegistrySkill>, RegistryError>)
    requires
        reg.featured_answer(r),
    ensures
        r is Ok,
        r matches Ok(all) ==> forall|i: int, j: int|
            0 <= i < j < all.len() ==> !(#[trigger] all@[i].source@ == #[trigger] all@[j].source@
                && all@[i].name@ == all@[j].name@),
{
    let rs = choose|rs: Seq<Result<Vec<RegistrySkill>, RegistryError>>|
        #![trigger all_answers(rs)]
        reg.featured_answers_fit(rs) && match r {
            Ok(all) => all.deep_view() == dedup_first(all_answers(rs)),
            Err(_) => false,
        };
    if let Ok(all) = r {
        lemma_dedup_distinct(all_answers(rs));
        let v = all.deep_view();
        assert forall|i: int, j: int| 0 <= i < j < all.len() implies !(#[trigger] all@[i].source@
            == #[trigger] all@[j].source@ && all@[i].name@ == all@[j].name@) by {
            assert(v[i] == all@[i].deep_view() && v[j] == all@[j].deep_view());
            assert(skill_key(v[i]) != skill_key(v[j]));
        }
    }
}

/// The aggregated categories come largest count first, each of them one of
/// the merged categories of the providers' answers.
pub proof fn lemma_aggregated_categories_answer(reg: AggregatedRegistry, r: Result<Vec<Category>, RegistryError>)
    requires
        reg.categories_answer(r),
    ensures
        r matches Ok(cats) ==> forall|i: int, j: int|
            0 <= i < j < cats.len() ==> #[trigger] cats@[i].count >= #[trigger] cats@[j].count,
{
    let rs = choose|rs: Seq<Result<Vec<Category>, RegistryError>>|
        #![trigger all_answers(rs)]
        reg.category_answers_fit(rs) && match r {
            Ok(cats) => totals_fit(all_answers(rs)) && ranked(cats.deep_view(), merge_by_id(all_answers(rs))),
            Err(e) => !totals_fit(all_answers(rs)) && e == RegistryError::CountOverflow,
        };
    if let Ok(cats) = r {
        let v = cats.deep_view();
        assert forall|i: int, j: int| 0 <= i < j < cats.len() implies #[trigger] cats@[i].count
            >= #[trigger] cats@[j].count by {
            assert(v[i] == cats@[i].deep_view() && v[j] == cats@[j].deep_view());
            assert(v[i].count >= v[j].count);
        }
    }
}

/// The built-in search finds, by the lowercased query, every catalog entry
/// whose lowercased name, display name, description or category contains it,
/// unless `limit` entries were already found; and every entry it finds is a
/// catalog entry whose lowercased name, display name, description or some
/// category contains the lowercased query.
pub proof fn lemma_builtin_search_answer(
    p: BuiltinFeaturedProvider,
    query: Seq<char>,
    limit: usize,
    r: Result<Vec<RegistrySkill>, RegistryError>,
)
    requires
        p.search_answer(query, limit, r),
    ensures
        r is Ok,
        r matches Ok(found) ==> {
            &&& found.len() <= limit
            &&& forall|i: int| 0 <= i < found.len() ==> {
                let s = #[trigger] found@[i].deep_view();
                &&& p.catalog().contains(s)
                &&& {
                    ||| has_substring(lowercase(s.name), lowercase(query))
                    ||| has_substring(lowercase(s.display_name), lowercase(query))
                    ||| has_substring(lowercase(s.description), lowercase(query))
                    ||| exists|k: int| 0 <= k < s.categories.len() && has_substring(lowercase(#[trigger] s.categories[k]), lowercase(query))
                }
            }
            &&& found.len() < limit ==> forall|i: int| 0 <= i < p.catalog().len() && {
                let s = #[trigger] p.catalog()[i];
                ||| has_substring(lowercase(s.name), lowercase(query))
                ||| has_substring(lowercase(s.display_name), lowercase(query))
                ||| has_substring(lowercase(s.description), lowercase(query))
                ||| exists|k: int| 0 <= k < s.categories.len() && has_substring(lowercase(#[trigger] s.categories[k]), lowercase(query))
            } ==> found.deep_view().contains(p.catalog()[i])
        },
{
    let c = p.catalog();
    if let Ok(found) = r {
        let v = found.deep_view();
        assert(v == catalog_search(c, query, limit as int));
        assert(v.len() == found.len());
        assert(found.len() <= limit);
        lemma_catalog_search_sound(c, query, limit as int);
        assert forall|i: int| 0 <= i < found.len() implies {
            let s = #[trigger] found@[i].deep_view();
            &&& p.catalog().contains(s)
            &&& {
                ||| has_substring(lowercase(s.name), lowercase(query))
                ||| has_substring(lowercase(s.display_name), lowercase(query))
                ||| has_substring(lowercase(s.description), lowercase(query))
                ||| exists|k: int| 0 <= k < s.categories.len() && has_substring(lowercase(#[trigger] s.categories[k]), lowercase(query))
            }
        } by {
            assert(v[i] == found@[i].deep_view());
            assert(skill_matches(v[i], lowercase(query)));
        }
        if found.len() < limit {
            assert forall|i: int| 0 <= i < p.catalog().len() && {
                let s = #[trigger] p.catalog()[i];
                ||| has_substring(lowercase(s.name), lowercase(query))
                ||| has_substring(lowercase(s.display_name), lowercase(query))
                ||| has_substring(lowercase(s.description), lowercase(query))
                ||| exists|k: int| 0 <= k < s.categories.len() && has_substring(lowercase(#[trigger] s.categories[k]), lowercase(query))
            } implies found.deep_view().contains(p.catalog()[i]) by {
                assert(skill_matches(c[i], lowercase(query)));
                lemma_catalog_search_complete(c, query, limit as int, i);
            }
        }
    }
}

/// How many times `id` occurs among `tags`.
pub open spec fn occurrences(tags: Seq<Seq<char>>, id: Seq<char>) -> nat
    decreases tags.len(),
{
    if tags.len() == 0 {
        0
    } else {
        occurrences(tags.drop_last(), id) + if tags.last() == id {
            1nat
        } else {
            0nat
        }
    }
}

/// How many (skill, tag) pairs of the catalog have the tag `id`.
pub open spec fn tag_count(catalog: Seq<SkillView>, id: Seq<char>) -> nat
    decreases catalog.len(),
{
    if catalog.len() == 0 {
        0
    } else {
        tag_count(catalog.drop_last(), id) + occurrences(catalog.last().categories, id)
    }
}

proof fn lemma_id_total_concat(a: Seq<CategoryView>, b: Seq<CategoryView>, id: Seq<char>)
    ensures
        id_total(a + b, id) == id_total(a, id) + id_total(b, id),
    decreases b.len(),
{
    if b.len() == 0 {
        assert(a + b =~= a);
    } else {
        lemma_id_total_concat(a, b.drop_last(), id);
        assert((a + b).drop_last() =~= a + b.drop_last());
        assert((a + b).last() == b.last());
    }
}

proof fn lemma_id_total_of_tags(tags: Seq<Seq<char>>, id: Seq<char>)
    ensures
        id_total(tags.map_values(|t: Seq<char>| tag_entry(t)), id) == occurrences(tags, id),
    decreases tags.len(),
{
    if tags.len() > 0 {
        lemma_id_total_of_tags(tags.drop_last(), id);
        let f = |t: Seq<char>| tag_entry(t);
        assert(tags.map_values(f).drop_last() =~= tags.drop_last().map_values(f));
        assert(tags.map_values(f).last() == tag_entry(tags.last()));
    }
}

/// Counting the category entries of a catalog by id counts its tags.
proof fn lemma_tags_total(c: Seq<SkillView>, id: Seq<char>)
    ensures
        id_total(category_tags(c), id) == tag_count(c, id),
    decreases c.len(),
{
    if c.len() > 0 {
        lemma_tags_total(c.drop_last(), id);
        lemma_id_total_concat(
            category_tags(c.drop_last()),
            c.last().categories.map_values(|t: Seq<char>| tag_entry(t)),
            id,
        );
        lemma_id_total_of_tags(c.last().categories, id);
    }
}

/// Every category entry of a catalog is a tag's entry: count 1, named by its id.
proof fn lemma_tags_shape(c: Seq<SkillView>)
    ensures
        forall|t: int| 0 <= t < category_tags(c).len() ==> (#[trigger] category_tags(c)[t]) == tag_entry(
            category_tags(c)[t].id,
        ),
    decreases c.len(),
{
    if c.len() > 0 {
        lemma_tags_shape(c.drop_last());
        let a = category_tags(c.drop_last());
        let b = c.last().categories.map_values(|t: Seq<char>| tag_entry(t));
        assert(category_tags(c) == a + b);
        assert forall|t: int| 0 <= t < category_tags(c).len() implies (#[trigger] category_tags(c)[t]) == tag_entry(
            category_tags(c)[t].id,
        ) by {
            if t < a.len() {
                assert(category_tags(c)[t] == a[t]);
            } else {
                assert(category_tags(c)[t] == b[t - a.len()]);
            }
        }
    }
}

proof fn lemma_occurrences_pos(tags: Seq<Seq<char>>, k: int)
    requires
        0 <= k < tags.len(),
    ensures
        occurrences(tags, tags[k]) >= 1,
    decreases tags.len(),
{
    if k < tags.len() - 1 {
        lemma_occurrences_pos(tags.drop_last(), k);
        assert(tags.drop_last()[k] == tags[k]);
    }
}

proof fn lemma_tag_count_ge(c: Seq<SkillView>, i: int, id: Seq<char>)
    requires
        0 <= i < c.len(),
    ensures
        tag_count(c, id) >= occurrences(c[i].categories, id),
    decreases c.len(),
{
    if i < c.len() - 1 {
        lemma_tag_count_ge(c.drop_last(), i, id);
        assert(c.drop_last()[i] == c[i]);
    }
}

/// Every category of a ranking of a catalog's merged tags counts the tags
/// of its id and is named by its id with dashes turned into spaces.
proof fn lemma_ranked_tag_counts(c: Seq<SkillView>, v: Seq<CategoryView>)
    requires
        totals_fit(category_tags(c)),
        ranked(v, merge_by_id(category_tags(c))),
    ensures
        forall|m: int| 0 <= m < v.len() ==> {
            &&& (#[trigger] v[m]).count == tag_count(c, v[m].id)
            &&& v[m].name == dashes_to_spaces(v[m].id)
        },
{
    broadcast use vstd::seq_lib::group_to_multiset_ensures;

    let tags = category_tags(c);
    let mg = merge_by_id(tags);
    let f = first_of_each_id(tags);
    lemma_tags_shape(c);
    lemma_first_from(tags);
    assert(mg.len() == f.len());
    assert forall|m: int| 0 <= m < v.len() implies {
        &&& (#[trigger] v[m]).count == tag_count(c, v[m].id)
        &&& v[m].name == dashes_to_spaces(v[m].id)
    } by {
        assert(v.contains(v[m]));
        assert(v.to_multiset().count(v[m]) > 0);
        assert(mg.contains(v[m]));
        let j = choose|j: int| 0 <= j < mg.len() && mg[j] == v[m];
        assert(tags.contains(f[j]));
        let t = choose|t: int| 0 <= t < tags.len() && tags[t] == f[j];
        assert(tags[t] == tag_entry(tags[t].id));
        assert(id_total(tags, tags[t].id) <= usize::MAX);
        lemma_id_total_nonneg(tags, f[j].id);
        lemma_tags_total(c, f[j].id);
        assert(mg[j].count == id_total(tags, f[j].id) as usize);
    }
}

/// A ranking of a catalog's merged tags has a category for every tag of
/// every skill of the catalog.
proof fn lemma_ranked_covers_tags(c: Seq<SkillView>, v: Seq<CategoryView>)
    requires
        ranked(v, merge_by_id(category_tags(c))),
    ensures
        forall|i: int, k: int|
            0 <= i < c.len() && 0 <= k < c[i].categories.len() ==> exists|m: int|
                0 <= m < v.len() && (#[trigger] v[m]).id == #[trigger] c[i].categories[k],
{
    broadcast use vstd::seq_lib::group_to_multiset_ensures;

    let tags = category_tags(c);
    let mg = merge_by_id(tags);
    assert forall|i: int, k: int| 0 <= i < c.len() && 0 <= k < c[i].categories.len() implies exists|m: int|
        0 <= m < v.len() && (#[trigger] v[m]).id == #[trigger] c[i].categories[k] by {
        let id = c[i].categories[k];
        lemma_occurrences_pos(c[i].categories, k);
        lemma_tag_count_ge(c, i, id);
        lemma_tags_total(c, id);
        if !(exists|t: int| 0 <= t < tags.len() && #[trigger] tags[t].id == id) {
            lemma_id_total_absent(tags, id);
        }
        lemma_merge_ids(tags, id);
        let j = choose|j: int| 0 <= j < mg.len() && #[trigger] mg[j].id == id;
        assert(mg.contains(mg[j]));
        assert(v.to_multiset().count(mg[j]) > 0);
        assert(v.contains(mg[j]));
        let m = choose|m: int| 0 <= m < v.len() && v[m] == mg[j];
        assert(v[m].id == id);
    }
}

/// The built-in provider's categories count the tags of the whole catalog:
/// each category reported has as count the number of (skill, tag) pairs of
/// the catalog whose tag is its id, and as name its id with dashes turned
/// into spaces; every tag of every skill is reported; the largest count
/// comes first. It fails only when some tag occurs more than `usize::MAX`
/// times.
pub proof fn lemma_builtin_categories_answer(p: BuiltinFeaturedProvider, r: Result<Vec<Category>, RegistryError>)
    requires
        p.categories_answer(r),
    ensures
        r matches Ok(cats) ==> {
            &&& forall|m: int| 0 <= m < cats.len() ==> {
                &&& (#[trigger] cats@[m]).count == tag_count(p.catalog(), cats@[m].id@)
                &&& cats@[m].name@ == dashes_to_spaces(cats@[m].id@)
            }
            &&& forall|i: int, k: int|
                0 <= i < p.catalog().len() && 0 <= k < p.catalog()[i].categories.len() ==> exists|m: int|
                    0 <= m < cats.len() && (#[trigger] cats@[m]).id@ == #[trigger] p.catalog()[i].categories[k]
            &&& forall|m1: int, m2: int| 0 <= m1 < m2 < cats.len() ==> #[trigger] cats@[m1].count >= #[trigger] cats@[m2].count
        },
        r is Err ==> exists|id: Seq<char>| tag_count(p.catalog(), id) > usize::MAX,
{
    let c = p.catalog();
    let tags = category_tags(c);
    match r {
        Ok(cats) => {
            let v = cats.deep_view();
            assert(totals_fit(tags) && ranked(v, merge_by_id(tags)));
            assert(v.len() == cats.len());
            assert(forall|m: int| 0 <= m < cats.len() ==> #[trigger] v[m] == cats@[m].deep_view());
            lemma_ranked_tag_counts(c, v);
            lemma_ranked_covers_tags(c, v);
            assert forall|m: int| 0 <= m < cats.len() implies {
                &&& (#[trigger] cats@[m]).count == tag_count(p.catalog(), cats@[m].id@)
                &&& cats@[m].name@ == dashes_to_spaces(cats@[m].id@)
            } by {
                assert(v[m] == cats@[m].deep_view());
            }
            assert forall|i: int, k: int|
                0 <= i < p.catalog().len() && 0 <= k < p.catalog()[i].categories.len() implies exists|m: int|
                0 <= m < cats.len() && (#[trigger] cats@[m]).id@ == #[trigger] p.catalog()[i].categories[k] by {
                let m = choose|m: int| 0 <= m < v.len() && (#[trigger] v[m]).id == c[i].categories[k];
                assert(v[m] == cats@[m].deep_view());
            }
            assert forall|m1: int, m2: int| 0 <= m1 < m2 < cats.len() implies #[trigger] cats@[m1].count
                >= #[trigger] cats@[m2].count by {
                assert(v[m1] == cats@[m1].deep_view() && v[m2] == cats@[m2].deep_view());
                assert(v[m1].count >= v[m2].count);
            }
        },
        Err(_) => {
            assert(!totals_fit(tags));
            let t = choose|t: int| 0 <= t < tags.len() && id_total(tags, #[trigger] tags[t].id) > usize::MAX;
            lemma_tags_total(c, tags[t].id);
            assert(tag_count(c, tags[t].id) > usize::MAX);
        },
    }
}

} // verus!
