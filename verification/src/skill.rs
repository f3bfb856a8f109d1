//! Skill entries: their mathematical value, copying, and deduplication by
//! source and name.

use vstd::prelude::*;

verus! {

/// A skill entry from an external registry.
#[derive(Debug)]
pub struct RegistrySkill {
    /// Install source identifier (e.g. "owner/repo").
    pub source: String,
    /// Skill name (kebab-case).
    pub name: String,
    /// Human-readable display name.
    pub display_name: String,
    /// Short description.
    pub description: String,
    /// Author name.
    pub author: String,
    /// Category tags.
    pub categories: Vec<String>,
    /// SPDX license.
    pub license: Option<String>,
    /// GitHub stars.
    pub stars: Option<u64>,
    /// Download count.
    pub downloads: Option<u64>,
    /// Whether the skill is verified/certified.
    pub verified: bool,
    /// Last update timestamp (ISO 8601).
    pub updated_at: Option<String>,
    /// Which registry this entry came from.
    pub registry: String,
    /// Actual source for installation (may differ from `source` for sub-skills).
    pub install_source: String,
}

/// The mathematical value of a `RegistrySkill`: every text as a `Seq<char>`.
pub struct SkillView {
    pub source: Seq<char>,
    pub name: Seq<char>,
    pub display_name: Seq<char>,
    pub description: Seq<char>,
    pub author: Seq<char>,
    pub categories: Seq<Seq<char>>,
    pub license: Option<Seq<char>>,
    pub stars: Option<u64>,
    pub downloads: Option<u64>,
    pub verified: bool,
    pub updated_at: Option<Seq<char>>,
    pub registry: Seq<char>,
    pub install_source: Seq<char>,
}

impl DeepView for RegistrySkill {
    type V = SkillView;

    open spec fn deep_view(&self) -> SkillView {
        SkillView {
            source: self.source@,
            name: self.name@,
            display_name: self.display_name@,
            description: self.description@,
            author: self.author@,
            categories: self.categories.deep_view(),
            license: self.license.deep_view(),
            stars: self.stars,
            downloads: self.downloads,
            verified: self.verified,
            updated_at: self.updated_at.deep_view(),
            registry: self.registry@,
            install_source: self.install_source@,
        }
    }
}

/// A copy of each string of `v`, in order.
pub(crate) fn clone_strings(v: &Vec<String>) -> (r: Vec<String>)
    ensures
        r.deep_view() == v.deep_view(),
{
    let mut r: Vec<String> = Vec::new();
    let mut i: usize = 0;
    while i < v.len()
        invariant
            i <= v.len(),
            r@ == v@.take(i as int),
        decreases v.len() - i,
    {
        r.push(v[i].clone());
        i = i + 1;
        assert(r@ =~= v@.take(i as int));
    }
    assert(v@.take(v.len() as int) =~= v@);
    assert(r.deep_view() =~= v.deep_view());
    r
}

fn clone_opt_string(o: &Option<String>) -> (r: Option<String>)
    ensures
        r.deep_view() == o.deep_view(),
{
    match o {
        Some(s) => Some(s.clone()),
        None => None,
    }
}

impl Clone for RegistrySkill {
    fn clone(&self) -> (r: Self)
        ensures
            r.deep_view() == self.deep_view(),
    {
        RegistrySkill {
            source: self.source.clone(),
            name: self.name.clone(),
            display_name: self.display_name.clone(),
            description: self.description.clone(),
            author: self.author.clone(),
            categories: clone_strings(&self.categories),
            license: clone_opt_string(&self.license),
            stars: self.stars,
            downloads: self.downloads,
            verified: self.verified,
            updated_at: clone_opt_string(&self.updated_at),
            registry: self.registry.clone(),
            install_source: self.install_source.clone(),
        }
    }
}

// ── Deduplication ───────────────────────────────────────────────────────────

/// The identity of a skill across registries: the pair of its source and
/// its name.
pub open spec fn skill_key(s: SkillView) -> (Seq<char>, Seq<char>) {
    (s.source, s.name)
}

/// Some entry before position `i` has the same key as the entry at `i`.
pub open spec fn key_seen_before(s: Seq<SkillView>, i: int) -> bool {
    exists|j: int| 0 <= j < i && #[trigger] skill_key(s[j]) == skill_key(s[i])
}

/// The entries of `s` whose key does not occur earlier in `s`, in order:
/// the first occurrence of each key is kept, later ones are dropped.
pub open spec fn dedup_first(s: Seq<SkillView>) -> Seq<SkillView>
    decreases s.len(),
{
    if s.len() == 0 {
        s
    } else {
        let rest = dedup_first(s.drop_last());
        if key_seen_before(s, s.len() - 1) {
            rest
        } else {
            rest.push(s.last())
        }
    }
}

/// The keys of a sequence of skills, in order.
pub open spec fn keys_of(s: Seq<SkillView>) -> Seq<(Seq<char>, Seq<char>)> {
    s.map_values(|x: SkillView| skill_key(x))
}

/// A key occurs among the kept entries exactly when it occurs in the input.
pub proof fn lemma_dedup_keys(s: Seq<SkillView>, k: (Seq<char>, Seq<char>))
    ensures
        keys_of(dedup_first(s)).contains(k) <==> keys_of(s).contains(k),
    decreases s.len(),
{
    if s.len() > 0 {
        let p = s.drop_last();
        lemma_dedup_keys(p, k);
        let d = dedup_first(p);
        let x = s.last();
        assert(keys_of(s) =~= keys_of(p).push(skill_key(x)));
        lemma_push_contains(keys_of(p), skill_key(x), k);
        if key_seen_before(s, s.len() - 1) {
            let j = choose|j: int| 0 <= j < s.len() - 1 && #[trigger] skill_key(s[j]) == skill_key(s[s.len() - 1]);
            assert(keys_of(p)[j] == skill_key(x));
        } else {
            assert(keys_of(d.push(x)) =~= keys_of(d).push(skill_key(x)));
            lemma_push_contains(keys_of(d), skill_key(x), k);
        }
    }
}

proof fn lemma_push_contains<A>(s: Seq<A>, x: A, k: A)
    ensures
        s.push(x).contains(k) <==> (s.contains(k) || x == k),
{
    if s.contains(k) {
        let j = choose|j: int| 0 <= j < s.len() && s[j] == k;
        assert(s.push(x)[j] == k);
    }
    if x == k {
        assert(s.push(x)[s.len() as int] == k);
    }
    if s.push(x).contains(k) {
        let j = choose|j: int| 0 <= j < s.push(x).len() && s.push(x)[j] == k;
        if j < s.len() {
            assert(s[j] == k);
        }
    }
}

/// No two entries of `s` share a key.
pub open spec fn distinct_keys(s: Seq<SkillView>) -> bool {
    forall|i: int, j: int| 0 <= i < j < s.len() ==> #[trigger] skill_key(s[i]) != #[trigger] skill_key(s[j])
}

/// After deduplication no two entries share a key.
pub proof fn lemma_dedup_distinct(s: Seq<SkillView>)
    ensures
        distinct_keys(dedup_first(s)),
    decreases s.len(),
{
    if s.len() > 0 {
        let p = s.drop_last();
        lemma_dedup_distinct(p);
        let d = dedup_first(p);
        let x = s.last();
        if !key_seen_before(s, s.len() - 1) {
            lemma_dedup_keys(p, skill_key(x));
            if keys_of(p).contains(skill_key(x)) {
                let j = choose|j: int| 0 <= j < keys_of(p).len() && keys_of(p)[j] == skill_key(x);
                assert(skill_key(s[j]) == skill_key(s[s.len() - 1]));
            }
            let e = d.push(x);
            assert forall|i: int, j: int| 0 <= i < j < e.len() implies #[trigger] skill_key(e[i]) != #[trigger] skill_key(e[j]) by {
                if j == d.len() {
                    assert(keys_of(d)[i] == skill_key(e[i]));
                }
            }
        }
    }
}

/// A sequence whose keys are already distinct is left as it is.
pub proof fn lemma_dedup_of_distinct(s: Seq<SkillView>)
    requires
        distinct_keys(s),
    ensures
        dedup_first(s) == s,
    decreases s.len(),
{
    if s.len() > 0 {
        let p = s.drop_last();
        assert(distinct_keys(p)) by {
            assert forall|i: int, j: int| 0 <= i < j < p.len() implies #[trigger] skill_key(p[i]) != #[trigger] skill_key(p[j]) by {
                assert(skill_key(s[i]) != skill_key(s[j]));
            }
        }
        lemma_dedup_of_distinct(p);
        if key_seen_before(s, s.len() - 1) {
            let j = choose|j: int| 0 <= j < s.len() - 1 && #[trigger] skill_key(s[j]) == skill_key(s[s.len() - 1]);
            assert(skill_key(s[j]) != skill_key(s[s.len() - 1]));
        }
        assert(p.push(s.last()) =~= s);
    }
}

/// Deduplicating twice gives what deduplicating once gives.
pub proof fn lemma_dedup_idempotent(s: Seq<SkillView>)
    ensures
        dedup_first(dedup_first(s)) == dedup_first(s),
{
    lemma_dedup_distinct(s);
    lemma_dedup_of_distinct(dedup_first(s));
}

/// Entries whose keys already occur earlier change nothing: when every key of
/// `b` occurs in `a`, deduplicating `a + b` gives what deduplicating `a` gives.
pub proof fn lemma_dedup_known_suffix(a: Seq<SkillView>, b: Seq<SkillView>)
    requires
        forall|i: int| 0 <= i < b.len() ==> keys_of(a).contains(#[trigger] skill_key(b[i])),
    ensures
        dedup_first(a + b) == dedup_first(a),
    decreases b.len(),
{
    if b.len() == 0 {
        assert(a + b =~= a);
    } else {
        let b2 = b.drop_last();
        let s = a + b;
        lemma_dedup_known_suffix(a, b2);
        assert(s.drop_last() =~= a + b2);
        let y = b.last();
        assert(keys_of(a).contains(skill_key(b[b.len() - 1])));
        let j = choose|j: int| 0 <= j < keys_of(a).len() && keys_of(a)[j] == skill_key(y);
        assert(s[j] == a[j]);
        assert(s[s.len() - 1] == y);
        assert(skill_key(s[j]) == skill_key(s[s.len() - 1]));
        assert(key_seen_before(s, s.len() - 1));
    }
}

/// Listing the same entries twice and deduplicating gives what deduplicating
/// one listing gives.
pub proof fn lemma_dedup_doubled(a: Seq<SkillView>)
    ensures
        dedup_first(a + a) == dedup_first(a),
{
    assert forall|i: int| 0 <= i < a.len() implies keys_of(a).contains(#[trigger] skill_key(a[i])) by {
        assert(keys_of(a)[i] == skill_key(a[i]));
    }
    lemma_dedup_known_suffix(a, a);
}

/// Remove duplicate entries (same source + name), keeping the first occurrence.
pub fn dedup_skills(skills: &mut Vec<RegistrySkill>)
    ensures
        final(skills).deep_view() == dedup_first(old(skills).deep_view()),
{
    let ghost orig = skills.deep_view();
    let mut rest: Vec<RegistrySkill> = Vec::new();
    std::mem::swap(&mut rest, skills);
    let n = rest.len();
    let mut kept: Vec<RegistrySkill> = Vec::new();
    let mut i: usize = 0;
    while i < n
        invariant
            n == orig.len(),
            i <= n,
            rest.len() == n - i,
            forall|k: int| 0 <= k < rest.len() ==> #[trigger] rest@[k].deep_view() == orig[i + k],
            kept.deep_view() == dedup_first(orig.take(i as int)),
        decreases n - i,
    {
        let s = rest.remove(0);
        let ghost sv = s.deep_view();
        assert(sv == orig[i as int]);
        let ghost d = kept.deep_view();
        let mut found = false;
        let mut j: usize = 0;
        while j < kept.len()
            invariant
                j <= kept@.len(),
                d == kept.deep_view(),
                sv == s.deep_view(),
                found <==> exists|k: int| 0 <= k < j && #[trigger] skill_key(d[k]) == skill_key(sv),
            decreases kept@.len() - j,
        {
            assert(d[j as int] == kept@[j as int].deep_view());
            let same = kept[j].source == s.source && kept[j].name == s.name;
            assert(same <==> skill_key(d[j as int]) == skill_key(sv));
            if same {
                found = true;
            }
            j = j + 1;
        }
        let ghost pre = orig.take(i as int);
        let ghost cur = orig.take(i + 1);
        proof {
            assert(cur.drop_last() =~= pre);
            assert(cur.last() == sv);
            lemma_dedup_keys(pre, skill_key(sv));
            if found {
                let k = choose|k: int| 0 <= k < d.len() && #[trigger] skill_key(d[k]) == skill_key(sv);
                assert(keys_of(d)[k] == skill_key(sv));
                assert(keys_of(pre).contains(skill_key(sv)));
                let j2 = choose|j2: int| 0 <= j2 < keys_of(pre).len() && keys_of(pre)[j2] == skill_key(sv);
                assert(skill_key(cur[j2]) == skill_key(cur[cur.len() - 1]));
                assert(key_seen_before(cur, cur.len() - 1));
            } else {
                if key_seen_before(cur, cur.len() - 1) {
                    let j2 = choose|j2: int| 0 <= j2 < cur.len() - 1 && #[trigger] skill_key(cur[j2]) == skill_key(cur[cur.len() - 1]);
                    assert(keys_of(pre)[j2] == skill_key(sv));
                    assert(keys_of(d).contains(skill_key(sv)));
                    let k = choose|k: int| 0 <= k < keys_of(d).len() && keys_of(d)[k] == skill_key(sv);
                    assert(skill_key(d[k]) == skill_key(sv));
                    assert(false);
                }
            }
        }
        if !found {
            kept.push(s);
            proof {
                assert(kept.deep_view() =~= dedup_first(pre).push(sv));
            }
        }
        i = i + 1;
    }
    assert(orig.take(n as int) =~= orig);
    *skills = kept;
}

} // verus!
