//! Skill categories: merging entries of the same id and ranking by count.

use vstd::prelude::*;

use crate::registry::RegistryError;

verus! {

// ── Categories ──────────────────────────────────────────────────────────────

/// A skill category for browsing.
#[derive(Debug)]
pub struct Category {
    pub id: String,
    pub name: String,
    pub count: usize,
}

/// The mathematical value of a `Category`.
pub struct CategoryView {
    pub id: Seq<char>,
    pub name: Seq<char>,
    pub count: usize,
}

impl DeepView for Category {
    type V = CategoryView;

    open spec fn deep_view(&self) -> CategoryView {
        CategoryView { id: self.id@, name: self.name@, count: self.count }
    }
}

impl Clone for Category {
    fn clone(&self) -> (r: Self)
        ensures
            r.deep_view() == self.deep_view(),
    {
        Category { id: self.id.clone(), name: self.name.clone(), count: self.count }
    }
}

/// The sum of the counts of the categories in `s` whose id is `id`.
pub open spec fn id_total(s: Seq<CategoryView>, id: Seq<char>) -> int
    decreases s.len(),
{
    if s.len() == 0 {
        0
    } else {
        id_total(s.drop_last(), id) + if s.last().id == id {
            s.last().count as int
        } else {
            0int
        }
    }
}

/// Some category before position `i` has the id of the category at `i`.
pub open spec fn id_seen_before(s: Seq<CategoryView>, i: int) -> bool {
    exists|j: int| 0 <= j < i && #[trigger] s[j].id == s[i].id
}

/// The first category of each id, in order of first appearance.
pub open spec fn first_of_each_id(s: Seq<CategoryView>) -> Seq<CategoryView>
    decreases s.len(),
{
    if s.len() == 0 {
        s
    } else {
        let rest = first_of_each_id(s.drop_last());
        if id_seen_before(s, s.len() - 1) {
            rest
        } else {
            rest.push(s.last())
        }
    }
}

/// The categories of `s` merged by id: one entry per id, in order of first
/// appearance, with the id and name of its first appearance and, as count,
/// the sum of the counts of all categories with that id.
pub open spec fn merge_by_id(s: Seq<CategoryView>) -> Seq<CategoryView> {
    first_of_each_id(s).map_values(
        |c: CategoryView| CategoryView { id: c.id, name: c.name, count: id_total(s, c.id) as usize },
    )
}

/// The summed count of every id of `s` fits in a `usize`.
pub open spec fn totals_fit(s: Seq<CategoryView>) -> bool {
    forall|i: int| 0 <= i < s.len() ==> id_total(s, #[trigger] s[i].id) <= usize::MAX
}

/// `r` lists the categories of `m`, each as often as in `m`, with counts
/// in descending order; categories of equal count keep their order in `m`.
pub open spec fn ranked(r: Seq<CategoryView>, m: Seq<CategoryView>) -> bool {
    &&& r.to_multiset() == m.to_multiset()
    &&& forall|i: int, j: int| 0 <= i < j < r.len() ==> #[trigger] r[i].count >= #[trigger] r[j].count
    &&& forall|c: usize| #[trigger] with_count(r, c) == with_count(m, c)
}

/// The categories of `s` whose count is `c`, in order.
pub open spec fn with_count(s: Seq<CategoryView>, c: usize) -> Seq<CategoryView>
    decreases s.len(),
{
    if s.len() == 0 {
        s
    } else {
        with_count(s.drop_last(), c) + if s.last().count == c {
            seq![s.last()]
        } else {
            Seq::empty()
        }
    }
}

proof fn lemma_with_count_concat(a: Seq<CategoryView>, b: Seq<CategoryView>, c: usize)
    ensures
        with_count(a + b, c) == with_count(a, c) + with_count(b, c),
    decreases b.len(),
{
    if b.len() == 0 {
        assert(a + b =~= a);
        assert(with_count(a, c) + with_count(b, c) =~= with_count(a, c));
    } else {
        lemma_with_count_concat(a, b.drop_last(), c);
        assert((a + b).drop_last() =~= a + b.drop_last());
        assert((a + b).last() == b.last());
        assert(with_count(a + b, c) =~= with_count(a, c) + with_count(b, c));
    }
}

proof fn lemma_with_count_none(s: Seq<CategoryView>, c: usize)
    requires
        forall|k: int| 0 <= k < s.len() ==> #[trigger] s[k].count != c,
    ensures
        with_count(s, c) == Seq::<CategoryView>::empty(),
    decreases s.len(),
{
    if s.len() > 0 {
        let p = s.drop_last();
        assert forall|k: int| 0 <= k < p.len() implies #[trigger] p[k].count != c by {
            assert(p[k] == s[k]);
        }
        lemma_with_count_none(p, c);
        assert(with_count(s, c) =~= Seq::<CategoryView>::empty());
    }
}

pub(crate) proof fn lemma_id_total_nonneg(s: Seq<CategoryView>, id: Seq<char>)
    ensures
        id_total(s, id) >= 0,
    decreases s.len(),
{
    if s.len() > 0 {
        lemma_id_total_nonneg(s.drop_last(), id);
    }
}

/// Totals over a prefix never exceed totals over the whole.
proof fn lemma_id_total_prefix(s: Seq<CategoryView>, n: int, id: Seq<char>)
    requires
        0 <= n <= s.len(),
    ensures
        id_total(s.take(n), id) <= id_total(s, id),
    decreases s.len(),
{
    if n == s.len() {
        assert(s.take(n) =~= s);
    } else {
        lemma_id_total_prefix(s.drop_last(), n, id);
        assert(s.drop_last().take(n) =~= s.take(n));
    }
}

/// The ids among the first entries are the ids of the input.
pub(crate) proof fn lemma_first_ids(s: Seq<CategoryView>, id: Seq<char>)
    ensures
        (exists|k: int| 0 <= k < first_of_each_id(s).len() && #[trigger] first_of_each_id(s)[k].id == id)
            <==> (exists|k: int| 0 <= k < s.len() && #[trigger] s[k].id == id),
    decreases s.len(),
{
    if s.len() > 0 {
        let p = s.drop_last();
        lemma_first_ids(p, id);
        let d = first_of_each_id(p);
        let x = s.last();
        if exists|k: int| 0 <= k < p.len() && #[trigger] p[k].id == id {
            let k = choose|k: int| 0 <= k < p.len() && #[trigger] p[k].id == id;
            assert(s[k].id == id);
        }
        if id_seen_before(s, s.len() - 1) {
            assert(first_of_each_id(s) == d);
            if x.id == id {
                let j = choose|j: int| 0 <= j < s.len() - 1 && #[trigger] s[j].id == s[s.len() - 1].id;
                assert(p[j].id == id);
            }
        } else {
            assert(first_of_each_id(s) == d.push(x));
            if exists|k: int| 0 <= k < d.len() && #[trigger] d[k].id == id {
                let k = choose|k: int| 0 <= k < d.len() && #[trigger] d[k].id == id;
                assert(d.push(x)[k].id == id);
            }
            if x.id == id {
                assert(d.push(x)[d.len() as int].id == id);
            }
            if exists|k: int| 0 <= k < d.len() + 1 && #[trigger] d.push(x)[k].id == id {
                let k = choose|k: int| 0 <= k < d.len() + 1 && #[trigger] d.push(x)[k].id == id;
                if k < d.len() {
                    assert(d[k].id == id);
                }
            }
        }
        if exists|k: int| 0 <= k < s.len() && #[trigger] s[k].id == id {
            let k = choose|k: int| 0 <= k < s.len() && #[trigger] s[k].id == id;
            if k < p.len() {
                assert(p[k].id == id);
            }
        }
    }
}

/// No two first entries share an id.
proof fn lemma_first_distinct(s: Seq<CategoryView>)
    ensures
        forall|i: int, j: int|
            0 <= i < j < first_of_each_id(s).len() ==> #[trigger] first_of_each_id(s)[i].id
                != #[trigger] first_of_each_id(s)[j].id,
    decreases s.len(),
{
    if s.len() > 0 {
        let p = s.drop_last();
        lemma_first_distinct(p);
        let d = first_of_each_id(p);
        if !id_seen_before(s, s.len() - 1) {
            let x = s.last();
            lemma_first_ids(p, x.id);
            if exists|k: int| 0 <= k < p.len() && #[trigger] p[k].id == x.id {
                let k = choose|k: int| 0 <= k < p.len() && #[trigger] p[k].id == x.id;
                assert(s[k].id == s[s.len() - 1].id);
            }
            let e = d.push(x);
            assert forall|i: int, j: int| 0 <= i < j < e.len() implies #[trigger] e[i].id != #[trigger] e[j].id by {
                if j == d.len() {
                    assert(d[i].id == e[i].id);
                }
            }
        }
    }
}

/// Merge categories that share an id, summing their counts (the first
/// category of an id gives the merged entry its name). Fails with
/// `CountOverflow` exactly when some summed count does not fit in a `usize`.
pub fn merge_categories(all: &Vec<Category>) -> (r: Result<Vec<Category>, RegistryError>)
    ensures
        match r {
            Ok(m) => totals_fit(all.deep_view()) && m.deep_view() == merge_by_id(all.deep_view()),
            Err(e) => !totals_fit(all.deep_view()) && e == RegistryError::CountOverflow,
        },
{
    let ghost s = all.deep_view();
    let mut merged: Vec<Category> = Vec::new();
    let mut i: usize = 0;
    assert(merge_by_id(s.take(0)) =~= Seq::<CategoryView>::empty());
    while i < all.len()
        invariant
            s == all.deep_view(),
            i <= all.len(),
            merged.deep_view() == merge_by_id(s.take(i as int)),
            totals_fit(s.take(i as int)),
        decreases all.len() - i,
    {
        let c = &all[i];
        let ghost p = s.take(i as int);
        let ghost q = s.take(i + 1);
        let ghost cv = s[i as int];
        proof {
            assert(q.drop_last() =~= p);
            assert(q.last() == cv);
            lemma_first_distinct(p);
            lemma_first_ids(p, cv.id);
            assert forall|x: Seq<char>| x != cv.id implies id_total(q, x) == id_total(p, x) by {}
            assert(id_total(q, cv.id) == id_total(p, cv.id) + cv.count);
        }
        let mut k: usize = 0;
        let mut found = false;
        while k < merged.len() && !found
            invariant
                k <= merged.len(),
                merged.deep_view() == merge_by_id(p),
                !found ==> forall|t: int| 0 <= t < k ==> #[trigger] merged@[t].id@ != c.id@,
                found ==> k < merged.len() && merged@[k as int].id@ == c.id@,
            decreases merged.len() - k + if found { 0int } else { 1int },
        {
            if merged[k].id == c.id {
                found = true;
            } else {
                k = k + 1;
            }
        }
        if found {
            proof {
                let d = first_of_each_id(p);
                assert(merged.deep_view()[k as int] == merged@[k as int].deep_view());
                assert(merge_by_id(p).len() == d.len());
                assert(merge_by_id(p)[k as int].id == d[k as int].id);
                assert(d[k as int].id == cv.id);
                assert(exists|t: int| 0 <= t < d.len() && #[trigger] d[t].id == cv.id);
                let j = choose|j: int| 0 <= j < p.len() && #[trigger] p[j].id == cv.id;
                assert(q[j].id == q[q.len() - 1].id);
                assert(id_seen_before(q, q.len() - 1));
                assert(first_of_each_id(q) == d);
                assert(id_total(p, p[j].id) <= usize::MAX);
                lemma_id_total_nonneg(p, cv.id);
                assert(merged.deep_view()[k as int].count == merge_by_id(p)[k as int].count);
                assert(merge_by_id(p)[k as int].count == id_total(p, d[k as int].id) as usize);
                assert(merged@[k as int].count == id_total(p, cv.id));
                assert(s[i as int] == cv);
            }
            match merged[k].count.checked_add(c.count) {
                None => {
                    proof {
                        lemma_id_total_prefix(s, i + 1, cv.id);
                        assert(id_total(s, s[i as int].id) > usize::MAX);
                    }
                    return Err(RegistryError::CountOverflow);
                }
                Some(total) => {
                    let updated = Category {
                        id: merged[k].id.clone(),
                        name: merged[k].name.clone(),
                        count: total,
                    };
                    let ghost before = merged.deep_view();
                    merged.set(k, updated);
                    proof {
                        let d = first_of_each_id(p);
                        assert forall|t: int| 0 <= t < d.len() && t != k implies #[trigger] d[t].id != cv.id by {
                            if t < k {
                                assert(d[t].id != d[k as int].id);
                            } else {
                                assert(d[k as int].id != d[t].id);
                            }
                        }
                        assert(merge_by_id(q).len() == d.len());
                        assert forall|t: int| 0 <= t < d.len() implies #[trigger] merged.deep_view()[t] == merge_by_id(q)[t] by {
                            if t != k {
                                assert(before[t] == merge_by_id(p)[t]);
                            }
                        }
                        assert(merged.deep_view() =~= merge_by_id(q));
                        assert forall|t: int| 0 <= t < q.len() implies id_total(q, #[trigger] q[t].id) <= usize::MAX by {
                            if q[t].id != cv.id {
                                assert(p[t] == q[t]);
                            }
                        }
                    }
                }
            }
        } else {
            let ghost before_v = merged@;
            let fresh = c.clone();
            merged.push(fresh);
            proof {
                let d = first_of_each_id(p);
                assert(merge_by_id(p).len() == d.len());
                assert forall|t: int| 0 <= t < d.len() implies #[trigger] d[t].id != cv.id by {
                    assert(before_v[t].deep_view() == merge_by_id(p)[t]);
                    assert(before_v[t].id@ != c.id@);
                }
                if exists|t: int| 0 <= t < p.len() && #[trigger] p[t].id == cv.id {
                    let t2 = choose|t2: int| 0 <= t2 < d.len() && #[trigger] d[t2].id == cv.id;
                    assert(d[t2].id != cv.id);
                }
                if id_seen_before(q, q.len() - 1) {
                    let j = choose|j: int| 0 <= j < q.len() - 1 && #[trigger] q[j].id == q[q.len() - 1].id;
                    assert(p[j].id == cv.id);
                }
                assert(first_of_each_id(q) == d.push(cv));
                lemma_id_total_nonneg(p, cv.id);
                lemma_id_total_absent(p, cv.id);
                assert(merge_by_id(q).len() == d.len() + 1);
                assert forall|t: int| 0 <= t < d.len() + 1 implies #[trigger] merged.deep_view()[t] == merge_by_id(q)[t] by {
                    if t < d.len() {
                        assert(before_v[t].deep_view() == merge_by_id(p)[t]);
                        assert(merged@[t] == before_v[t]);
                        assert(d[t].id != cv.id);
                    } else {
                        assert(merged@[t] == fresh);
                    }
                }
                assert(merged.deep_view() =~= merge_by_id(q));
                assert forall|t: int| 0 <= t < q.len() implies id_total(q, #[trigger] q[t].id) <= usize::MAX by {
                    if t < p.len() {
                        assert(p[t] == q[t]);
                    }
                }
            }
        }
        i = i + 1;
    }
    assert(s.take(all.len() as int) =~= s);
    Ok(merged)
}

pub(crate) proof fn lemma_id_total_absent(s: Seq<CategoryView>, id: Seq<char>)
    requires
        forall|t: int| 0 <= t < s.len() ==> #[trigger] s[t].id != id,
    ensures
        id_total(s, id) == 0,
    decreases s.len(),
{
    if s.len() > 0 {
        lemma_id_total_absent(s.drop_last(), id);
    }
}

/// Order categories by count, largest first (equal counts keep their
/// relative order).
pub fn rank_by_count(cats: Vec<Category>) -> (r: Vec<Category>)
    ensures
        ranked(r.deep_view(), cats.deep_view()),
{
    broadcast use vstd::seq_lib::group_to_multiset_ensures;

    let ghost s = cats.deep_view();
    let mut rest = cats;
    let n = rest.len();
    let mut out: Vec<Category> = Vec::new();
    let mut i: usize = 0;
    while i < n
        invariant
            n == s.len(),
            i <= n,
            rest.len() == n - i,
            forall|k: int| 0 <= k < rest.len() ==> #[trigger] rest@[k].deep_view() == s[i + k],
            out.deep_view().to_multiset() == s.take(i as int).to_multiset(),
            forall|a: int, b: int| 0 <= a < b < out.len() ==> #[trigger] out@[a].count >= #[trigger] out@[b].count,
            forall|k: usize| #[trigger] with_count(out.deep_view(), k) == with_count(s.take(i as int), k),
        decreases n - i,
    {
        let c = rest.remove(0);
        let ghost cv = c.deep_view();
        assert(cv == s[i as int]);
        let mut p: usize = 0;
        while p < out.len() && out[p].count >= c.count
            invariant
                p <= out.len(),
                forall|t: int| 0 <= t < p ==> #[trigger] out@[t].count >= c.count,
            decreases out.len() - p,
        {
            p = p + 1;
        }
        let ghost before = out.deep_view();
        let ghost before_v = out@;
        out.insert(p, c);
        proof {
            assert(out.deep_view() =~= before.insert(p as int, cv));
            assert(s.take(i + 1) =~= s.take(i as int).push(cv));
            vstd::seq_lib::to_multiset_insert(before, p as int, cv);
            vstd::seq_lib::to_multiset_build(s.take(i as int), cv);
            assert(out.deep_view().to_multiset() == s.take(i + 1).to_multiset());
            let front = before.take(p as int);
            let back = before.skip(p as int);
            assert(before =~= front + back);
            assert(out.deep_view() =~= front + seq![cv] + back);
            assert(s.take(i + 1).drop_last() =~= s.take(i as int));
            assert forall|k: usize| #[trigger] with_count(out.deep_view(), k) == with_count(s.take(i + 1), k) by {
                lemma_with_count_concat(front, back, k);
                lemma_with_count_concat(front + seq![cv], back, k);
                lemma_with_count_concat(front, seq![cv], k);
                assert(seq![cv].drop_last() =~= Seq::<CategoryView>::empty());
                assert(with_count(Seq::<CategoryView>::empty(), k) =~= Seq::<CategoryView>::empty());
                assert(s.take(i + 1).last() == cv);
                if k == cv.count {
                    assert(with_count(seq![cv], k) =~= seq![cv]);
                    assert(with_count(s.take(i + 1), k) =~= with_count(s.take(i as int), k) + seq![cv]);
                } else {
                    assert(with_count(seq![cv], k) =~= Seq::<CategoryView>::empty());
                    assert(with_count(s.take(i + 1), k) =~= with_count(s.take(i as int), k));
                }
                if k == cv.count {
                    assert forall|t: int| 0 <= t < back.len() implies #[trigger] back[t].count != k by {
                        assert(back[t] == before_v[p + t].deep_view());
                        assert(before_v[p as int].count < c.count);
                        if t > 0 {
                            assert(before_v[p as int].count >= before_v[p + t].count);
                        }
                    }
                    lemma_with_count_none(back, k);
                    assert(with_count(out.deep_view(), k) =~= with_count(before, k) + seq![cv]);
                } else {
                    assert(with_count(out.deep_view(), k) =~= with_count(before, k));
                }
            }
            assert forall|a: int, b: int| 0 <= a < b < out.len() implies #[trigger] out@[a].count >= #[trigger] out@[b].count by {
                if b < p {
                    assert(out@[a] == before_v[a] && out@[b] == before_v[b]);
                } else if b == p {
                    assert(out@[a] == before_v[a]);
                } else if a < p {
                    assert(out@[a] == before_v[a] && out@[b] == before_v[b - 1]);
                    assert(before_v[p as int].count < c.count || b - 1 >= p);
                    if p < before_v.len() {
                        assert(before_v[p as int].count >= before_v[b - 1].count || b - 1 == p);
                    }
                } else if a == p {
                    assert(out@[b] == before_v[b - 1]);
                    assert(p < before_v.len());
                    assert(before_v[p as int].count < c.count);
                    assert(b - 1 == p || before_v[p as int].count >= before_v[b - 1].count);
                } else {
                    assert(out@[a] == before_v[a - 1] && out@[b] == before_v[b - 1]);
                }
            }
        }
        i = i + 1;
    }
    assert(s.take(n as int) =~= s);
    out
}

/// Merging by id keeps every id of the input, once each.
pub proof fn lemma_merge_ids(s: Seq<CategoryView>, id: Seq<char>)
    ensures
        (exists|k: int| 0 <= k < merge_by_id(s).len() && #[trigger] merge_by_id(s)[k].id == id)
            <==> (exists|k: int| 0 <= k < s.len() && #[trigger] s[k].id == id),
        forall|i: int, j: int|
            0 <= i < j < merge_by_id(s).len() ==> #[trigger] merge_by_id(s)[i].id != #[trigger] merge_by_id(s)[j].id,
{
    lemma_first_ids(s, id);
    lemma_first_distinct(s);
    let d = first_of_each_id(s);
    let m = merge_by_id(s);
    assert(m.len() == d.len());
    assert forall|k: int| 0 <= k < m.len() implies #[trigger] m[k].id == d[k].id by {}
    if exists|k: int| 0 <= k < d.len() && #[trigger] d[k].id == id {
        let k = choose|k: int| 0 <= k < d.len() && #[trigger] d[k].id == id;
        assert(m[k].id == id);
    }
    if exists|k: int| 0 <= k < m.len() && #[trigger] m[k].id == id {
        let k = choose|k: int| 0 <= k < m.len() && #[trigger] m[k].id == id;
        assert(d[k].id == id);
    }
    assert forall|i: int, j: int| 0 <= i < j < m.len() implies #[trigger] m[i].id != #[trigger] m[j].id by {
        assert(m[i].id == d[i].id && m[j].id == d[j].id);
    }
}

/// The sum of the counts of a sequence of categories.
pub open spec fn total_count(s: Seq<CategoryView>) -> int
    decreases s.len(),
{
    if s.len() == 0 {
        0
    } else {
        total_count(s.drop_last()) + s.last().count
    }
}

/// The sum, over the categories of `f`, of the totals their ids have in `s`.
spec fn totals_over(f: Seq<CategoryView>, s: Seq<CategoryView>) -> int
    decreases f.len(),
{
    if f.len() == 0 {
        0
    } else {
        totals_over(f.drop_last(), s) + id_total(s, f.last().id)
    }
}

/// How many categories of `f` have the id `id`.
spec fn id_count(f: Seq<CategoryView>, id: Seq<char>) -> int
    decreases f.len(),
{
    if f.len() == 0 {
        0
    } else {
        id_count(f.drop_last(), id) + if f.last().id == id {
            1int
        } else {
            0int
        }
    }
}

proof fn lemma_totals_over_push(f: Seq<CategoryView>, p: Seq<CategoryView>, x: CategoryView)
    ensures
        totals_over(f, p.push(x)) == totals_over(f, p) + x.count * id_count(f, x.id),
    decreases f.len(),
{
    if f.len() > 0 {
        lemma_totals_over_push(f.drop_last(), p, x);
        assert(p.push(x).drop_last() =~= p);
        let a = id_count(f, x.id);
        let b = id_count(f.drop_last(), x.id);
        let d: int = if f.last().id == x.id { 1 } else { 0 };
        let m = x.count as int;
        assert(a == b + d);
        assert(m * a == m * b + m * d) by (nonlinear_arith)
            requires
                a == b + d,
        ;
    }
}

proof fn lemma_id_count_distinct(f: Seq<CategoryView>, id: Seq<char>)
    requires
        forall|i: int, j: int| 0 <= i < j < f.len() ==> #[trigger] f[i].id != #[trigger] f[j].id,
    ensures
        (exists|k: int| 0 <= k < f.len() && #[trigger] f[k].id == id) ==> id_count(f, id) == 1,
        !(exists|k: int| 0 <= k < f.len() && #[trigger] f[k].id == id) ==> id_count(f, id) == 0,
    decreases f.len(),
{
    if f.len() > 0 {
        let p = f.drop_last();
        assert forall|i: int, j: int| 0 <= i < j < p.len() implies #[trigger] p[i].id != #[trigger] p[j].id by {
            assert(p[i] == f[i] && p[j] == f[j]);
        }
        lemma_id_count_distinct(p, id);
        if exists|k: int| 0 <= k < p.len() && #[trigger] p[k].id == id {
            let k = choose|k: int| 0 <= k < p.len() && #[trigger] p[k].id == id;
            assert(f[k].id == id);
            assert(f[k].id != f[f.len() - 1].id);
        }
        if exists|k: int| 0 <= k < f.len() && #[trigger] f[k].id == id {
            let k = choose|k: int| 0 <= k < f.len() && #[trigger] f[k].id == id;
            if k < p.len() {
                assert(p[k].id == id);
            }
        } else {
            assert(f[f.len() - 1].id != id);
        }
    }
}

proof fn lemma_totals_over_first(s: Seq<CategoryView>)
    ensures
        totals_over(first_of_each_id(s), s) == total_count(s),
    decreases s.len(),
{
    if s.len() > 0 {
        let p = s.drop_last();
        let x = s.last();
        lemma_totals_over_first(p);
        let f = first_of_each_id(p);
        lemma_first_distinct(p);
        lemma_first_ids(p, x.id);
        lemma_id_count_distinct(f, x.id);
        assert(p.push(x) =~= s);
        lemma_totals_over_push(f, p, x);
        if id_seen_before(s, s.len() - 1) {
            let j = choose|j: int| 0 <= j < s.len() - 1 && #[trigger] s[j].id == s[s.len() - 1].id;
            assert(p[j].id == x.id);
            assert(first_of_each_id(s) == f);
        } else {
            assert(first_of_each_id(s) == f.push(x));
            if exists|k: int| 0 <= k < p.len() && #[trigger] p[k].id == x.id {
                let k = choose|k: int| 0 <= k < p.len() && #[trigger] p[k].id == x.id;
                assert(s[k].id == s[s.len() - 1].id);
            }
            lemma_id_total_absent(p, x.id);
            assert(f.push(x).drop_last() =~= f);
        }
    }
}

proof fn lemma_total_of_map(f: Seq<CategoryView>, s: Seq<CategoryView>)
    requires
        forall|k: int| 0 <= k < f.len() ==> 0 <= id_total(s, #[trigger] f[k].id) <= usize::MAX,
    ensures
        total_count(
            f.map_values(|c: CategoryView| CategoryView { id: c.id, name: c.name, count: id_total(s, c.id) as usize }),
        ) == totals_over(f, s),
    decreases f.len(),
{
    let g = |c: CategoryView| CategoryView { id: c.id, name: c.name, count: id_total(s, c.id) as usize };
    if f.len() > 0 {
        let p = f.drop_last();
        assert forall|k: int| 0 <= k < p.len() implies 0 <= id_total(s, #[trigger] p[k].id) <= usize::MAX by {
            assert(p[k] == f[k]);
        }
        lemma_total_of_map(p, s);
        assert(f.map_values(g).drop_last() =~= p.map_values(g));
        assert(f[f.len() - 1] == f.last());
    }
}

/// Merging categories by id loses no count: when every summed count fits,
/// the counts of the merged entries add up to the counts of the input.
pub proof fn lemma_merge_keeps_total(s: Seq<CategoryView>)
    requires
        totals_fit(s),
    ensures
        total_count(merge_by_id(s)) == total_count(s),
{
    let f = first_of_each_id(s);
    assert forall|k: int| 0 <= k < f.len() implies 0 <= id_total(s, #[trigger] f[k].id) <= usize::MAX by {
        lemma_id_total_nonneg(s, f[k].id);
        lemma_first_ids(s, f[k].id);
        assert(exists|t: int| 0 <= t < f.len() && #[trigger] f[t].id == f[k].id);
        let t = choose|t: int| 0 <= t < s.len() && #[trigger] s[t].id == f[k].id;
        assert(id_total(s, s[t].id) <= usize::MAX);
    }
    lemma_total_of_map(f, s);
    lemma_totals_over_first(s);
}

/// Every first entry is an entry of the input.
pub(crate) proof fn lemma_first_from(s: Seq<CategoryView>)
    ensures
        forall|k: int| 0 <= k < first_of_each_id(s).len() ==> s.contains(#[trigger] first_of_each_id(s)[k]),
    decreases s.len(),
{
    if s.len() > 0 {
        let p = s.drop_last();
        lemma_first_from(p);
        let d = first_of_each_id(p);
        let f = first_of_each_id(s);
        assert forall|k: int| 0 <= k < f.len() implies s.contains(#[trigger] f[k]) by {
            if k < d.len() {
                assert(f[k] == d[k]);
                assert(p.contains(d[k]));
                let j = choose|j: int| 0 <= j < p.len() && p[j] == d[k];
                assert(s[j] == p[j]);
            } else {
                assert(f[k] == s.last());
                assert(s[s.len() - 1] == s.last());
            }
        }
    }
}

} // verus!
