//! Bundled skills: official skills shipped inside the library and provisioned
//! into the personal skills directory on first startup.
//!
//! The library decides what to write; whoever holds the file system carries
//! out the plan, an operation at a time, in order. Existing same-name skills
//! are never overwritten (the user may have modified them).

use vstd::prelude::*;

use crate::skill::clone_strings;

verus! {

/// A file of a bundled skill directory.
#[derive(Debug)]
pub struct BundledFile {
    pub name: String,
    pub contents: String,
}

/// A bundled skill directory: its files and its subdirectories.
#[derive(Debug)]
pub struct BundledDir {
    pub name: String,
    pub files: Vec<BundledFile>,
    pub dirs: Vec<BundledDir>,
}

/// One step of extracting bundled skills, with a path given as its
/// components, relative to the personal skills directory.
#[derive(Debug)]
pub enum ExtractOp {
    /// Create the directory and any missing parents.
    CreateDir(Vec<String>),
    /// Write the file with the given contents, replacing any file there.
    WriteFile(Vec<String>, String),
}

/// The mathematical value of an `ExtractOp`.
pub enum ExtractStep {
    CreateDir(Seq<Seq<char>>),
    WriteFile(Seq<Seq<char>>, Seq<char>),
}

impl DeepView for ExtractOp {
    type V = ExtractStep;

    open spec fn deep_view(&self) -> ExtractStep {
        match self {
            ExtractOp::CreateDir(p) => ExtractStep::CreateDir(p.deep_view()),
            ExtractOp::WriteFile(p, c) => ExtractStep::WriteFile(p.deep_view(), c@),
        }
    }
}

impl ExtractStep {
    /// The path the step acts on.
    pub open spec fn path(self) -> Seq<Seq<char>> {
        match self {
            ExtractStep::CreateDir(p) => p,
            ExtractStep::WriteFile(p, _) => p,
        }
    }
}

/// The writes of the files of a directory into `target`, in order.
pub open spec fn file_steps(files: Seq<BundledFile>, target: Seq<Seq<char>>) -> Seq<ExtractStep> {
    Seq::new(files.len(), |i: int| ExtractStep::WriteFile(target.push(files[i].name@), files[i].contents@))
}

/// The steps that extract directory `d` into `target`: create `target`,
/// write the files of `d` into it, then extract each subdirectory into
/// `target` followed by the subdirectory's name.
pub open spec fn extract_steps(d: BundledDir, target: Seq<Seq<char>>) -> Seq<ExtractStep>
    decreases d, d.dirs@.len() + 1,
{
    seq![ExtractStep::CreateDir(target)] + file_steps(d.files@, target) + subdir_steps(
        d,
        target,
        d.dirs@.len() as int,
    )
}

/// The steps that extract the first `n` subdirectories of `d` into `target`.
pub open spec fn subdir_steps(d: BundledDir, target: Seq<Seq<char>>, n: int) -> Seq<ExtractStep>
    decreases d, n,
{
    if n <= 0 || n > d.dirs@.len() {
        Seq::empty()
    } else {
        let sub = d.dirs@[n - 1];
        proof {
            assert(decreases_to!(d => d.dirs));
            assert(decreases_to!(d.dirs => d.dirs@));
            assert(decreases_to!(d.dirs@ => sub));
        }
        subdir_steps(d, target, n - 1) + extract_steps(sub, target.push(sub.name@))
    }
}

/// `path` followed by `name`.
fn path_join(path: &Vec<String>, name: &String) -> (r: Vec<String>)
    ensures
        r.deep_view() == path.deep_view().push(name@),
{
    let mut r = clone_strings(path);
    let ghost before = r.deep_view();
    r.push(name.clone());
    assert(r.deep_view() =~= before.push(name@));
    r
}

/// Recursively extract a bundled directory into `target`, appending the
/// steps to `ops`.
fn extract_dir(dir: &BundledDir, target: &Vec<String>, ops: &mut Vec<ExtractOp>)
    ensures
        final(ops).deep_view() == old(ops).deep_view() + extract_steps(*dir, target.deep_view()),
    decreases dir,
{
    let ghost base = ops.deep_view();
    let ghost t = target.deep_view();
    let ghost before = ops.deep_view();
    ops.push(ExtractOp::CreateDir(clone_strings(target)));
    assert(ops.deep_view() =~= before.push(ExtractStep::CreateDir(t)));
    let mut i: usize = 0;
    while i < dir.files.len()
        invariant
            i <= dir.files.len(),
            t == target.deep_view(),
            ops.deep_view() == base + seq![ExtractStep::CreateDir(t)] + file_steps(dir.files@.take(i as int), t),
        decreases dir.files.len() - i,
    {
        let file = &dir.files[i];
        let path = path_join(target, &file.name);
        let ghost before = ops.deep_view();
        ops.push(ExtractOp::WriteFile(path, file.contents.clone()));
        proof {
            assert(ops.deep_view() =~= before.push(ExtractStep::WriteFile(t.push(file.name@), file.contents@)));
            assert(file_steps(dir.files@.take(i + 1), t) =~= file_steps(dir.files@.take(i as int), t).push(
                ExtractStep::WriteFile(t.push(file.name@), file.contents@),
            ));
        }
        i = i + 1;
    }
    assert(dir.files@.take(i as int) =~= dir.files@);
    let mut j: usize = 0;
    while j < dir.dirs.len()
        invariant
            j <= dir.dirs.len(),
            t == target.deep_view(),
            ops.deep_view() == base + seq![ExtractStep::CreateDir(t)] + file_steps(dir.files@, t) + subdir_steps(*dir, t, j as int),
        decreases dir.dirs.len() - j,
    {
        let sub = &dir.dirs[j];
        let sub_target = path_join(target, &sub.name);
        proof {
            assert(decreases_to!(dir => dir.dirs));
            assert(decreases_to!(dir.dirs => dir.dirs@));
            assert(decreases_to!(dir.dirs@ => dir.dirs@[j as int]));
        }
        extract_dir(sub, &sub_target, ops);
        proof {
            assert(subdir_steps(*dir, t, j + 1) == subdir_steps(*dir, t, j as int) + extract_steps(*sub, t.push(sub.name@)));
        }
        j = j + 1;
    }
    assert(ops.deep_view() =~= base + extract_steps(*dir, t));
}

// ── Provisioning ────────────────────────────────────────────────────────────

/// What provisioning does: the skills newly provisioned, and the steps that
/// extract them, in order.
#[derive(Debug)]
pub struct ProvisionPlan {
    pub provisioned: usize,
    pub ops: Vec<ExtractOp>,
}

/// Bundled skill `i` is skipped when a skill of its name already exists, or
/// an earlier bundled skill of the same name was handled before it.
pub open spec fn skill_skipped(bundle: Seq<BundledDir>, existing: Seq<Seq<char>>, i: int) -> bool {
    ||| existing.contains(bundle[i].name@)
    ||| exists|j: int| 0 <= j < i && #[trigger] bundle[j].name@ == bundle[i].name@
}

/// The steps of provisioning: each bundled skill that is not skipped is
/// extracted into the directory of its name, in bundle order.
pub open spec fn provision_steps(bundle: Seq<BundledDir>, existing: Seq<Seq<char>>) -> Seq<ExtractStep>
    decreases bundle.len(),
{
    if bundle.len() == 0 {
        Seq::empty()
    } else {
        let last = bundle.last();
        provision_steps(bundle.drop_last(), existing) + if skill_skipped(bundle, existing, bundle.len() - 1) {
            Seq::empty()
        } else {
            extract_steps(last, seq![last.name@])
        }
    }
}

/// The number of bundled skills that are not skipped.
pub open spec fn provision_count(bundle: Seq<BundledDir>, existing: Seq<Seq<char>>) -> nat
    decreases bundle.len(),
{
    if bundle.len() == 0 {
        0
    } else {
        provision_count(bundle.drop_last(), existing) + if skill_skipped(bundle, existing, bundle.len() - 1) {
            0nat
        } else {
            1nat
        }
    }
}

proof fn lemma_skipped_prefix(bundle: Seq<BundledDir>, existing: Seq<Seq<char>>, n: int, i: int)
    requires
        0 <= i < n <= bundle.len(),
    ensures
        skill_skipped(bundle.take(n), existing, i) == skill_skipped(bundle, existing, i),
{
    let t = bundle.take(n);
    assert(t[i] == bundle[i]);
    if exists|j: int| 0 <= j < i && #[trigger] bundle[j].name@ == bundle[i].name@ {
        let j = choose|j: int| 0 <= j < i && #[trigger] bundle[j].name@ == bundle[i].name@;
        assert(t[j] == bundle[j]);
    }
    if exists|j: int| 0 <= j < i && #[trigger] t[j].name@ == t[i].name@ {
        let j = choose|j: int| 0 <= j < i && #[trigger] t[j].name@ == t[i].name@;
        assert(t[j] == bundle[j]);
    }
}

proof fn lemma_count_bound(bundle: Seq<BundledDir>, existing: Seq<Seq<char>>)
    ensures
        provision_count(bundle, existing) <= bundle.len(),
    decreases bundle.len(),
{
    if bundle.len() > 0 {
        lemma_count_bound(bundle.drop_last(), existing);
    }
}

/// Extract bundled skills into the personal skills directory, where
/// `existing` names the skills already there.
///
/// Returns the number of skills newly provisioned and the steps that extract
/// them. Existing same-name skills are skipped (idempotent, user
/// modifications preserved).
pub fn provision_bundled_skills(bundle: &Vec<BundledDir>, existing: &Vec<String>) -> (r: ProvisionPlan)
    ensures
        r.ops.deep_view() == provision_steps(bundle@, existing.deep_view()),
        r.provisioned == provision_count(bundle@, existing.deep_view()),
{
    let ghost b = bundle@;
    let ghost e = existing.deep_view();
    let mut ops: Vec<ExtractOp> = Vec::new();
    let mut provisioned: usize = 0;
    let mut i: usize = 0;
    while i < bundle.len()
        invariant
            b == bundle@,
            e == existing.deep_view(),
            i <= bundle.len(),
            ops.deep_view() == provision_steps(b.take(i as int), e),
            provisioned == provision_count(b.take(i as int), e),
        decreases bundle.len() - i,
    {
        let skill = &bundle[i];
        let mut skipped = false;
        let mut k: usize = 0;
        while k < existing.len()
            invariant
                k <= existing.len(),
                e == existing.deep_view(),
                skipped <==> exists|t: int| 0 <= t < k && #[trigger] e[t] == skill.name@,
            decreases existing.len() - k,
        {
            assert(e[k as int] == existing@[k as int]@);
            if existing[k] == skill.name {
                skipped = true;
            }
            k = k + 1;
        }
        let mut j: usize = 0;
        while j < i
            invariant
                j <= i,
                i < bundle.len(),
                b == bundle@,
                *skill == b[i as int],
                skipped <==> (e.contains(skill.name@) || exists|t: int| 0 <= t < j && #[trigger] b[t].name@ == b[i as int].name@),
            decreases i - j,
        {
            if bundle[j].name == skill.name {
                skipped = true;
            }
            j = j + 1;
        }
        let ghost t = b.take(i as int);
        let ghost t1 = b.take(i + 1);
        proof {
            assert(t1.drop_last() =~= t);
            assert(t1[i as int] == b[i as int]);
            lemma_skipped_prefix(b, e, i + 1, i as int);
            lemma_count_bound(t, e);
        }
        if !skipped {
            let mut target: Vec<String> = Vec::new();
            target.push(skill.name.clone());
            assert(target.deep_view() =~= seq![skill.name@]);
            extract_dir(skill, &target, &mut ops);
            provisioned = provisioned + 1;
        }
        i = i + 1;
    }
    assert(b.take(i as int) =~= b);
    ProvisionPlan { provisioned, ops }
}

// ── Laws of provisioning ────────────────────────────────────────────────────

/// `path` lies inside `dir` (or is `dir` itself).
pub open spec fn lies_under(path: Seq<Seq<char>>, dir: Seq<Seq<char>>) -> bool {
    dir.len() <= path.len() && path.take(dir.len() as int) == dir
}

proof fn lemma_under_parent(path: Seq<Seq<char>>, dir: Seq<Seq<char>>, x: Seq<char>)
    requires
        lies_under(path, dir.push(x)),
    ensures
        lies_under(path, dir),
{
    assert(path.take(dir.len() as int) =~= path.take((dir.len() + 1) as int).take(dir.len() as int));
    assert(dir.push(x).take(dir.len() as int) =~= dir);
}

/// Extracting a directory into `target` touches nothing outside `target`.
pub proof fn lemma_extract_stays_under(d: BundledDir, target: Seq<Seq<char>>)
    ensures
        forall|k: int| 0 <= k < extract_steps(d, target).len() ==> lies_under(#[trigger] extract_steps(d, target)[k].path(), target),
    decreases d, d.dirs@.len() + 1,
{
    let n = d.dirs@.len() as int;
    lemma_subdirs_stay_under(d, target, n);
    let head = seq![ExtractStep::CreateDir(target)];
    let files = file_steps(d.files@, target);
    let subs = subdir_steps(d, target, n);
    let all = extract_steps(d, target);
    assert(all == head + files + subs);
    assert forall|k: int| 0 <= k < all.len() implies lies_under(#[trigger] all[k].path(), target) by {
        if k == 0 {
            assert(all[k].path() =~= target);
            assert(target.take(target.len() as int) =~= target);
        } else if k < 1 + files.len() {
            let f = d.files@[k - 1];
            assert(all[k] == files[k - 1]);
            assert(all[k].path() == target.push(f.name@));
            assert(target.push(f.name@).take(target.len() as int) =~= target);
        } else {
            assert(all[k] == subs[k - 1 - files.len()]);
        }
    }
}

proof fn lemma_subdirs_stay_under(d: BundledDir, target: Seq<Seq<char>>, n: int)
    ensures
        forall|k: int| 0 <= k < subdir_steps(d, target, n).len() ==> lies_under(#[trigger] subdir_steps(d, target, n)[k].path(), target),
    decreases d, n,
{
    if n <= 0 || n > d.dirs@.len() {
    } else {
        let sub = d.dirs@[n - 1];
        assert(decreases_to!(d => d.dirs));
        assert(decreases_to!(d.dirs => d.dirs@));
        assert(decreases_to!(d.dirs@ => sub));
        lemma_subdirs_stay_under(d, target, n - 1);
        lemma_extract_stays_under(sub, target.push(sub.name@));
        let a = subdir_steps(d, target, n - 1);
        let c = extract_steps(sub, target.push(sub.name@));
        let all = subdir_steps(d, target, n);
        assert(all == a + c);
        assert forall|k: int| 0 <= k < all.len() implies lies_under(#[trigger] all[k].path(), target) by {
            if k < a.len() {
                assert(all[k] == a[k]);
            } else {
                assert(all[k] == c[k - a.len()]);
                lemma_under_parent(c[k - a.len()].path(), target, sub.name@);
            }
        }
    }
}

/// Provisioning never touches an existing skill: every step acts inside the
/// directory of a skill that was not there.
pub proof fn lemma_provision_keeps_existing(bundle: Seq<BundledDir>, existing: Seq<Seq<char>>)
    ensures
        forall|k: int| 0 <= k < provision_steps(bundle, existing).len() ==> {
            let p = #[trigger] provision_steps(bundle, existing)[k].path();
            p.len() >= 1 && !existing.contains(p[0])
        },
    decreases bundle.len(),
{
    if bundle.len() > 0 {
        let rest = bundle.drop_last();
        lemma_provision_keeps_existing(rest, existing);
        let last = bundle.last();
        let a = provision_steps(rest, existing);
        let all = provision_steps(bundle, existing);
        if !skill_skipped(bundle, existing, bundle.len() - 1) {
            let c = extract_steps(last, seq![last.name@]);
            lemma_extract_stays_under(last, seq![last.name@]);
            assert(all == a + c);
            assert forall|k: int| 0 <= k < all.len() implies {
                let p = #[trigger] all[k].path();
                p.len() >= 1 && !existing.contains(p[0])
            } by {
                if k < a.len() {
                    assert(all[k] == a[k]);
                } else {
                    let p = c[k - a.len()].path();
                    assert(all[k] == c[k - a.len()]);
                    assert(lies_under(p, seq![last.name@]));
                    assert(p.take(1)[0] == p[0]);
                    assert(p[0] == last.name@);
                }
            }
        } else {
            assert(all =~= a);
        }
    }
}

/// When a skill of every bundled name exists, provisioning does nothing.
pub proof fn lemma_provision_nothing_when_present(bundle: Seq<BundledDir>, existing: Seq<Seq<char>>)
    requires
        forall|i: int| 0 <= i < bundle.len() ==> existing.contains(#[trigger] bundle[i].name@),
    ensures
        provision_steps(bundle, existing) == Seq::<ExtractStep>::empty(),
        provision_count(bundle, existing) == 0,
    decreases bundle.len(),
{
    if bundle.len() > 0 {
        let rest = bundle.drop_last();
        assert forall|i: int| 0 <= i < rest.len() implies existing.contains(#[trigger] rest[i].name@) by {
            assert(rest[i] == bundle[i]);
        }
        lemma_provision_nothing_when_present(rest, existing);
        assert(existing.contains(bundle[bundle.len() - 1].name@));
        assert(provision_steps(bundle, existing) =~= Seq::<ExtractStep>::empty());
    }
}

/// After provisioning, a skill of every bundled name exists: either it
/// existed, or provisioning creates its directory.
pub proof fn lemma_provision_creates_all(bundle: Seq<BundledDir>, existing: Seq<Seq<char>>)
    ensures
        forall|i: int| 0 <= i < bundle.len() ==> existing.contains(#[trigger] bundle[i].name@)
            || provision_steps(bundle, existing).contains(ExtractStep::CreateDir(seq![bundle[i].name@])),
    decreases bundle.len(),
{
    if bundle.len() > 0 {
        let rest = bundle.drop_last();
        lemma_provision_creates_all(rest, existing);
        let a = provision_steps(rest, existing);
        let all = provision_steps(bundle, existing);
        let n = bundle.len() - 1;
        let last = bundle.last();
        let c = if skill_skipped(bundle, existing, n) { Seq::<ExtractStep>::empty() } else { extract_steps(last, seq![last.name@]) };
        assert(all == a + c);
        assert forall|i: int| 0 <= i < bundle.len() implies existing.contains(#[trigger] bundle[i].name@)
            || all.contains(ExtractStep::CreateDir(seq![bundle[i].name@])) by {
            if i < n {
                assert(rest[i] == bundle[i]);
                if a.contains(ExtractStep::CreateDir(seq![bundle[i].name@])) {
                    let k = choose|k: int| 0 <= k < a.len() && a[k] == ExtractStep::CreateDir(seq![bundle[i].name@]);
                    assert(all[k] == a[k]);
                }
            } else if !skill_skipped(bundle, existing, n) {
                assert(c[0] == ExtractStep::CreateDir(seq![last.name@]));
                assert(all[a.len() as int] == c[0]);
            } else if !existing.contains(last.name@) {
                let j = choose|j: int| 0 <= j < n && #[trigger] bundle[j].name@ == bundle[n].name@;
                assert(rest[j] == bundle[j]);
                if a.contains(ExtractStep::CreateDir(seq![bundle[j].name@])) {
                    let k = choose|k: int| 0 <= k < a.len() && a[k] == ExtractStep::CreateDir(seq![bundle[j].name@]);
                    assert(all[k] == a[k]);
                }
            }
        }
    }
}

/// Provisioning is idempotent: once the directories a first provisioning
/// creates exist (and the skills that existed still do), provisioning again
/// provisions nothing.
pub proof fn lemma_provision_idempotent(bundle: Seq<BundledDir>, existing: Seq<Seq<char>>, after: Seq<Seq<char>>)
    requires
        forall|x: Seq<char>| #[trigger] existing.contains(x) ==> after.contains(x),
        forall|x: Seq<char>|
            #[trigger] provision_steps(bundle, existing).contains(ExtractStep::CreateDir(seq![x])) ==> after.contains(x),
    ensures
        provision_count(bundle, after) == 0,
        provision_steps(bundle, after) == Seq::<ExtractStep>::empty(),
{
    lemma_provision_creates_all(bundle, existing);
    assert forall|i: int| 0 <= i < bundle.len() implies after.contains(#[trigger] bundle[i].name@) by {
        if !existing.contains(bundle[i].name@) {
            assert(provision_steps(bundle, existing).contains(ExtractStep::CreateDir(seq![bundle[i].name@])));
        }
    }
    lemma_provision_nothing_when_present(bundle, after);
}

proof fn lemma_subdirs_cover(d: BundledDir, target: Seq<Seq<char>>, n: int)
    requires
        0 <= n <= d.dirs@.len(),
    ensures
        forall|k: int, j: int|
            0 <= k < n && 0 <= j < extract_steps(d.dirs@[k], target.push(d.dirs@[k].name@)).len()
                ==> subdir_steps(d, target, n).contains(
                #[trigger] extract_steps(d.dirs@[k], target.push(d.dirs@[k].name@))[j],
            ),
    decreases n,
{
    if n > 0 {
        lemma_subdirs_cover(d, target, n - 1);
        let a = subdir_steps(d, target, n - 1);
        let sub = d.dirs@[n - 1];
        let e = extract_steps(sub, target.push(sub.name@));
        assert(subdir_steps(d, target, n) == a + e);
        assert forall|k: int, j: int|
            0 <= k < n && 0 <= j < extract_steps(d.dirs@[k], target.push(d.dirs@[k].name@)).len()
                implies subdir_steps(d, target, n).contains(
                #[trigger] extract_steps(d.dirs@[k], target.push(d.dirs@[k].name@))[j],
            ) by {
            let x = extract_steps(d.dirs@[k], target.push(d.dirs@[k].name@))[j];
            if k < n - 1 {
                let w = choose|w: int| 0 <= w < a.len() && a[w] == x;
                assert((a + e)[w] == x);
            } else {
                assert((a + e)[a.len() + j] == x);
            }
        }
    }
}

/// Extracting a directory into `target` creates `target`, writes every file
/// of the directory into it with its contents, and carries out, inside
/// `target`, every step of extracting each of its subdirectories into the
/// subdirectory's name; so each subdirectory's own directory is created, and
/// by induction every file at every depth of the tree is written.
pub proof fn lemma_extract_covers(d: BundledDir, target: Seq<Seq<char>>)
    ensures
        extract_steps(d, target).contains(ExtractStep::CreateDir(target)),
        forall|i: int| 0 <= i < d.files@.len() ==> extract_steps(d, target).contains(
            ExtractStep::WriteFile(target.push((#[trigger] d.files@[i]).name@), d.files@[i].contents@),
        ),
        forall|k: int| 0 <= k < d.dirs@.len() ==> extract_steps(d, target).contains(
            ExtractStep::CreateDir(target.push((#[trigger] d.dirs@[k]).name@)),
        ),
        forall|k: int, j: int|
            0 <= k < d.dirs@.len() && 0 <= j < extract_steps(d.dirs@[k], target.push(d.dirs@[k].name@)).len()
                ==> extract_steps(d, target).contains(
                #[trigger] extract_steps(d.dirs@[k], target.push(d.dirs@[k].name@))[j],
            ),
{
    let n = d.dirs@.len() as int;
    let head = seq![ExtractStep::CreateDir(target)];
    let files = file_steps(d.files@, target);
    let subs = subdir_steps(d, target, n);
    let all = extract_steps(d, target);
    assert(all == head + files + subs);
    lemma_subdirs_cover(d, target, n);
    assert(all[0] == ExtractStep::CreateDir(target));
    assert forall|i: int| 0 <= i < d.files@.len() implies all.contains(
        ExtractStep::WriteFile(target.push((#[trigger] d.files@[i]).name@), d.files@[i].contents@),
    ) by {
        assert(all[1 + i] == files[i]);
    }
    assert forall|k: int, j: int|
        0 <= k < d.dirs@.len() && 0 <= j < extract_steps(d.dirs@[k], target.push(d.dirs@[k].name@)).len()
            implies all.contains(#[trigger] extract_steps(d.dirs@[k], target.push(d.dirs@[k].name@))[j]) by {
        let x = extract_steps(d.dirs@[k], target.push(d.dirs@[k].name@))[j];
        let w = choose|w: int| 0 <= w < subs.len() && subs[w] == x;
        assert(all[1 + files.len() + w] == x);
    }
    assert forall|k: int| 0 <= k < d.dirs@.len() implies all.contains(
        ExtractStep::CreateDir(target.push((#[trigger] d.dirs@[k]).name@)),
    ) by {
        let sub = d.dirs@[k];
        let e = extract_steps(sub, target.push(sub.name@));
        assert(e[0] == ExtractStep::CreateDir(target.push(sub.name@)));
        let w = choose|w: int| 0 <= w < subs.len() && subs[w] == e[0];
        assert(all[1 + files.len() + w] == e[0]);
    }
}

/// Provisioning extracts every bundled skill that is not skipped in full:
/// every step of extracting it into the directory of its name is in the plan.
pub proof fn lemma_provision_extracts(bundle: Seq<BundledDir>, existing: Seq<Seq<char>>)
    ensures
        forall|i: int, j: int|
            0 <= i < bundle.len() && !skill_skipped(bundle, existing, i) && 0 <= j < extract_steps(
                bundle[i],
                seq![bundle[i].name@],
            ).len() ==> provision_steps(bundle, existing).contains(
                #[trigger] extract_steps(bundle[i], seq![bundle[i].name@])[j],
            ),
    decreases bundle.len(),
{
    if bundle.len() > 0 {
        let rest = bundle.drop_last();
        lemma_provision_extracts(rest, existing);
        let a = provision_steps(rest, existing);
        let n = bundle.len() - 1;
        let last = bundle.last();
        let c = if skill_skipped(bundle, existing, n) { Seq::<ExtractStep>::empty() } else { extract_steps(last, seq![last.name@]) };
        assert(provision_steps(bundle, existing) == a + c);
        assert forall|i: int, j: int|
            0 <= i < bundle.len() && !skill_skipped(bundle, existing, i) && 0 <= j < extract_steps(
                bundle[i],
                seq![bundle[i].name@],
            ).len() implies provision_steps(bundle, existing).contains(
            #[trigger] extract_steps(bundle[i], seq![bundle[i].name@])[j],
        ) by {
            let x = extract_steps(bundle[i], seq![bundle[i].name@])[j];
            if i < n {
                lemma_skipped_prefix(bundle, existing, n, i);
                assert(bundle.take(n) =~= rest);
                assert(rest[i] == bundle[i]);
                let w = choose|w: int| 0 <= w < a.len() && a[w] == x;
                assert((a + c)[w] == x);
            } else {
                assert((a + c)[a.len() + j] == x);
            }
        }
    }
}

} // verus!
