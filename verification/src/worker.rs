use vstd::prelude::*;
use crate::cache::{Cache, Mtime, Record, RecordModel, spec_find, spec_insert, spec_is_fresh,
    spec_keys_distinct, lemma_insert_find, lemma_insert_distinct};
use crate::fzf::{Entry, EntryModel};

verus! {

/// One unit of worker work: a file path, its current modification time, and
/// the entries a parse of its current content yields.
pub ghost struct Job {
    pub path: Seq<char>,
    pub mtime: Mtime,
    pub entries: Seq<EntryModel>,
}

/// The incremental-reindex step for one file: a fresh record is kept
/// verbatim and the file is not re-parsed; otherwise the record is replaced
/// whole by the parse result.
pub open spec fn spec_step(s: Seq<(Seq<char>, RecordModel)>, j: Job) -> Seq<
    (Seq<char>, RecordModel),
> {
    if spec_is_fresh(s, j.path, j.mtime) {
        s
    } else {
        spec_insert(s, j.path, RecordModel { mtime: j.mtime, entries: j.entries })
    }
}

/// A whole run: every job applied once, in the given order.
pub open spec fn spec_run(s: Seq<(Seq<char>, RecordModel)>, jobs: Seq<Job>) -> Seq<
    (Seq<char>, RecordModel),
>
    decreases jobs.len(),
{
    if jobs.len() == 0 {
        s
    } else {
        spec_run(spec_step(s, jobs[0]), jobs.drop_first())
    }
}

/// What a run leaves for one path, given what was there before the job ran.
pub open spec fn spec_job_outcome(prev: Option<RecordModel>, j: Job) -> Option<RecordModel> {
    match prev {
        Some(r) => if r.mtime == j.mtime {
            Some(r)
        } else {
            Some(RecordModel { mtime: j.mtime, entries: j.entries })
        },
        None => Some(RecordModel { mtime: j.mtime, entries: j.entries }),
    }
}

/// No two jobs of a run name the same path.
pub open spec fn spec_jobs_distinct(jobs: Seq<Job>) -> bool {
    forall|i: int, j: int| 0 <= i < j < jobs.len() ==> jobs[i].path != jobs[j].path
}

pub proof fn lemma_step_distinct(s: Seq<(Seq<char>, RecordModel)>, j: Job)
    requires
        spec_keys_distinct(s),
    ensures
        spec_keys_distinct(spec_step(s, j)),
{
    if !spec_is_fresh(s, j.path, j.mtime) {
        lemma_insert_distinct(s, j.path, RecordModel { mtime: j.mtime, entries: j.entries });
    }
}

/// Freshness idempotence: a step leaves the file fresh, and running the very
/// same job again changes nothing (the second run performs no re-parse).
pub proof fn lemma_step_idempotent(s: Seq<(Seq<char>, RecordModel)>, j: Job)
    ensures
        spec_is_fresh(spec_step(s, j), j.path, j.mtime),
        spec_step(spec_step(s, j), j) == spec_step(s, j),
{
    if !spec_is_fresh(s, j.path, j.mtime) {
        lemma_insert_find(s, j.path, RecordModel { mtime: j.mtime, entries: j.entries }, j.path);
    }
}

/// Invalidation: when the stored mtime differs from the current one, the
/// step replaces the record whole — the old entries are gone, never merged.
pub proof fn lemma_step_invalidates(s: Seq<(Seq<char>, RecordModel)>, j: Job)
    requires
        !spec_is_fresh(s, j.path, j.mtime),
    ensures
        spec_find(spec_step(s, j), j.path) == Some(
            RecordModel { mtime: j.mtime, entries: j.entries },
        ),
{
    lemma_insert_find(s, j.path, RecordModel { mtime: j.mtime, entries: j.entries }, j.path);
}

/// A step only touches the stored record of its own path.
pub proof fn lemma_step_other(s: Seq<(Seq<char>, RecordModel)>, j: Job, q: Seq<char>)
    requires
        q != j.path,
    ensures
        spec_find(spec_step(s, j), q) == spec_find(s, q),
{
    if !spec_is_fresh(s, j.path, j.mtime) {
        lemma_insert_find(s, j.path, RecordModel { mtime: j.mtime, entries: j.entries }, q);
    }
}

/// What any run of distinct-path jobs stores for each path: a path no job
/// names keeps its record; a path one job names holds that job's outcome,
/// whatever the processing order was.
pub proof fn lemma_run_find(s: Seq<(Seq<char>, RecordModel)>, jobs: Seq<Job>, q: Seq<char>)
    requires
        spec_jobs_distinct(jobs),
    ensures
        (forall|k: int| 0 <= k < jobs.len() ==> (#[trigger] jobs[k].path) != q) ==> spec_find(
            spec_run(s, jobs),
            q,
        ) == spec_find(s, q),
        forall|k: int|
            0 <= k < jobs.len() && (#[trigger] jobs[k].path) == q ==> spec_find(
                spec_run(s, jobs),
                q,
            ) == spec_job_outcome(spec_find(s, q), jobs[k]),
    decreases jobs.len(),
{
    if jobs.len() > 0 {
        let j0 = jobs[0];
        let rest = jobs.drop_first();
        assert(forall|a: int, b: int|
            0 <= a < b < rest.len() ==> rest[a].path != rest[b].path) by {
            assert(forall|a: int| 0 <= a < rest.len() ==> rest[a] == jobs[a + 1]);
        }
        lemma_run_find(spec_step(s, j0), rest, q);
        if j0.path == q {
            assert(forall|k: int| 0 <= k < rest.len() ==> (#[trigger] rest[k].path) != q) by {
                assert(forall|a: int| 0 <= a < rest.len() ==> rest[a] == jobs[a + 1]);
            }
            assert(spec_find(spec_run(s, jobs), q) == spec_find(spec_step(s, j0), q));
            if spec_is_fresh(s, j0.path, j0.mtime) {
                assert(spec_find(spec_step(s, j0), q) == spec_job_outcome(spec_find(s, q), j0));
            } else {
                lemma_step_invalidates(s, j0);
            }
            assert(forall|k: int|
                0 <= k < jobs.len() && (#[trigger] jobs[k].path) == q ==> jobs[k] == j0);
        } else {
            lemma_step_other(s, j0, q);
            assert(forall|k: int|
                1 <= k < jobs.len() ==> jobs[k] == jobs.drop_first()[k - 1]);
        }
    }
}

/// Concurrency safety, pointwise: two runs over the same set of files (each
/// path claimed exactly once, in any split and order) store the same record
/// for every path.
pub proof fn lemma_run_order_independent(
    s: Seq<(Seq<char>, RecordModel)>,
    jobs1: Seq<Job>,
    jobs2: Seq<Job>,
)
    requires
        spec_jobs_distinct(jobs1),
        spec_jobs_distinct(jobs2),
        jobs1.to_set() == jobs2.to_set(),
    ensures
        forall|q: Seq<char>|
            #[trigger] spec_find(spec_run(s, jobs1), q) == spec_find(spec_run(s, jobs2), q),
{
    assert forall|q: Seq<char>|
        #[trigger] spec_find(spec_run(s, jobs1), q) == spec_find(spec_run(s, jobs2), q) by {
        lemma_run_find(s, jobs1, q);
        lemma_run_find(s, jobs2, q);
        if exists|k: int| 0 <= k < jobs1.len() && (#[trigger] jobs1[k].path) == q {
            let k = choose|k: int| 0 <= k < jobs1.len() && (#[trigger] jobs1[k].path) == q;
            assert(jobs1.to_set().contains(jobs1[k]));
            assert(jobs2.to_set().contains(jobs1[k]));
            let k2 = choose|k2: int| 0 <= k2 < jobs2.len() && jobs2[k2] == jobs1[k];
            assert(spec_find(spec_run(s, jobs2), q) == spec_job_outcome(
                spec_find(s, q),
                jobs2[k2],
            ));
        } else {
            if exists|k: int| 0 <= k < jobs2.len() && (#[trigger] jobs2[k].path) == q {
                let k = choose|k: int| 0 <= k < jobs2.len() && (#[trigger] jobs2[k].path) == q;
                assert(jobs2.to_set().contains(jobs2[k]));
                assert(jobs1.to_set().contains(jobs2[k]));
                let k1 = choose|k1: int| 0 <= k1 < jobs1.len() && jobs1[k1] == jobs2[k];
                assert(jobs1[k1].path == q);
                assert(false);
            }
        }
    }
}

/// The total number of entries a cache holds, over all files.
pub open spec fn spec_total_entries(s: Seq<(Seq<char>, RecordModel)>) -> nat
    decreases s.len(),
{
    if s.len() == 0 {
        0
    } else {
        s[0].1.entries.len() + spec_total_entries(s.drop_first())
    }
}

/// Removing one association takes exactly its entries out of the total.
pub proof fn lemma_total_remove(s: Seq<(Seq<char>, RecordModel)>, i: int)
    requires
        0 <= i < s.len(),
    ensures
        spec_total_entries(s) == spec_total_entries(s.remove(i)) + s[i].1.entries.len(),
    decreases i,
{
    if i == 0 {
        assert(s.remove(0) =~= s.drop_first());
    } else {
        assert(s.remove(i).drop_first() =~= s.drop_first().remove(i - 1));
        assert(s.remove(i)[0] == s[0]);
        assert(s.remove(i).len() > 0);
        lemma_total_remove(s.drop_first(), i - 1);
    }
}

/// With distinct keys, removing the association of one path leaves lookups
/// of every other path unchanged, and makes that path absent.
pub proof fn lemma_remove_find(s: Seq<(Seq<char>, RecordModel)>, i: int, q: Seq<char>)
    requires
        spec_keys_distinct(s),
        0 <= i < s.len(),
    ensures
        q != s[i].0 ==> spec_find(s.remove(i), q) == spec_find(s, q),
        q == s[i].0 ==> spec_find(s.remove(i), q) == None::<RecordModel>,
        spec_keys_distinct(s.remove(i)),
    decreases i,
{
    assert forall|a: int, b: int|
        0 <= a < b < s.remove(i).len() implies s.remove(i)[a].0 != s.remove(i)[b].0 by {
        let a0 = if a < i { a } else { a + 1 };
        let b0 = if b < i { b } else { b + 1 };
        assert(s.remove(i)[a] == s[a0] && s.remove(i)[b] == s[b0]);
    }
    if i == 0 {
        assert(s.remove(0) =~= s.drop_first());
        if q == s[0].0 {
            assert(forall|j: int| 0 <= j < s.drop_first().len() ==> s.drop_first()[j] == s[j + 1]);
            crate::cache::lemma_find_absent(s.drop_first(), q);
        }
    } else {
        assert(s.remove(i)[0] == s[0]);
        assert(s.remove(i).len() > 0);
        assert(s.remove(i).drop_first() =~= s.drop_first().remove(i - 1));
        assert(forall|a: int, b: int|
            0 <= a < b < s.drop_first().len() ==> s.drop_first()[a].0 != s.drop_first()[b].0) by {
            assert(forall|a: int| 0 <= a < s.drop_first().len() ==> s.drop_first()[a] == s[a + 1]);
        }
        lemma_remove_find(s.drop_first(), i - 1, q);
        assert(s.drop_first()[i - 1] == s[i]);
        if s[0].0 == q {
        } else {
        }
    }
}

/// Two caches with distinct keys that agree on every lookup hold the same
/// total number of entries.
pub proof fn lemma_pointwise_total(
    s1: Seq<(Seq<char>, RecordModel)>,
    s2: Seq<(Seq<char>, RecordModel)>,
)
    requires
        spec_keys_distinct(s1),
        spec_keys_distinct(s2),
        forall|q: Seq<char>| #[trigger] spec_find(s1, q) == spec_find(s2, q),
    ensures
        spec_total_entries(s1) == spec_total_entries(s2),
    decreases s1.len(),
{
    if s1.len() == 0 {
        if s2.len() > 0 {
            let p = s2[0].0;
            assert(spec_find(s2, p) == Some(s2[0].1));
            assert(spec_find(s1, p) == None::<RecordModel>);
        }
    } else {
        let p = s1[0].0;
        let r = s1[0].1;
        assert(spec_find(s1, p) == Some(r));
        assert(spec_find(s2, p) == Some(r));
        crate::cache::lemma_find_index(s2, p, r);
        let i = choose|i: int| 0 <= i < s2.len() && s2[i] == (p, r);
        lemma_total_remove(s2, i);
        let s2r = s2.remove(i);
        let s1r = s1.drop_first();
        assert(s1r =~= s1.remove(0));
        lemma_total_remove(s1, 0);
        assert(forall|a: int, b: int| 0 <= a < b < s1r.len() ==> s1r[a].0 != s1r[b].0) by {
            assert(forall|a: int| 0 <= a < s1r.len() ==> s1r[a] == s1[a + 1]);
        }
        assert forall|q: Seq<char>| #[trigger] spec_find(s1r, q) == spec_find(s2r, q) by {
            lemma_remove_find(s2, i, q);
            lemma_remove_find(s1, 0, q);
            assert(spec_find(s1, q) == spec_find(s2, q));
        }
        lemma_remove_find(s2, i, p);
        lemma_pointwise_total(s1r, s2r);
    }
}

/// Concurrency safety, counted: runs over the same file set leave the same
/// total entry count, independent of how paths were split among workers.
pub proof fn lemma_run_count_independent(
    s: Seq<(Seq<char>, RecordModel)>,
    jobs1: Seq<Job>,
    jobs2: Seq<Job>,
)
    requires
        spec_keys_distinct(s),
        spec_jobs_distinct(jobs1),
        spec_jobs_distinct(jobs2),
        jobs1.to_set() == jobs2.to_set(),
    ensures
        spec_total_entries(spec_run(s, jobs1)) == spec_total_entries(spec_run(s, jobs2)),
{
    lemma_run_order_independent(s, jobs1, jobs2);
    lemma_run_distinct(s, jobs1);
    lemma_run_distinct(s, jobs2);
    lemma_pointwise_total(spec_run(s, jobs1), spec_run(s, jobs2));
}

pub proof fn lemma_run_distinct(s: Seq<(Seq<char>, RecordModel)>, jobs: Seq<Job>)
    requires
        spec_keys_distinct(s),
    ensures
        spec_keys_distinct(spec_run(s, jobs)),
    decreases jobs.len(),
{
    if jobs.len() > 0 {
        lemma_step_distinct(s, jobs[0]);
        lemma_run_distinct(spec_step(s, jobs[0]), jobs.drop_first());
    }
}

/// The jobs a driver's vector stands for.
pub open spec fn spec_jobs_of(v: Seq<(String, Mtime, Vec<Entry<String, String>>)>) -> Seq<Job> {
    Seq::new(v.len(), |i: int| Job { path: v[i].0@, mtime: v[i].1, entries: v[i].2.deep_view() })
}

/// Runs the incremental-reindex step for each job in order: a fresh file's
/// record is reused verbatim, a stale or missing one is replaced by the
/// job's parse result. This sequential driver is the unit each concurrent
/// worker executes per claimed path.
pub fn run_jobs(cache: &mut Cache, jobs: Vec<(String, Mtime, Vec<Entry<String, String>>)>)
    requires
        old(cache).wf(),
    ensures
        final(cache).wf(),
        final(cache)@ == spec_run(old(cache)@, spec_jobs_of(jobs@)),
{
    let n = jobs.len();
    let mut jobs = jobs;
    let ghost all = spec_jobs_of(jobs@);
    let mut i: usize = 0;
    while i < n
        invariant
            i <= n,
            n == i + jobs@.len(),
            spec_jobs_of(jobs@) == all.skip(i as int),
            all.len() == n,
            cache.wf(),
            cache@ == spec_run(old(cache)@, all.take(i as int)),
        decreases n - i,
    {
        let ghost prev = cache@;
        let ghost jobs_before = jobs@;
        let (path, mtime, entries) = jobs.remove(0);
        let ghost j = all[i as int];
        proof {
            assert(j == spec_jobs_of(jobs_before)[0]);
            assert(path@ == jobs_before[0].0@ && mtime == jobs_before[0].1 && entries
                == jobs_before[0].2);
            assert(jobs@ =~= jobs_before.drop_first());
        }
        let fresh = cache.is_fresh(path.as_str(), mtime);
        if !fresh {
            cache.insert_or_replace(path, Record { mtime, entries });
        }
        proof {
            assert(j.path == path@ && j.mtime == mtime && j.entries == entries.deep_view());
            assert(cache@ == spec_step(prev, j));
            lemma_run_snoc(old(cache)@, all.take(i as int), j);
            assert(all.take(i + 1) =~= all.take(i as int).push(j));
            assert forall|k: int| 0 <= k < jobs@.len() implies spec_jobs_of(jobs@)[k] == all.skip(
                i + 1,
            )[k] by {
                assert(jobs@[k] == jobs_before[k + 1]);
                assert(spec_jobs_of(jobs_before)[k + 1] == all.skip(i as int)[k + 1]);
            }
            assert(spec_jobs_of(jobs@) =~= all.skip(i + 1));
        }
        i = i + 1;
    }
    proof {
        assert(all.take(n as int) =~= all);
    }
}

/// Appending one job to a run is one more step after the run.
pub proof fn lemma_run_snoc(s: Seq<(Seq<char>, RecordModel)>, jobs: Seq<Job>, j: Job)
    ensures
        spec_run(s, jobs.push(j)) == spec_step(spec_run(s, jobs), j),
    decreases jobs.len(),
{
    if jobs.len() == 0 {
        assert(jobs.push(j)[0] == j);
        assert(jobs.push(j).drop_first() =~= Seq::<Job>::empty());
        assert(spec_run(s, jobs.push(j)) == spec_run(
            spec_step(s, j),
            Seq::<Job>::empty(),
        ));
        assert(spec_run(spec_step(s, j), Seq::<Job>::empty()) == spec_step(s, j));
        assert(spec_run(s, jobs) == s);
    } else {
        assert(jobs.push(j)[0] == jobs[0]);
        assert(jobs.push(j).drop_first() =~= jobs.drop_first().push(j));
        lemma_run_snoc(spec_step(s, jobs[0]), jobs.drop_first(), j);
        assert(spec_run(s, jobs.push(j)) == spec_run(
            spec_step(s, jobs[0]),
            jobs.drop_first().push(j),
        ));
        assert(spec_run(s, jobs) == spec_run(spec_step(s, jobs[0]), jobs.drop_first()));
    }
}

} // verus!
