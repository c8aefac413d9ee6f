//! The analysis session: per-function-body jobs flow from submission through
//! the result cache or a worker to completion, and every completed result is
//! merged into the in-memory output model.
//!
//! A job moves from queued to completed; a cache hit completes it at
//! submission, anything else is handed back to the caller, which runs the
//! extraction on its worker pool and reports the result.  The session itself
//! never blocks: draining and joining are the caller's loop.

use crate::cache::{CacheConfig, CacheStats, ResultCache, cache_has, cache_index, entry_fresh};
use crate::models::{Crate, File, Function, clone_function, file_contains_fn, file_fn_ids_unique,
    function_matches, string_eq, view_contains_name, view_name_index, view_names_unique};
use vstd::prelude::*;

verus! {

/// The number of worker threads for a machine with the given parallelism:
/// half the detected parallelism, clamped between 2 and 8.
pub fn worker_thread_count(parallelism: usize) -> (r: usize)
    ensures
        r == if parallelism / 2 < 2 {
            2int
        } else if parallelism / 2 > 8 {
            8int
        } else {
            parallelism as int / 2
        },
{
    let half = parallelism / 2;
    if half < 2 {
        2
    } else if half > 8 {
        8
    } else {
        half
    }
}

/// The result of adding one function under one file name: nothing changes
/// when the file already holds the function id (first-seen wins); otherwise
/// the function is appended to its file, or a new file is created.
pub open spec fn spec_add_function(
    entries: Seq<(Seq<char>, Seq<Function>)>,
    file: Seq<char>,
    f: Function,
) -> Seq<(Seq<char>, Seq<Function>)> {
    if view_contains_name(entries, file) {
        let i = view_name_index(entries, file);
        if file_contains_fn(entries[i].1, f.fn_id) {
            entries
        } else {
            entries.update(i, (entries[i].0, entries[i].1.push(f)))
        }
    } else {
        entries.push((file, seq![f]))
    }
}

/// The total number of functions in the output model.
pub open spec fn total_fns(entries: Seq<(Seq<char>, Seq<Function>)>) -> int
    decreases entries.len(),
{
    if entries.len() == 0 {
        0
    } else {
        total_fns(entries.drop_last()) + entries.last().1.len()
    }
}

/// Whether the output model already holds the function id under the file.
pub open spec fn model_has_fn(
    entries: Seq<(Seq<char>, Seq<Function>)>,
    file: Seq<char>,
    fn_id: u32,
) -> bool {
    exists|i: int|
        0 <= i < entries.len() && (#[trigger] entries[i]).0 == file && file_contains_fn(
            entries[i].1,
            fn_id,
        )
}

/// Function ids are pairwise distinct within every file of the model.
pub open spec fn model_fn_ids_unique(entries: Seq<(Seq<char>, Seq<Function>)>) -> bool {
    crate::models::files_fn_ids_unique(entries)
}

proof fn lemma_total_fns_update_push(
    entries: Seq<(Seq<char>, Seq<Function>)>,
    i: int,
    f: Function,
)
    requires
        0 <= i < entries.len(),
    ensures
        total_fns(entries.update(i, (entries[i].0, entries[i].1.push(f)))) == total_fns(entries)
            + 1,
    decreases entries.len(),
{
    let upd = entries.update(i, (entries[i].0, entries[i].1.push(f)));
    if i == entries.len() - 1 {
        assert(upd.drop_last() =~= entries.drop_last());
        assert(upd.last() == (entries[i].0, entries[i].1.push(f)));
    } else {
        assert(upd.drop_last() =~= entries.drop_last().update(i, (entries[i].0, entries[i].1.push(f))));
        assert(upd.last() == entries.last());
        assert(entries.drop_last()[i] == entries[i]);
        lemma_total_fns_update_push(entries.drop_last(), i, f);
    }
}

proof fn lemma_total_fns_push(entries: Seq<(Seq<char>, Seq<Function>)>, e: (Seq<char>, Seq<Function>))
    ensures
        total_fns(entries.push(e)) == total_fns(entries) + e.1.len(),
{
    assert(entries.push(e).drop_last() =~= entries);
    assert(entries.push(e).last() == e);
}

/// Adding one completed result grows the function count by one exactly when
/// its (file, function id) pair is new; a duplicate id changes nothing.
pub proof fn lemma_add_function_count(
    entries: Seq<(Seq<char>, Seq<Function>)>,
    file: Seq<char>,
    f: Function,
)
    requires
        view_names_unique(entries),
    ensures
        !model_has_fn(entries, file, f.fn_id) ==> total_fns(spec_add_function(entries, file, f))
            == total_fns(entries) + 1,
        model_has_fn(entries, file, f.fn_id) ==> spec_add_function(entries, file, f) == entries,
        model_has_fn(spec_add_function(entries, file, f), file, f.fn_id),
{
    let after = spec_add_function(entries, file, f);
    if view_contains_name(entries, file) {
        let i = view_name_index(entries, file);
        assert(0 <= i < entries.len() && entries[i].0 == file);
        assert forall|w: int|
            0 <= w < entries.len() && (#[trigger] entries[w]).0 == file implies w == i by {
            if w != i {
                assert(entries[w].0 != entries[i].0);
            }
        }
        if file_contains_fn(entries[i].1, f.fn_id) {
            assert(model_has_fn(entries, file, f.fn_id));
            assert(after == entries);
            assert(model_has_fn(after, file, f.fn_id));
        } else {
            if model_has_fn(entries, file, f.fn_id) {
                let w = choose|w: int|
                    0 <= w < entries.len() && (#[trigger] entries[w]).0 == file
                        && file_contains_fn(entries[w].1, f.fn_id);
                assert(w == i);
                assert(false);
            }
            lemma_total_fns_update_push(entries, i, f);
            assert(after[i].1 == entries[i].1.push(f));
            assert(after[i].1[after[i].1.len() - 1] == f);
            assert(file_contains_fn(after[i].1, f.fn_id));
            assert(model_has_fn(after, file, f.fn_id));
        }
    } else {
        if model_has_fn(entries, file, f.fn_id) {
            let w = choose|w: int|
                0 <= w < entries.len() && (#[trigger] entries[w]).0 == file && file_contains_fn(
                    entries[w].1,
                    f.fn_id,
                );
            assert(view_contains_name(entries, file));
            assert(false);
        }
        lemma_total_fns_push(entries, (file, seq![f]));
        assert(after[after.len() - 1].0 == file);
        assert(after[after.len() - 1].1[0] == f);
        assert(file_contains_fn(after[after.len() - 1].1, f.fn_id));
        assert(model_has_fn(after, file, f.fn_id));
    }
}

/// Appends one function under one file name, discarding it when the file
/// already holds its function id (first-seen wins).
pub fn add_function(output: &mut Crate, file_name: &str, func: Function)
    requires
        old(output).wf(),
        model_fn_ids_unique(old(output)@),
    ensures
        final(output).wf(),
        model_fn_ids_unique(final(output)@),
        final(output)@ == spec_add_function(old(output)@, file_name@, func),
        !model_has_fn(old(output)@, file_name@, func.fn_id) ==> total_fns(final(output)@)
            == total_fns(old(output)@) + 1,
        model_has_fn(old(output)@, file_name@, func.fn_id) ==> final(output)@ == old(output)@,
        model_has_fn(final(output)@, file_name@, func.fn_id),
{
    proof {
        lemma_add_function_count(old(output)@, file_name@, func);
    }
    let ghost k = file_name@;
    let n = output.0.len();
    let mut i: usize = 0;
    while i < n
        invariant
            0 <= i <= n,
            n == output.0@.len(),
            output == old(output),
            output.wf(),
            k == file_name@,
            model_fn_ids_unique(output@),
            forall|j: int| 0 <= j < i ==> (#[trigger] output@[j]).0 != k,
        decreases n - i,
    {
        proof {
            assert(output@[i as int] == (output.0@[i as int].0@, output.0@[i as int].1.items@));
        }
        let name_matches = {
            let entry_name: &String = &output.0[i].0;
            crate::models::str_eq(entry_name.as_str(), file_name)
        };
        if name_matches {
            proof {
                assert(view_contains_name(output@, k));
                assert(view_name_index(output@, k) == i as int) by {
                    let w = view_name_index(output@, k);
                    assert(0 <= w < output@.len() && output@[w].0 == k);
                    if w != i as int {
                        assert(output@[i as int].0 == k);
                        assert(false);
                    }
                }
            }
            let has_fn = {
                let file_ref: &File = &output.0[i].1;
                let m = file_ref.items.len();
                let mut c: usize = 0;
                let mut found = false;
                while c < m
                    invariant
                        0 <= c <= m,
                        i < output.0@.len(),
                        m == output.0@[i as int].1.items@.len(),
                        file_ref == &output.0@[i as int].1,
                        found <==> exists|j: int|
                            0 <= j < c && (#[trigger] output.0@[i as int].1.items@[j]).fn_id
                                == func.fn_id,
                    decreases m - c,
                {
                    if file_ref.items[c].fn_id == func.fn_id {
                        found = true;
                    }
                    c = c + 1;
                }
                proof {
                    assert(found <==> file_contains_fn(output.0@[i as int].1.items@, func.fn_id));
                }
                found
            };
            if has_fn {
                proof {
                    lemma_add_function_count(output@, k, func);
                    assert(file_contains_fn(output@[i as int].1, func.fn_id));
                    assert(output@ =~~= spec_add_function(old(output)@, k, func));
                    assert(model_has_fn(output@, k, func.fn_id));
                }
                return ;
            }
            proof {
                if file_contains_fn(output@[i as int].1, func.fn_id) {
                    let w = choose|w: int|
                        0 <= w < output@[i as int].1.len() && (#[trigger] output@[i as int].1[w]).fn_id
                            == func.fn_id;
                    assert(false);
                }
            }
            proof {
                lemma_add_function_count(output@, k, func);
            }
            let ghost before = output.0@;
            let (name, mut file) = output.0.remove(i);
            file.items.push(func);
            output.0.insert(i, (name, file));
            proof {
                assert(output@ =~~= spec_add_function(old(output)@, k, func));
                assert(view_names_unique(output@)) by {
                    assert forall|a: int, b: int|
                        0 <= a < b < output@.len() implies (#[trigger] output@[a]).0 != (
                    #[trigger] output@[b]).0 by {
                        assert(output@[a].0 == old(output)@[a].0);
                        assert(output@[b].0 == old(output)@[b].0);
                    }
                }
                assert(model_fn_ids_unique(output@)) by {
                    assert forall|e: int| 0 <= e < output@.len() implies file_fn_ids_unique(
                        (#[trigger] output@[e]).1,
                    ) by {
                        if e == i as int {
                            let items = old(output)@[i as int].1;
                            assert(output@[e].1 =~= items.push(func));
                            assert forall|a: int, b: int|
                                0 <= a < b < items.push(func).len() implies (
                            #[trigger] items.push(func)[a]).fn_id != (
                            #[trigger] items.push(func)[b]).fn_id by {
                                if b == items.len() as int {
                                    assert(items.push(func)[a] == items[a]);
                                    if items[a].fn_id == func.fn_id {
                                        assert(file_contains_fn(items, func.fn_id));
                                        assert(false);
                                    }
                                } else {
                                    assert(items.push(func)[a] == items[a]);
                                    assert(items.push(func)[b] == items[b]);
                                }
                            }
                        } else {
                            assert(output@[e].1 == old(output)@[e].1);
                        }
                    }
                }
            }
            return ;
        }
        i = i + 1;
    }
    proof {
        assert(!view_contains_name(output@, k));
    }
    let mut items: Vec<Function> = Vec::new();
    items.push(func);
    output.0.push((file_name.to_owned(), File { items }));
    proof {
        assert(output@ =~~= spec_add_function(old(output)@, k, func));
        assert(view_names_unique(output@)) by {
            assert forall|a: int, b: int| 0 <= a < b < output@.len() implies (
            #[trigger] output@[a]).0 != (#[trigger] output@[b]).0 by {
                if b == output@.len() - 1 {
                    assert(output@[a] == old(output)@[a]);
                }
            }
        }
        assert(model_fn_ids_unique(output@)) by {
            assert forall|e: int| 0 <= e < output@.len() implies file_fn_ids_unique(
                (#[trigger] output@[e]).1,
            ) by {
                if e == output@.len() - 1 {
                    assert(output@[e].1.len() == 1);
                } else {
                    assert(output@[e].1 == old(output)@[e].1);
                }
            }
        }
    }
}

/// One analysis run: the output model under construction, the result cache,
/// and the count of jobs still out with workers.
///
/// A submitted body is queued, analyzing, or completed: a cache hit
/// completes it at submission, anything else counts as out with a worker
/// until the caller reports it back through [`Self::complete`].
pub struct AnalysisSession {
    cache: ResultCache,
    output: Crate,
    pending: u64,
}

impl AnalysisSession {
    /// The output model built so far, as seen by specifications.
    pub closed spec fn spec_output(&self) -> Seq<(Seq<char>, Seq<Function>)> {
        self.output@
    }

    /// The result cache, as seen by specifications.
    pub closed spec fn spec_cache(&self) -> ResultCache {
        self.cache
    }

    /// The number of jobs out with workers, as seen by specifications.
    pub closed spec fn spec_pending(&self) -> u64 {
        self.pending
    }

    /// Well-formedness: the output's file names and per-file function ids
    /// are unique, and the cache is well formed.
    pub open spec fn wf(&self) -> bool {
        &&& view_names_unique(self.spec_output())
        &&& model_fn_ids_unique(self.spec_output())
        &&& self.spec_cache().wf()
    }

    /// Starts a session with an empty output model and a cache configured
    /// as given.
    pub fn new(config: CacheConfig) -> (r: Self)
        ensures
            r.wf(),
            r.spec_output().len() == 0,
            r.spec_pending() == 0,
    {
        let r = AnalysisSession { cache: ResultCache::new(config), output: Crate::new(), pending: 0 };
        proof {
            assert(r.spec_output() =~= Seq::<(Seq<char>, Seq<Function>)>::empty());
        }
        r
    }

    /// The number of jobs submitted but not yet completed.
    pub fn pending(&self) -> (r: u64)
        ensures
            r == self.spec_pending(),
    {
        self.pending
    }

    /// The cache statistics so far.
    pub fn stats(&self) -> (r: CacheStats)
        ensures
            r.hits == self.spec_cache().spec_hits(),
            r.misses == self.spec_cache().spec_misses(),
            r.evictions == self.spec_cache().spec_evictions(),
    {
        self.cache.get_stats()
    }

    /// Submits one function body.
    ///
    /// On a cache hit the stored record is merged into the output model at
    /// once and the job is completed without entering the analyzing state;
    /// the caller then has nothing to do.  On a miss the job is counted as
    /// out with a worker and the caller must run the extraction and report
    /// the result through [`Self::complete`].
    pub fn submit(
        &mut self,
        file_name: &str,
        file_hash: &str,
        mir_hash: &str,
        current_mtime: Option<u64>,
    ) -> (hit: bool)
        requires
            old(self).wf(),
            old(self).spec_pending() < 0xffff_ffff_ffff_ffffu64,
        ensures
            final(self).wf(),
            hit <==> (cache_has(old(self).spec_cache().spec_entries(), file_hash@, mir_hash@)
                && entry_fresh(
                old(self).spec_cache().spec_entries()[cache_index(
                    old(self).spec_cache().spec_entries(),
                    file_hash@,
                    mir_hash@,
                )],
                current_mtime,
                old(self).spec_cache().spec_config().validate_file_mtime,
            )),
            hit ==> final(self).spec_pending() == old(self).spec_pending() && exists|f: Function|
                final(self).spec_output() == spec_add_function(
                    old(self).spec_output(),
                    file_name@,
                    f,
                ) && function_matches(
                    f,
                    old(self).spec_cache().spec_entries()[cache_index(
                        old(self).spec_cache().spec_entries(),
                        file_hash@,
                        mir_hash@,
                    )].record,
                ),
            !hit ==> final(self).spec_pending() == old(self).spec_pending() + 1
                && final(self).spec_output() == old(self).spec_output(),
    {
        let cached = self.cache.lookup(file_hash, mir_hash, current_mtime);
        match cached {
            Some(record) => {
                let ghost f = record;
                add_function(&mut self.output, file_name, record);
                proof {
                    assert(function_matches(
                        f,
                        old(self).spec_cache().spec_entries()[cache_index(
                            old(self).spec_cache().spec_entries(),
                            file_hash@,
                            mir_hash@,
                        )].record,
                    ));
                }
                true
            },
            None => {
                self.pending = self.pending + 1;
                false
            },
        }
    }

    /// Reports one analyzed function body back to the session.
    ///
    /// The result is merged into the output model — keyed by (file name,
    /// function id), first-seen wins — and a copy is written back into the
    /// result cache for future runs.
    pub fn complete(
        &mut self,
        file_name: &str,
        file_hash: &str,
        mir_hash: &str,
        file_mtime: Option<u64>,
        func: Function,
    )
        requires
            old(self).wf(),
            old(self).spec_pending() > 0,
        ensures
            final(self).wf(),
            final(self).spec_pending() == old(self).spec_pending() - 1,
            final(self).spec_output() == spec_add_function(
                old(self).spec_output(),
                file_name@,
                func,
            ),
            !model_has_fn(old(self).spec_output(), file_name@, func.fn_id) ==> total_fns(
                final(self).spec_output(),
            ) == total_fns(old(self).spec_output()) + 1,
            model_has_fn(final(self).spec_output(), file_name@, func.fn_id),
            // With room for it under both budgets, the fresh result is
            // written back into the cache.
            old(self).spec_cache().spec_entries().len() + 1 <= old(
                self,
            ).spec_cache().spec_config().max_entries && crate::cache::entries_bytes(
                old(self).spec_cache().spec_entries(),
            ) + crate::cache::spec_function_size(func) <= old(
                self,
            ).spec_cache().spec_config().max_memory_bytes ==> cache_has(
                final(self).spec_cache().spec_entries(),
                file_hash@,
                mir_hash@,
            ),
            cache_has(final(self).spec_cache().spec_entries(), file_hash@, mir_hash@)
                ==> exists|i: int|
                0 <= i < final(self).spec_cache().spec_entries().len() && crate::cache::same_key(
                    #[trigger] final(self).spec_cache().spec_entries()[i],
                    file_hash@,
                    mir_hash@,
                ) && function_matches(final(self).spec_cache().spec_entries()[i].record, func),
    {
        proof {
            lemma_add_function_count(old(self).spec_output(), file_name@, func);
        }
        let copy = clone_function(&func);
        proof {
            crate::cache::lemma_function_size_matches(copy, func);
        }
        add_function(&mut self.output, file_name, func);
        let ghost entries_before_insert = self.cache.spec_entries();
        self.cache.insert(file_hash.to_owned(), mir_hash.to_owned(), copy, file_mtime);
        self.pending = self.pending - 1;
        proof {
            if cache_has(self.cache.spec_entries(), file_hash@, mir_hash@) {
                let w = choose|w: int|
                    0 <= w < self.cache.spec_entries().len() && crate::cache::same_key(
                        #[trigger] self.cache.spec_entries()[w],
                        file_hash@,
                        mir_hash@,
                    );
                let e = self.cache.spec_entries()[w];
                // The surviving entry under the key is the one just written:
                // an older same-key entry would have been replaced.
                assert(function_matches(e.record, func)) by {
                    if !(e.record == copy) {
                        let j = choose|j: int|
                            0 <= j < entries_before_insert.len() && entries_before_insert[j] == e
                                && !crate::cache::same_key(e, file_hash@, mir_hash@);
                        assert(false);
                    }
                }
            }
        }
    }

    /// Abandons one outstanding job whose worker failed: the job's result
    /// is omitted from the output model and the rest of the run survives.
    pub fn abandon(&mut self)
        requires
            old(self).wf(),
            old(self).spec_pending() > 0,
        ensures
            final(self).wf(),
            final(self).spec_pending() == old(self).spec_pending() - 1,
            final(self).spec_output() == old(self).spec_output(),
            final(self).spec_cache() == old(self).spec_cache(),
    {
        self.pending = self.pending - 1;
    }

    /// Ends the session, returning the completed output model.
    ///
    /// The caller drains its workers first: every submitted job must have
    /// been completed.
    pub fn finish(self) -> (r: (Crate, CacheStats))
        requires
            self.spec_pending() == 0,
            self.wf(),
        ensures
            r.0@ == self.spec_output(),
            r.0.wf(),
            r.1.hits == self.spec_cache().spec_hits(),
            r.1.misses == self.spec_cache().spec_misses(),
            r.1.evictions == self.spec_cache().spec_evictions(),
    {
        let stats = self.cache.get_stats();
        (self.output, stats)
    }
}


impl AnalysisSession {
    /// Loads one persisted cache entry, as read back from storage at the
    /// start of a run.
    pub fn seed_cache(
        &mut self,
        file_hash: String,
        mir_hash: String,
        record: Function,
        file_mtime: Option<u64>,
    )
        requires
            old(self).wf(),
        ensures
            final(self).wf(),
            final(self).spec_output() == old(self).spec_output(),
            final(self).spec_pending() == old(self).spec_pending(),
            final(self).spec_cache().spec_hits() == old(self).spec_cache().spec_hits(),
            final(self).spec_cache().spec_misses() == old(self).spec_cache().spec_misses(),
            // With room for it under both budgets, the loaded entry is stored.
            old(self).spec_cache().spec_entries().len() + 1 <= old(
                self,
            ).spec_cache().spec_config().max_entries && crate::cache::entries_bytes(
                old(self).spec_cache().spec_entries(),
            ) + crate::cache::spec_function_size(record) <= old(
                self,
            ).spec_cache().spec_config().max_memory_bytes ==> cache_has(
                final(self).spec_cache().spec_entries(),
                file_hash@,
                mir_hash@,
            ),
    {
        self.cache.insert(file_hash, mir_hash, record, file_mtime);
    }

    /// Copies the cache contents out, for flushing to persistent storage at
    /// the end of a run.
    pub fn dump_cache(&self) -> (r: Vec<crate::cache::CacheEntry>)
        ensures
            r@.len() == self.spec_cache().spec_entries().len(),
            forall|i: int|
                0 <= i < r@.len() ==> crate::cache::entry_matches(
                    #[trigger] r@[i],
                    self.spec_cache().spec_entries()[i],
                ),
    {
        self.cache.dump_entries()
    }
}

} // verus!
