//! The in-memory data store: the reference implementation of the
//! [`DataStore`](crate::datastore::DataStore) capability. It owns all
//! stored data for the life of the process and never fails: every method
//! returns `Ok`.

use crate::datastore::{
    dataset_of, empty_store, ext_entries_wf, extension_map, extension_map_fn, listing_map,
    names_set_fn, transaction_map, tx_entries_wf, value_model_fn, version_map, version_map_fn,
    version_sets, Committed, DataStore, Error, Extension, ExtensionEntries, StoreModel,
    VersionEntries,
};
use crate::key::Key;
use crate::kvlist::{
    keys_distinct, kv_dom, kv_find, kv_map, lemma_kv_map_absent, lemma_kv_map_index,
    lemma_kv_map_pointwise, lemma_kv_map_push, lemma_kv_map_remove, lemma_kv_map_update,
};
use crate::value::{Value, ValueModel};
use vstd::prelude::*;

verus! {

broadcast use vstd::std_specs::vec::group_vec_axioms;

/// All settings data of one process, held in memory: the live view, and
/// the data of each pending transaction, created lazily on first write.
#[derive(Debug)]
pub struct MemoryDataStore {
    pending: Vec<(String, ExtensionEntries)>,
    live: ExtensionEntries,
}

impl MemoryDataStore {
    /// An empty store: nothing live, no pending transaction.
    pub fn new() -> (r: MemoryDataStore)
        ensures
            r.inv(),
            r.model() == empty_store(),
    {
        let r = MemoryDataStore { pending: Vec::new(), live: Vec::new() };
        proof {
            assert(extension_map(r.live@) =~= Map::<Seq<char>, Map<Seq<char>, ValueModel>>::empty());
            assert(transaction_map(r.pending@) =~= Map::<
                Seq<char>,
                Map<Seq<char>, Map<Seq<char>, ValueModel>>,
            >::empty());
        }
        r
    }

    /// The data of the selected view, if that view exists.
    fn dataset<'a>(&'a self, committed: &Committed) -> (r: Option<&'a ExtensionEntries>)
        requires
            self.inv(),
        ensures
            match r {
                Some(d) => ext_entries_wf(d@) && dataset_of(self.model(), *committed) == Some(
                    extension_map(d@),
                ),
                None => dataset_of(self.model(), *committed) is None,
            },
    {
        match committed {
            Committed::Live => Some(&self.live),
            Committed::Pending { tx } => match kv_find(&self.pending, tx.as_str()) {
                Some(i) => {
                    proof {
                        lemma_kv_map_index(self.pending@, extension_map_fn(), i as int);
                        assert(self.pending@[i as int].1@ == (self.pending@[i as int].1)@);
                    }
                    Some(&self.pending[i].1)
                },
                None => {
                    proof {
                        lemma_kv_map_absent(self.pending@, extension_map_fn(), tx@);
                    }
                    None
                },
            },
        }
    }
}

impl Default for MemoryDataStore {
    /// The same store `new` builds.
    fn default() -> (r: MemoryDataStore)
        ensures
            r.inv(),
            r.model() == empty_store(),
    {
        MemoryDataStore::new()
    }
}

/// The version names of one extension's entries, in order.
#[verifier::loop_isolation(false)]
fn version_names(ves: &VersionEntries) -> (r: Vec<String>)
    ensures
        r@.len() == ves@.len(),
        forall|i: int| 0 <= i < ves@.len() ==> (#[trigger] r@[i])@ == ves@[i].0@,
{
    let mut r: Vec<String> = Vec::new();
    let mut i: usize = 0;
    while i < ves.len()
        invariant
            i <= ves@.len(),
            r@.len() == i,
            forall|j: int| 0 <= j < i ==> (#[trigger] r@[j])@ == ves@[j].0@,
        decreases ves@.len() - i,
    {
        r.push(ves[i].0.clone());
        i += 1;
    }
    r
}

/// Names collected entrywise from a list carry exactly its key set.
proof fn lemma_names_set<T>(names: Seq<String>, entries: Seq<(String, T)>)
    requires
        names.len() == entries.len(),
        forall|i: int| 0 <= i < entries.len() ==> (#[trigger] names[i])@ == entries[i].0@,
    ensures
        Seq::new(names.len(), |i: int| names[i]@).to_set() == kv_dom(entries),
{
    let views = Seq::new(names.len(), |i: int| names[i]@);
    assert forall|k: Seq<char>| views.to_set().contains(k) <==> kv_dom(entries).contains(k) by {
        if views.to_set().contains(k) {
            let i = choose|i: int| 0 <= i < views.len() && views[i] == k;
            assert(entries[i].0@ == k);
        }
        if kv_dom(entries).contains(k) {
            let i = choose|i: int| 0 <= i < entries.len() && #[trigger] entries[i].0@ == k;
            assert(views[i] == k);
            assert(views.to_set().contains(k));
        }
    }
    assert(views.to_set() =~= kv_dom(entries));
}

/// The listing of one view's data: each extension name with the names of
/// its stored versions.
#[verifier::loop_isolation(false)]
fn listing_of(d: &ExtensionEntries) -> (r: Vec<(String, Vec<String>)>)
    requires
        ext_entries_wf(d@),
    ensures
        keys_distinct(r@),
        listing_map(r@) == version_sets(extension_map(d@)),
{
    let mut out: Vec<(String, Vec<String>)> = Vec::new();
    let mut i: usize = 0;
    while i < d.len()
        invariant
            i <= d@.len(),
            out@.len() == i,
            forall|j: int|
                0 <= j < i ==> (#[trigger] out@[j]).0@ == d@[j].0@ && names_set_fn()(out@[j].1)
                    == version_map(d@[j].1@).dom(),
        decreases d@.len() - i,
    {
        let name = d[i].0.clone();
        let names = version_names(&d[i].1);
        proof {
            lemma_names_set(names@, d@[i as int].1@);
            assert(names.deep_view() =~= Seq::new(names@.len(), |j: int| names@[j]@));
            assert(version_map(d@[i as int].1@).dom() =~= kv_dom(d@[i as int].1@));
        }
        out.push((name, names));
        i += 1;
    }
    proof {
        lemma_kv_map_pointwise(
            d@,
            |ves: VersionEntries| version_map(ves@).dom(),
            out@,
            names_set_fn(),
        );
        assert forall|k: Seq<char>| #[trigger] version_sets(extension_map(d@)).dom().contains(k)
            implies version_sets(extension_map(d@))[k] == kv_map(
            d@,
            |ves: VersionEntries| version_map(ves@).dom(),
        )[k] by {
            let i = crate::kvlist::kv_index_of(d@, k);
            assert(extension_map(d@).dom() =~= kv_dom(d@));
            assert(0 <= i < d@.len() && d@[i].0@ == k);
            lemma_kv_map_index(d@, version_map_fn(), i);
            lemma_kv_map_index(d@, |ves: VersionEntries| version_map(ves@).dom(), i);
        }
        assert(version_sets(extension_map(d@)).dom() =~= kv_dom(d@));
        assert(kv_map(d@, |ves: VersionEntries| version_map(ves@).dom()).dom() =~= kv_dom(d@));
        assert(version_sets(extension_map(d@)) =~= kv_map(
            d@,
            |ves: VersionEntries| version_map(ves@).dom(),
        ));
    }
    out
}

/// Overwrites the entire version set stored for `extension` in `entries`.
#[verifier::loop_isolation(false)]
fn upsert_extension(entries: &mut ExtensionEntries, extension: &str, ves: VersionEntries)
    requires
        ext_entries_wf(old(entries)@),
        keys_distinct(ves@),
    ensures
        ext_entries_wf(final(entries)@),
        extension_map(final(entries)@) == extension_map(old(entries)@).insert(
            extension@,
            version_map(ves@),
        ),
{
    match kv_find(entries, extension) {
        Some(i) => {
            let k = extension.to_owned();
            let ghost before = entries@;
            entries[i] = (k, ves);
            proof {
                lemma_kv_map_update(before, version_map_fn(), i as int, (entries@[i as int]).0, ves);
                assert forall|j: int| 0 <= j < entries@.len() implies keys_distinct(
                    #[trigger] entries@[j].1@,
                ) by {
                    if j != i {
                        assert(entries@[j] == before[j]);
                        assert(keys_distinct(before[j].1@));
                    }
                }
            }
        },
        None => {
            let k = extension.to_owned();
            let ghost before = entries@;
            entries.push((k, ves));
            proof {
                lemma_kv_map_push(before, version_map_fn(), (entries@[before.len() as int]).0, ves);
                assert(entries@ == before.push(entries@[before.len() as int]));
                assert forall|j: int| 0 <= j < entries@.len() implies keys_distinct(
                    #[trigger] entries@[j].1@,
                ) by {
                    if j < before.len() {
                        assert(entries@[j] == before[j]);
                        assert(keys_distinct(before[j].1@));
                    }
                }
            }
        },
    }
}

/// Union with a map extended by one key is the extended union.
proof fn lemma_union_insert<V>(m: Map<Seq<char>, V>, n: Map<Seq<char>, V>, k: Seq<char>, v: V)
    ensures
        m.union_prefer_right(n.insert(k, v)) == m.union_prefer_right(n).insert(k, v),
{
    assert(m.union_prefer_right(n.insert(k, v)) =~= m.union_prefer_right(n).insert(k, v));
}

impl DataStore for MemoryDataStore {
    closed spec fn model(&self) -> StoreModel {
        StoreModel { live: extension_map(self.live@), pending: transaction_map(self.pending@) }
    }

    closed spec fn inv(&self) -> bool {
        &&& ext_entries_wf(self.live@)
        &&& tx_entries_wf(self.pending@)
    }

    fn list_extensions(&self, committed: &Committed) -> (r: Result<
        Vec<(String, Vec<String>)>,
        Error,
    >)
        ensures
            r is Ok,
    {
        match self.dataset(committed) {
            Some(d) => Ok(listing_of(d)),
            None => {
                proof {
                    assert(listing_map(Seq::<(String, Vec<String>)>::empty()) =~= Map::<
                        Seq<char>,
                        Set<Seq<char>>,
                    >::empty());
                }
                Ok(Vec::new())
            },
        }
    }

    fn get_all<'a>(&'a self, committed: &Committed) -> (r: Result<
        Option<&'a ExtensionEntries>,
        Error,
    >)
        ensures
            r is Ok,
    {
        Ok(self.dataset(committed))
    }

    fn get(&self, extension: &Extension, committed: &Committed) -> (r: Result<
        Option<Value>,
        Error,
    >)
        ensures
            r is Ok,
    {
        match self.dataset(committed) {
            None => Ok(None),
            Some(d) => match kv_find(d, extension.name.as_str()) {
                None => {
                    proof {
                        lemma_kv_map_absent(d@, version_map_fn(), extension.name@);
                    }
                    Ok(None)
                },
                Some(i) => {
                    proof {
                        lemma_kv_map_index(d@, version_map_fn(), i as int);
                    }
                    match kv_find(&d[i].1, extension.version.as_str()) {
                        None => {
                            proof {
                                lemma_kv_map_absent(
                                    d@[i as int].1@,
                                    value_model_fn(),
                                    extension.version@,
                                );
                            }
                            Ok(None)
                        },
                        Some(j) => {
                            proof {
                                lemma_kv_map_index(d@[i as int].1@, value_model_fn(), j as int);
                            }
                            Ok(Some(d[i].1[j].1.duplicate()))
                        },
                    }
                },
            },
        }
    }

    fn get_key(&self, extension: &Extension, key: &Key, committed: &Committed) -> (r: Result<
        Option<Value>,
        Error,
    >)
        ensures
            r is Ok,
    {
        match self.get(extension, committed) {
            Err(e) => Err(e),
            Ok(None) => Ok(None),
            Ok(Some(value)) => Ok(crate::datastore::lookup_key(&value, key)),
        }
    }

    #[verifier::rlimit(50)]
    fn set(&mut self, extension: &str, versioned_values: &VersionEntries, committed: &Committed)
        -> (r: Result<(), Error>)
        ensures
            r is Ok,
    {
        let ves = crate::datastore::clone_version_entries(versioned_values);
        proof {
            crate::datastore::lemma_version_entries_equiv(ves@, versioned_values@);
        }
        match committed {
            Committed::Live => {
                upsert_extension(&mut self.live, extension, ves);
                Ok(())
            },
            Committed::Pending { tx } => {
                match kv_find(&self.pending, tx.as_str()) {
                    Some(i) => {
                        let ghost before = self.pending@;
                        let mut entry = self.pending.remove(i);
                        proof {
                            lemma_kv_map_index(before, extension_map_fn(), i as int);
                            lemma_kv_map_remove(before, extension_map_fn(), i as int);
                        }
                        let ghost exts_before = entry.1@;
                        upsert_extension(&mut entry.1, extension, ves);
                        let ghost removed = self.pending@;
                        let ghost new_entry = entry;
                        self.pending.push(entry);
                        proof {
                            assert(!kv_dom(removed).contains(new_entry.0@));
                            lemma_kv_map_push(removed, extension_map_fn(), new_entry.0, new_entry.1);
                            assert(transaction_map(before).remove(tx@).insert(
                                tx@,
                                extension_map(new_entry.1@),
                            ) =~= transaction_map(before).insert(tx@, extension_map(new_entry.1@)));
                            assert forall|j: int| 0 <= j < self.pending@.len() implies ext_entries_wf(
                                #[trigger] self.pending@[j].1@,
                            ) by {
                                if j < removed.len() {
                                    let j0: int = if j < i { j } else { j + 1 };
                                    assert(0 <= j0 < before.len());
                                    assert(removed[j] == before[j0]);
                                    assert(ext_entries_wf(before[j0].1@));
                                    assert(self.pending@[j] == removed[j]);
                                } else {
                                    assert(j == removed.len());
                                    assert(self.pending@[j] == new_entry);
                                    assert(ext_entries_wf(new_entry.1@));
                                }
                            }
                        }
                        Ok(())
                    },
                    None => {
                        proof {
                            lemma_kv_map_absent(self.pending@, extension_map_fn(), tx@);
                        }
                        let mut exts: ExtensionEntries = Vec::new();
                        upsert_extension(&mut exts, extension, ves);
                        let ghost before = self.pending@;
                        let entry = (tx.clone(), exts);
                        let ghost new_entry = entry;
                        self.pending.push(entry);
                        proof {
                            lemma_kv_map_push(before, extension_map_fn(), new_entry.0, new_entry.1);
                            assert(extension_map(Seq::<(String, VersionEntries)>::empty()) =~= Map::<
                                Seq<char>,
                                Map<Seq<char>, ValueModel>,
                            >::empty());
                            assert forall|j: int| 0 <= j < self.pending@.len() implies ext_entries_wf(
                                #[trigger] self.pending@[j].1@,
                            ) by {
                                if j < before.len() {
                                    assert(ext_entries_wf(before[j].1@));
                                    assert(self.pending@[j] == before[j]);
                                } else {
                                    assert(self.pending@[j] == new_entry);
                                    assert(ext_entries_wf(new_entry.1@));
                                }
                            }
                        }
                        Ok(())
                    },
                }
            },
        }
    }

    #[verifier::loop_isolation(false)]
    fn commit_transaction(&mut self, transaction: &str) -> (r: Result<
        Vec<(String, Vec<String>)>,
        Error,
    >)
        ensures
            r is Ok,
    {
        match kv_find(&self.pending, transaction) {
            None => {
                proof {
                    lemma_kv_map_absent(self.pending@, extension_map_fn(), transaction@);
                    assert(listing_map(Seq::<(String, Vec<String>)>::empty()) =~= Map::<
                        Seq<char>,
                        Set<Seq<char>>,
                    >::empty());
                }
                Ok(Vec::new())
            },
            Some(i) => {
                let ghost before = self.pending@;
                let entry = self.pending.remove(i);
                proof {
                    lemma_kv_map_index(before, extension_map_fn(), i as int);
                    lemma_kv_map_remove(before, extension_map_fn(), i as int);
                    assert forall|j: int| 0 <= j < self.pending@.len() implies ext_entries_wf(
                        #[trigger] self.pending@[j].1@,
                    ) by {
                        assert(self.pending@[j] == before[if j < i { j } else { j + 1 }]);
                    }
                }
                let changed = listing_of(&entry.1);
                let mut exts = entry.1;
                let total = exts.len();
                let ghost exts0 = exts@;
                let ghost live0 = self.live@;
                let ghost pending1 = self.pending@;
                let mut k: usize = 0;
                proof {
                    assert(exts0.take(0) =~= Seq::<(String, VersionEntries)>::empty());
                    assert(extension_map(exts0.take(0)) =~= Map::<
                        Seq<char>,
                        Map<Seq<char>, ValueModel>,
                    >::empty());
                    assert(extension_map(live0).union_prefer_right(extension_map(exts0.take(0)))
                        =~= extension_map(live0));
                    assert(exts0.skip(0) =~= exts0);
                }
                while exts.len() > 0
                    invariant
                        k <= total == exts0.len(),
                        exts@ == exts0.skip(k as int),
                        self.pending@ == pending1,
                        ext_entries_wf(self.live@),
                        extension_map(self.live@) == extension_map(live0).union_prefer_right(
                            extension_map(exts0.take(k as int)),
                        ),
                    decreases exts@.len(),
                {
                    let e = exts.remove(0);
                    proof {
                        assert(e == exts0[k as int]);
                        assert(exts0.skip(k as int).remove(0) =~= exts0.skip(k as int + 1));
                        assert(keys_distinct(e.1@));
                    }
                    let ghost live_before = self.live@;
                    upsert_extension(&mut self.live, e.0.as_str(), e.1);
                    proof {
                        assert(exts0.take(k as int + 1) =~= exts0.take(k as int).push(
                            exts0[k as int],
                        ));
                        assert(!kv_dom(exts0.take(k as int)).contains(exts0[k as int].0@));
                        lemma_kv_map_push(
                            exts0.take(k as int),
                            version_map_fn(),
                            exts0[k as int].0,
                            exts0[k as int].1,
                        );
                        lemma_union_insert(
                            extension_map(live0),
                            extension_map(exts0.take(k as int)),
                            exts0[k as int].0@,
                            version_map(exts0[k as int].1@),
                        );
                    }
                    k += 1;
                }
                proof {
                    assert(exts0.take(k as int) =~= exts0);
                }
                Ok(changed)
            },
        }
    }

    fn delete_transaction(&mut self, transaction: &str) -> (r: Result<
        Vec<(String, Vec<String>)>,
        Error,
    >)
        ensures
            r is Ok,
    {
        match kv_find(&self.pending, transaction) {
            None => {
                proof {
                    lemma_kv_map_absent(self.pending@, extension_map_fn(), transaction@);
                    assert(listing_map(Seq::<(String, Vec<String>)>::empty()) =~= Map::<
                        Seq<char>,
                        Set<Seq<char>>,
                    >::empty());
                    assert(transaction_map(self.pending@).remove(transaction@) =~= transaction_map(
                        self.pending@,
                    ));
                }
                Ok(Vec::new())
            },
            Some(i) => {
                let ghost before = self.pending@;
                let entry = self.pending.remove(i);
                proof {
                    lemma_kv_map_index(before, extension_map_fn(), i as int);
                    lemma_kv_map_remove(before, extension_map_fn(), i as int);
                    assert forall|j: int| 0 <= j < self.pending@.len() implies ext_entries_wf(
                        #[trigger] self.pending@[j].1@,
                    ) by {
                        assert(self.pending@[j] == before[if j < i { j } else { j + 1 }]);
                    }
                }
                let changed = listing_of(&entry.1);
                Ok(changed)
            },
        }
    }

    #[verifier::loop_isolation(false)]
    fn list_transactions(&self) -> (r: Result<Vec<String>, Error>)
        ensures
            r is Ok,
    {
        let mut out: Vec<String> = Vec::new();
        let mut i: usize = 0;
        while i < self.pending.len()
            invariant
                i <= self.pending@.len(),
                out@.len() == i,
                forall|j: int| 0 <= j < i ==> (#[trigger] out@[j])@ == self.pending@[j].0@,
            decreases self.pending@.len() - i,
        {
            out.push(self.pending[i].0.clone());
            i += 1;
        }
        proof {
            lemma_names_set(out@, self.pending@);
            assert(out.deep_view() =~= Seq::new(out@.len(), |j: int| out@[j]@));
            assert(transaction_map(self.pending@).dom() =~= kv_dom(self.pending@));
        }
        Ok(out)
    }
}

} // verus!
