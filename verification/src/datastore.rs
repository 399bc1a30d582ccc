//! The data-store capability: addressing, abstract state, and the
//! contracts every backend must satisfy.
//!
//! A store keeps settings values per extension and version, in one live
//! view plus any number of named pending transactions. Writes land in the
//! view a caller selects; committing a transaction merges its contents
//! into the live view and discards it. The abstract state of a store is a
//! [`StoreModel`]; the transition functions in this module say precisely
//! what each operation does to it, and the laws at the bottom state the
//! isolation guarantees that follow.

use crate::key::Key;
use crate::kvlist::{keys_distinct, kv_map};
use crate::value::{spec_lookup, Value, ValueModel};
use vstd::prelude::*;

verus! {

/// Selects which partition of the store an operation acts on: the live
/// (committed) view, or one named pending transaction. A pending view
/// always carries its transaction name; there are no reserved names.
#[derive(Debug, Clone, PartialEq)]
pub enum Committed {
    Live,
    Pending { tx: String },
}

/// One settings schema instance: a name together with the schema revision
/// under which a value is stored.
#[derive(Debug, Clone, PartialEq, Eq, PartialOrd, Ord)]
pub struct Extension {
    pub name: String,
    pub version: String,
}

/// Failures a store backend may signal. Absence of data is never an
/// error: read paths report it with an empty or optional result.
#[derive(Debug)]
pub enum Error {
    /// Stored data that cannot be decoded; distinct and non-retriable.
    Corruption { path: String, msg: String },
    /// A key whose delimiter-joined form has an empty segment.
    InvalidKey { name: String },
}

/// The versioned values of one extension: version name to stored value.
pub type VersionEntries = Vec<(String, Value)>;

/// The data of one view: extension name to its versioned values.
pub type ExtensionEntries = Vec<(String, VersionEntries)>;

/// The model of a value, for mapping entry lists to their views.
pub open spec fn value_model_fn() -> spec_fn(Value) -> ValueModel {
    |v: Value| v.model()
}

/// Version entries as a mapping from version name to value model.
pub open spec fn version_map(s: Seq<(String, Value)>) -> Map<Seq<char>, ValueModel> {
    kv_map(s, value_model_fn())
}

/// The view of one extension's version entries.
pub open spec fn version_map_fn() -> spec_fn(VersionEntries) -> Map<Seq<char>, ValueModel> {
    |ves: VersionEntries| version_map(ves@)
}

/// Extension entries as a mapping from extension name to version mapping.
pub open spec fn extension_map(s: Seq<(String, VersionEntries)>) -> Map<
    Seq<char>,
    Map<Seq<char>, ValueModel>,
> {
    kv_map(s, version_map_fn())
}

/// The view of one transaction's extension entries.
pub open spec fn extension_map_fn() -> spec_fn(ExtensionEntries) -> Map<
    Seq<char>,
    Map<Seq<char>, ValueModel>,
> {
    |es: ExtensionEntries| extension_map(es@)
}

/// Transaction entries as a mapping from transaction name to its data.
pub open spec fn transaction_map(s: Seq<(String, ExtensionEntries)>) -> Map<
    Seq<char>,
    Map<Seq<char>, Map<Seq<char>, ValueModel>>,
> {
    kv_map(s, extension_map_fn())
}

/// Well-formed extension entries: distinct extension names, and distinct
/// version names within each extension.
pub open spec fn ext_entries_wf(s: Seq<(String, VersionEntries)>) -> bool {
    &&& keys_distinct(s)
    &&& forall|i: int| 0 <= i < s.len() ==> keys_distinct(#[trigger] s[i].1@)
}

/// Well-formed transaction entries: distinct transaction names, each with
/// well-formed extension entries.
pub open spec fn tx_entries_wf(s: Seq<(String, ExtensionEntries)>) -> bool {
    &&& keys_distinct(s)
    &&& forall|i: int| 0 <= i < s.len() ==> ext_entries_wf(#[trigger] s[i].1@)
}

/// The abstract state of a data store: the live data, and the data of
/// each pending transaction. Transactions are independent of one another
/// and of the live view.
pub ghost struct StoreModel {
    pub live: Map<Seq<char>, Map<Seq<char>, ValueModel>>,
    pub pending: Map<Seq<char>, Map<Seq<char>, Map<Seq<char>, ValueModel>>>,
}

/// The state of a store that holds nothing.
pub open spec fn empty_store() -> StoreModel {
    StoreModel { live: Map::empty(), pending: Map::empty() }
}

/// The data a view holds: the live view always exists; a pending view
/// exists only once something was written under its transaction name.
pub open spec fn dataset_of(m: StoreModel, c: Committed) -> Option<
    Map<Seq<char>, Map<Seq<char>, ValueModel>>,
> {
    match c {
        Committed::Live => Some(m.live),
        Committed::Pending { tx } => if m.pending.dom().contains(tx@) {
            Some(m.pending[tx@])
        } else {
            None
        },
    }
}

/// The value stored in view `c` for extension `name` at version
/// `version`, if any.
pub open spec fn lookup_version(
    m: StoreModel,
    c: Committed,
    name: Seq<char>,
    version: Seq<char>,
) -> Option<ValueModel> {
    match dataset_of(m, c) {
        Some(d) => if d.dom().contains(name) && d[name].dom().contains(version) {
            Some(d[name][version])
        } else {
            None
        },
        None => None,
    }
}

/// The value reached from view `c`, extension `name` at `version`, by
/// walking the given key segments.
pub open spec fn lookup_key_in(
    m: StoreModel,
    c: Committed,
    name: Seq<char>,
    version: Seq<char>,
    segments: Seq<Seq<char>>,
) -> Option<ValueModel> {
    match lookup_version(m, c, name, version) {
        Some(v) => spec_lookup(v, segments),
        None => None,
    }
}

/// What `set` does: it replaces the entire version mapping stored for
/// `extension` in the selected view with exactly `vv` — a full replace,
/// never a merge. Writing to an unknown pending transaction creates it.
pub open spec fn spec_set(
    m: StoreModel,
    extension: Seq<char>,
    vv: Map<Seq<char>, ValueModel>,
    c: Committed,
) -> StoreModel {
    match c {
        Committed::Live => StoreModel { live: m.live.insert(extension, vv), ..m },
        Committed::Pending { tx } => {
            let current = if m.pending.dom().contains(tx@) {
                m.pending[tx@]
            } else {
                Map::empty()
            };
            StoreModel { pending: m.pending.insert(tx@, current.insert(extension, vv)), ..m }
        },
    }
}

/// What `commit_transaction` does: the transaction's data is removed and,
/// extension by extension, written over the live view with `set`'s
/// full-replace rule — so every live version of a touched extension that
/// the transaction does not re-supply is discarded. A transaction with no
/// pending data leaves the store unchanged.
pub open spec fn spec_commit(m: StoreModel, tx: Seq<char>) -> StoreModel {
    if m.pending.dom().contains(tx) {
        StoreModel {
            live: m.live.union_prefer_right(m.pending[tx]),
            pending: m.pending.remove(tx),
        }
    } else {
        m
    }
}

/// What `delete_transaction` does: the transaction's data is discarded
/// and the live view is untouched.
pub open spec fn spec_delete(m: StoreModel, tx: Seq<char>) -> StoreModel {
    StoreModel { pending: m.pending.remove(tx), ..m }
}

/// A mapping from extension name to the set of version names it stores.
pub open spec fn version_sets(d: Map<Seq<char>, Map<Seq<char>, ValueModel>>) -> Map<
    Seq<char>,
    Set<Seq<char>>,
> {
    Map::new(|k: Seq<char>| d.dom().contains(k), |k: Seq<char>| d[k].dom())
}

/// The set of names a listing's entry holds.
pub open spec fn names_set_fn() -> spec_fn(Vec<String>) -> Set<Seq<char>> {
    |names: Vec<String>| names.deep_view().to_set()
}

/// A listing result as a mapping from extension name to version-name set.
pub open spec fn listing_map(s: Seq<(String, Vec<String>)>) -> Map<Seq<char>, Set<Seq<char>>> {
    kv_map(s, names_set_fn())
}

/// The capability any settings-store backend must satisfy. The in-memory
/// backend never fails; a persistent backend may signal backend-specific
/// failures through `Error`, but must meet the same contracts whenever it
/// succeeds.
pub trait DataStore {
    /// The abstract state of the store.
    spec fn model(&self) -> StoreModel;

    /// The backend's representation invariant.
    spec fn inv(&self) -> bool;

    /// Lists the stored extensions of a view and each version at which
    /// they are stored. A view that has never been written to — an
    /// unknown pending transaction — yields an empty listing, not an
    /// error.
    fn list_extensions(&self, committed: &Committed) -> (r: Result<
        Vec<(String, Vec<String>)>,
        Error,
    >)
        requires
            self.inv(),
        ensures
            r matches Ok(v) ==> keys_distinct(v@) && listing_map(v@) == match dataset_of(
                self.model(),
                *committed,
            ) {
                Some(d) => version_sets(d),
                None => Map::<Seq<char>, Set<Seq<char>>>::empty(),
            },
    ;

    /// All stored data of a view. Absent exactly when the view itself has
    /// never been written to; the live view always exists.
    fn get_all<'a>(&'a self, committed: &Committed) -> (r: Result<
        Option<&'a ExtensionEntries>,
        Error,
    >)
        requires
            self.inv(),
        ensures
            match r {
                Ok(Some(d)) => ext_entries_wf(d@) && dataset_of(self.model(), *committed) == Some(
                    extension_map(d@),
                ),
                Ok(None) => dataset_of(self.model(), *committed) is None,
                Err(_) => true,
            },
    ;

    /// The entire settings value of one extension at one exact version;
    /// absent if the view, the extension or the version is missing.
    fn get(&self, extension: &Extension, committed: &Committed) -> (r: Result<
        Option<Value>,
        Error,
    >)
        requires
            self.inv(),
        ensures
            match r {
                Ok(Some(v)) => lookup_version(
                    self.model(),
                    *committed,
                    extension.name@,
                    extension.version@,
                ) == Some(v@),
                Ok(None) => lookup_version(
                    self.model(),
                    *committed,
                    extension.name@,
                    extension.version@,
                ) is None,
                Err(_) => true,
            },
    ;

    /// The value under one key of one extension's settings; equivalent to
    /// `get` followed by key lookup, and absent as soon as either misses.
    fn get_key(&self, extension: &Extension, key: &Key, committed: &Committed) -> (r: Result<
        Option<Value>,
        Error,
    >)
        requires
            self.inv(),
        ensures
            match r {
                Ok(Some(v)) => lookup_key_in(
                    self.model(),
                    *committed,
                    extension.name@,
                    extension.version@,
                    key@,
                ) == Some(v@),
                Ok(None) => lookup_key_in(
                    self.model(),
                    *committed,
                    extension.name@,
                    extension.version@,
                    key@,
                ) is None,
                Err(_) => true,
            },
    ;

    /// Overwrites the entire version set stored for `extension` in the
    /// selected view with exactly `versioned_values`: versions previously
    /// present but not re-supplied are discarded.
    fn set(&mut self, extension: &str, versioned_values: &VersionEntries, committed: &Committed)
        -> (r: Result<(), Error>)
        requires
            old(self).inv(),
            keys_distinct(versioned_values@),
        ensures
            final(self).inv(),
            r is Ok ==> final(self).model() == spec_set(
                old(self).model(),
                extension@,
                version_map(versioned_values@),
                *committed,
            ),
            r is Err ==> final(self).model() == old(self).model(),
    ;

    /// Applies the named transaction's pending data to the live view and
    /// removes the transaction, returning for each extension it contained
    /// the set of versions committed. A transaction with no pending data
    /// (a never-created one included) yields an empty listing and changes
    /// nothing.
    fn commit_transaction(&mut self, transaction: &str) -> (r: Result<
        Vec<(String, Vec<String>)>,
        Error,
    >)
        requires
            old(self).inv(),
        ensures
            final(self).inv(),
            r matches Ok(v) ==> {
                &&& final(self).model() == spec_commit(old(self).model(), transaction@)
                &&& keys_distinct(v@)
                &&& listing_map(v@) == if old(self).model().pending.dom().contains(transaction@) {
                    version_sets(old(self).model().pending[transaction@])
                } else {
                    Map::<Seq<char>, Set<Seq<char>>>::empty()
                }
            },
            r is Err ==> final(self).model() == old(self).model(),
    ;

    /// Discards the named transaction's pending data without touching the
    /// live view, returning what was discarded. An unknown transaction
    /// name yields an empty listing, not an error.
    fn delete_transaction(&mut self, transaction: &str) -> (r: Result<
        Vec<(String, Vec<String>)>,
        Error,
    >)
        requires
            old(self).inv(),
        ensures
            final(self).inv(),
            r matches Ok(v) ==> {
                &&& final(self).model() == spec_delete(old(self).model(), transaction@)
                &&& keys_distinct(v@)
                &&& listing_map(v@) == if old(self).model().pending.dom().contains(transaction@) {
                    version_sets(old(self).model().pending[transaction@])
                } else {
                    Map::<Seq<char>, Set<Seq<char>>>::empty()
                }
            },
            r is Err ==> final(self).model() == old(self).model(),
    ;

    /// The names of all transactions currently holding pending data.
    fn list_transactions(&self) -> (r: Result<Vec<String>, Error>)
        requires
            self.inv(),
        ensures
            r matches Ok(v) ==> v.deep_view().to_set() == self.model().pending.dom() && (forall|
                i: int,
                j: int,
            |
                0 <= i < j < v@.len() ==> #[trigger] v@[i]@ != #[trigger] v@[j]@),
    ;
}

/// Version entry lists that agree key by key and value model by value
/// model.
pub open spec fn version_entries_equiv(a: Seq<(String, Value)>, b: Seq<(String, Value)>) -> bool {
    a.len() == b.len() && forall|i: int|
        0 <= i < a.len() ==> (#[trigger] a[i]).0@ == b[i].0@ && a[i].1.model() == b[i].1.model()
}

/// Equivalent entries have the same mapping, and distinctness carries.
pub proof fn lemma_version_entries_equiv(a: Seq<(String, Value)>, b: Seq<(String, Value)>)
    requires
        version_entries_equiv(a, b),
        keys_distinct(b),
    ensures
        keys_distinct(a),
        version_map(a) == version_map(b),
{
    crate::kvlist::lemma_kv_map_pointwise(b, value_model_fn(), a, value_model_fn());
}

/// A copy of version entries with the same keys and the same value
/// models.
#[verifier::loop_isolation(false)]
pub fn clone_version_entries(src: &VersionEntries) -> (r: VersionEntries)
    ensures
        version_entries_equiv(r@, src@),
{
    let mut r: VersionEntries = Vec::new();
    let mut i: usize = 0;
    while i < src.len()
        invariant
            i <= src@.len(),
            r@.len() == i,
            forall|j: int|
                0 <= j < i ==> (#[trigger] r@[j]).0@ == src@[j].0@ && r@[j].1.model()
                    == src@[j].1.model(),
        decreases src@.len() - i,
    {
        let name = src[i].0.clone();
        let value = src[i].1.duplicate();
        r.push((name, value));
        i += 1;
    }
    r
}

/// A copy of one view's extension entries with the same view.
#[verifier::loop_isolation(false)]
pub fn clone_extension_entries(src: &ExtensionEntries) -> (r: ExtensionEntries)
    ensures
        r@.len() == src@.len(),
        forall|i: int|
            0 <= i < src@.len() ==> (#[trigger] r@[i]).0@ == src@[i].0@ && version_entries_equiv(
                r@[i].1@,
                src@[i].1@,
            ),
        ext_entries_wf(src@) ==> ext_entries_wf(r@) && extension_map(r@) == extension_map(src@),
{
    let mut r: ExtensionEntries = Vec::new();
    let mut i: usize = 0;
    while i < src.len()
        invariant
            i <= src@.len(),
            r@.len() == i,
            forall|j: int|
                0 <= j < i ==> (#[trigger] r@[j]).0@ == src@[j].0@ && version_entries_equiv(
                    r@[j].1@,
                    src@[j].1@,
                ),
        decreases src@.len() - i,
    {
        let name = src[i].0.clone();
        let entries = clone_version_entries(&src[i].1);
        r.push((name, entries));
        i += 1;
    }
    proof {
        if ext_entries_wf(src@) {
            assert forall|j: int| 0 <= j < r@.len() implies version_map(#[trigger] r@[j].1@)
                == version_map(src@[j].1@) && keys_distinct(r@[j].1@) by {
                assert(keys_distinct(src@[j].1@));
                lemma_version_entries_equiv(r@[j].1@, src@[j].1@);
            }
            crate::kvlist::lemma_kv_map_pointwise(src@, version_map_fn(), r@, version_map_fn());
        }
    }
    r
}

/// The value stored under one key of one extension, or nothing the first
/// time a segment fails to resolve. A pure read: the inputs are untouched
/// and the result is a copy of the selected subtree.
#[verifier::loop_isolation(false)]
pub fn lookup_key(json: &Value, key: &Key) -> (r: Option<Value>)
    ensures
        match r {
            Some(v) => spec_lookup(json@, key@) == Some(v@),
            None => spec_lookup(json@, key@) is None,
        },
{
    let segments = key.segments();
    let mut current: &Value = json;
    let mut i: usize = 0;
    proof {
        assert(key@.skip(0) =~= key@);
    }
    while i < segments.len()
        invariant
            i <= segments@.len(),
            segments.deep_view() == key@,
            spec_lookup(json@, key@) == spec_lookup(current@, key@.skip(i as int)),
        decreases segments@.len() - i,
    {
        proof {
            assert(key@.skip(i as int)[0] == key@[i as int]);
        }
        match crate::value::get_member(current, segments[i].as_str()) {
            Some(child) => {
                proof {
                    assert(key@.skip(i as int).drop_first() =~= key@.skip(i as int + 1));
                }
                current = child;
                i += 1;
            },
            None => {
                return None;
            },
        }
    }
    proof {
        assert(key@.skip(i as int) =~= Seq::<Seq<char>>::empty());
    }
    Some(current.duplicate())
}

/// A write staged under one pending transaction is invisible to the live
/// view and to every other pending transaction until it is committed.
pub proof fn lemma_pending_write_isolated(
    m: StoreModel,
    extension: Seq<char>,
    vv: Map<Seq<char>, ValueModel>,
    tx: String,
    other: Committed,
)
    requires
        match other {
            Committed::Pending { tx: o } => o@ != tx@,
            Committed::Live => true,
        },
    ensures
        dataset_of(spec_set(m, extension, vv, Committed::Pending { tx }), other) == dataset_of(
            m,
            other,
        ),
{
}

/// Committing a transaction with no pending writes — a never-created one
/// included — leaves the whole store, the live view in particular,
/// unchanged. The exec contract adds that the returned change set is
/// then empty.
pub proof fn lemma_commit_without_pending(m: StoreModel, tx: Seq<char>)
    requires
        !m.pending.dom().contains(tx),
    ensures
        spec_commit(m, tx) == m,
{
}

/// `set` replaces wholesale: after two writes to the same extension of
/// the live view, only the versions of the second write remain, and any
/// version it does not re-supply is absent.
pub proof fn lemma_set_replaces_wholesale(
    m: StoreModel,
    extension: Seq<char>,
    vv1: Map<Seq<char>, ValueModel>,
    vv2: Map<Seq<char>, ValueModel>,
    version: Seq<char>,
)
    requires
        !vv2.dom().contains(version),
    ensures
        ({
            let m2 = spec_set(
                spec_set(m, extension, vv1, Committed::Live),
                extension,
                vv2,
                Committed::Live,
            );
            &&& m2.live[extension] == vv2
            &&& lookup_version(m2, Committed::Live, extension, version) is None
        }),
{
}

/// Deleting an unknown transaction changes nothing; the exec contract
/// adds that the returned change set is then empty, and that no failure
/// is raised.
pub proof fn lemma_delete_unknown_transaction(m: StoreModel, tx: Seq<char>)
    requires
        !m.pending.dom().contains(tx),
    ensures
        spec_delete(m, tx) == m,
{
    assert(m.pending.remove(tx) =~= m.pending);
}

} // verus!
