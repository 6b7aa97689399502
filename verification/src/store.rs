use vstd::prelude::*;
use vstd::slice::slice_to_vec;

use crate::contents::Contents;
use crate::errors::Error;
use crate::listing::{entry_prefix, is_entry_under, key_views, list_from_keys, listing};
use crate::paths::{path_representable, validate_path};
use crate::visibility::Visibility;

verus! {

// ---------------------------------------------------------------------------
// The abstract store semantics: what each capability operation does to a
// backend whose state is a map from object key to object bytes. Every backend
// adapter's contract is stated against these transitions.
// ---------------------------------------------------------------------------

/// Overwrite unconditionally: last write wins.
pub open spec fn store_write(m: Map<Seq<u8>, Seq<u8>>, k: Seq<u8>, v: Seq<u8>) -> Map<
    Seq<u8>,
    Seq<u8>,
> {
    m.insert(k, v)
}

/// What a read returns: the stored bytes, or nothing when the key is absent.
pub open spec fn store_read(m: Map<Seq<u8>, Seq<u8>>, k: Seq<u8>) -> Option<Seq<u8>> {
    if m.contains_key(k) {
        Some(m[k])
    } else {
        None
    }
}

/// Whether an object exists at the key.
pub open spec fn store_exists(m: Map<Seq<u8>, Seq<u8>>, k: Seq<u8>) -> bool {
    m.contains_key(k)
}

/// Delete the object; on an absent key this leaves the store as it was.
pub open spec fn store_delete(m: Map<Seq<u8>, Seq<u8>>, k: Seq<u8>) -> Map<Seq<u8>, Seq<u8>> {
    m.remove(k)
}

/// Copy the source object over the destination; an absent source changes
/// nothing.
pub open spec fn store_copy(m: Map<Seq<u8>, Seq<u8>>, src: Seq<u8>, dst: Seq<u8>) -> Map<
    Seq<u8>,
    Seq<u8>,
> {
    if m.contains_key(src) {
        m.insert(dst, m[src])
    } else {
        m
    }
}

/// A directory exists exactly when some object lives strictly below it.
pub open spec fn dir_exists(keys: Seq<Seq<u8>>, d: Seq<u8>) -> bool {
    exists|i: int| 0 <= i < keys.len() && is_entry_under(#[trigger] keys[i], entry_prefix(d))
}

// ---------------------------------------------------------------------------
// Laws of the store semantics.
// ---------------------------------------------------------------------------

/// Round trip: writing bytes at a key and reading the key back yields exactly
/// those bytes, whatever the store held before.
pub proof fn lemma_write_read_round_trip(m: Map<Seq<u8>, Seq<u8>>, k: Seq<u8>, v: Seq<u8>)
    ensures
        store_read(store_write(m, k, v), k) == Some(v),
{
}

/// Existence consistency: after a write the key exists; after a delete it
/// does not.
pub proof fn lemma_existence_consistency(m: Map<Seq<u8>, Seq<u8>>, k: Seq<u8>, v: Seq<u8>)
    ensures
        store_exists(store_write(m, k, v), k),
        !store_exists(store_delete(m, k), k),
{
}

/// Idempotent delete: deleting an absent key is a no-op, not an error (the
/// exec operations return success in that case).
pub proof fn lemma_delete_absent_is_noop(m: Map<Seq<u8>, Seq<u8>>, k: Seq<u8>)
    requires
        !store_exists(m, k),
    ensures
        store_delete(m, k) == m,
{
    assert(store_delete(m, k) =~= m);
}

/// Copy preserves its source: after copying between two distinct keys, both
/// read back the original source bytes.
pub proof fn lemma_copy_preserves_source(m: Map<Seq<u8>, Seq<u8>>, src: Seq<u8>, dst: Seq<u8>)
    requires
        src != dst,
        store_exists(m, src),
    ensures
        store_read(store_copy(m, src, dst), src) == store_read(m, src),
        store_read(store_copy(m, src, dst), dst) == store_read(m, src),
{
}

/// The two directory-existence emulations agree: a directory has an object
/// strictly below it exactly when its full recursive listing is non-empty,
/// whichever backend computes it.
pub proof fn lemma_directory_exists_consistency(keys: Seq<Seq<u8>>, d: Seq<u8>)
    ensures
        dir_exists(keys, d) <==> crate::listing::deep_listing(keys, d).len() > 0,
{
    if dir_exists(keys, d) {
        let i = choose|i: int|
            0 <= i < keys.len() && is_entry_under(#[trigger] keys[i], entry_prefix(d));
        crate::listing::lemma_deep_listing_membership(keys, d, keys[i]);
        assert(keys.contains(keys[i]));
        assert(crate::listing::deep_listing(keys, d).contains(keys[i]));
    }
    if crate::listing::deep_listing(keys, d).len() > 0 {
        let x = crate::listing::deep_listing(keys, d)[0];
        assert(crate::listing::deep_listing(keys, d).contains(x));
        crate::listing::lemma_deep_listing_membership(keys, d, x);
    }
}

// ---------------------------------------------------------------------------
// The in-memory backend: a complete, verified implementation of the
// capability contract, and the call-counting stub against which fail-fast
// validation is observable.
// ---------------------------------------------------------------------------

spec fn keys_unique(s: Seq<(Vec<u8>, Vec<u8>)>) -> bool {
    forall|i: int, j: int| 0 <= i < j < s.len() ==> s[i].0@ != s[j].0@
}

spec fn entries_map(s: Seq<(Vec<u8>, Vec<u8>)>) -> Map<Seq<u8>, Seq<u8>>
    decreases s.len(),
{
    if s.len() == 0 {
        Map::empty()
    } else {
        entries_map(s.drop_last()).insert(s.last().0@, s.last().1@)
    }
}

proof fn lemma_entries_map_contains(s: Seq<(Vec<u8>, Vec<u8>)>, k: Seq<u8>)
    ensures
        entries_map(s).contains_key(k) <==> exists|i: int| 0 <= i < s.len() && s[i].0@ == k,
    decreases s.len(),
{
    if s.len() > 0 {
        lemma_entries_map_contains(s.drop_last(), k);
        if exists|i: int| 0 <= i < s.len() && #[trigger] s[i].0@ == k {
            let i = choose|i: int| 0 <= i < s.len() && #[trigger] s[i].0@ == k;
            if i < s.len() - 1 {
                assert(s.drop_last()[i].0@ == k);
            }
        }
        if exists|i: int| 0 <= i < s.drop_last().len() && #[trigger] s.drop_last()[i].0@ == k {
            let i = choose|i: int|
                0 <= i < s.drop_last().len() && #[trigger] s.drop_last()[i].0@ == k;
            assert(s[i].0@ == k);
        }
    }
}

proof fn lemma_entries_map_value(s: Seq<(Vec<u8>, Vec<u8>)>, i: int)
    requires
        keys_unique(s),
        0 <= i < s.len(),
    ensures
        entries_map(s).contains_key(s[i].0@),
        entries_map(s)[s[i].0@] == s[i].1@,
    decreases s.len(),
{
    if i == s.len() - 1 {
    } else {
        assert(keys_unique(s.drop_last())) by {
            assert(forall|a: int, b: int|
                0 <= a < b < s.drop_last().len() ==> s.drop_last()[a] == s[a] && s.drop_last()[b]
                    == s[b]);
        }
        lemma_entries_map_value(s.drop_last(), i);
        assert(s.drop_last()[i] == s[i]);
        assert(s.last().0@ != s[i].0@);
    }
}

proof fn lemma_keys_unique_drop_last(s: Seq<(Vec<u8>, Vec<u8>)>)
    requires
        keys_unique(s),
        s.len() > 0,
    ensures
        keys_unique(s.drop_last()),
{
    assert(forall|a: int, b: int|
        0 <= a < b < s.drop_last().len() ==> s.drop_last()[a] == s[a] && s.drop_last()[b] == s[b]);
}

/// A complete in-memory backend bound to nothing outside the process: object
/// keys mapped to object bytes, in a flat namespace where directories exist
/// purely as key prefixes. It also counts the backend requests it serves, so
/// a caller can observe that rejected paths trigger none.
pub struct MemoryStore {
    entries: Vec<(Vec<u8>, Vec<u8>)>,
    backend_calls: u64,
}

impl MemoryStore {
    /// The abstract state: each stored key mapped to its bytes.
    pub closed spec fn as_map(&self) -> Map<Seq<u8>, Seq<u8>> {
        entries_map(self.entries@)
    }

    /// The stored keys, in the backend's deterministic order.
    pub closed spec fn key_seq(&self) -> Seq<Seq<u8>> {
        Seq::new(self.entries@.len(), |i: int| self.entries@[i].0@)
    }

    /// How many backend requests the store has served.
    pub closed spec fn calls(&self) -> u64 {
        self.backend_calls
    }

    /// The request counter after serving one more request; the counter
    /// saturates rather than wrap.
    pub open spec fn bumped(c: u64) -> u64 {
        if c == u64::MAX {
            c
        } else {
            (c + 1) as u64
        }
    }

    /// Internal invariant: keys are distinct, and every stored key was
    /// admitted by path validation.
    pub closed spec fn wf(&self) -> bool {
        &&& keys_unique(self.entries@)
        &&& forall|i: int|
            0 <= i < self.entries@.len() ==> path_representable(#[trigger] self.entries@[i].0@)
    }

    /// An empty store that has served no request.
    pub fn new() -> (s: MemoryStore)
        ensures
            s.wf(),
            s.as_map() == Map::<Seq<u8>, Seq<u8>>::empty(),
            s.key_seq() == Seq::<Seq<u8>>::empty(),
            s.calls() == 0,
    {
        let s = MemoryStore { entries: Vec::new(), backend_calls: 0 };
        proof {
            assert(s.key_seq() =~= Seq::<Seq<u8>>::empty());
        }
        s
    }

    /// Reads the request counter, so a caller can observe that a rejected
    /// path triggered no backend request.
    pub fn calls_served(&self) -> (n: u64)
        ensures
            n == self.calls(),
    {
        self.backend_calls
    }

    fn record_call(&mut self)
        ensures
            final(self).entries == old(self).entries,
            final(self).backend_calls == Self::bumped(old(self).backend_calls),
    {
        if self.backend_calls < u64::MAX {
            self.backend_calls = self.backend_calls + 1;
        }
    }

    fn find(&self, key: &[u8]) -> (r: Option<usize>)
        ensures
            match r {
                Some(i) => i < self.entries@.len() && self.entries@[i as int].0@ == key@,
                None => forall|i: int|
                    0 <= i < self.entries@.len() ==> self.entries@[i].0@ != key@,
            },
    {
        let mut i: usize = 0;
        while i < self.entries.len()
            invariant
                i <= self.entries@.len(),
                forall|j: int| 0 <= j < i ==> self.entries@[j].0@ != key@,
            decreases self.entries@.len() - i,
        {
            let hit = bytes_equal(self.entries[i].0.as_slice(), key);
            if hit {
                return Some(i);
            }
            i += 1;
        }
        None
    }

    /// Whether an object exists at the path. Only absence yields `false`: a
    /// path the backend encoding cannot represent is an error, reported
    /// before any request is served.
    pub fn file_exists(&mut self, path: &[u8]) -> (r: Result<bool, Error>)
        requires
            old(self).wf(),
        ensures
            final(self).wf(),
            final(self).as_map() == old(self).as_map(),
            final(self).key_seq() == old(self).key_seq(),
            r is Ok <==> path_representable(path@),
            r is Ok ==> r->Ok_0 == store_exists(old(self).as_map(), path@),
            r is Err ==> r->Err_0 == Error::InvalidPath,
            !path_representable(path@) ==> final(self).calls() == old(self).calls(),
            path_representable(path@) ==> final(self).calls() == Self::bumped(old(self).calls()),
    {
        if let Err(e) = validate_path(path) {
            return Err(e);
        }
        self.record_call();
        let r = self.find(path);
        proof {
            lemma_entries_map_contains(self.entries@, path@);
        }
        Ok(r.is_some())
    }

    /// Reads the whole object at the path. Owed on exactly the representable
    /// paths that hold an object; an absent object is `NotFound`.
    pub fn read(&mut self, path: &[u8]) -> (r: Result<Contents, Error>)
        requires
            old(self).wf(),
        ensures
            final(self).wf(),
            final(self).as_map() == old(self).as_map(),
            final(self).key_seq() == old(self).key_seq(),
            r is Ok <==> path_representable(path@) && store_exists(old(self).as_map(), path@),
            r is Ok ==> Some(r->Ok_0@) == store_read(old(self).as_map(), path@),
            r is Err ==> r->Err_0 == (if path_representable(path@) {
                Error::NotFound
            } else {
                Error::InvalidPath
            }),
            !path_representable(path@) ==> final(self).calls() == old(self).calls(),
            path_representable(path@) ==> final(self).calls() == Self::bumped(old(self).calls()),
    {
        if let Err(e) = validate_path(path) {
            return Err(e);
        }
        self.record_call();
        match self.find(path) {
            Some(i) => {
                proof {
                    lemma_entries_map_value(self.entries@, i as int);
                }
                let data = slice_to_vec(self.entries[i].1.as_slice());
                Ok(Contents::from_vec(data))
            },
            None => {
                proof {
                    lemma_entries_map_contains(self.entries@, path@);
                }
                Err(Error::NotFound)
            },
        }
    }
}

proof fn lemma_entries_map_replace(s: Seq<(Vec<u8>, Vec<u8>)>, i: int, e: (Vec<u8>, Vec<u8>))
    requires
        keys_unique(s),
        0 <= i < s.len(),
        e.0@ == s[i].0@,
    ensures
        entries_map(s.update(i, e)) == entries_map(s).insert(e.0@, e.1@),
        keys_unique(s.update(i, e)),
    decreases s.len(),
{
    let t = s.update(i, e);
    assert(forall|a: int| 0 <= a < t.len() ==> #[trigger] t[a].0@ == s[a].0@);
    if i == s.len() - 1 {
        assert(t.drop_last() =~= s.drop_last());
        assert(t.last() == e);
        assert(entries_map(t) =~= entries_map(s).insert(e.0@, e.1@));
    } else {
        lemma_keys_unique_drop_last(s);
        lemma_entries_map_replace(s.drop_last(), i, e);
        assert(t.drop_last() =~= s.drop_last().update(i, e));
        assert(t.last() == s.last());
        assert(s.last().0@ != e.0@);
        assert(entries_map(t) =~= entries_map(s).insert(e.0@, e.1@));
    }
}

proof fn lemma_keys_unique_remove(s: Seq<(Vec<u8>, Vec<u8>)>, i: int)
    requires
        keys_unique(s),
        0 <= i < s.len(),
    ensures
        keys_unique(s.remove(i)),
{
    s.remove_ensures(i);
    let t = s.remove(i);
    assert forall|a: int, b: int| 0 <= a < b < t.len() implies t[a].0@ != t[b].0@ by {
        if a < i {
            assert(t[a] == s[a]);
        } else {
            assert(t[a] == s[a + 1]);
        }
        if b < i {
            assert(t[b] == s[b]);
        } else {
            assert(t[b] == s[b + 1]);
        }
    }
}

proof fn lemma_entries_map_remove(s: Seq<(Vec<u8>, Vec<u8>)>, i: int)
    requires
        keys_unique(s),
        0 <= i < s.len(),
    ensures
        entries_map(s.remove(i)) == entries_map(s).remove(s[i].0@),
        keys_unique(s.remove(i)),
    decreases s.len(),
{
    lemma_keys_unique_remove(s, i);
    let t = s.remove(i);
    if i == s.len() - 1 {
        assert(t =~= s.drop_last());
        lemma_entries_map_contains(s.drop_last(), s[i].0@);
        assert forall|j: int| 0 <= j < s.drop_last().len() implies s.drop_last()[j].0@ != s[i].0@
            by {
            assert(s.drop_last()[j] == s[j]);
        }
        assert(!entries_map(s.drop_last()).contains_key(s[i].0@));
        assert(entries_map(t) =~= entries_map(s).remove(s[i].0@));
    } else {
        lemma_keys_unique_drop_last(s);
        lemma_entries_map_remove(s.drop_last(), i);
        s.remove_ensures(i);
        assert(t.drop_last() =~= s.drop_last().remove(i));
        assert(t.last() == s.last());
        assert(s.drop_last()[i] == s[i]);
        assert(s.last().0@ != s[i].0@);
        assert(entries_map(t) =~= entries_map(s).remove(s[i].0@));
    }
}

impl MemoryStore {
    /// Writes the whole object at the path, overwriting unconditionally: the
    /// last write wins, and no parent directory is required or created.
    pub fn write(&mut self, path: &[u8], content: Contents) -> (r: Result<(), Error>)
        requires
            old(self).wf(),
        ensures
            final(self).wf(),
            r is Ok <==> path_representable(path@),
            r is Err ==> r->Err_0 == Error::InvalidPath,
            !path_representable(path@) ==> final(self).as_map() == old(self).as_map() && final(self).key_seq() == old(self).key_seq() && final(self).calls() == old(self).calls(),
            path_representable(path@) ==> final(self).as_map() == store_write(
                old(self).as_map(),
                path@,
                content@,
            ) && final(self).calls() == Self::bumped(old(self).calls()),
            path_representable(path@) && store_exists(old(self).as_map(), path@) ==> final(self).key_seq() == old(self).key_seq(),
            path_representable(path@) && !store_exists(old(self).as_map(), path@) ==> final(self).key_seq() == old(self).key_seq().push(path@),
    {
        if let Err(e) = validate_path(path) {
            return Err(e);
        }
        self.record_call();
        let key = slice_to_vec(path);
        let value = content.into_vec();
        let ghost s = self.entries@;
        proof {
            lemma_entries_map_contains(s, path@);
        }
        match self.find(path) {
            Some(i) => {
                self.entries.remove(i);
                self.entries.insert(i, (key, value));
                proof {
                    s.remove_ensures(i as int);
                    s.remove(i as int).insert_ensures(i as int, (key, value));
                    assert(self.entries@ =~= s.update(i as int, (key, value)));
                    lemma_entries_map_replace(s, i as int, (key, value));
                    lemma_entries_map_value(s, i as int);
                    assert(final(self).key_seq() =~= old(self).key_seq());
                }
            },
            None => {
                self.entries.push((key, value));
                proof {
                    assert(self.entries@.drop_last() =~= s);
                    assert(final(self).key_seq() =~= old(self).key_seq().push(path@));
                }
            },
        }
        Ok(())
    }

    /// Deletes the object at the path. Idempotent by policy: deleting an
    /// absent object is success, never `NotFound`.
    pub fn delete(&mut self, path: &[u8]) -> (r: Result<(), Error>)
        requires
            old(self).wf(),
        ensures
            final(self).wf(),
            r is Ok <==> path_representable(path@),
            r is Err ==> r->Err_0 == Error::InvalidPath,
            !path_representable(path@) ==> final(self).as_map() == old(self).as_map() && final(self).key_seq() == old(self).key_seq() && final(self).calls() == old(self).calls(),
            path_representable(path@) ==> final(self).as_map() == store_delete(
                old(self).as_map(),
                path@,
            ) && final(self).calls() == Self::bumped(old(self).calls()),
            path_representable(path@) && !store_exists(old(self).as_map(), path@) ==> final(self).key_seq() == old(self).key_seq(),
            path_representable(path@) && store_exists(old(self).as_map(), path@) ==> exists|i: int|
                0 <= i < old(self).key_seq().len() && old(self).key_seq()[i] == path@ && final(self).key_seq() == old(self).key_seq().remove(i),
    {
        if let Err(e) = validate_path(path) {
            return Err(e);
        }
        self.record_call();
        let ghost s = self.entries@;
        proof {
            lemma_entries_map_contains(s, path@);
        }
        match self.find(path) {
            Some(i) => {
                self.entries.remove(i);
                proof {
                    lemma_entries_map_remove(s, i as int);
                    s.remove_ensures(i as int);
                    assert(old(self).key_seq()[i as int] == path@);
                    assert(final(self).key_seq() =~= old(self).key_seq().remove(i as int));
                }
            },
            None => {
                proof {
                    assert(final(self).as_map() =~= old(self).as_map().remove(path@));
                }
            },
        }
        Ok(())
    }
}

/// What a move does to the abstract store: copy then delete the source,
/// except that moving an object onto itself leaves the store as it is.
pub open spec fn store_move(m: Map<Seq<u8>, Seq<u8>>, src: Seq<u8>, dst: Seq<u8>) -> Map<
    Seq<u8>,
    Seq<u8>,
> {
    if src == dst {
        m
    } else {
        store_delete(store_copy(m, src, dst), src)
    }
}

impl MemoryStore {
    fn put_entry(&mut self, key: Vec<u8>, value: Vec<u8>)
        requires
            old(self).wf(),
            path_representable(key@),
        ensures
            final(self).wf(),
            final(self).as_map() == store_write(old(self).as_map(), key@, value@),
            final(self).calls() == old(self).calls(),
            store_exists(old(self).as_map(), key@) ==> final(self).key_seq() == old(
                self,
            ).key_seq(),
            !store_exists(old(self).as_map(), key@) ==> final(self).key_seq() == old(
                self,
            ).key_seq().push(key@),
    {
        let ghost s = self.entries@;
        proof {
            lemma_entries_map_contains(s, key@);
        }
        match self.find(key.as_slice()) {
            Some(i) => {
                let ghost e = (key, value);
                self.entries.remove(i);
                self.entries.insert(i, (key, value));
                proof {
                    s.remove_ensures(i as int);
                    s.remove(i as int).insert_ensures(i as int, e);
                    assert(self.entries@ =~= s.update(i as int, e));
                    lemma_entries_map_replace(s, i as int, e);
                    lemma_entries_map_value(s, i as int);
                    assert(final(self).key_seq() =~= old(self).key_seq());
                }
            },
            None => {
                self.entries.push((key, value));
                proof {
                    assert(self.entries@.drop_last() =~= s);
                    assert(final(self).key_seq() =~= old(self).key_seq().push(key@));
                }
            },
        }
    }

    fn find_under(&self, pre: &Vec<u8>) -> (r: Option<usize>)
        ensures
            match r {
                Some(i) => i < self.entries@.len() && is_entry_under(
                    self.entries@[i as int].0@,
                    pre@,
                ),
                None => forall|j: int|
                    0 <= j < self.entries@.len() ==> !is_entry_under(
                        #[trigger] self.entries@[j].0@,
                        pre@,
                    ),
            },
    {
        let mut i: usize = 0;
        while i < self.entries.len()
            invariant
                i <= self.entries@.len(),
                forall|j: int|
                    0 <= j < i ==> !is_entry_under(#[trigger] self.entries@[j].0@, pre@),
            decreases self.entries@.len() - i,
        {
            let under = crate::listing::bytes_have_prefix(&self.entries[i].0, pre)
                && self.entries[i].0.len() > pre.len();
            if under {
                return Some(i);
            }
            i += 1;
        }
        None
    }

    fn collect_keys(&self) -> (keys: Vec<Vec<u8>>)
        ensures
            key_views(keys@) == self.key_seq(),
    {
        let mut keys: Vec<Vec<u8>> = Vec::new();
        let mut i: usize = 0;
        while i < self.entries.len()
            invariant
                i <= self.entries@.len(),
                keys@.len() == i,
                forall|j: int| 0 <= j < i ==> #[trigger] keys@[j]@ == self.entries@[j].0@,
            decreases self.entries@.len() - i,
        {
            keys.push(slice_to_vec(self.entries[i].0.as_slice()));
            i += 1;
        }
        proof {
            assert(key_views(keys@) =~= self.key_seq());
        }
        keys
    }

    /// Whether a directory exists at the path. Emulated on this flat
    /// namespace as a prefix check: the directory exists exactly when some
    /// object lives strictly below it.
    pub fn directory_exists(&mut self, path: &[u8]) -> (r: Result<bool, Error>)
        requires
            old(self).wf(),
        ensures
            final(self).wf(),
            final(self).as_map() == old(self).as_map(),
            final(self).key_seq() == old(self).key_seq(),
            r is Ok <==> path_representable(path@),
            r is Ok ==> r->Ok_0 == dir_exists(old(self).key_seq(), path@),
            r is Err ==> r->Err_0 == Error::InvalidPath,
            !path_representable(path@) ==> final(self).calls() == old(self).calls(),
            path_representable(path@) ==> final(self).calls() == Self::bumped(old(self).calls()),
    {
        if let Err(e) = validate_path(path) {
            return Err(e);
        }
        self.record_call();
        let p = slice_to_vec(path);
        let pre = crate::listing::entry_prefix_of(&p);
        let r = self.find_under(&pre);
        proof {
            if r is Some {
                let i = r->Some_0 as int;
                assert(self.key_seq()[i] == self.entries@[i].0@);
            } else {
                assert forall|i: int|
                    0 <= i < self.key_seq().len() implies !is_entry_under(
                    #[trigger] self.key_seq()[i],
                    entry_prefix(path@),
                ) by {
                    assert(self.key_seq()[i] == self.entries@[i].0@);
                }
            }
        }
        Ok(r.is_some())
    }

    /// Creates a directory. On this flat namespace directories exist purely
    /// as key prefixes, so there is nothing to create: the call is accepted
    /// and changes nothing.
    pub fn create_directory(&mut self, path: &[u8]) -> (r: Result<(), Error>)
        requires
            old(self).wf(),
        ensures
            final(self).wf(),
            final(self).as_map() == old(self).as_map(),
            final(self).key_seq() == old(self).key_seq(),
            r is Ok <==> path_representable(path@),
            r is Err ==> r->Err_0 == Error::InvalidPath,
            !path_representable(path@) ==> final(self).calls() == old(self).calls(),
            path_representable(path@) ==> final(self).calls() == Self::bumped(old(self).calls()),
    {
        if let Err(e) = validate_path(path) {
            return Err(e);
        }
        self.record_call();
        Ok(())
    }

    /// Deletes a directory: removes every object strictly below the path,
    /// and nothing else. Idempotent like object deletion.
    pub fn delete_directory(&mut self, path: &[u8]) -> (r: Result<(), Error>)
        requires
            old(self).wf(),
        ensures
            final(self).wf(),
            r is Ok <==> path_representable(path@),
            r is Err ==> r->Err_0 == Error::InvalidPath,
            !path_representable(path@) ==> final(self).as_map() == old(self).as_map() && final(self).key_seq() == old(self).key_seq() && final(self).calls() == old(self).calls(),
            path_representable(path@) ==> final(self).calls() == Self::bumped(old(self).calls()),
            path_representable(path@) ==> forall|k: Seq<u8>|
                final(self).as_map().contains_key(k) <==> (old(self).as_map().contains_key(k)
                    && !is_entry_under(k, entry_prefix(path@))),
            path_representable(path@) ==> forall|k: Seq<u8>|
                final(self).as_map().contains_key(k) ==> final(self).as_map()[k] == old(
                    self,
                ).as_map()[k],
    {
        if let Err(e) = validate_path(path) {
            return Err(e);
        }
        self.record_call();
        let p = slice_to_vec(path);
        let pre = crate::listing::entry_prefix_of(&p);
        let ghost m0 = entries_map(old(self).entries@);
        let mut done = false;
        while !done
            invariant
                self.wf(),
                pre@ == entry_prefix(path@),
                self.backend_calls == Self::bumped(old(self).backend_calls),
                forall|k: Seq<u8>|
                    #[trigger] self.as_map().contains_key(k) ==> m0.contains_key(k)
                        && self.as_map()[k] == m0[k],
                forall|k: Seq<u8>|
                    #[trigger] m0.contains_key(k) && !is_entry_under(k, entry_prefix(path@))
                        ==> self.as_map().contains_key(k),
                done ==> forall|j: int|
                    0 <= j < self.entries@.len() ==> !is_entry_under(
                        #[trigger] self.entries@[j].0@,
                        entry_prefix(path@),
                    ),
            decreases self.entries@.len() + (if done {
                0int
            } else {
                1int
            }),
        {
            match self.find_under(&pre) {
                Some(i) => {
                    let ghost s = self.entries@;
                    let ghost prev = entries_map(s);
                    let ghost removed = s[i as int].0@;
                    proof {
                        assert(prev == self.as_map());
                        assert forall|k: Seq<u8>| #[trigger] prev.contains_key(k) implies
                            m0.contains_key(k) && prev[k] == m0[k] by {
                            assert(self.as_map().contains_key(k));
                        }
                    }
                    self.entries.remove(i);
                    proof {
                        lemma_entries_map_remove(s, i as int);
                        lemma_entries_map_value(s, i as int);
                        s.remove_ensures(i as int);
                        assert forall|a: int|
                            0 <= a < self.entries@.len() implies path_representable(
                            #[trigger] self.entries@[a].0@,
                        ) by {
                            if a < i as int {
                                assert(self.entries@[a] == s[a]);
                            } else {
                                assert(self.entries@[a] == s[a + 1]);
                            }
                        }
                        assert(self.as_map() == prev.remove(removed));
                        assert(is_entry_under(removed, entry_prefix(path@)));
                        assert forall|k: Seq<u8>|
                            m0.contains_key(k) && !is_entry_under(k, entry_prefix(path@)) implies
                            self.as_map().contains_key(k) by {
                            assert(k != removed);
                            assert(prev.contains_key(k));
                        }
                        assert forall|k: Seq<u8>| self.as_map().contains_key(k) implies
                            m0.contains_key(k) && self.as_map()[k] == m0[k] by {
                            assert(!prev.remove(removed).contains_key(removed));
                            assert(k != removed);
                            assert(prev.contains_key(k));
                            assert(self.as_map()[k] == prev[k]);
                            assert(prev[k] == m0[k]);
                        }
                    }
                },
                None => {
                    done = true;
                },
            }
        }
        proof {
            assert forall|k: Seq<u8>| self.as_map().contains_key(k) implies !is_entry_under(
                k,
                entry_prefix(path@),
            ) by {
                lemma_entries_map_contains(self.entries@, k);
            }
        }
        Ok(())
    }

    /// Lists the contents of the directory at the path: with `deep`, every
    /// object below it; without, the immediate children only, one level down.
    /// A directory matching nothing yields the empty listing, never an error.
    pub fn list_contents(&mut self, path: &[u8], deep: bool) -> (r: Result<Vec<Vec<u8>>, Error>)
        requires
            old(self).wf(),
        ensures
            final(self).wf(),
            final(self).as_map() == old(self).as_map(),
            final(self).key_seq() == old(self).key_seq(),
            r is Ok <==> path_representable(path@),
            r is Ok ==> key_views(r->Ok_0@) == listing(old(self).key_seq(), path@, deep),
            r is Err ==> r->Err_0 == Error::InvalidPath,
            !path_representable(path@) ==> final(self).calls() == old(self).calls(),
            path_representable(path@) ==> final(self).calls() == Self::bumped(old(self).calls()),
    {
        if let Err(e) = validate_path(path) {
            return Err(e);
        }
        self.record_call();
        let keys = self.collect_keys();
        let p = slice_to_vec(path);
        Ok(list_from_keys(&keys, &p, deep))
    }

    /// Copies the object at `source` over `destination`. Owed whenever both
    /// paths are representable and the source exists; the source is left
    /// untouched.
    pub fn copy(&mut self, source: &[u8], destination: &[u8]) -> (r: Result<(), Error>)
        requires
            old(self).wf(),
        ensures
            final(self).wf(),
            r is Ok <==> path_representable(source@) && path_representable(destination@)
                && store_exists(old(self).as_map(), source@),
            r is Err ==> r->Err_0 == (if !path_representable(source@) || !path_representable(
                destination@,
            ) {
                Error::InvalidPath
            } else {
                Error::NotFound
            }),
            r is Ok ==> final(self).as_map() == store_copy(
                old(self).as_map(),
                source@,
                destination@,
            ),
            r is Err ==> final(self).as_map() == old(self).as_map() && final(self).key_seq()
                == old(self).key_seq(),
            !(path_representable(source@) && path_representable(destination@)) ==> final(self).calls() == old(self).calls(),
            path_representable(source@) && path_representable(destination@) ==> final(self).calls() == Self::bumped(old(self).calls()),
    {
        if let Err(e) = validate_path(source) {
            return Err(e);
        }
        if let Err(e) = validate_path(destination) {
            return Err(e);
        }
        self.record_call();
        let ghost s = self.entries@;
        proof {
            lemma_entries_map_contains(s, source@);
        }
        match self.find(source) {
            Some(i) => {
                proof {
                    lemma_entries_map_value(s, i as int);
                }
                let v = slice_to_vec(self.entries[i].1.as_slice());
                let dst = slice_to_vec(destination);
                self.put_entry(dst, v);
                Ok(())
            },
            None => Err(Error::NotFound),
        }
    }

    /// Moves the object at `source` to `destination`: a copy followed by
    /// deletion of the source (this backend has no native rename). Moving an
    /// object onto itself succeeds and changes nothing.
    pub fn rename(&mut self, source: &[u8], destination: &[u8]) -> (r: Result<(), Error>)
        requires
            old(self).wf(),
        ensures
            final(self).wf(),
            r is Ok <==> path_representable(source@) && path_representable(destination@)
                && store_exists(old(self).as_map(), source@),
            r is Err ==> r->Err_0 == (if !path_representable(source@) || !path_representable(
                destination@,
            ) {
                Error::InvalidPath
            } else {
                Error::NotFound
            }),
            r is Ok ==> final(self).as_map() == store_move(
                old(self).as_map(),
                source@,
                destination@,
            ),
            r is Err ==> final(self).as_map() == old(self).as_map() && final(self).key_seq()
                == old(self).key_seq(),
            !(path_representable(source@) && path_representable(destination@)) ==> final(self).calls() == old(self).calls(),
            path_representable(source@) && path_representable(destination@) ==> final(self).calls() == Self::bumped(old(self).calls()),
    {
        if let Err(e) = validate_path(source) {
            return Err(e);
        }
        if let Err(e) = validate_path(destination) {
            return Err(e);
        }
        self.record_call();
        let ghost s = self.entries@;
        proof {
            lemma_entries_map_contains(s, source@);
        }
        let same = bytes_equal(source, destination);
        match self.find(source) {
            Some(i) => {
                proof {
                    lemma_entries_map_value(s, i as int);
                }
                if same {
                    return Ok(());
                }
                let v = slice_to_vec(self.entries[i].1.as_slice());
                let dst = slice_to_vec(destination);
                self.put_entry(dst, v);
                let ghost s2 = self.entries@;
                proof {
                    lemma_entries_map_contains(s2, source@);
                }
                match self.find(source) {
                    Some(j) => {
                        self.entries.remove(j);
                        proof {
                            lemma_entries_map_remove(s2, j as int);
                        }
                        Ok(())
                    },
                    None => {
                        proof {
                            assert(false);
                        }
                        Err(Error::NotFound)
                    },
                }
            },
            None => Err(Error::NotFound),
        }
    }

    /// The size in bytes of the object at the path, from the store's own
    /// metadata; `NotFound` when the object is absent.
    pub fn file_size(&mut self, path: &[u8]) -> (r: Result<u64, Error>)
        requires
            old(self).wf(),
        ensures
            final(self).wf(),
            final(self).as_map() == old(self).as_map(),
            final(self).key_seq() == old(self).key_seq(),
            r is Ok <==> path_representable(path@) && store_exists(old(self).as_map(), path@),
            r is Ok ==> r->Ok_0 as nat == old(self).as_map()[path@].len(),
            r is Err ==> r->Err_0 == (if path_representable(path@) {
                Error::NotFound
            } else {
                Error::InvalidPath
            }),
            !path_representable(path@) ==> final(self).calls() == old(self).calls(),
            path_representable(path@) ==> final(self).calls() == Self::bumped(old(self).calls()),
    {
        if let Err(e) = validate_path(path) {
            return Err(e);
        }
        self.record_call();
        let ghost s = self.entries@;
        proof {
            lemma_entries_map_contains(s, path@);
        }
        match self.find(path) {
            Some(i) => {
                proof {
                    lemma_entries_map_value(s, i as int);
                }
                Ok(self.entries[i].1.len() as u64)
            },
            None => Err(Error::NotFound),
        }
    }

    /// The visibility of the object at the path. This backend has no
    /// per-object ACLs, so it answers with its bucket-level default:
    /// everything is private.
    pub fn visibility(&mut self, path: &[u8]) -> (r: Result<Visibility, Error>)
        requires
            old(self).wf(),
        ensures
            final(self).wf(),
            final(self).as_map() == old(self).as_map(),
            final(self).key_seq() == old(self).key_seq(),
            r is Ok <==> path_representable(path@),
            r is Ok ==> r->Ok_0 == Visibility::Private,
            r is Err ==> r->Err_0 == Error::InvalidPath,
            !path_representable(path@) ==> final(self).calls() == old(self).calls(),
            path_representable(path@) ==> final(self).calls() == Self::bumped(old(self).calls()),
    {
        if let Err(e) = validate_path(path) {
            return Err(e);
        }
        self.record_call();
        Ok(Visibility::Private)
    }

    /// Changing visibility is not supported by this backend: it has no ACL
    /// primitive to project onto, so the call is refused programmatically
    /// rather than aborting.
    pub fn set_visibility(&mut self, path: &[u8], _visibility: Visibility) -> (r: Result<
        (),
        Error,
    >)
        requires
            old(self).wf(),
        ensures
            final(self).wf(),
            final(self).as_map() == old(self).as_map(),
            final(self).key_seq() == old(self).key_seq(),
            final(self).calls() == old(self).calls(),
            r is Err,
            r->Err_0 == (if path_representable(path@) {
                Error::UnsupportedOperation
            } else {
                Error::InvalidPath
            }),
    {
        if let Err(e) = validate_path(path) {
            return Err(e);
        }
        Err(Error::UnsupportedOperation)
    }

    /// MIME type lookup is not supported by this backend: it stores raw bytes
    /// and performs no content sniffing.
    pub fn mime_type(&mut self, path: &[u8]) -> (r: Result<(), Error>)
        requires
            old(self).wf(),
        ensures
            final(self).wf(),
            final(self).as_map() == old(self).as_map(),
            final(self).key_seq() == old(self).key_seq(),
            final(self).calls() == old(self).calls(),
            r is Err,
            r->Err_0 == (if path_representable(path@) {
                Error::UnsupportedOperation
            } else {
                Error::InvalidPath
            }),
    {
        if let Err(e) = validate_path(path) {
            return Err(e);
        }
        Err(Error::UnsupportedOperation)
    }

    /// Last-modified lookup is not supported by this backend: it keeps no
    /// clock, so it refuses rather than invent a timestamp.
    pub fn last_modified(&mut self, path: &[u8]) -> (r: Result<u64, Error>)
        requires
            old(self).wf(),
        ensures
            final(self).wf(),
            final(self).as_map() == old(self).as_map(),
            final(self).key_seq() == old(self).key_seq(),
            final(self).calls() == old(self).calls(),
            r is Err,
            r->Err_0 == (if path_representable(path@) {
                Error::UnsupportedOperation
            } else {
                Error::InvalidPath
            }),
    {
        if let Err(e) = validate_path(path) {
            return Err(e);
        }
        Err(Error::UnsupportedOperation)
    }

    /// Checksum lookup is not supported by this backend: it has no native
    /// digest, so it refuses rather than improvise one.
    pub fn checksum(&mut self, path: &[u8]) -> (r: Result<String, Error>)
        requires
            old(self).wf(),
        ensures
            final(self).wf(),
            final(self).as_map() == old(self).as_map(),
            final(self).key_seq() == old(self).key_seq(),
            final(self).calls() == old(self).calls(),
            r is Err,
            r->Err_0 == (if path_representable(path@) {
                Error::UnsupportedOperation
            } else {
                Error::InvalidPath
            }),
    {
        if let Err(e) = validate_path(path) {
            return Err(e);
        }
        Err(Error::UnsupportedOperation)
    }
}

/// Decides bytewise whether two paths are the same.
fn bytes_equal(a: &[u8], b: &[u8]) -> (r: bool)
    ensures
        r == (a@ == b@),
{
    let av = slice_to_vec(a);
    let bv = slice_to_vec(b);
    let r = av == bv;
    proof {
        if r {
            assert(a@ =~= b@);
        } else {
            assert(a@ != b@);
        }
    }
    r
}


} // verus!
