//! The durable keyspaces, modelled as keyed sequences of entries. The three
//! holding areas of the pipeline (intake, staging, claim queue) are each one
//! `Keyspace`. A durable backend must offer atomic single-entry write, move
//! and delete with the same contracts; enumeration order carries no
//! semantic meaning.

use crate::bytes::clone_bytes;
use vstd::prelude::*;

verus! {

/// One durable entry: an identifier and an opaque value blob.
pub struct Entry {
    pub key: Vec<u8>,
    pub value: Vec<u8>,
}

/// The mathematical model of an entry.
#[verifier::ext_equal]
pub struct EntryModel {
    pub key: Seq<u8>,
    pub value: Seq<u8>,
}

impl View for Entry {
    type V = EntryModel;

    open spec fn view(&self) -> EntryModel {
        EntryModel { key: self.key@, value: self.value@ }
    }
}

/// The models of a sequence of entries.
pub open spec fn entry_views(s: Seq<Entry>) -> Seq<EntryModel> {
    s.map_values(|e: Entry| e@)
}

/// Some entry of `s` is keyed `k`.
pub open spec fn spec_contains_key(s: Seq<EntryModel>, k: Seq<u8>) -> bool {
    exists|i: int| 0 <= i < s.len() && (#[trigger] s[i].key) == k
}

/// No two entries of `s` share a key.
pub open spec fn spec_keys_distinct(s: Seq<EntryModel>) -> bool {
    forall|i: int, j: int| 0 <= i < j < s.len() ==> (#[trigger] s[i].key) != (#[trigger] s[j].key)
}

/// The values of `s` concatenated in enumeration order.
pub open spec fn spec_concat_values(s: Seq<EntryModel>) -> Seq<u8>
    decreases s.len(),
{
    if s.len() == 0 {
        Seq::empty()
    } else {
        s[0].value + spec_concat_values(s.drop_first())
    }
}

/// How many value bytes `s` holds in all.
pub open spec fn spec_total_bytes(s: Seq<EntryModel>) -> int
    decreases s.len(),
{
    if s.len() == 0 {
        0
    } else {
        s[0].value.len() + spec_total_bytes(s.drop_first())
    }
}

/// Concatenation and byte totals distribute over appending entry runs.
pub proof fn lemma_concat_values_app(a: Seq<EntryModel>, b: Seq<EntryModel>)
    ensures
        spec_concat_values(a + b) == spec_concat_values(a) + spec_concat_values(b),
        spec_total_bytes(a + b) == spec_total_bytes(a) + spec_total_bytes(b),
    decreases a.len(),
{
    if a.len() == 0 {
        assert(a + b =~= b);
        assert(spec_concat_values(a) + spec_concat_values(b) =~= spec_concat_values(b));
    } else {
        assert((a + b).drop_first() =~= a.drop_first() + b);
        lemma_concat_values_app(a.drop_first(), b);
        assert((a + b)[0] == a[0]);
        assert(a[0].value + (spec_concat_values(a.drop_first()) + spec_concat_values(b)) =~= (
        a[0].value + spec_concat_values(a.drop_first())) + spec_concat_values(b));
    }
}

/// A keyspace holds exactly as many bytes as its concatenated values.
pub proof fn lemma_concat_values_len(s: Seq<EntryModel>)
    ensures
        spec_concat_values(s).len() == spec_total_bytes(s),
        spec_total_bytes(s) >= 0,
    decreases s.len(),
{
    if s.len() > 0 {
        lemma_concat_values_len(s.drop_first());
    }
}

/// A one-entry run holds exactly that entry's value.
pub proof fn lemma_singleton_bytes(e: EntryModel)
    ensures
        spec_total_bytes(seq![e]) == e.value.len(),
        spec_concat_values(seq![e]) == e.value,
{
    assert(seq![e].drop_first() =~= Seq::<EntryModel>::empty());
    assert(spec_concat_values(Seq::<EntryModel>::empty()) == Seq::<u8>::empty());
    assert(spec_total_bytes(Seq::<EntryModel>::empty()) == 0);
    assert(e.value + Seq::<u8>::empty() =~= e.value);
}

/// Pushing an absent key keeps the keys distinct.
pub proof fn lemma_distinct_push(s: Seq<EntryModel>, e: EntryModel)
    requires
        spec_keys_distinct(s),
        !spec_contains_key(s, e.key),
    ensures
        spec_keys_distinct(s.push(e)),
{
    assert forall|i: int, j: int| 0 <= i < j < s.push(e).len() implies (#[trigger] s.push(
        e,
    )[i].key) != (#[trigger] s.push(e)[j].key) by {
        if j < s.len() {
        } else {
            assert(s.push(e)[i] == s[i]);
        }
    }
}

/// One of the three durable holding areas.
pub struct Keyspace {
    pub entries: Vec<Entry>,
}

impl View for Keyspace {
    type V = Seq<EntryModel>;

    open spec fn view(&self) -> Seq<EntryModel> {
        entry_views(self.entries@)
    }
}

impl Keyspace {
    /// The store invariant: no two entries share a key.
    pub open spec fn wf(&self) -> bool {
        spec_keys_distinct(self@)
    }

    /// An empty keyspace.
    pub fn new() -> (r: Keyspace)
        ensures
            r@.len() == 0,
            r.wf(),
    {
        let r = Keyspace { entries: Vec::new() };
        assert(r@ =~= Seq::<EntryModel>::empty());
        r
    }

    /// How many entries are present.
    pub fn len(&self) -> (n: usize)
        ensures
            n == self@.len(),
    {
        self.entries.len()
    }

    /// The key of the entry at `i`.
    pub fn key_at(&self, i: usize) -> (k: &Vec<u8>)
        requires
            i < self@.len(),
        ensures
            k@ == self@[i as int].key,
    {
        &self.entries[i].key
    }

    /// The value of the entry at `i`.
    pub fn value_at(&self, i: usize) -> (v: &Vec<u8>)
        requires
            i < self@.len(),
        ensures
            v@ == self@[i as int].value,
    {
        &self.entries[i].value
    }

    /// Whether an entry keyed `k` is present.
    pub fn contains_key(&self, k: &Vec<u8>) -> (r: bool)
        ensures
            r == spec_contains_key(self@, k@),
    {
        let mut i: usize = 0;
        while i < self.entries.len()
            invariant
                i <= self.entries.len(),
                forall|j: int| 0 <= j < i ==> (#[trigger] self@[j].key) != k@,
            decreases self.entries.len() - i,
        {
            if self.entries[i].key == *k {
                assert(self@[i as int].key == k@);
                return true;
            }
            i = i + 1;
        }
        false
    }

    /// Writes a new entry. Refused (with the keyspace unchanged) when the
    /// key is already present: the durable store must never overwrite.
    pub fn write(&mut self, key: Vec<u8>, value: Vec<u8>) -> (ok: bool)
        ensures
            ok ==> !spec_contains_key(old(self)@, key@) && final(self)@ == old(self)@.push(
                EntryModel { key: key@, value: value@ },
            ),
            !ok ==> spec_contains_key(old(self)@, key@) && final(self)@ == old(self)@,
            old(self).wf() ==> final(self).wf(),
    {
        if self.contains_key(&key) {
            return false;
        }
        let ghost before = self@;
        self.entries.push(Entry { key, value });
        assert(final(self)@ =~= before.push(EntryModel { key: key@, value: value@ }));
        proof {
            if spec_keys_distinct(before) {
                lemma_distinct_push(before, EntryModel { key: key@, value: value@ });
            }
        }
        true
    }

    /// Deletes every entry.
    pub fn clear(&mut self)
        ensures
            final(self)@.len() == 0,
            final(self).wf(),
    {
        self.entries.clear();
        assert(final(self)@ =~= Seq::<EntryModel>::empty());
    }

    /// The values of all entries, concatenated in enumeration order.
    pub fn concat_values(&self) -> (r: Vec<u8>)
        ensures
            r@ == spec_concat_values(self@),
    {
        let mut r: Vec<u8> = Vec::new();
        let mut i: usize = 0;
        assert(r@ =~= spec_concat_values(self@.take(0)));
        while i < self.entries.len()
            invariant
                i <= self.entries.len(),
                r@ == spec_concat_values(self@.take(i as int)),
            decreases self.entries.len() - i,
        {
            let mut v = clone_bytes(&self.entries[i].value);
            r.append(&mut v);
            proof {
                assert(self@.take((i + 1) as int) =~= self@.take(i as int) + seq![
                    self@[i as int],
                ]);
                lemma_concat_values_app(self@.take(i as int), seq![self@[i as int]]);
                assert(seq![self@[i as int]].drop_first() =~= Seq::<EntryModel>::empty());
                assert(spec_concat_values(Seq::<EntryModel>::empty()) =~= Seq::<u8>::empty());
                assert(spec_concat_values(seq![self@[i as int]]) =~= self@[i as int].value);
            }
            i = i + 1;
        }
        assert(self@.take(i as int) =~= self@);
        r
    }
}

} // verus!
