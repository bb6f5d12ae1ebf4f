//! The consolidate-and-sweep mechanics over the three keyspaces. Each tick
//! first relocates every conforming intake entry through staging into one
//! fresh claim-queue entry (the consolidation), then decodes every claim
//! batch, hands the decoded work out, and deletes the whole claim queue.

use crate::bytes::clone_bytes;
use crate::codec::{spec_decode_all, spec_encode_seq};
use crate::descriptor::{models_of, valid_descriptor, DescModel, Descriptor};
use crate::errors::SweepError;
use crate::keys::{clone_key, fresh_key, is_conforming_key, key_conforms};
use crate::store::{
    entry_views, lemma_concat_values_app, lemma_concat_values_len, lemma_distinct_push,
    lemma_singleton_bytes, spec_concat_values, spec_contains_key, spec_keys_distinct,
    spec_total_bytes, Entry, EntryModel, Keyspace,
};
use vstd::prelude::*;

verus! {

/// The three durable holding areas of the pipeline.
pub struct Stores {
    pub intake: Keyspace,
    pub staging: Keyspace,
    pub claims: Keyspace,
}

/// The mathematical model of the three keyspaces.
#[verifier::ext_equal]
pub struct StoresModel {
    pub intake: Seq<EntryModel>,
    pub staging: Seq<EntryModel>,
    pub claims: Seq<EntryModel>,
}

impl View for Stores {
    type V = StoresModel;

    open spec fn view(&self) -> StoresModel {
        StoresModel { intake: self.intake@, staging: self.staging@, claims: self.claims@ }
    }
}

/// Total descriptor bytes across intake, staging and claim queue.
pub open spec fn total_bytes(m: StoresModel) -> int {
    spec_total_bytes(m.intake) + spec_total_bytes(m.staging) + spec_total_bytes(m.claims)
}

/// The entries of `s` whose keys have the generated shape, in order.
pub open spec fn conforming_entries(s: Seq<EntryModel>) -> Seq<EntryModel>
    decreases s.len(),
{
    if s.len() == 0 {
        Seq::empty()
    } else if is_conforming_key(s[0].key) {
        seq![s[0]] + conforming_entries(s.drop_first())
    } else {
        conforming_entries(s.drop_first())
    }
}

/// The entries of `s` with any other name: partial or temporary writes,
/// which consolidation must leave untouched.
pub open spec fn nonconforming_entries(s: Seq<EntryModel>) -> Seq<EntryModel>
    decreases s.len(),
{
    if s.len() == 0 {
        Seq::empty()
    } else if is_conforming_key(s[0].key) {
        nonconforming_entries(s.drop_first())
    } else {
        seq![s[0]] + nonconforming_entries(s.drop_first())
    }
}

/// The split by key shape distributes over appending entry runs.
pub proof fn lemma_split_app(a: Seq<EntryModel>, b: Seq<EntryModel>)
    ensures
        conforming_entries(a + b) == conforming_entries(a) + conforming_entries(b),
        nonconforming_entries(a + b) == nonconforming_entries(a) + nonconforming_entries(b),
    decreases a.len(),
{
    if a.len() == 0 {
        assert(a + b =~= b);
        assert(conforming_entries(a) + conforming_entries(b) =~= conforming_entries(b));
        assert(nonconforming_entries(a) + nonconforming_entries(b) =~= nonconforming_entries(b));
    } else {
        assert((a + b).drop_first() =~= a.drop_first() + b);
        lemma_split_app(a.drop_first(), b);
        assert((a + b)[0] == a[0]);
        if is_conforming_key(a[0].key) {
            assert(seq![a[0]] + (conforming_entries(a.drop_first()) + conforming_entries(b)) =~= (
            seq![a[0]] + conforming_entries(a.drop_first())) + conforming_entries(b));
        } else {
            assert(seq![a[0]] + (nonconforming_entries(a.drop_first()) + nonconforming_entries(b))
                =~= (seq![a[0]] + nonconforming_entries(a.drop_first()))
                + nonconforming_entries(b));
        }
    }
}

/// The two halves of the split carry all of the bytes between them.
pub proof fn lemma_split_bytes(s: Seq<EntryModel>)
    ensures
        spec_total_bytes(conforming_entries(s)) + spec_total_bytes(nonconforming_entries(s))
            == spec_total_bytes(s),
    decreases s.len(),
{
    if s.len() > 0 {
        lemma_split_bytes(s.drop_first());
        if is_conforming_key(s[0].key) {
            lemma_concat_values_app(seq![s[0]], conforming_entries(s.drop_first()));
            lemma_singleton_bytes(s[0]);
        } else {
            lemma_concat_values_app(seq![s[0]], nonconforming_entries(s.drop_first()));
            lemma_singleton_bytes(s[0]);
        }
    }
}

proof fn lemma_split_singleton(e: EntryModel)
    ensures
        is_conforming_key(e.key) ==> conforming_entries(seq![e]) == seq![e]
            && nonconforming_entries(seq![e]) == Seq::<EntryModel>::empty(),
        !is_conforming_key(e.key) ==> nonconforming_entries(seq![e]) == seq![e]
            && conforming_entries(seq![e]) == Seq::<EntryModel>::empty(),
{
    assert(seq![e].drop_first() =~= Seq::<EntryModel>::empty());
    assert(conforming_entries(Seq::<EntryModel>::empty()) == Seq::<EntryModel>::empty());
    assert(nonconforming_entries(Seq::<EntryModel>::empty()) == Seq::<EntryModel>::empty());
    if is_conforming_key(e.key) {
        assert(seq![e] + Seq::<EntryModel>::empty() =~= seq![e]);
    } else {
        assert(seq![e] + Seq::<EntryModel>::empty() =~= seq![e]);
    }
}

/// Both halves of the split draw their keys from `s`.
pub proof fn lemma_split_keys_contained(s: Seq<EntryModel>)
    ensures
        forall|j: int|
            0 <= j < conforming_entries(s).len() ==> spec_contains_key(
                s,
                (#[trigger] conforming_entries(s)[j]).key,
            ),
        forall|j: int|
            0 <= j < nonconforming_entries(s).len() ==> spec_contains_key(
                s,
                (#[trigger] nonconforming_entries(s)[j]).key,
            ),
    decreases s.len(),
{
    if s.len() > 0 {
        let rest = s.drop_first();
        lemma_split_keys_contained(rest);
        assert forall|j: int| 0 <= j < conforming_entries(s).len() implies spec_contains_key(
            s,
            (#[trigger] conforming_entries(s)[j]).key,
        ) by {
            if is_conforming_key(s[0].key) && j == 0 {
                assert(conforming_entries(s)[0] == s[0]);
                assert(s[0].key == s[0].key);
            } else {
                let jr = if is_conforming_key(s[0].key) {
                    j - 1
                } else {
                    j
                };
                assert(conforming_entries(s)[j] == conforming_entries(rest)[jr]);
                let i = choose|i: int|
                    0 <= i < rest.len() && (#[trigger] rest[i].key) == conforming_entries(
                        rest,
                    )[jr].key;
                assert(s[i + 1].key == conforming_entries(s)[j].key);
            }
        }
        assert forall|j: int| 0 <= j < nonconforming_entries(s).len() implies spec_contains_key(
            s,
            (#[trigger] nonconforming_entries(s)[j]).key,
        ) by {
            if !is_conforming_key(s[0].key) && j == 0 {
                assert(nonconforming_entries(s)[0] == s[0]);
                assert(s[0].key == s[0].key);
            } else {
                let jr = if is_conforming_key(s[0].key) {
                    j
                } else {
                    j - 1
                };
                assert(nonconforming_entries(s)[j] == nonconforming_entries(rest)[jr]);
                let i = choose|i: int|
                    0 <= i < rest.len() && (#[trigger] rest[i].key) == nonconforming_entries(
                        rest,
                    )[jr].key;
                assert(s[i + 1].key == nonconforming_entries(s)[j].key);
            }
        }
    }
}

/// The split of a well-keyed run is well-keyed.
pub proof fn lemma_split_distinct(s: Seq<EntryModel>)
    requires
        spec_keys_distinct(s),
    ensures
        spec_keys_distinct(conforming_entries(s)),
        spec_keys_distinct(nonconforming_entries(s)),
    decreases s.len(),
{
    if s.len() > 0 {
        let rest = s.drop_first();
        assert(spec_keys_distinct(rest)) by {
            assert forall|i: int, j: int| 0 <= i < j < rest.len() implies (
            #[trigger] rest[i].key) != (#[trigger] rest[j].key) by {
                assert(rest[i] == s[i + 1] && rest[j] == s[j + 1]);
            }
        }
        lemma_split_distinct(rest);
        lemma_split_keys_contained(rest);
        assert forall|i: int, j: int|
            0 <= i < j < conforming_entries(s).len() implies (#[trigger] conforming_entries(
            s,
        )[i].key) != (#[trigger] conforming_entries(s)[j].key) by {
            if is_conforming_key(s[0].key) && i == 0 {
                let k = conforming_entries(s)[j].key;
                assert(conforming_entries(s)[j] == conforming_entries(rest)[j - 1]);
                let w = choose|w: int| 0 <= w < rest.len() && (#[trigger] rest[w].key) == k;
                assert(s[w + 1].key == k);
                assert(s[0].key != s[w + 1].key);
            } else {
                let d = if is_conforming_key(s[0].key) {
                    1int
                } else {
                    0int
                };
                assert(conforming_entries(s)[i] == conforming_entries(rest)[i - d]);
                assert(conforming_entries(s)[j] == conforming_entries(rest)[j - d]);
            }
        }
        assert forall|i: int, j: int|
            0 <= i < j < nonconforming_entries(s).len() implies (
        #[trigger] nonconforming_entries(s)[i].key) != (#[trigger] nonconforming_entries(
            s,
        )[j].key) by {
            if !is_conforming_key(s[0].key) && i == 0 {
                let k = nonconforming_entries(s)[j].key;
                assert(nonconforming_entries(s)[j] == nonconforming_entries(rest)[j - 1]);
                let w = choose|w: int| 0 <= w < rest.len() && (#[trigger] rest[w].key) == k;
                assert(s[w + 1].key == k);
                assert(s[0].key != s[w + 1].key);
            } else {
                let d = if is_conforming_key(s[0].key) {
                    0int
                } else {
                    1int
                };
                assert(nonconforming_entries(s)[i] == nonconforming_entries(rest)[i - d]);
                assert(nonconforming_entries(s)[j] == nonconforming_entries(rest)[j - d]);
            }
        }
    }
}

/// The store invariant over all three keyspaces.
pub open spec fn stores_wf(m: StoresModel) -> bool {
    &&& spec_keys_distinct(m.intake)
    &&& spec_keys_distinct(m.staging)
    &&& spec_keys_distinct(m.claims)
}

impl Stores {
    /// Three empty keyspaces.
    pub fn new() -> (r: Stores)
        ensures
            r@.intake.len() == 0,
            r@.staging.len() == 0,
            r@.claims.len() == 0,
            stores_wf(r@),
    {
        Stores { intake: Keyspace::new(), staging: Keyspace::new(), claims: Keyspace::new() }
    }
}

/// The producer's only write path: records one descriptor batch in intake
/// under a fresh random key. Refused only when the freshly drawn key is
/// already taken, which a caller may answer by simply retrying.
pub fn deposit(stores: &mut Stores, value: Vec<u8>) -> (r: Result<Vec<u8>, SweepError>)
    ensures
        match r {
            Result::Ok(key) => {
                &&& is_conforming_key(key@)
                &&& !spec_contains_key(old(stores)@.intake, key@)
                &&& final(stores)@.intake == old(stores)@.intake.push(
                    (EntryModel { key: key@, value: value@ }),
                )
                &&& final(stores)@.staging == old(stores)@.staging
                &&& final(stores)@.claims == old(stores)@.claims
                &&& total_bytes(final(stores)@) == total_bytes(old(stores)@) + value@.len()
            },
            Result::Err(e) => e == SweepError::DuplicateKey && final(stores)@ == old(stores)@,
        },
        r is Err ==> old(stores)@.intake.len() > 0,
        stores_wf(old(stores)@) ==> stores_wf(final(stores)@),
{
    let key = fresh_key();
    if stores.intake.contains_key(&key) {
        return Result::Err(SweepError::DuplicateKey);
    }
    let ghost m0 = stores@;
    let key_copy = clone_key(&key);
    let ghost v = value@;
    let ok = stores.intake.write(key_copy, value);
    assert(ok);
    proof {
        let e = EntryModel { key: key@, value: v };
        assert(m0.intake.push(e) =~= m0.intake + seq![e]);
        lemma_concat_values_app(m0.intake, seq![e]);
        lemma_singleton_bytes(e);
    }
    Result::Ok(key)
}

/// Some conforming intake key is already staged, so an atomic relocation
/// would collide.
pub open spec fn staging_collision(m: StoresModel) -> bool {
    exists|i: int|
        0 <= i < m.intake.len() && is_conforming_key(#[trigger] m.intake[i].key)
            && spec_contains_key(m.staging, m.intake[i].key)
}

/// One consolidation tick. When intake is empty this is a no-op. Otherwise
/// every conforming intake entry is relocated through staging, everything
/// staged is concatenated, a non-empty concatenation is committed as one
/// fresh claim-queue entry (whose key is returned), and staging is cleared.
/// Non-conforming intake entries are left untouched. An error means a key
/// collision stopped the tick before it changed anything; the next tick
/// retries and no data is lost either way.
pub fn consolidate_tick(stores: &mut Stores) -> (r: Result<Option<Vec<u8>>, SweepError>)
    ensures
        match r {
            Result::Ok(committed) => {
                &&& total_bytes(final(stores)@) == total_bytes(old(stores)@)
                &&& if old(stores)@.intake.len() == 0 {
                    final(stores)@ == old(stores)@ && committed is None
                } else {
                    let blob = spec_concat_values(
                        old(stores)@.staging + conforming_entries(old(stores)@.intake),
                    );
                    &&& final(stores)@.intake == nonconforming_entries(old(stores)@.intake)
                    &&& final(stores)@.staging.len() == 0
                    &&& match committed {
                        Option::Some(key) => {
                            &&& blob.len() > 0
                            &&& is_conforming_key(key@)
                            &&& !spec_contains_key(old(stores)@.claims, key@)
                            &&& final(stores)@.claims == old(stores)@.claims.push(
                                (EntryModel { key: key@, value: blob }),
                            )
                        },
                        Option::None => blob.len() == 0 && final(stores)@.claims == old(
                            stores,
                        )@.claims,
                    }
                }
            },
            Result::Err(e) => {
                &&& e == SweepError::RelocationFailure
                &&& final(stores)@ == old(stores)@
                &&& old(stores)@.intake.len() > 0
            },
        },
        !staging_collision(old(stores)@) && old(stores)@.claims.len() == 0 ==> r is Ok,
        r is Err ==> staging_collision(old(stores)@) || old(stores)@.claims.len() > 0,
        stores_wf(old(stores)@) ==> stores_wf(final(stores)@),
{
    let ghost m0 = stores@;
    if stores.intake.len() == 0 {
        return Result::Ok(Option::None);
    }
    let n = stores.intake.len();
    let mut kept: Vec<Entry> = Vec::new();
    let mut moved: Vec<Entry> = Vec::new();
    let mut i: usize = 0;
    proof {
        assert(m0.intake.take(0) =~= Seq::<EntryModel>::empty());
        assert(entry_views(kept@) =~= Seq::<EntryModel>::empty());
        assert(entry_views(moved@) =~= Seq::<EntryModel>::empty());
    }
    while i < n
        invariant
            i <= n,
            n == stores@.intake.len(),
            stores@ == m0,
            entry_views(kept@) == nonconforming_entries(m0.intake.take(i as int)),
            entry_views(moved@) == conforming_entries(m0.intake.take(i as int)),
        decreases n - i,
    {
        let entry_key = clone_key(stores.intake.key_at(i));
        let entry_value = clone_bytes(stores.intake.value_at(i));
        let ghost e = m0.intake[i as int];
        proof {
            assert(m0.intake.take((i + 1) as int) =~= m0.intake.take(i as int) + seq![e]);
            lemma_split_app(m0.intake.take(i as int), seq![e]);
            lemma_split_singleton(e);
        }
        if key_conforms(&entry_key) {
            if stores.staging.contains_key(&entry_key) {
                assert(staging_collision(m0));
                return Result::Err(SweepError::RelocationFailure);
            }
            let ghost before = entry_views(moved@);
            moved.push(Entry { key: entry_key, value: entry_value });
            proof {
                assert(entry_views(moved@) =~= before + seq![e]);
            }
        } else {
            let ghost before = entry_views(kept@);
            kept.push(Entry { key: entry_key, value: entry_value });
            proof {
                assert(entry_views(kept@) =~= before + seq![e]);
            }
        }
        i = i + 1;
    }
    proof {
        assert(m0.intake.take(n as int) =~= m0.intake);
    }
    // Everything staged this tick or left from an interrupted tick, in one
    // blob.
    let mut blob = stores.staging.concat_values();
    let ghost staged = m0.staging + conforming_entries(m0.intake);
    let mut j: usize = 0;
    proof {
        assert(entry_views(moved@).take(0) =~= Seq::<EntryModel>::empty());
        assert(spec_concat_values(Seq::<EntryModel>::empty()) == Seq::<u8>::empty());
        assert(blob@ + Seq::<u8>::empty() =~= blob@);
    }
    while j < moved.len()
        invariant
            j <= moved.len(),
            stores@ == m0,
            entry_views(moved@) == conforming_entries(m0.intake),
            blob@ == spec_concat_values(m0.staging) + spec_concat_values(
                entry_views(moved@).take(j as int),
            ),
        decreases moved.len() - j,
    {
        let mut v = clone_bytes(&moved[j].value);
        blob.append(&mut v);
        proof {
            let mv = entry_views(moved@);
            assert(mv.take((j + 1) as int) =~= mv.take(j as int) + seq![mv[j as int]]);
            lemma_concat_values_app(mv.take(j as int), seq![mv[j as int]]);
            lemma_singleton_bytes(mv[j as int]);
            assert(moved@[j as int]@ == mv[j as int]);
        }
        j = j + 1;
    }
    proof {
        let mv = entry_views(moved@);
        assert(mv.take(moved@.len() as int) =~= mv);
        lemma_concat_values_app(m0.staging, conforming_entries(m0.intake));
        assert(blob@ == spec_concat_values(staged));
        lemma_concat_values_len(staged);
        lemma_concat_values_app(m0.staging, conforming_entries(m0.intake));
        lemma_split_bytes(m0.intake);
        lemma_concat_values_len(m0.staging);
        lemma_concat_values_len(conforming_entries(m0.intake));
        lemma_concat_values_len(nonconforming_entries(m0.intake));
    }
    if blob.len() == 0 {
        stores.intake.entries = kept;
        stores.staging.clear();
        proof {
            if stores_wf(m0) {
                lemma_split_distinct(m0.intake);
            }
        }
        return Result::Ok(Option::None);
    }
    let key = fresh_key();
    if stores.claims.contains_key(&key) {
        return Result::Err(SweepError::RelocationFailure);
    }
    let ghost old_claims = stores@.claims;
    stores.intake.entries = kept;
    stores.staging.clear();
    let key_copy = clone_key(&key);
    let ghost b = blob@;
    let ok = stores.claims.write(key_copy, blob);
    assert(ok);
    proof {
        let e = EntryModel { key: key@, value: b };
        assert(old_claims.push(e) =~= old_claims + seq![e]);
        lemma_concat_values_app(old_claims, seq![e]);
        lemma_singleton_bytes(e);
        if stores_wf(m0) {
            lemma_split_distinct(m0.intake);
        }
    }
    Result::Ok(Option::Some(key))
}

/// One claim batch handed to the sweep engine: the entry's key and its
/// decoded descriptors, or `None` when the bytes were not a whole number of
/// valid records.
pub struct ClaimWork {
    pub key: Vec<u8>,
    pub descriptors: Option<Vec<Descriptor>>,
}

/// The sweep half of one tick over the model stores: decodes every claim
/// batch present at the start of the tick, then deletes the entire claim
/// queue — regardless of any batch's outcome — and leaves intake and
/// staging untouched. A batch that fails downstream (wallet, token layer,
/// broadcast) is therefore abandoned for good; the caller decides per batch
/// and per transaction what to do with the returned work.
pub fn sweep_tick(stores: &mut Stores) -> (work: Vec<ClaimWork>)
    ensures
        final(stores)@.intake == old(stores)@.intake,
        final(stores)@.staging == old(stores)@.staging,
        final(stores)@.claims.len() == 0,
        stores_wf(old(stores)@) ==> stores_wf(final(stores)@),
        work@.len() == old(stores)@.claims.len(),
        forall|i: int|
            0 <= i < work@.len() ==> {
                &&& (#[trigger] work@[i]).key@ == old(stores)@.claims[i].key
                &&& match work@[i].descriptors {
                    Option::Some(ds) => spec_decode_all(old(stores)@.claims[i].value)
                        == Option::Some(models_of(ds@)),
                    Option::None => spec_decode_all(old(stores)@.claims[i].value) is None,
                }
            },
{
    let ghost m0 = stores@;
    let mut work: Vec<ClaimWork> = Vec::new();
    let n = stores.claims.len();
    let mut i: usize = 0;
    while i < n
        invariant
            i <= n,
            n == stores@.claims.len(),
            stores@ == m0,
            work@.len() == i,
            forall|k: int|
                0 <= k < i ==> {
                    &&& (#[trigger] work@[k]).key@ == m0.claims[k].key
                    &&& match work@[k].descriptors {
                        Option::Some(ds) => spec_decode_all(m0.claims[k].value) == Option::Some(
                            models_of(ds@),
                        ),
                        Option::None => spec_decode_all(m0.claims[k].value) is None,
                    }
                },
        decreases n - i,
    {
        let key = clone_key(stores.claims.key_at(i));
        let descriptors = match crate::codec::decode_descriptors(stores.claims.value_at(i)) {
            Result::Ok(ds) => Option::Some(ds),
            Result::Err(_) => Option::None,
        };
        work.push(ClaimWork { key, descriptors });
        i = i + 1;
    }
    stores.claims.clear();
    work
}

/// All descriptors of all deposited batches, in deposit order.
pub open spec fn flatten_batches(batches: Seq<Seq<DescModel>>) -> Seq<DescModel>
    decreases batches.len(),
{
    if batches.len() == 0 {
        Seq::empty()
    } else {
        batches[0] + flatten_batches(batches.drop_first())
    }
}

/// How many descriptors the deposited batches hold in all.
pub open spec fn total_descriptors(batches: Seq<Seq<DescModel>>) -> int
    decreases batches.len(),
{
    if batches.len() == 0 {
        0
    } else {
        batches[0].len() + total_descriptors(batches.drop_first())
    }
}

/// Flattening keeps every deposited descriptor, and only those.
pub proof fn lemma_flatten_len(batches: Seq<Seq<DescModel>>)
    ensures
        flatten_batches(batches).len() == total_descriptors(batches),
    decreases batches.len(),
{
    if batches.len() > 0 {
        lemma_flatten_len(batches.drop_first());
    }
}

/// Law: consolidating an intake of independently deposited entries whose
/// values are batch encodings yields one blob that decodes to exactly the
/// concatenation of all the deposited descriptors — the decoded count is
/// the deposited count, however the descriptors were distributed across the
/// entries.
pub proof fn lemma_consolidated_blob_decodes(
    intake: Seq<EntryModel>,
    batches: Seq<Seq<DescModel>>,
)
    requires
        batches.len() == intake.len(),
        forall|i: int| 0 <= i < intake.len() ==> is_conforming_key(#[trigger] intake[i].key),
        forall|i: int|
            0 <= i < intake.len() ==> (#[trigger] intake[i].value) == spec_encode_seq(
                batches[i],
            ),
        forall|i: int, j: int|
            0 <= i < batches.len() && 0 <= j < batches[i].len() ==> valid_descriptor(
                #[trigger] batches[i][j],
            ),
    ensures
        conforming_entries(intake) == intake,
        spec_concat_values(intake) == spec_encode_seq(flatten_batches(batches)),
        spec_decode_all(spec_concat_values(intake)) == Option::Some(flatten_batches(batches)),
        flatten_batches(batches).len() == total_descriptors(batches),
{
    lemma_all_conforming(intake);
    lemma_flatten_len(batches);
    lemma_concat_encodes(intake, batches);
    lemma_flatten_valid(batches);
    crate::codec::lemma_decode_all_of_encode_seq(flatten_batches(batches));
}

proof fn lemma_all_conforming(s: Seq<EntryModel>)
    requires
        forall|i: int| 0 <= i < s.len() ==> is_conforming_key(#[trigger] s[i].key),
    ensures
        conforming_entries(s) == s,
    decreases s.len(),
{
    if s.len() == 0 {
        assert(conforming_entries(s) =~= s);
    } else {
        assert(forall|i: int|
            0 <= i < s.drop_first().len() ==> is_conforming_key(
                #[trigger] s.drop_first()[i].key,
            ));
        lemma_all_conforming(s.drop_first());
        assert(seq![s[0]] + s.drop_first() =~= s);
    }
}

proof fn lemma_concat_encodes(intake: Seq<EntryModel>, batches: Seq<Seq<DescModel>>)
    requires
        batches.len() == intake.len(),
        forall|i: int|
            0 <= i < intake.len() ==> (#[trigger] intake[i].value) == spec_encode_seq(
                batches[i],
            ),
    ensures
        spec_concat_values(intake) == spec_encode_seq(flatten_batches(batches)),
    decreases intake.len(),
{
    if intake.len() == 0 {
        assert(spec_concat_values(intake) =~= spec_encode_seq(flatten_batches(batches)));
    } else {
        assert(forall|i: int|
            0 <= i < intake.drop_first().len() ==> (#[trigger] intake.drop_first()[i].value)
                == spec_encode_seq(batches.drop_first()[i]));
        lemma_concat_encodes(intake.drop_first(), batches.drop_first());
        crate::codec::lemma_encode_seq_concat(
            batches[0],
            flatten_batches(batches.drop_first()),
        );
    }
}

proof fn lemma_flatten_valid(batches: Seq<Seq<DescModel>>)
    requires
        forall|i: int, j: int|
            0 <= i < batches.len() && 0 <= j < batches[i].len() ==> valid_descriptor(
                #[trigger] batches[i][j],
            ),
    ensures
        forall|k: int|
            0 <= k < flatten_batches(batches).len() ==> valid_descriptor(
                #[trigger] flatten_batches(batches)[k],
            ),
    decreases batches.len(),
{
    if batches.len() > 0 {
        assert(forall|i: int, j: int|
            0 <= i < batches.drop_first().len() && 0 <= j < batches.drop_first()[i].len()
                ==> valid_descriptor(#[trigger] batches.drop_first()[i][j]));
        lemma_flatten_valid(batches.drop_first());
        assert forall|k: int| 0 <= k < flatten_batches(batches).len() implies valid_descriptor(
            #[trigger] flatten_batches(batches)[k],
        ) by {
            if k < batches[0].len() {
                assert(flatten_batches(batches)[k] == batches[0][k]);
            } else {
                assert(flatten_batches(batches)[k] == flatten_batches(batches.drop_first())[k
                    - batches[0].len()]);
            }
        }
    }
}

} // verus!
