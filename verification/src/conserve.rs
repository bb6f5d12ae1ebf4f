//! Crash safety of consolidation, stated over the atomic transitions of the
//! durable stores. A run of the pipeline before any sweep-tick cleanup is a
//! sequence of deposits and consolidation steps — relocations, one commit,
//! one staging wipe per tick — and a crash is simply a stop after any
//! prefix of those steps. The law at the end says that no prefix ever holds
//! fewer bytes than were deposited: an interrupted consolidation may leave
//! a descriptor batch staged twice, never lost.

use crate::keys::is_conforming_key;
use crate::pipeline::{
    conforming_entries, lemma_split_app, nonconforming_entries, staging_collision, total_bytes,
    StoresModel,
};
use crate::store::{
    lemma_concat_values_app, lemma_concat_values_len, lemma_singleton_bytes, spec_concat_values,
    spec_contains_key, spec_keys_distinct, spec_total_bytes, EntryModel,
};
use vstd::prelude::*;

verus! {

/// One atomic transition of the durable stores.
pub enum SweepOp {
    /// A producer records a batch in intake under a fresh conforming key.
    Deposit { key: Seq<u8>, value: Seq<u8> },
    /// The consolidator atomically moves one conforming intake entry into
    /// staging.
    Relocate { key: Seq<u8> },
    /// The consolidator writes everything staged, concatenated, as one new
    /// claim-queue entry; staging itself is untouched by this step.
    Commit { key: Seq<u8> },
    /// The consolidator deletes the whole staging keyspace. The pipeline
    /// only does this right after a commit, or when staging holds no bytes.
    Wipe,
}

/// Where the entry keyed `key` stands in `s`.
pub open spec fn index_of_key(s: Seq<EntryModel>, key: Seq<u8>) -> int {
    choose|i: int| 0 <= i < s.len() && (#[trigger] s[i].key) == key
}

/// The state after one atomic transition, or `None` where the store would
/// refuse it (a missing or colliding key, a commit of nothing).
pub open spec fn apply_op(m: StoresModel, op: SweepOp) -> Option<StoresModel> {
    match op {
        SweepOp::Deposit { key, value } => if is_conforming_key(key) && !spec_contains_key(
            m.intake,
            key,
        ) {
            Option::Some(
                (StoresModel {
                    intake: m.intake.push((EntryModel { key, value })),
                    ..m
                }),
            )
        } else {
            Option::None
        },
        SweepOp::Relocate { key } => if is_conforming_key(key) && spec_contains_key(m.intake, key)
            && !spec_contains_key(m.staging, key) {
            let i = index_of_key(m.intake, key);
            Option::Some(
                (StoresModel {
                    intake: m.intake.remove(i),
                    staging: m.staging.push(m.intake[i]),
                    ..m
                }),
            )
        } else {
            Option::None
        },
        SweepOp::Commit { key } => if spec_concat_values(m.staging).len() > 0
            && !spec_contains_key(m.claims, key) {
            Option::Some(
                (StoresModel {
                    claims: m.claims.push(
                        (EntryModel { key, value: spec_concat_values(m.staging) }),
                    ),
                    ..m
                }),
            )
        } else {
            Option::None
        },
        SweepOp::Wipe => Option::Some((StoresModel { staging: Seq::empty(), ..m })),
    }
}

/// The state after a whole run of transitions.
pub open spec fn apply_ops(m: StoresModel, ops: Seq<SweepOp>) -> Option<StoresModel>
    decreases ops.len(),
{
    if ops.len() == 0 {
        Option::Some(m)
    } else {
        match apply_op(m, ops[0]) {
            Option::None => Option::None,
            Option::Some(m2) => apply_ops(m2, ops.drop_first()),
        }
    }
}

/// A run the pipeline can actually perform from `m`: every transition is
/// accepted, and staging is only wiped right after a commit or when it
/// holds no bytes. `after_commit` says whether the step before the first of
/// `ops` was a commit.
pub open spec fn valid_from(m: StoresModel, ops: Seq<SweepOp>, after_commit: bool) -> bool
    decreases ops.len(),
{
    ops.len() == 0 || {
        &&& (ops[0] is Wipe ==> after_commit || spec_total_bytes(m.staging) == 0)
        &&& match apply_op(m, ops[0]) {
            Option::None => false,
            Option::Some(m2) => valid_from(m2, ops.drop_first(), ops[0] is Commit),
        }
    }
}

/// A run the pipeline can perform from `m` starting outside a tick.
pub open spec fn valid_trace(m: StoresModel, ops: Seq<SweepOp>) -> bool {
    valid_from(m, ops, false)
}

/// The bytes that the deposits of `ops` brought in.
pub open spec fn deposited_bytes(ops: Seq<SweepOp>) -> int
    decreases ops.len(),
{
    if ops.len() == 0 {
        0
    } else {
        (match ops[0] {
            SweepOp::Deposit { value, .. } => value.len() as int,
            _ => 0,
        }) + deposited_bytes(ops.drop_first())
    }
}

proof fn lemma_total_push(s: Seq<EntryModel>, e: EntryModel)
    ensures
        spec_total_bytes(s.push(e)) == spec_total_bytes(s) + e.value.len(),
{
    assert(s.push(e) =~= s + seq![e]);
    lemma_concat_values_app(s, seq![e]);
    lemma_singleton_bytes(e);
}

proof fn lemma_total_remove(s: Seq<EntryModel>, i: int)
    requires
        0 <= i < s.len(),
    ensures
        spec_total_bytes(s.remove(i)) == spec_total_bytes(s) - s[i].value.len(),
{
    assert(s =~= s.take(i) + (seq![s[i]] + s.skip(i + 1)));
    lemma_concat_values_app(s.take(i), seq![s[i]] + s.skip(i + 1));
    lemma_concat_values_app(seq![s[i]], s.skip(i + 1));
    lemma_singleton_bytes(s[i]);
    assert(s.remove(i) =~= s.take(i) + s.skip(i + 1));
    lemma_concat_values_app(s.take(i), s.skip(i + 1));
}

proof fn lemma_no_byte_loss_rec(
    base: int,
    dep: int,
    m: StoresModel,
    ops: Seq<SweepOp>,
    after_commit: bool,
    i: int,
)
    requires
        valid_from(m, ops, after_commit),
        total_bytes(m) >= base + dep,
        after_commit ==> total_bytes(m) >= base + dep + spec_total_bytes(m.staging),
        0 <= i <= ops.len(),
    ensures
        apply_ops(m, ops.take(i)) is Some,
        total_bytes(apply_ops(m, ops.take(i))->0) >= base + dep + deposited_bytes(ops.take(i)),
    decreases i,
{
    if i == 0 {
        assert(ops.take(0) =~= Seq::<SweepOp>::empty());
    } else {
        let op = ops[0];
        let m2 = apply_op(m, op)->0;
        let dep2 = dep + (match op {
            SweepOp::Deposit { value, .. } => value.len() as int,
            _ => 0,
        });
        match op {
            SweepOp::Deposit { key, value } => {
                lemma_total_push(m.intake, EntryModel { key, value });
            },
            SweepOp::Relocate { key } => {
                let ix = index_of_key(m.intake, key);
                lemma_total_remove(m.intake, ix);
                lemma_total_push(m.staging, m.intake[ix]);
            },
            SweepOp::Commit { key } => {
                lemma_total_push(
                    m.claims,
                    EntryModel { key, value: spec_concat_values(m.staging) },
                );
                lemma_concat_values_len(m.staging);
            },
            SweepOp::Wipe => {
                if !after_commit {
                    assert(spec_total_bytes(m.staging) == 0);
                }
                assert(spec_total_bytes(Seq::<EntryModel>::empty()) == 0);
            },
        }
        assert(total_bytes(m2) >= base + dep2);
        assert(op is Commit ==> total_bytes(m2) >= base + dep2 + spec_total_bytes(m2.staging));
        lemma_no_byte_loss_rec(base, dep2, m2, ops.drop_first(), op is Commit, i - 1);
        assert(ops.take(i).drop_first() =~= ops.drop_first().take(i - 1));
        assert(ops.take(i)[0] == op);
        assert(deposited_bytes(ops.take(i)) == (dep2 - dep) + deposited_bytes(
            ops.drop_first().take(i - 1),
        ));
    }
}

/// Where the first conforming key of `s` stands (the length of `s` when
/// none does).
spec fn first_conforming(s: Seq<EntryModel>) -> int
    decreases s.len(),
{
    if s.len() == 0 {
        0
    } else if is_conforming_key(s[0].key) {
        0
    } else {
        1 + first_conforming(s.drop_first())
    }
}

proof fn lemma_first_conforming(s: Seq<EntryModel>)
    ensures
        0 <= first_conforming(s) <= s.len(),
        conforming_entries(s).len() > 0 ==> first_conforming(s) < s.len(),
        conforming_entries(s).len() > 0 ==> is_conforming_key(s[first_conforming(s)].key),
        conforming_entries(s).len() > 0 ==> conforming_entries(s)[0] == s[first_conforming(s)],
        forall|k: int| 0 <= k < first_conforming(s) ==> !is_conforming_key(#[trigger] s[k].key),
        conforming_entries(s).len() == 0 ==> nonconforming_entries(s) == s,
    decreases s.len(),
{
    if s.len() > 0 {
        lemma_first_conforming(s.drop_first());
        if !is_conforming_key(s[0].key) {
            assert(forall|k: int|
                0 <= k < first_conforming(s.drop_first()) ==> !is_conforming_key(
                    (#[trigger] s.drop_first()[k]).key,
                ));
            assert forall|k: int| 0 <= k < first_conforming(s) implies !is_conforming_key(
                (#[trigger] s[k]).key,
            ) by {
                if k > 0 {
                    assert(s[k] == s.drop_first()[k - 1]);
                }
            }
            if conforming_entries(s).len() == 0 {
                assert(seq![s[0]] + nonconforming_entries(s.drop_first()) =~= s);
            }
        }
    }
}

/// Removing the first conforming entry drops the head of the conforming
/// half and leaves the other half alone.
proof fn lemma_remove_first_conforming(s: Seq<EntryModel>)
    requires
        conforming_entries(s).len() > 0,
    ensures
        conforming_entries(s.remove(first_conforming(s))) == conforming_entries(s).drop_first(),
        nonconforming_entries(s.remove(first_conforming(s))) == nonconforming_entries(s),
{
    lemma_first_conforming(s);
    let i = first_conforming(s);
    let pre = s.take(i);
    let post = s.skip(i + 1);
    assert(s =~= pre + (seq![s[i]] + post));
    lemma_split_app(pre, seq![s[i]] + post);
    lemma_split_app(seq![s[i]], post);
    lemma_split_prefix_nonconforming(pre);
    lemma_split_one(s[i]);
    assert(s.remove(i) =~= pre + post);
    lemma_split_app(pre, post);
    assert(conforming_entries(s) =~= seq![s[i]] + conforming_entries(post));
    assert(conforming_entries(s).drop_first() =~= conforming_entries(post));
    assert(conforming_entries(s.remove(i)) =~= conforming_entries(post));
    assert(nonconforming_entries(s.remove(i)) =~= pre + nonconforming_entries(post));
    assert(nonconforming_entries(s) =~= pre + nonconforming_entries(post));
}

proof fn lemma_split_prefix_nonconforming(s: Seq<EntryModel>)
    requires
        forall|k: int| 0 <= k < s.len() ==> !is_conforming_key(#[trigger] s[k].key),
    ensures
        conforming_entries(s) == Seq::<EntryModel>::empty(),
        nonconforming_entries(s) == s,
    decreases s.len(),
{
    if s.len() > 0 {
        assert(forall|k: int|
            0 <= k < s.drop_first().len() ==> !is_conforming_key(
                (#[trigger] s.drop_first()[k]).key,
            ));
        lemma_split_prefix_nonconforming(s.drop_first());
        assert(seq![s[0]] + s.drop_first() =~= s);
    }
}

proof fn lemma_split_one(e: EntryModel)
    ensures
        is_conforming_key(e.key) ==> conforming_entries(seq![e]) == seq![e]
            && nonconforming_entries(seq![e]) == Seq::<EntryModel>::empty(),
        !is_conforming_key(e.key) ==> nonconforming_entries(seq![e]) == seq![e]
            && conforming_entries(seq![e]) == Seq::<EntryModel>::empty(),
{
    assert(seq![e].drop_first() =~= Seq::<EntryModel>::empty());
    assert(conforming_entries(Seq::<EntryModel>::empty()) == Seq::<EntryModel>::empty());
    assert(nonconforming_entries(Seq::<EntryModel>::empty()) == Seq::<EntryModel>::empty());
    assert(seq![e] + Seq::<EntryModel>::empty() =~= seq![e]);
}

proof fn lemma_distinct_remove(s: Seq<EntryModel>, i: int)
    requires
        spec_keys_distinct(s),
        0 <= i < s.len(),
    ensures
        spec_keys_distinct(s.remove(i)),
        forall|x: int|
            0 <= x < s.remove(i).len() ==> (#[trigger] s.remove(i)[x]) == (if x < i {
                s[x]
            } else {
                s[x + 1]
            }),
{
    assert forall|x: int| 0 <= x < s.remove(i).len() implies (#[trigger] s.remove(i)[x]) == (
    if x < i {
        s[x]
    } else {
        s[x + 1]
    }) by {}
    assert forall|x: int, y: int| 0 <= x < y < s.remove(i).len() implies (#[trigger] s.remove(
        i,
    )[x].key) != (#[trigger] s.remove(i)[y].key) by {
        let sx: int = if x < i {
            x
        } else {
            x + 1
        };
        let sy: int = if y < i {
            y
        } else {
            y + 1
        };
        assert(s.remove(i)[x] == s[sx] && s.remove(i)[y] == s[sy]);
        assert(s[sx].key != s[sy].key);
    }
}

/// The relocations of one tick, first conforming entry first: a run the
/// transition system accepts, ending with intake split and everything
/// conforming appended to staging.
proof fn build_relocations(m: StoresModel) -> (ops: Seq<SweepOp>)
    requires
        spec_keys_distinct(m.intake),
        !staging_collision(m),
    ensures
        valid_from(m, ops, false),
        deposited_bytes(ops) == 0,
        forall|x: int| 0 <= x < ops.len() ==> (#[trigger] ops[x]) is Relocate,
        apply_ops(m, ops) == Option::Some(
            (StoresModel {
                intake: nonconforming_entries(m.intake),
                staging: m.staging + conforming_entries(m.intake),
                claims: m.claims,
            }),
        ),
    decreases conforming_entries(m.intake).len(),
{
    lemma_first_conforming(m.intake);
    if conforming_entries(m.intake).len() == 0 {
        let ops = Seq::<SweepOp>::empty();
        assert(m.staging + conforming_entries(m.intake) =~= m.staging);
        assert(StoresModel {
            intake: nonconforming_entries(m.intake),
            staging: m.staging + conforming_entries(m.intake),
            claims: m.claims,
        } =~= m);
        ops
    } else {
        let i = first_conforming(m.intake);
        let e = m.intake[i];
        let op0 = SweepOp::Relocate { key: e.key };
        assert(spec_contains_key(m.intake, e.key));
        assert(!spec_contains_key(m.staging, e.key));
        let ci = index_of_key(m.intake, e.key);
        assert(0 <= ci < m.intake.len() && m.intake[ci].key == e.key);
        assert(ci == i) by {
            if ci != i {
                assert(m.intake[ci].key != m.intake[i].key);
            }
        }
        let m2 = StoresModel {
            intake: m.intake.remove(i),
            staging: m.staging.push(e),
            ..m
        };
        assert(apply_op(m, op0) == Option::Some(m2));
        lemma_remove_first_conforming(m.intake);
        lemma_distinct_remove(m.intake, i);
        assert(!staging_collision(m2)) by {
            assert forall|x: int|
                0 <= x < m2.intake.len() && is_conforming_key(
                    #[trigger] m2.intake[x].key,
                ) implies !spec_contains_key(m2.staging, m2.intake[x].key) by {
                let sx: int = if x < i {
                    x
                } else {
                    x + 1
                };
                assert(m2.intake[x] == m.intake[sx]);
                assert(!spec_contains_key(m.staging, m.intake[sx].key));
                assert(m.intake[sx].key != e.key);
                assert forall|w: int|
                    0 <= w < m2.staging.len() implies (#[trigger] m2.staging[w].key)
                    != m2.intake[x].key by {
                    if w < m.staging.len() {
                        assert(m2.staging[w] == m.staging[w]);
                    } else {
                        assert(m2.staging[w] == e);
                    }
                }
            }
        }
        let rest = build_relocations(m2);
        let ops = seq![op0] + rest;
        assert(ops.drop_first() =~= rest);
        assert(ops[0] == op0);
        assert(valid_from(m, ops, false));
        assert(apply_ops(m, ops) == apply_ops(m2, rest));
        assert(m.staging.push(e) + conforming_entries(m.intake.remove(i)) =~= m.staging
            + conforming_entries(m.intake)) by {
            assert(conforming_entries(m.intake) =~= seq![e] + conforming_entries(
                m.intake,
            ).drop_first());
        }
        assert(StoresModel {
            intake: nonconforming_entries(m2.intake),
            staging: m2.staging + conforming_entries(m2.intake),
            claims: m2.claims,
        } =~= StoresModel {
            intake: nonconforming_entries(m.intake),
            staging: m.staging + conforming_entries(m.intake),
            claims: m.claims,
        });
        ops
    }
}

/// Whether the step before the ops that follow `a` is a commit.
spec fn flag_after(a: Seq<SweepOp>, ac: bool) -> bool {
    if a.len() == 0 {
        ac
    } else {
        a.last() is Commit
    }
}

proof fn lemma_apply_ops_app(m: StoresModel, a: Seq<SweepOp>, b: Seq<SweepOp>)
    ensures
        apply_ops(m, a + b) == (match apply_ops(m, a) {
            Option::None => Option::None::<StoresModel>,
            Option::Some(mm) => apply_ops(mm, b),
        }),
    decreases a.len(),
{
    if a.len() == 0 {
        assert(a + b =~= b);
    } else {
        assert((a + b)[0] == a[0]);
        assert((a + b).drop_first() =~= a.drop_first() + b);
        match apply_op(m, a[0]) {
            Option::None => {},
            Option::Some(m2) => {
                lemma_apply_ops_app(m2, a.drop_first(), b);
            },
        }
    }
}

proof fn lemma_valid_from_app(m: StoresModel, a: Seq<SweepOp>, b: Seq<SweepOp>, ac: bool)
    requires
        valid_from(m, a, ac),
        apply_ops(m, a) matches Option::Some(mm) && valid_from(mm, b, flag_after(a, ac)),
    ensures
        valid_from(m, a + b, ac),
    decreases a.len(),
{
    if a.len() == 0 {
        assert(a + b =~= b);
    } else {
        assert((a + b)[0] == a[0]);
        assert((a + b).drop_first() =~= a.drop_first() + b);
        let m2 = apply_op(m, a[0])->0;
        assert(flag_after(a.drop_first(), a[0] is Commit) == flag_after(a, ac)) by {
            if a.len() > 1 {
                assert(a.drop_first().last() == a.last());
            }
        }
        lemma_valid_from_app(m2, a.drop_first(), b, a[0] is Commit);
    }
}

proof fn lemma_deposited_app(a: Seq<SweepOp>, b: Seq<SweepOp>)
    ensures
        deposited_bytes(a + b) == deposited_bytes(a) + deposited_bytes(b),
    decreases a.len(),
{
    if a.len() == 0 {
        assert(a + b =~= b);
    } else {
        assert((a + b)[0] == a[0]);
        assert((a + b).drop_first() =~= a.drop_first() + b);
        lemma_deposited_app(a.drop_first(), b);
    }
}

/// A whole crash-free consolidation — every conforming intake entry
/// relocated, the staged bytes committed under a fresh key, staging wiped —
/// is a run the transition system accepts, and it ends exactly in the state
/// the consolidation tick's contract names. The no-byte-loss law therefore
/// speaks about every prefix of a real tick.
pub proof fn lemma_consolidation_is_a_trace(m: StoresModel, key: Seq<u8>) -> (ops: Seq<SweepOp>)
    requires
        spec_keys_distinct(m.intake),
        !staging_collision(m),
        spec_concat_values(m.staging + conforming_entries(m.intake)).len() > 0,
        !spec_contains_key(m.claims, key),
    ensures
        valid_trace(m, ops),
        deposited_bytes(ops) == 0,
        apply_ops(m, ops) == Option::Some(
            (StoresModel {
                intake: nonconforming_entries(m.intake),
                staging: Seq::empty(),
                claims: m.claims.push(
                    (EntryModel {
                        key,
                        value: spec_concat_values(m.staging + conforming_entries(m.intake)),
                    }),
                ),
            }),
        ),
{
    let rel = build_relocations(m);
    let mid = apply_ops(m, rel)->0;
    let blob = spec_concat_values(m.staging + conforming_entries(m.intake));
    let cw = seq![SweepOp::Commit { key }, SweepOp::Wipe];
    let committed = StoresModel { claims: mid.claims.push(EntryModel { key, value: blob }), ..mid };
    let done = StoresModel { staging: Seq::<EntryModel>::empty(), ..committed };
    assert(apply_op(mid, cw[0]) == Option::Some(committed));
    assert(apply_op(committed, cw[1]) == Option::Some(done));
    assert(cw.drop_first() =~= seq![SweepOp::Wipe]);
    assert(seq![SweepOp::Wipe].drop_first() =~= Seq::<SweepOp>::empty());
    assert(seq![SweepOp::Wipe][0] == SweepOp::Wipe);
    assert(valid_from(done, Seq::<SweepOp>::empty(), false));
    assert(apply_ops(done, Seq::<SweepOp>::empty()) == Option::Some(done));
    assert(valid_from(committed, seq![SweepOp::Wipe], true));
    assert(valid_from(mid, cw, flag_after(rel, false))) by {
        if rel.len() > 0 {
            assert(!(rel.last() is Commit));
        }
    }
    let ops = rel + cw;
    lemma_valid_from_app(m, rel, cw, false);
    lemma_apply_ops_app(m, rel, cw);
    lemma_deposited_app(rel, cw);
    assert(deposited_bytes(Seq::<SweepOp>::empty()) == 0);
    assert(deposited_bytes(seq![SweepOp::Wipe]) == 0);
    assert(deposited_bytes(cw) == 0);
    assert(apply_ops(mid, cw) == apply_ops(committed, seq![SweepOp::Wipe]));
    assert(apply_ops(committed, seq![SweepOp::Wipe]) == Option::Some(done));
    assert(done =~= StoresModel {
        intake: nonconforming_entries(m.intake),
        staging: Seq::empty(),
        claims: m.claims.push((EntryModel { key, value: blob })),
    });
    ops
}

/// Law: deposits interleaved with consolidation steps never lose a byte.
/// After any prefix of a run the pipeline can perform — a simulated crash
/// at any point before a sweep-tick cleanup — the bytes held across
/// intake, staging and claim queue together are at least the bytes held at
/// the start plus everything deposited since.
pub proof fn lemma_no_byte_loss(m: StoresModel, ops: Seq<SweepOp>, i: int)
    requires
        valid_trace(m, ops),
        0 <= i <= ops.len(),
    ensures
        apply_ops(m, ops.take(i)) is Some,
        total_bytes(apply_ops(m, ops.take(i))->0) >= total_bytes(m) + deposited_bytes(
            ops.take(i),
        ),
{
    lemma_no_byte_loss_rec(total_bytes(m), 0, m, ops, false, i);
}

} // verus!
