//! The sweep engine's decisions. The outside work of a sweep — resolving a
//! destination key, querying the fee rate and chain height, signing,
//! dry-running the token layer, publishing proofs and broadcasting — is
//! performed by the caller; this module decides, from the outcomes handed
//! back, how descriptors are grouped into transactions, which locktime a
//! sweep transaction carries, and which transactions are still broadcast.

use crate::descriptor::{token_of, Descriptor};
use vstd::prelude::*;

verus! {

/// Block heights from this value up cannot be expressed as a height
/// locktime; the neutral zero locktime is used instead.
pub const LOCKTIME_HEIGHT_LIMIT: u32 = 500_000_000;

/// The anti-fee-sniping locktime for a sweep built at `height`.
pub open spec fn spec_locktime(height: u32) -> u32 {
    if height < LOCKTIME_HEIGHT_LIMIT {
        height
    } else {
        0
    }
}

/// The locktime of every transaction of a sweep attempt: the current chain
/// height, to discourage fee-sniping, or zero where the height cannot be
/// expressed as a locktime.
pub fn locktime_for_height(height: u32) -> (lt: u32)
    ensures
        lt == spec_locktime(height),
{
    if height < LOCKTIME_HEIGHT_LIMIT {
        height
    } else {
        0
    }
}

/// One planned transaction of a sweep attempt: the indices of the decoded
/// descriptors it spends, all of one token classification.
pub struct TokenGroup {
    pub token: Option<u32>,
    pub members: Vec<usize>,
}

fn same_token(a: &Option<u32>, b: &Option<u32>) -> (r: bool)
    ensures
        r == (*a == *b),
{
    match (a, b) {
        (Option::None, Option::None) => true,
        (Option::Some(x), Option::Some(y)) => *x == *y,
        _ => false,
    }
}

/// Where a descriptor of classification `tok` first stands in `descs`
/// (the length of `descs` when none does).
pub open spec fn first_index_with(descs: Seq<Descriptor>, tok: Option<u32>) -> int
    decreases descs.len(),
{
    if descs.len() == 0 {
        0
    } else if token_of(descs[0]@) == tok {
        0
    } else {
        1 + first_index_with(descs.drop_first(), tok)
    }
}

/// The first index is exactly the earliest position carrying `tok`.
proof fn lemma_first_index_is(descs: Seq<Descriptor>, tok: Option<u32>, j: int)
    requires
        0 <= j < descs.len(),
        token_of(descs[j]@) == tok,
        forall|k: int| 0 <= k < j ==> token_of((#[trigger] descs[k])@) != tok,
    ensures
        first_index_with(descs, tok) == j,
    decreases j,
{
    if j > 0 {
        let rest = descs.drop_first();
        assert(forall|k: int|
            0 <= k < j - 1 ==> token_of((#[trigger] rest[k])@) != tok);
        assert(rest[j - 1] == descs[j]);
        lemma_first_index_is(rest, tok, j - 1);
    }
}

/// Descriptor `i` is listed in some group.
pub open spec fn group_covers(groups: Seq<TokenGroup>, i: int) -> bool {
    exists|g: int, j: int|
        0 <= g < groups.len() && 0 <= j < groups[g].members@.len() && groups[g].members@[j] == i
}

/// Classification `tokens[t]` is attached to some descriptor of `descs`.
pub open spec fn classification_occurs(
    descs: Seq<Descriptor>,
    tokens: Seq<Option<u32>>,
    t: int,
) -> bool {
    exists|k: int| 0 <= k < descs.len() && token_of(#[trigger] descs[k]@) == tokens[t]
}

/// The distinct token classifications among `descs`, in order of first
/// appearance.
#[verifier::rlimit(50)]
fn distinct_tokens(descs: &Vec<Descriptor>) -> (tokens: Vec<Option<u32>>)
    ensures
        forall|a: int, b: int|
            0 <= a < b < tokens@.len() ==> (#[trigger] tokens@[a]) != (#[trigger] tokens@[b]),
        forall|k: int|
            0 <= k < descs@.len() ==> exists|t: int|
                0 <= t < tokens@.len() && tokens@[t] == token_of(#[trigger] descs@[k]@),
        forall|t: int|
            0 <= t < tokens@.len() ==> classification_occurs(descs@, tokens@, t),
        forall|a: int, b: int|
            #![trigger tokens@[a], tokens@[b]]
            0 <= a < b < tokens@.len() ==> first_index_with(descs@, tokens@[a])
                < first_index_with(descs@, tokens@[b]),
{
    let n = descs.len();
    let mut tokens: Vec<Option<u32>> = Vec::new();
    let mut i: usize = 0;
    // Ghost witnesses: `wit[t]` is the first descriptor of classification
    // `tokens[t]`, and `tmap[k]` is where descriptor `k`'s classification
    // stands in `tokens`.
    let ghost mut wit: Seq<int> = Seq::empty();
    let ghost mut tmap: Seq<int> = Seq::empty();
    while i < n
        invariant
            i <= n,
            n == descs@.len(),
            forall|a: int, b: int|
                0 <= a < b < tokens@.len() ==> (#[trigger] tokens@[a]) != (#[trigger] tokens@[b]),
            wit.len() == tokens@.len(),
            forall|t: int|
                0 <= t < tokens@.len() ==> 0 <= #[trigger] wit[t] < i && token_of(
                    descs@[wit[t]]@,
                ) == tokens@[t],
            forall|t: int|
                0 <= t < tokens@.len() ==> #[trigger] wit[t] == first_index_with(
                    descs@,
                    tokens@[t],
                ),
            forall|a: int, b: int|
                0 <= a < b < tokens@.len() ==> (#[trigger] wit[a]) < (#[trigger] wit[b]),
            tmap.len() == i,
            forall|k: int|
                0 <= k < i ==> 0 <= #[trigger] tmap[k] < tokens@.len() && tokens@[tmap[k]]
                    == token_of(descs@[k]@),
        decreases n - i,
    {
        let tok = descs[i].token_class();
        let mut found: Option<usize> = Option::None;
        let mut t: usize = 0;
        while t < tokens.len()
            invariant
                t <= tokens@.len(),
                match found {
                    Option::Some(a) => a < t && tokens@[a as int] == tok,
                    Option::None => forall|a: int| 0 <= a < t ==> (#[trigger] tokens@[a]) != tok,
                },
            decreases tokens@.len() - t,
        {
            if same_token(&tokens[t], &tok) {
                found = Option::Some(t);
                assert(tokens@[t as int] == tok);
            }
            t = t + 1;
        }
        match found {
            Option::Some(a) => {
                proof {
                    tmap = tmap.push(a as int);
                }
            },
            Option::None => {
                let ghost prior = tokens@;
                tokens.push(tok);
                proof {
                    assert forall|k: int| 0 <= k < i implies token_of(
                        (#[trigger] descs@[k])@,
                    ) != tok by {
                        assert(prior[tmap[k]] == token_of(descs@[k]@));
                    }
                    lemma_first_index_is(descs@, tok, i as int);
                    wit = wit.push(i as int);
                    tmap = tmap.push(tokens@.len() - 1);
                    assert(tokens@[tokens@.len() - 1] == tok);
                }
            },
        }
        i = i + 1;
    }
    proof {
        assert forall|k: int| 0 <= k < descs@.len() implies exists|t: int|
            0 <= t < tokens@.len() && tokens@[t] == token_of(#[trigger] descs@[k]@) by {
            assert(0 <= tmap[k] < tokens@.len() && tokens@[tmap[k]] == token_of(descs@[k]@));
        }
        assert forall|t: int| 0 <= t < tokens@.len() implies classification_occurs(
            descs@,
            tokens@,
            t,
        ) by {
            assert(0 <= wit[t] < descs@.len() && token_of(descs@[wit[t]]@) == tokens@[t]);
        }
        assert forall|a: int, b: int|
            #![trigger tokens@[a], tokens@[b]]
            0 <= a < b < tokens@.len() implies first_index_with(descs@, tokens@[a])
            < first_index_with(descs@, tokens@[b]) by {
            assert(wit[a] < wit[b]);
        }
    }
    tokens
}

/// The indices of the descriptors of classification `tok`, in batch order.
fn members_of_token(descs: &Vec<Descriptor>, tok: Option<u32>) -> (members: Vec<usize>)
    ensures
        forall|j: int|
            0 <= j < members@.len() ==> {
                &&& (#[trigger] members@[j]) < descs@.len()
                &&& token_of(descs@[members@[j] as int]@) == tok
            },
        forall|j1: int, j2: int|
            0 <= j1 < j2 < members@.len() ==> (#[trigger] members@[j1]) < (
            #[trigger] members@[j2]),
        forall|m: int|
            0 <= m < descs@.len() && token_of(#[trigger] descs@[m]@) == tok ==> exists|j: int|
                0 <= j < members@.len() && members@[j] == m,
        members@.len() > 0 ==> members@[0] == first_index_with(descs@, tok),
{
    let n = descs.len();
    let mut members: Vec<usize> = Vec::new();
    let mut k: usize = 0;
    while k < n
        invariant
            k <= n,
            n == descs@.len(),
            forall|j: int|
                0 <= j < members@.len() ==> {
                    &&& (#[trigger] members@[j]) < k
                    &&& token_of(descs@[members@[j] as int]@) == tok
                },
            forall|j1: int, j2: int|
                0 <= j1 < j2 < members@.len() ==> (#[trigger] members@[j1]) < (
                #[trigger] members@[j2]),
            forall|m: int|
                0 <= m < k && token_of(#[trigger] descs@[m]@) == tok ==> exists|j: int|
                    0 <= j < members@.len() && members@[j] == m,
            members@.len() > 0 ==> members@[0] == first_index_with(descs@, tok),
        decreases n - k,
    {
        let tk = descs[k].token_class();
        let ghost before = members@;
        if same_token(&tk, &tok) {
            proof {
                if before.len() == 0 {
                    assert forall|m: int| 0 <= m < k implies token_of(
                        (#[trigger] descs@[m])@,
                    ) != tok by {
                        if token_of(descs@[m]@) == tok {
                            assert(exists|j: int| 0 <= j < before.len() && before[j] == m);
                        }
                    }
                    lemma_first_index_is(descs@, tok, k as int);
                }
            }
            members.push(k);
            assert(members@[members@.len() - 1] == k);
            assert(members@[0] == before.push(k as usize)[0]);
        }
        proof {
            assert forall|m: int|
                0 <= m < k + 1 && token_of(#[trigger] descs@[m]@) == tok implies exists|j: int|
                0 <= j < members@.len() && members@[j] == m by {
                if m < k {
                    let j0 = choose|j0: int| 0 <= j0 < before.len() && before[j0] == m;
                    assert(members@[j0] == m);
                } else {
                    assert(members@[members@.len() - 1] == m);
                }
            }
        }
        k = k + 1;
    }
    members
}

/// Splits a decoded batch into transaction groups: descriptors of different
/// token classifications cannot share one spend transaction. Every
/// descriptor lands in exactly one group, groups carry distinct
/// classifications and stand in order of first appearance, and each group
/// lists its descriptors in batch order.
pub fn partition_by_token(descs: &Vec<Descriptor>) -> (groups: Vec<TokenGroup>)
    ensures
        forall|g: int| 0 <= g < groups@.len() ==> (#[trigger] groups@[g]).members@.len() > 0,
        forall|g: int, j: int|
            0 <= g < groups@.len() && 0 <= j < groups@[g].members@.len() ==> {
                &&& (#[trigger] groups@[g].members@[j]) < descs@.len()
                &&& token_of(descs@[groups@[g].members@[j] as int]@) == groups@[g].token
            },
        forall|g: int, j1: int, j2: int|
            0 <= g < groups@.len() && 0 <= j1 < j2 < groups@[g].members@.len()
                ==> (#[trigger] groups@[g].members@[j1]) < (#[trigger] groups@[g].members@[j2]),
        forall|g1: int, g2: int|
            0 <= g1 < g2 < groups@.len() ==> (#[trigger] groups@[g1].token) != (
            #[trigger] groups@[g2].token),
        forall|i: int| 0 <= i < descs@.len() ==> group_covers(groups@, i),
        forall|g1: int, g2: int|
            0 <= g1 < g2 < groups@.len() ==> (#[trigger] groups@[g1]).members@[0] < (
            #[trigger] groups@[g2]).members@[0],
{
    let tokens = distinct_tokens(descs);
    let mut groups: Vec<TokenGroup> = Vec::new();
    let mut g: usize = 0;
    while g < tokens.len()
        invariant
            g <= tokens@.len(),
            groups@.len() == g,
            forall|a: int, b: int|
                0 <= a < b < tokens@.len() ==> (#[trigger] tokens@[a]) != (#[trigger] tokens@[b]),
            forall|t: int|
                0 <= t < tokens@.len() ==> classification_occurs(descs@, tokens@, t),
            forall|a: int, b: int|
                #![trigger tokens@[a], tokens@[b]]
                0 <= a < b < tokens@.len() ==> first_index_with(descs@, tokens@[a])
                    < first_index_with(descs@, tokens@[b]),
            forall|a: int| 0 <= a < g ==> (#[trigger] groups@[a]).token == tokens@[a],
            forall|a: int| 0 <= a < g ==> (#[trigger] groups@[a]).members@.len() > 0,
            forall|a: int|
                0 <= a < g ==> (#[trigger] groups@[a]).members@[0] == first_index_with(
                    descs@,
                    tokens@[a],
                ),
            forall|a: int, j: int|
                0 <= a < g && 0 <= j < groups@[a].members@.len() ==> {
                    &&& (#[trigger] groups@[a].members@[j]) < descs@.len()
                    &&& token_of(descs@[groups@[a].members@[j] as int]@) == groups@[a].token
                },
            forall|a: int, j1: int, j2: int|
                0 <= a < g && 0 <= j1 < j2 < groups@[a].members@.len()
                    ==> (#[trigger] groups@[a].members@[j1]) < (#[trigger] groups@[a].members@[j2]),
            forall|a: int, m: int|
                #![trigger tokens@[a], descs@[m]@]
                0 <= a < g && 0 <= m < descs@.len() && token_of(descs@[m]@) == tokens@[a]
                    ==> exists|j: int|
                    0 <= j < groups@[a].members@.len() && groups@[a].members@[j] == m,
        decreases tokens@.len() - g,
    {
        let tok = tokens[g];
        let members = members_of_token(descs, tok);
        proof {
            assert(classification_occurs(descs@, tokens@, g as int));
            let witness = choose|w: int|
                0 <= w < descs@.len() && token_of(#[trigger] descs@[w]@) == tokens@[g as int];
            assert(exists|j: int| 0 <= j < members@.len() && members@[j] == witness);
        }
        let ghost old_groups = groups@;
        groups.push(TokenGroup { token: tok, members });
        proof {
            assert forall|a: int, m: int|
                #![trigger tokens@[a], descs@[m]@]
                0 <= a < g + 1 && 0 <= m < descs@.len() && token_of(descs@[m]@) == tokens@[a]
                    implies exists|j: int|
                0 <= j < groups@[a].members@.len() && groups@[a].members@[j] == m by {
                if a < g {
                    let j0 = choose|j0: int|
                        0 <= j0 < old_groups[a].members@.len() && old_groups[a].members@[j0] == m;
                    assert(groups@[a].members@[j0] == m);
                } else {
                    let j0 = choose|j0: int| 0 <= j0 < members@.len() && members@[j0] == m;
                    assert(groups@[a].members@[j0] == m);
                }
            }
        }
        g = g + 1;
    }
    proof {
        assert forall|i2: int| 0 <= i2 < descs@.len() implies group_covers(groups@, i2) by {
            let t = choose|t: int|
                0 <= t < tokens@.len() && tokens@[t] == token_of(#[trigger] descs@[i2]@);
            assert(groups@[t].token == tokens@[t]);
            let j = choose|j: int|
                0 <= j < groups@[t].members@.len() && groups@[t].members@[j] == i2;
            assert(0 <= t < groups@.len() && 0 <= j < groups@[t].members@.len()
                && groups@[t].members@[j] == i2);
        }
        assert forall|g1: int, g2: int|
            0 <= g1 < g2 < groups@.len() implies (#[trigger] groups@[g1]).members@[0] < (
        #[trigger] groups@[g2]).members@[0] by {
            assert(first_index_with(descs@, tokens@[g1]) < first_index_with(
                descs@,
                tokens@[g2],
            ));
        }
    }
    groups
}

/// What the sweep engine does with one produced transaction.
#[derive(Clone, Copy, PartialEq, Eq, Structural, Debug)]
pub enum TxAction {
    /// The token layer rejected the dry run: skip only this transaction.
    SkipRejected,
    /// Token metadata present and accepted: publish the token-layer proof,
    /// then broadcast to the base chain.
    PublishProofThenBroadcast,
    /// No token metadata: broadcast to the base chain directly.
    BroadcastOnly,
}

/// The decision for one transaction, from whether it carries token-layer
/// metadata and whether the token-layer dry run rejected it.
pub open spec fn spec_tx_action(has_token_data: bool, rejected: bool) -> TxAction {
    if rejected {
        TxAction::SkipRejected
    } else if has_token_data {
        TxAction::PublishProofThenBroadcast
    } else {
        TxAction::BroadcastOnly
    }
}

/// One produced transaction of a batch, as the decision logic sees it: the
/// caller's handle and whether token-layer metadata is attached.
pub struct TxRecord {
    pub tx_id: u64,
    pub has_token_data: bool,
}

/// The decision for one transaction. Only a transaction that carries token
/// metadata can have been rejected by the token-layer dry run.
pub fn tx_action(has_token_data: bool, rejected: bool) -> (r: TxAction)
    requires
        rejected ==> has_token_data,
    ensures
        r == spec_tx_action(has_token_data, rejected),
{
    if rejected {
        TxAction::SkipRejected
    } else if has_token_data {
        TxAction::PublishProofThenBroadcast
    } else {
        TxAction::BroadcastOnly
    }
}

/// The decisions for a whole batch of produced transactions, one per
/// transaction and independent of every other transaction's outcome.
pub fn plan_broadcasts(txs: &Vec<TxRecord>, rejected: &Vec<bool>) -> (acts: Vec<TxAction>)
    requires
        txs@.len() == rejected@.len(),
        forall|i: int| 0 <= i < rejected@.len() && rejected@[i] ==> txs@[i].has_token_data,
    ensures
        acts@.len() == txs@.len(),
        forall|i: int|
            0 <= i < acts@.len() ==> (#[trigger] acts@[i]) == spec_tx_action(
                txs@[i].has_token_data,
                rejected@[i],
            ),
{
    let mut acts: Vec<TxAction> = Vec::new();
    let mut i: usize = 0;
    while i < txs.len()
        invariant
            i <= txs@.len(),
            txs@.len() == rejected@.len(),
            forall|k: int| 0 <= k < rejected@.len() && rejected@[k] ==> txs@[k].has_token_data,
            acts@.len() == i,
            forall|k: int|
                0 <= k < i ==> (#[trigger] acts@[k]) == spec_tx_action(
                    txs@[k].has_token_data,
                    rejected@[k],
                ),
        decreases txs@.len() - i,
    {
        acts.push(tx_action(txs[i].has_token_data, rejected[i]));
        i = i + 1;
    }
    acts
}

/// Law: within one batch, a token-layer rejection skips only the rejected
/// transaction. Whatever was decided for transaction `i`, a transaction `j`
/// that was not rejected is still published (when it carries token
/// metadata) or broadcast directly (when it does not).
pub proof fn lemma_rejection_is_isolated(txs: Seq<TxRecord>, rejected: Seq<bool>, i: int, j: int)
    requires
        txs.len() == rejected.len(),
        0 <= i < txs.len(),
        0 <= j < txs.len(),
        i != j,
        rejected[i],
        !rejected[j],
    ensures
        spec_tx_action(txs[i].has_token_data, rejected[i]) == TxAction::SkipRejected,
        spec_tx_action(txs[j].has_token_data, rejected[j]) != TxAction::SkipRejected,
{
}

} // verus!
