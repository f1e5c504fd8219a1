//! The ledger of unspent outputs, keyed by transaction identifier and output
//! position, and its atomic transition by a block's transactions.
use crate::block::{Transaction, TxInput, TxOutput};
use crate::error::BlockchainError;
use vstd::prelude::*;

verus! {

/// What the ledger holds, as a map from (transaction identifier, output position)
/// to (value, owner).
pub type Ledger = Map<(Seq<char>, usize), (u64, Seq<char>)>;

/// An unspent output and the place that it was created at.
#[derive(Debug)]
pub struct UtxoEntry {
    pub txid: String,
    pub index: usize,
    pub output: TxOutput,
}

/// The unspent outputs; no two entries share a key.
#[derive(Debug)]
pub struct UtxoSet {
    entries: Vec<UtxoEntry>,
}

/// The key of an entry.
pub open spec fn entry_key(e: UtxoEntry) -> (Seq<char>, usize) {
    (e.txid@, e.index)
}

/// The value and owner of an output.
pub open spec fn output_view(o: TxOutput) -> (u64, Seq<char>) {
    (o.value, o.owner@)
}

/// The ledger that a list of entries stands for.
pub open spec fn entries_map(s: Seq<UtxoEntry>) -> Ledger
    decreases s.len(),
{
    if s.len() == 0 {
        Map::empty()
    } else {
        entries_map(s.drop_last()).insert(entry_key(s.last()), output_view(s.last().output))
    }
}

/// No two entries share a key.
pub open spec fn keys_unique(s: Seq<UtxoEntry>) -> bool {
    forall|i: int, j: int|
        0 <= i < s.len() && 0 <= j < s.len() && i != j ==> entry_key(s[i]) != entry_key(s[j])
}

/// Spends the inputs in order: each must find its output unspent, and removes it.
pub open spec fn spend_inputs(m: Ledger, ins: Seq<TxInput>) -> Option<Ledger>
    decreases ins.len(),
{
    if ins.len() == 0 {
        Some(m)
    } else {
        match spend_inputs(m, ins.drop_last()) {
            None => None,
            Some(m1) => {
                let k = (ins.last().txid@, ins.last().output_index);
                if m1.contains_key(k) {
                    Some(m1.remove(k))
                } else {
                    None
                }
            },
        }
    }
}

/// Adds the outputs of transaction `txid` under their positions; none may
/// overwrite an unspent output, nor take a key in `spent`, the keys that inputs of
/// the block have spent so far.
pub open spec fn add_outputs(
    m: Ledger,
    txid: Seq<char>,
    outs: Seq<TxOutput>,
    spent: Set<(Seq<char>, usize)>,
) -> Option<Ledger>
    decreases outs.len(),
{
    if outs.len() == 0 {
        Some(m)
    } else {
        match add_outputs(m, txid, outs.drop_last(), spent) {
            None => None,
            Some(m1) => {
                let k = (txid, (outs.len() - 1) as usize);
                if m1.contains_key(k) || spent.contains(k) {
                    None
                } else {
                    Some(m1.insert(k, output_view(outs.last())))
                }
            },
        }
    }
}

/// One transaction: its inputs are spent, then its outputs added.
pub open spec fn apply_tx(m: Ledger, tx: Transaction, spent: Set<(Seq<char>, usize)>) -> Option<
    Ledger,
> {
    match spend_inputs(m, tx.inputs@) {
        None => None,
        Some(m1) => add_outputs(m1, tx.id@, tx.outputs@, spent),
    }
}

/// The keys that the inputs of the transactions refer to.
pub open spec fn block_input_keys(txs: Seq<Transaction>) -> Set<(Seq<char>, usize)> {
    Set::new(|k: (Seq<char>, usize)| exists|t: int, i: int| block_spends_at(txs, k, t, i))
}

/// The transactions in order, each seeing what the earlier ones did; `None` as
/// soon as one fails. An output may not be created under a key that an input of
/// the block, up to and including its own transaction, refers to: a spent output
/// is never brought back within the block.
pub open spec fn apply_txs(m: Ledger, txs: Seq<Transaction>) -> Option<Ledger>
    decreases txs.len(),
{
    if txs.len() == 0 {
        Some(m)
    } else {
        match apply_txs(m, txs.drop_last()) {
            None => None,
            Some(m1) => apply_tx(m1, txs.last(), block_input_keys(txs)),
        }
    }
}

/// No two transactions of the block share an identifier.
pub open spec fn ids_unique(txs: Seq<Transaction>) -> bool {
    forall|a: int, b: int| 0 <= a < b < txs.len() ==> txs[a].id@ != txs[b].id@
}

/// What a block does to the ledger: `None` when two of its transactions share an
/// identifier or when its transactions do not apply in order.
pub open spec fn apply_block_txs(m: Ledger, txs: Seq<Transaction>) -> Option<Ledger> {
    if ids_unique(txs) {
        apply_txs(m, txs)
    } else {
        None
    }
}

/// With unique keys, the ledger holds exactly the entries' keys, each with its entry's output.
proof fn lemma_entries_map(s: Seq<UtxoEntry>)
    requires
        keys_unique(s),
    ensures
        forall|k: (Seq<char>, usize)|
            #[trigger] entries_map(s).contains_key(k) <==> exists|j: int|
                0 <= j < s.len() && entry_key(s[j]) == k,
        forall|j: int|
            0 <= j < s.len() ==> #[trigger] entries_map(s)[entry_key(s[j])] == output_view(
                s[j].output,
            ),
        entries_map(s).dom().finite(),
        entries_map(s).dom().len() == s.len(),
    decreases s.len(),
{
    if s.len() > 0 {
        let t = s.drop_last();
        assert forall|i: int, j: int|
            0 <= i < t.len() && 0 <= j < t.len() && i != j implies entry_key(t[i]) != entry_key(
            t[j],
        ) by {
            assert(t[i] == s[i] && t[j] == s[j]);
        }
        lemma_entries_map(t);
        let e = s.last();
        assert(!entries_map(t).contains_key(entry_key(e))) by {
            if entries_map(t).contains_key(entry_key(e)) {
                let j = choose|j: int| 0 <= j < t.len() && entry_key(t[j]) == entry_key(e);
                assert(t[j] == s[j]);
            }
        }
        assert forall|k: (Seq<char>, usize)|
            #[trigger] entries_map(s).contains_key(k) <==> exists|j: int|
                0 <= j < s.len() && entry_key(s[j]) == k by {
            if entries_map(t).contains_key(k) {
                let j = choose|j: int| 0 <= j < t.len() && entry_key(t[j]) == k;
                assert(t[j] == s[j]);
            }
            if exists|j: int| 0 <= j < s.len() && entry_key(s[j]) == k {
                let j = choose|j: int| 0 <= j < s.len() && entry_key(s[j]) == k;
                if j < s.len() - 1 {
                    assert(t[j] == s[j]);
                }
            }
        }
        assert forall|j: int| 0 <= j < s.len() implies #[trigger] entries_map(s)[entry_key(s[j])]
            == output_view(s[j].output) by {
            if j < s.len() - 1 {
                assert(t[j] == s[j]);
            }
        }
    }
}

/// Removing an entry removes its key from the ledger.
proof fn lemma_entries_remove(s: Seq<UtxoEntry>, i: int)
    requires
        keys_unique(s),
        0 <= i < s.len(),
    ensures
        keys_unique(s.remove(i)),
        entries_map(s.remove(i)) == entries_map(s).remove(entry_key(s[i])),
{
    let r = s.remove(i);
    assert forall|a: int, b: int|
        0 <= a < r.len() && 0 <= b < r.len() && a != b implies entry_key(r[a]) != entry_key(
        r[b],
    ) by {
        let a2 = if a < i { a } else { a + 1 };
        let b2 = if b < i { b } else { b + 1 };
        assert(r[a] == s[a2] && r[b] == s[b2]);
    }
    lemma_entries_map(s);
    lemma_entries_map(r);
    let m = entries_map(s).remove(entry_key(s[i]));
    assert forall|k: (Seq<char>, usize)| #[trigger] entries_map(r).contains_key(k) <==> m.contains_key(
        k,
    ) by {
        if entries_map(r).contains_key(k) {
            let j = choose|j: int| 0 <= j < r.len() && entry_key(r[j]) == k;
            let j2 = if j < i { j } else { j + 1 };
            assert(r[j] == s[j2]);
        }
        if m.contains_key(k) {
            let j = choose|j: int| 0 <= j < s.len() && entry_key(s[j]) == k;
            let j2 = if j < i { j } else { j - 1 };
            assert(r[j2] == s[j]);
        }
    }
    assert forall|k: (Seq<char>, usize)| #[trigger] entries_map(r).contains_key(k) implies entries_map(
        r,
    )[k] == m[k] by {
        let j = choose|j: int| 0 <= j < r.len() && entry_key(r[j]) == k;
        let j2 = if j < i { j } else { j + 1 };
        assert(r[j] == s[j2]);
    }
    assert(entries_map(r) =~= m);
}

/// Appending an entry with a new key inserts it into the ledger.
proof fn lemma_entries_push(s: Seq<UtxoEntry>, e: UtxoEntry)
    requires
        keys_unique(s),
        !entries_map(s).contains_key(entry_key(e)),
    ensures
        keys_unique(s.push(e)),
        entries_map(s.push(e)) == entries_map(s).insert(entry_key(e), output_view(e.output)),
{
    lemma_entries_map(s);
    let p = s.push(e);
    assert(p.drop_last() =~= s);
    assert forall|a: int, b: int|
        0 <= a < p.len() && 0 <= b < p.len() && a != b implies entry_key(p[a]) != entry_key(
        p[b],
    ) by {
        if a < s.len() && b < s.len() {
            assert(p[a] == s[a] && p[b] == s[b]);
        } else if a < s.len() {
            assert(p[a] == s[a]);
        } else {
            assert(p[b] == s[b]);
        }
    }
}

proof fn lemma_spend_none(m: Ledger, ins: Seq<TxInput>, i: int)
    requires
        0 <= i <= ins.len(),
        spend_inputs(m, ins.subrange(0, i)) is None,
    ensures
        spend_inputs(m, ins) is None,
    decreases ins.len() - i,
{
    if i < ins.len() {
        assert(ins.subrange(0, i + 1).drop_last() =~= ins.subrange(0, i));
        lemma_spend_none(m, ins, i + 1);
    } else {
        assert(ins.subrange(0, i) =~= ins);
    }
}

proof fn lemma_add_none(
    m: Ledger,
    txid: Seq<char>,
    outs: Seq<TxOutput>,
    spent: Set<(Seq<char>, usize)>,
    i: int,
)
    requires
        0 <= i <= outs.len(),
        add_outputs(m, txid, outs.subrange(0, i), spent) is None,
    ensures
        add_outputs(m, txid, outs, spent) is None,
    decreases outs.len() - i,
{
    if i < outs.len() {
        assert(outs.subrange(0, i + 1).drop_last() =~= outs.subrange(0, i));
        lemma_add_none(m, txid, outs, spent, i + 1);
    } else {
        assert(outs.subrange(0, i) =~= outs);
    }
}

proof fn lemma_apply_none(m: Ledger, txs: Seq<Transaction>, i: int)
    requires
        0 <= i <= txs.len(),
        apply_txs(m, txs.subrange(0, i)) is None,
    ensures
        apply_txs(m, txs) is None,
    decreases txs.len() - i,
{
    if i < txs.len() {
        assert(txs.subrange(0, i + 1).drop_last() =~= txs.subrange(0, i));
        lemma_apply_none(m, txs, i + 1);
    } else {
        assert(txs.subrange(0, i) =~= txs);
    }
}

/// The ledger key that an input refers to.
pub open spec fn input_key(x: TxInput) -> (Seq<char>, usize) {
    (x.txid@, x.output_index)
}

/// Input `i` of the list spends the output keyed `k`.
pub open spec fn spends_at(ins: Seq<TxInput>, k: (Seq<char>, usize), i: int) -> bool {
    0 <= i < ins.len() && input_key(ins[i]) == k
}

/// Input `i` of transaction `t` of the block spends the output keyed `k`.
pub open spec fn block_spends_at(txs: Seq<Transaction>, k: (Seq<char>, usize), t: int, i: int) -> bool {
    0 <= t < txs.len() && spends_at(txs[t].inputs@, k, i)
}

proof fn lemma_spend_tracks(m: Ledger, ins: Seq<TxInput>, k: (Seq<char>, usize))
    requires
        spend_inputs(m, ins) is Some,
    ensures
        spend_inputs(m, ins)->Some_0.contains_key(k) ==> m.contains_key(k),
        spend_inputs(m, ins)->Some_0.contains_key(k) ==> forall|i: int|
            !#[trigger] spends_at(ins, k, i),
        m.contains_key(k) && (forall|i: int| !#[trigger] spends_at(ins, k, i))
            ==> spend_inputs(m, ins)->Some_0.contains_key(k),
        forall|i: int, j: int| #[trigger]
            spends_at(ins, k, i) && #[trigger] spends_at(ins, k, j) ==> i == j,
        forall|i: int| #[trigger] spends_at(ins, k, i) ==> m.contains_key(k),
    decreases ins.len(),
{
    if ins.len() > 0 {
        let p = ins.drop_last();
        lemma_spend_tracks(m, p, k);
        let n = ins.len() - 1;
        assert forall|i: int| 0 <= i < n implies #[trigger] spends_at(ins, k, i) == spends_at(
            p,
            k,
            i,
        ) by {
            assert(p[i] == ins[i]);
        }
        assert(input_key(ins.last()) == input_key(ins[n]));
        let m1 = spend_inputs(m, p)->Some_0;
        assert(spend_inputs(m, ins) == Some(m1.remove(input_key(ins[n]))));
        if input_key(ins[n]) == k {
            assert(spends_at(ins, k, n));
            assert(!m1.remove(k).contains_key(k));
            assert(!spend_inputs(m, ins)->Some_0.contains_key(k));
        } else {
            assert(m1.remove(input_key(ins[n])).contains_key(k) == m1.contains_key(k));
            assert(spend_inputs(m, ins)->Some_0.contains_key(k) == m1.contains_key(k));
            assert(m1.contains_key(k) ==> m.contains_key(k));
            if forall|i: int| !#[trigger] spends_at(p, k, i) {
                assert forall|i: int| !#[trigger] spends_at(ins, k, i) by {
                    if 0 <= i < n {
                        assert(!spends_at(p, k, i));
                    }
                }
            }
            if exists|i: int| #[trigger] spends_at(ins, k, i) {
                let i0 = choose|i: int| #[trigger] spends_at(ins, k, i);
                assert(spends_at(p, k, i0));
            }
            if forall|i: int| !#[trigger] spends_at(ins, k, i) {
                assert forall|i: int| !#[trigger] spends_at(p, k, i) by {
                    if 0 <= i < n {
                        assert(!spends_at(ins, k, i));
                    }
                }
            }
        }
    } else {
        assert(spend_inputs(m, ins) == Some(m));
        assert forall|i: int| !#[trigger] spends_at(ins, k, i) by {}
    }
}

/// Adding outputs never brings back a key that is absent and either spent or
/// not created by them.
proof fn lemma_add_absent(
    m: Ledger,
    txid: Seq<char>,
    outs: Seq<TxOutput>,
    spent: Set<(Seq<char>, usize)>,
    k: (Seq<char>, usize),
)
    requires
        add_outputs(m, txid, outs, spent) is Some,
        !m.contains_key(k),
        spent.contains(k) || txid != k.0 || outs.len() <= k.1,
    ensures
        !add_outputs(m, txid, outs, spent)->Some_0.contains_key(k),
    decreases outs.len(),
{
    if outs.len() > 0 {
        lemma_add_absent(m, txid, outs.drop_last(), spent, k);
    }
}

proof fn lemma_txs_track(m: Ledger, txs: Seq<Transaction>, k: (Seq<char>, usize))
    requires
        apply_txs(m, txs) is Some,
    ensures
        forall|t1: int, i1: int, t2: int, i2: int| #[trigger]
            block_spends_at(txs, k, t1, i1) && #[trigger] block_spends_at(txs, k, t2, i2) ==> t1
                == t2 && i1 == i2,
        block_input_keys(txs).contains(k) ==> !apply_txs(m, txs)->Some_0.contains_key(k),
    decreases txs.len(),
{
    if txs.len() > 0 {
        let p = txs.drop_last();
        let n = txs.len() - 1;
        let x = txs.last();
        assert(txs[n] == x);
        lemma_txs_track(m, p, k);
        let m1 = apply_txs(m, p)->Some_0;
        lemma_spend_tracks(m1, x.inputs@, k);
        let ma = spend_inputs(m1, x.inputs@)->Some_0;
        assert forall|t: int, i: int| 0 <= t < n implies #[trigger] block_spends_at(txs, k, t, i)
            == block_spends_at(p, k, t, i) by {
            assert(p[t] == txs[t]);
        }
        assert forall|i: int| #[trigger] block_spends_at(txs, k, n, i) == spends_at(
            x.inputs@,
            k,
            i,
        ) by {}
        if exists|i: int| spends_at(x.inputs@, k, i) {
            let i0 = choose|i: int| spends_at(x.inputs@, k, i);
            assert(block_spends_at(txs, k, n, i0));
            assert(block_input_keys(txs).contains(k));
            assert(!block_input_keys(p).contains(k));
            assert forall|t: int, i: int| !#[trigger] block_spends_at(p, k, t, i) by {
                if block_spends_at(p, k, t, i) {
                    assert(block_input_keys(p).contains(k));
                }
            }
            lemma_add_absent(ma, x.id@, x.outputs@, block_input_keys(txs), k);
        } else {
            if block_input_keys(txs).contains(k) {
                let (t0, i0) = choose|t: int, i: int| block_spends_at(txs, k, t, i);
                assert(block_spends_at(p, k, t0, i0));
                assert(block_input_keys(p).contains(k));
                lemma_add_absent(ma, x.id@, x.outputs@, block_input_keys(txs), k);
            }
        }
    }
}

/// No transaction of the list creates output `k`.
pub open spec fn creates_none(txs: Seq<Transaction>, k: (Seq<char>, usize)) -> bool {
    forall|t: int| 0 <= t < txs.len() ==> (#[trigger] txs[t]).id@ != k.0 || txs[t].outputs@.len() <= k.1
}

proof fn lemma_absent_stays(m: Ledger, txs: Seq<Transaction>, k: (Seq<char>, usize))
    requires
        apply_txs(m, txs) is Some,
        !m.contains_key(k),
        creates_none(txs, k),
    ensures
        !apply_txs(m, txs)->Some_0.contains_key(k),
    decreases txs.len(),
{
    if txs.len() > 0 {
        let p = txs.drop_last();
        let x = txs.last();
        assert(txs[txs.len() - 1] == x);
        assert forall|t: int| 0 <= t < p.len() implies (#[trigger] p[t]).id@ != k.0
            || p[t].outputs@.len() <= k.1 by {
            assert(p[t] == txs[t]);
        }
        lemma_absent_stays(m, p, k);
        let m1 = apply_txs(m, p)->Some_0;
        lemma_spend_tracks(m1, x.inputs@, k);
        let ma = spend_inputs(m1, x.inputs@)->Some_0;
        lemma_add_absent(ma, x.id@, x.outputs@, block_input_keys(txs), k);
    }
}

proof fn lemma_apply_prefix(m: Ledger, txs: Seq<Transaction>, j: int)
    requires
        0 <= j <= txs.len(),
        apply_txs(m, txs) is Some,
    ensures
        apply_txs(m, txs.subrange(0, j)) is Some,
{
    if apply_txs(m, txs.subrange(0, j)) is None {
        lemma_apply_none(m, txs, j);
    }
}

/// No output is spent twice: a block in which two inputs, in one transaction or
/// in two, refer to the same output does not apply to any ledger.
pub proof fn lemma_no_double_spend(
    m: Ledger,
    txs: Seq<Transaction>,
    k: (Seq<char>, usize),
    t1: int,
    i1: int,
    t2: int,
    i2: int,
)
    requires
        block_spends_at(txs, k, t1, i1),
        block_spends_at(txs, k, t2, i2),
        t1 != t2 || i1 != i2,
    ensures
        apply_block_txs(m, txs) is None,
{
    if apply_txs(m, txs) is Some {
        lemma_txs_track(m, txs, k);
    }
}

/// Only unspent outputs can be spent: a block with an input, in transaction `t`,
/// that refers to an output which the ledger does not hold and which no earlier
/// transaction of the block creates, does not apply.
pub proof fn lemma_spend_requires_unspent(
    m: Ledger,
    txs: Seq<Transaction>,
    k: (Seq<char>, usize),
    t: int,
    i: int,
)
    requires
        block_spends_at(txs, k, t, i),
        !m.contains_key(k),
        creates_none(txs.subrange(0, t), k),
    ensures
        apply_block_txs(m, txs) is None,
{
    if apply_txs(m, txs) is Some {
        lemma_apply_prefix(m, txs, t + 1);
        let q = txs.subrange(0, t + 1);
        assert(q.drop_last() =~= txs.subrange(0, t));
        lemma_absent_stays(m, txs.subrange(0, t), k);
        let mt = apply_txs(m, txs.subrange(0, t))->Some_0;
        assert(q.last() == txs[t]);
        lemma_spend_tracks(mt, txs[t].inputs@, k);
        assert(spends_at(txs[t].inputs@, k, i));
    }
}

/// A ledger as a set of (key, (value, owner)) pairs.
pub open spec fn ledger_pairs(m: Ledger) -> Set<((Seq<char>, usize), (u64, Seq<char>))> {
    Set::new(|p: ((Seq<char>, usize), (u64, Seq<char>))| m.contains_key(p.0) && m[p.0] == p.1)
}

/// What one output adds to the balance of `owner`.
pub open spec fn owned_value(v: (u64, Seq<char>), owner: Seq<char>) -> int {
    if v.1 == owner {
        v.0 as int
    } else {
        0
    }
}

/// Adds a pair's value to a running total when it belongs to `owner`.
pub open spec fn add_owned(owner: Seq<char>) -> spec_fn(int, ((Seq<char>, usize), (u64, Seq<char>))) -> int {
    |acc: int, p: ((Seq<char>, usize), (u64, Seq<char>))| acc + owned_value(p.1, owner)
}

/// The total value of the unspent outputs that belong to `owner`.
pub open spec fn ledger_balance(m: Ledger, owner: Seq<char>) -> int {
    ledger_pairs(m).fold(0, add_owned(owner))
}

/// The same total, taken over a list of entries.
pub open spec fn entries_balance(s: Seq<UtxoEntry>, owner: Seq<char>) -> int
    decreases s.len(),
{
    if s.len() == 0 {
        0
    } else {
        entries_balance(s.drop_last(), owner) + owned_value(output_view(s.last().output), owner)
    }
}

proof fn lemma_entries_balance(s: Seq<UtxoEntry>, owner: Seq<char>)
    requires
        keys_unique(s),
    ensures
        ledger_pairs(entries_map(s)).finite(),
        ledger_balance(entries_map(s), owner) == entries_balance(s, owner),
        0 <= entries_balance(s, owner) <= s.len() * 0xffff_ffff_ffff_ffffint,
    decreases s.len(),
{
    let f = add_owned(owner);
    assert(vstd::set::fold::is_fun_commutative(f)) by {
        assert forall|a1: ((Seq<char>, usize), (u64, Seq<char>)), a2: ((Seq<char>, usize), (u64, Seq<char>)), b: int|
            #[trigger] f(f(b, a2), a1) == f(f(b, a1), a2) by {}
    }
    if s.len() == 0 {
        assert(ledger_pairs(entries_map(s)) =~= Set::empty());
        vstd::set::fold::lemma_fold_empty(0int, f);
    } else {
        let t = s.drop_last();
        let e = s.last();
        assert forall|i: int, j: int|
            0 <= i < t.len() && 0 <= j < t.len() && i != j implies entry_key(t[i]) != entry_key(
            t[j],
        ) by {
            assert(t[i] == s[i] && t[j] == s[j]);
        }
        lemma_entries_balance(t, owner);
        lemma_entries_map(t);
        assert(!entries_map(t).contains_key(entry_key(e))) by {
            if entries_map(t).contains_key(entry_key(e)) {
                let j = choose|j: int| 0 <= j < t.len() && entry_key(t[j]) == entry_key(e);
                assert(t[j] == s[j]);
            }
        }
        let pr = (entry_key(e), output_view(e.output));
        assert(ledger_pairs(entries_map(s)) =~= ledger_pairs(entries_map(t)).insert(pr));
        vstd::set::fold::lemma_fold_insert(ledger_pairs(entries_map(t)), 0int, f, pr);
        assert(e.output.value <= 0xffff_ffff_ffff_ffffint);
        assert(s.len() * 0xffff_ffff_ffff_ffffint == t.len() * 0xffff_ffff_ffff_ffffint
            + 0xffff_ffff_ffff_ffffint) by (nonlinear_arith)
            requires
                s.len() == t.len() + 1,
        ;
    }
}

impl UtxoEntry {
    /// A copy of the entry.
    pub fn copy(&self) -> (r: Self)
        ensures
            r == *self,
    {
        UtxoEntry {
            txid: self.txid.clone(),
            index: self.index,
            output: TxOutput { value: self.output.value, owner: self.output.owner.clone() },
        }
    }
}

/// The position of the entry with the given key, if there is one.
fn find_entry(entries: &Vec<UtxoEntry>, txid: &String, index: usize) -> (r: Option<usize>)
    ensures
        match r {
            Some(i) => i < entries@.len() && entry_key(entries@[i as int]) == (txid@, index),
            None => forall|j: int|
                0 <= j < entries@.len() ==> entry_key(#[trigger] entries@[j]) != (txid@, index),
        },
{
    let mut i: usize = 0;
    while i < entries.len()
        invariant
            i <= entries@.len(),
            forall|j: int| 0 <= j < i ==> entry_key(#[trigger] entries@[j]) != (txid@, index),
        decreases entries@.len() - i,
    {
        if entries[i].index == index && entries[i].txid == *txid {
            return Some(i);
        }
        i = i + 1;
    }
    None
}

/// Whether an input of the transactions up to and including position `j` refers
/// to the output at position `index` of transaction `txid`.
fn spent_in_prefix(txs: &[Transaction], j: usize, txid: &String, index: usize) -> (r: bool)
    requires
        j < txs@.len(),
    ensures
        r == block_input_keys(txs@.subrange(0, j + 1)).contains((txid@, index)),
{
    let ghost k = (txid@, index);
    let ghost q = txs@.subrange(0, j + 1);
    let mut t: usize = 0;
    while t <= j
        invariant
            t <= j + 1,
            j < txs@.len(),
            q == txs@.subrange(0, j + 1),
            k == (txid@, index),
            forall|a: int, i: int| 0 <= a < t ==> !#[trigger] block_spends_at(q, k, a, i),
        decreases j + 1 - t,
    {
        let ins = &txs[t].inputs;
        let mut i: usize = 0;
        while i < ins.len()
            invariant
                t <= j,
                j < txs@.len(),
                q == txs@.subrange(0, j + 1),
                k == (txid@, index),
                *ins == txs@[t as int].inputs,
                i <= ins@.len(),
                forall|a: int, b: int| 0 <= a < t ==> !#[trigger] block_spends_at(q, k, a, b),
                forall|b: int| 0 <= b < i ==> !#[trigger] block_spends_at(q, k, t as int, b),
            decreases ins@.len() - i,
        {
            let x = &ins[i];
            let same_txid = x.txid == *txid;
            if x.output_index == index && same_txid {
                proof {
                    assert(q[t as int] == txs@[t as int]);
                    assert(q[t as int].inputs@ == ins@);
                    assert(input_key(ins@[i as int]) == k);
                    assert(spends_at(q[t as int].inputs@, k, i as int));
                    assert(block_spends_at(q, k, t as int, i as int));
                }
                return true;
            }
            proof {
                assert(q[t as int] == txs@[t as int]);
                assert(q[t as int].inputs@ == ins@);
                assert(input_key(ins@[i as int]) != k);
                assert forall|b: int| 0 <= b < i + 1 implies !#[trigger] block_spends_at(
                    q,
                    k,
                    t as int,
                    b,
                ) by {
                    if b < i {
                        assert(!block_spends_at(q, k, t as int, b));
                    }
                }
            }
            i = i + 1;
        }
        proof {
            assert(q[t as int] == txs@[t as int]);
            assert forall|b: int| !#[trigger] block_spends_at(q, k, t as int, b) by {
                if 0 <= b < i {
                }
            }
        }
        t = t + 1;
    }
    proof {
        assert forall|a: int, b: int| !#[trigger] block_spends_at(q, k, a, b) by {
            if 0 <= a < t {
            }
        }
    }
    false
}

/// Whether all transactions carry different identifiers.
fn all_ids_distinct(txs: &[Transaction]) -> (r: bool)
    ensures
        r == ids_unique(txs@),
{
    let mut b: usize = 0;
    while b < txs.len()
        invariant
            b <= txs@.len(),
            forall|x: int, y: int| 0 <= x < y < b ==> txs@[x].id@ != txs@[y].id@,
        decreases txs@.len() - b,
    {
        let mut a: usize = 0;
        while a < b
            invariant
                a <= b,
                b < txs@.len(),
                forall|x: int, y: int| 0 <= x < y < b ==> txs@[x].id@ != txs@[y].id@,
                forall|x: int| 0 <= x < a ==> txs@[x].id@ != txs@[b as int].id@,
            decreases b - a,
        {
            if txs[a].id == txs[b].id {
                return false;
            }
            a = a + 1;
        }
        b = b + 1;
    }
    true
}

/// Applies one transaction to a list of entries with unique keys. On `false` the
/// transaction does not apply and the list is left in no particular state.
fn apply_tx_entries(entries: &mut Vec<UtxoEntry>, txs: &[Transaction], j: usize) -> (ok: bool)
    requires
        keys_unique(old(entries)@),
        j < txs@.len(),
    ensures
        ok == apply_tx(
            entries_map(old(entries)@),
            txs@[j as int],
            block_input_keys(txs@.subrange(0, j + 1)),
        ) is Some,
        ok ==> keys_unique(final(entries)@) && Some(entries_map(final(entries)@)) == apply_tx(
            entries_map(old(entries)@),
            txs@[j as int],
            block_input_keys(txs@.subrange(0, j + 1)),
        ),
{
    let tx = &txs[j];
    let ghost spent = block_input_keys(txs@.subrange(0, j + 1));
    let ghost m0 = entries_map(entries@);
    let mut i: usize = 0;
    while i < tx.inputs.len()
        invariant
            0 <= i <= tx.inputs@.len(),
            keys_unique(entries@),
            m0 == entries_map(old(entries)@),
            j < txs@.len(),
            *tx == txs@[j as int],
            spend_inputs(m0, tx.inputs@.subrange(0, i as int)) == Some(entries_map(entries@)),
        decreases tx.inputs@.len() - i,
    {
        proof {
            assert(tx.inputs@.subrange(0, i + 1).drop_last() =~= tx.inputs@.subrange(0, i as int));
            lemma_entries_map(entries@);
        }
        match find_entry(entries, &tx.inputs[i].txid, tx.inputs[i].output_index) {
            None => {
                proof {
                    let key = (tx.inputs@[i as int].txid@, tx.inputs@[i as int].output_index);
                    assert(tx.inputs@.subrange(0, i + 1).last() == tx.inputs@[i as int]);
                    assert(!entries_map(entries@).contains_key(key)) by {
                        if entries_map(entries@).contains_key(key) {
                            let j = choose|j: int|
                                0 <= j < entries@.len() && entry_key(entries@[j]) == key;
                            assert(entry_key(entries@[j]) != key);
                        }
                    }
                    assert(spend_inputs(m0, tx.inputs@.subrange(0, i + 1)) is None);
                    lemma_spend_none(m0, tx.inputs@, i + 1);
                    assert(spend_inputs(m0, tx.inputs@) is None);
                }
                return false;
            },
            Some(j) => {
                proof {
                    assert(tx.inputs@.subrange(0, i + 1).last() == tx.inputs@[i as int]);
                    lemma_entries_remove(entries@, j as int);
                }
                entries.remove(j);
            },
        }
        i = i + 1;
    }
    proof {
        assert(tx.inputs@.subrange(0, tx.inputs@.len() as int) =~= tx.inputs@);
    }
    let ghost m1 = entries_map(entries@);
    let mut k: usize = 0;
    while k < tx.outputs.len()
        invariant
            0 <= k <= tx.outputs@.len(),
            keys_unique(entries@),
            m0 == entries_map(old(entries)@),
            spend_inputs(m0, tx.inputs@) == Some(m1),
            j < txs@.len(),
            spent == block_input_keys(txs@.subrange(0, j + 1)),
            *tx == txs@[j as int],
            add_outputs(m1, tx.id@, tx.outputs@.subrange(0, k as int), spent) == Some(entries_map(entries@)),
        decreases tx.outputs@.len() - k,
    {
        proof {
            assert(tx.outputs@.subrange(0, k + 1).drop_last() =~= tx.outputs@.subrange(0, k as int));
            lemma_entries_map(entries@);
        }
        let taken = match find_entry(entries, &tx.id, k) {
            Some(e) => {
                proof {
                    assert(entries_map(entries@).contains_key(entry_key(entries@[e as int])));
                }
                true
            },
            None => spent_in_prefix(txs, j, &tx.id, k),
        };
        if taken {
            proof {
                assert(tx.outputs@.subrange(0, k + 1).len() - 1 == k);
                lemma_add_none(m1, tx.id@, tx.outputs@, spent, k + 1);
            }
            return false;
        }
        let e = UtxoEntry {
            txid: tx.id.clone(),
            index: k,
            output: TxOutput { value: tx.outputs[k].value, owner: tx.outputs[k].owner.clone() },
        };
        proof {
            assert(tx.outputs@.subrange(0, k + 1).last() == tx.outputs@[k as int]);
            assert(tx.outputs@.subrange(0, k + 1).len() - 1 == k);
            lemma_entries_push(entries@, e);
        }
        entries.push(e);
        k = k + 1;
    }
    proof {
        assert(tx.outputs@.subrange(0, tx.outputs@.len() as int) =~= tx.outputs@);
    }
    true
}

impl View for UtxoSet {
    type V = Ledger;

    closed spec fn view(&self) -> Ledger {
        entries_map(self.entries@)
    }
}

impl UtxoSet {
    /// The set's own invariant: no two entries share a key.
    pub closed spec fn wf(&self) -> bool {
        keys_unique(self.entries@)
    }

    /// An empty ledger.
    pub fn new() -> (r: Self)
        ensures
            r.wf(),
            r@ == Ledger::empty(),
    {
        UtxoSet { entries: Vec::new() }
    }

    /// The number of unspent outputs.
    pub fn len(&self) -> (r: usize)
        requires
            self.wf(),
        ensures
            r == self@.len(),
    {
        proof {
            lemma_entries_map(self.entries@);
        }
        self.entries.len()
    }

    /// The unspent output created at position `index` of transaction `txid`, if any.
    pub fn get(&self, txid: &String, index: usize) -> (r: Option<&TxOutput>)
        requires
            self.wf(),
        ensures
            match r {
                Some(o) => self@.contains_key((txid@, index)) && self@[(txid@, index)]
                    == output_view(*o),
                None => !self@.contains_key((txid@, index)),
            },
    {
        proof {
            lemma_entries_map(self.entries@);
        }
        match find_entry(&self.entries, txid, index) {
            Some(i) => Some(&self.entries[i].output),
            None => None,
        }
    }

    /// The total value of the unspent outputs that belong to `owner`.
    pub fn balance_of(&self, owner: &String) -> (r: u128)
        requires
            self.wf(),
        ensures
            r == ledger_balance(self@, owner@),
    {
        proof {
            lemma_entries_balance(self.entries@, owner@);
        }
        let mut total: u128 = 0;
        let mut i: usize = 0;
        while i < self.entries.len()
            invariant
                i <= self.entries@.len(),
                keys_unique(self.entries@),
                total == entries_balance(self.entries@.subrange(0, i as int), owner@),
                total <= i * 0xffff_ffff_ffff_ffffint,
            decreases self.entries@.len() - i,
        {
            let e = &self.entries[i];
            let ghost sub = self.entries@.subrange(0, i + 1);
            proof {
                assert(sub.drop_last() =~= self.entries@.subrange(0, i as int));
                assert(sub.last() == self.entries@[i as int]);
                assert((i + 1) * 0xffff_ffff_ffff_ffffint <= 0xffff_ffff_ffff_ffff_ffff_ffff_ffff_ffffint)
                    by (nonlinear_arith)
                    requires
                        i < 0xffff_ffff_ffff_ffffint,
                ;
                assert((i + 1) * 0xffff_ffff_ffff_ffffint == i * 0xffff_ffff_ffff_ffffint
                    + 0xffff_ffff_ffff_ffffint) by (nonlinear_arith);
            }
            if e.output.owner == *owner {
                total = total + e.output.value as u128;
            }
            i = i + 1;
        }
        proof {
            assert(self.entries@.subrange(0, i as int) =~= self.entries@);
        }
        total
    }

    /// Applies a block's transactions in order, all or nothing. When two
    /// transactions share an identifier, an input is unknown or already spent, or an
    /// output would overwrite an unspent output or bring back one that the block
    /// spent, the ledger is left exactly as it was and `InvalidTransaction` comes back.
    pub fn apply_block(&mut self, transactions: &[Transaction]) -> (r: Result<(), BlockchainError>)
        requires
            old(self).wf(),
        ensures
            final(self).wf(),
            match apply_block_txs(old(self)@, transactions@) {
                Some(m) => r is Ok && final(self)@ == m,
                None => r == Err::<(), BlockchainError>(BlockchainError::InvalidTransaction)
                    && *final(self) == *old(self),
            },
    {
        let ghost m0 = self@;
        if !all_ids_distinct(transactions) {
            return Err(BlockchainError::InvalidTransaction);
        }
        let mut work: Vec<UtxoEntry> = Vec::new();
        let mut c: usize = 0;
        while c < self.entries.len()
            invariant
                c <= self.entries@.len(),
                work@ == self.entries@.subrange(0, c as int),
            decreases self.entries@.len() - c,
        {
            work.push(self.entries[c].copy());
            c = c + 1;
            assert(work@ =~= self.entries@.subrange(0, c as int));
        }
        assert(work@ =~= self.entries@);
        let mut i: usize = 0;
        while i < transactions.len()
            invariant
                0 <= i <= transactions@.len(),
                m0 == self@,
                *self == *old(self),
                self.wf(),
                keys_unique(work@),
                ids_unique(transactions@),
                apply_txs(m0, transactions@.subrange(0, i as int)) == Some(entries_map(work@)),
            decreases transactions@.len() - i,
        {
            proof {
                assert(transactions@.subrange(0, i + 1).drop_last() =~= transactions@.subrange(
                    0,
                    i as int,
                ));
                assert(transactions@.subrange(0, i + 1).last() == transactions@[i as int]);
            }
            if !apply_tx_entries(&mut work, transactions, i) {
                proof {
                    lemma_apply_none(m0, transactions@, i + 1);
                }
                return Err(BlockchainError::InvalidTransaction);
            }
            i = i + 1;
        }
        proof {
            assert(transactions@.subrange(0, transactions@.len() as int) =~= transactions@);
        }
        self.entries = work;
        Ok(())
    }
}

} // verus!
