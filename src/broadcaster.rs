//! The decisions of a broadcast run: which signer sends which pending
//! transaction, whether submissions run one by one or concurrently, when the
//! on-chain nonce disagrees, and in which order receipts enter the record.
//! The network round-trips themselves are made by the caller.
use crate::Address;
use vstd::prelude::*;

verus! {

broadcast use vstd::seq_lib::group_to_multiset_ensures;

/// For a chain id in ethers' table of known chains, whether that chain
/// takes legacy (pre-EIP-1559) transactions; `None` for an id outside it.
pub uninterp spec fn legacy_chain(id: u64) -> Option<bool>;

/// Relies on ethers' `Chain::try_from(u64)`, which fails for an id outside
/// the table of known chains, and `Chain::is_legacy`, which says whether a
/// known chain lacks EIP-1559 support.
#[verifier::external_body]
fn chain_is_legacy(id: u64) -> (r: Option<bool>)
    ensures
        r == legacy_chain(id),
{
    match ethers::types::Chain::try_from(id) {
        Ok(chain) => Some(chain.is_legacy()),
        Err(_) => None,
    }
}

/// The placeholder sender that scripts use when none was configured,
/// `0x00a329c0648769a73afac7f9381e08fb43dbea72`.
pub open spec fn default_sender_spec() -> Seq<u8> {
    seq![
        0x00u8, 0xa3, 0x29, 0xc0, 0x64, 0x87, 0x69, 0xa7, 0x3a, 0xfa,
        0xc7, 0xf9, 0x38, 0x1e, 0x08, 0xfb, 0x43, 0xdb, 0xea, 0x72,
    ]
}

/// The placeholder sender, see `default_sender_spec`.
pub fn default_sender() -> (r: Address)
    ensures
        r@ == default_sender_spec(),
{
    let r: Address = [
        0x00u8, 0xa3, 0x29, 0xc0, 0x64, 0x87, 0x69, 0xa7, 0x3a, 0xfa,
        0xc7, 0xf9, 0x38, 0x1e, 0x08, 0xfb, 0x43, 0xdb, 0xea, 0x72,
    ];
    assert(r@ =~= default_sender_spec());
    r
}

/// Whether two addresses are the same.
pub fn same_address(a: &Address, b: &Address) -> (r: bool)
    ensures
        r == (a@ == b@),
{
    let mut i: usize = 0;
    while i < 20
        invariant
            i <= 20,
            a@.len() == 20,
            b@.len() == 20,
            forall|j: int| 0 <= j < i ==> a@[j] == b@[j],
        decreases 20 - i,
    {
        if a[i] != b[i] {
            return false;
        }
        i = i + 1;
    }
    assert(a@ =~= b@);
    true
}

/// A copy of a list of addresses.
pub fn copy_addresses(v: &Vec<Address>) -> (r: Vec<Address>)
    ensures
        r@ == v@,
{
    let mut r: Vec<Address> = Vec::new();
    let mut i: usize = 0;
    while i < v.len()
        invariant
            i <= v@.len(),
            r@ == v@.subrange(0, i as int),
        decreases v@.len() - i,
    {
        r.push(v[i]);
        i = i + 1;
        assert(r@ =~= v@.subrange(0, i as int));
    }
    assert(r@ =~= v@);
    r
}

/// Fatal conditions of a broadcast run; each aborts the rest of it.
#[derive(Debug)]
pub enum BroadcastError {
    /// No signing identity was loaded.
    NoSigner,
    /// Transaction `tx` is sent from an address that no signer holds.
    UnknownSender { tx: usize, from: Address, available: Vec<Address>, default_sender: bool },
    /// The chain reports nonce `on_chain` for the sender of `tx`, which carries `declared`.
    NonceDrift { tx: usize, declared: u64, on_chain: u64 },
    /// The nonce of the sender of `tx` could not be queried.
    NonceUnavailable { tx: usize },
    /// Transaction `tx` could not be sent.
    BroadcastFailed { tx: usize, reason: String },
    /// Transaction `tx` was accepted but no receipt came back.
    ReceiptMissing { tx: usize },
}

/// What the logic reads of a pending transaction: its declared sender and
/// the nonce it carries.
#[derive(Clone, Copy, Debug)]
pub struct TxInfo {
    pub from: Address,
    pub nonce: u64,
}

/// A receipt, the nonce it was sent with, and the index of the pending
/// transaction it answers.
#[derive(Debug)]
pub struct SubmittedReceipt<R> {
    pub receipt: R,
    pub nonce: u64,
    pub tx: usize,
}

/// The pending transactions of a run and the receipts gathered so far.
pub struct DeploymentRecord<R> {
    pub transactions: Vec<TxInfo>,
    pub receipts: Vec<SubmittedReceipt<R>>,
    pub path: String,
}

impl<R> DeploymentRecord<R> {
    /// No more receipts than transactions.
    pub open spec fn wf(&self) -> bool {
        self.receipts@.len() <= self.transactions@.len()
    }

    /// A record with no receipts yet.
    pub fn new(transactions: Vec<TxInfo>, path: String) -> (r: Self)
        ensures
            r.transactions@ == transactions@,
            r.receipts@.len() == 0,
            r.path@ == path@,
            r.wf(),
    {
        DeploymentRecord { transactions, receipts: Vec::new(), path }
    }

    /// Appends one receipt, to a record that still lacks one.
    pub fn add_receipt(&mut self, receipt: SubmittedReceipt<R>)
        requires
            old(self).receipts@.len() < old(self).transactions@.len(),
        ensures
            final(self).wf(),
            final(self).receipts@ == old(self).receipts@.push(receipt),
            final(self).transactions@ == old(self).transactions@,
            final(self).path@ == old(self).path@,
    {
        self.receipts.push(receipt);
    }
}

/// One submission: pending transaction `tx`, sent by signer `signer` with
/// nonce `nonce`; `check_nonce` asks for the on-chain nonce to be compared
/// first.
#[derive(Clone, Copy, Debug)]
pub struct Step {
    pub tx: usize,
    pub signer: usize,
    pub nonce: u64,
    pub check_nonce: bool,
}

/// What came of sending one transaction.
pub enum SendOutcome<R> {
    /// Included, with this receipt.
    Mined(R),
    /// Accepted, but no receipt came back.
    NoReceipt,
    /// The transport failed, for this reason.
    Failed(String),
}

/// Some signer holds address `a`.
pub open spec fn has_signer(signers: Seq<Address>, a: Address) -> bool {
    exists|i: int| 0 <= i < signers.len() && (#[trigger] signers[i])@ == a@
}

/// `e` reports transaction `k` of `txs` as sent from an unknown address.
pub open spec fn is_unknown_sender(
    e: BroadcastError,
    signers: Seq<Address>,
    txs: Seq<TxInfo>,
    k: int,
) -> bool {
    match e {
        BroadcastError::UnknownSender { tx, from, available, default_sender } => {
            &&& tx == k
            &&& !has_signer(signers, txs[k].from)
            &&& from@ == txs[k].from@
            &&& available@ == signers
            &&& default_sender == (from@ == default_sender_spec())
        },
        _ => false,
    }
}

/// `e` reports the first transaction from index `done` on whose sender no
/// signer holds.
pub open spec fn first_unknown_sender(
    e: BroadcastError,
    signers: Seq<Address>,
    txs: Seq<TxInfo>,
    done: int,
) -> bool {
    exists|k: int|
        done <= k < txs.len() && #[trigger] is_unknown_sender(e, signers, txs, k) && (forall|j: int|
            done <= j < k ==> has_signer(signers, #[trigger] txs[j].from))
}

/// Number of pending transactions left once `done` have receipts.
pub open spec fn remaining(len: nat, done: nat) -> nat {
    if done < len { (len - done) as nat } else { 0 }
}

/// Refuses a run without signers, before any network call.
pub fn check_signers(signers: &Vec<Address>) -> (r: Result<(), BroadcastError>)
    ensures
        signers@.len() == 0 <==> r is Err,
        r is Err ==> r->Err_0 is NoSigner,
{
    if signers.len() == 0 {
        Err(BroadcastError::NoSigner)
    } else {
        Ok(())
    }
}

/// The signing identities of a run, bound to one chain.
pub struct Broadcaster {
    signers: Vec<Address>,
    chain: u64,
    legacy: bool,
}

impl Broadcaster {
    pub closed spec fn signers(&self) -> Seq<Address> {
        self.signers@
    }

    pub closed spec fn chain(&self) -> u64 {
        self.chain
    }

    pub closed spec fn legacy(&self) -> bool {
        self.legacy
    }

    /// Submissions run one at a time, each awaited before the next, exactly
    /// when one signer is in use.
    pub open spec fn sequential_spec(&self) -> bool {
        self.signers().len() == 1
    }

    /// Binds the signers to chain `chain`. Transactions take the legacy
    /// format when `legacy_flag` asks for it or the chain is known to need
    /// it; an unknown chain takes the modern format.
    pub fn new(signers: Vec<Address>, legacy_flag: bool, chain: u64) -> (r: Result<
        Broadcaster,
        BroadcastError,
    >)
        ensures
            signers@.len() == 0 <==> r is Err,
            r is Err ==> r->Err_0 is NoSigner,
            r is Ok ==> r->Ok_0.signers() == signers@ && r->Ok_0.chain() == chain
                && r->Ok_0.legacy() == (legacy_flag || legacy_chain(chain) == Some(true)),
    {
        if signers.len() == 0 {
            return Err(BroadcastError::NoSigner);
        }
        let legacy = legacy_flag || match chain_is_legacy(chain) {
            Some(known) => known,
            None => false,
        };
        Ok(Broadcaster { signers, chain, legacy })
    }

    /// The chain id the signers are bound to.
    pub fn chain_id(&self) -> (r: u64)
        ensures
            r == self.chain(),
    {
        self.chain
    }

    /// Whether transactions take the legacy format.
    pub fn is_legacy(&self) -> (r: bool)
        ensures
            r == self.legacy(),
    {
        self.legacy
    }

    /// The signers' addresses.
    pub fn addresses(&self) -> (r: &Vec<Address>)
        ensures
            r@ == self.signers(),
    {
        &self.signers
    }

    /// Whether submissions run one at a time.
    pub fn is_sequential(&self) -> (r: bool)
        ensures
            r == self.sequential_spec(),
    {
        self.signers.len() == 1
    }

    /// Index of a signer that holds address `a`.
    pub fn find_signer(&self, a: &Address) -> (r: Option<usize>)
        ensures
            r is None <==> !has_signer(self.signers(), *a),
            r is Some ==> r->Some_0 < self.signers().len() && self.signers()[r->Some_0 as int]@
                == a@,
    {
        let mut i: usize = 0;
        while i < self.signers.len()
            invariant
                i <= self.signers@.len(),
                forall|j: int| 0 <= j < i ==> (#[trigger] self.signers@[j])@ != a@,
            decreases self.signers@.len() - i,
        {
            if same_address(&self.signers[i], a) {
                return Some(i);
            }
            i = i + 1;
        }
        None
    }

    /// The submissions of a run that resumes after the first `done`
    /// transactions, which already have receipts: one step for each later
    /// transaction, in declared order, with a signer that holds its sender.
    /// Fails at the first transaction whose sender no signer holds, before
    /// any submission.
    pub fn plan(&self, txs: &Vec<TxInfo>, done: usize) -> (r: Result<Vec<Step>, BroadcastError>)
        ensures
            r is Ok <==> forall|k: int|
                done <= k < txs@.len() ==> has_signer(self.signers(), #[trigger] txs@[k].from),
            r is Err ==> first_unknown_sender(r->Err_0, self.signers(), txs@, done as int),
            r is Ok ==> ({
                let steps = r->Ok_0@;
                &&& steps.len() == remaining(txs@.len(), done as nat)
                &&& forall|k: int|
                    #![trigger steps[k]]
                    0 <= k < steps.len() ==> {
                        &&& steps[k].tx == done + k
                        &&& steps[k].signer < self.signers().len()
                        &&& self.signers()[steps[k].signer as int]@ == txs@[done + k].from@
                        &&& steps[k].nonce == txs@[done + k].nonce
                        &&& steps[k].check_nonce == !self.sequential_spec()
                    }
            }),
    {
        let check = !self.is_sequential();
        let mut steps: Vec<Step> = Vec::new();
        let mut k: usize = done;
        while k < txs.len()
            invariant
                done <= k,
                k <= txs@.len() || k == done,
                check == !self.sequential_spec(),
                forall|j: int| done <= j < k && j < txs@.len() ==> has_signer(self.signers(), #[trigger] txs@[j].from),
                steps@.len() == k - done,
                forall|m: int|
                    #![trigger steps@[m]]
                    0 <= m < steps@.len() ==> {
                        &&& steps@[m].tx == done + m
                        &&& steps@[m].signer < self.signers().len()
                        &&& self.signers()[steps@[m].signer as int]@ == txs@[done + m].from@
                        &&& steps@[m].nonce == txs@[done + m].nonce
                        &&& steps@[m].check_nonce == check
                    },
            decreases txs@.len() - k,
        {
            let tx = txs[k];
            match self.find_signer(&tx.from) {
                Some(s) => {
                    steps.push(Step { tx: k, signer: s, nonce: tx.nonce, check_nonce: check });
                },
                None => {
                    let sender = default_sender();
                    let is_default = same_address(&tx.from, &sender);
                    let available = copy_addresses(&self.signers);
                    let e = BroadcastError::UnknownSender {
                        tx: k,
                        from: tx.from,
                        available,
                        default_sender: is_default,
                    };
                    assert(is_unknown_sender(e, self.signers(), txs@, k as int));
                    assert(forall|j: int| done <= j < k ==> has_signer(self.signers(), #[trigger] txs@[j].from));
                    assert(first_unknown_sender(e, self.signers(), txs@, done as int));
                    return Err(e);
                },
            }
            k = k + 1;
        }
        Ok(steps)
    }
}

/// Compares the on-chain nonce of a step's sender, queried just before
/// submission (`None` when the query failed), with the nonce the step carries.
pub fn check_nonce(step: &Step, on_chain: Option<u64>) -> (r: Result<(), BroadcastError>)
    ensures
        match on_chain {
            None => r == Err::<(), BroadcastError>(BroadcastError::NonceUnavailable { tx: step.tx }),
            Some(n) => if n == step.nonce {
                r is Ok
            } else {
                r == Err::<(), BroadcastError>(
                    BroadcastError::NonceDrift { tx: step.tx, declared: step.nonce, on_chain: n },
                )
            },
        },
{
    match on_chain {
        None => Err(BroadcastError::NonceUnavailable { tx: step.tx }),
        Some(n) => if n == step.nonce {
            Ok(())
        } else {
            Err(BroadcastError::NonceDrift { tx: step.tx, declared: step.nonce, on_chain: n })
        },
    }
}

/// The receipt of a step, or the error its outcome amounts to.
pub open spec fn settled<R>(step: Step, outcome: SendOutcome<R>) -> Result<
    SubmittedReceipt<R>,
    BroadcastError,
> {
    match outcome {
        SendOutcome::Mined(receipt) => Ok(SubmittedReceipt { receipt, nonce: step.nonce, tx: step.tx }),
        SendOutcome::NoReceipt => Err(BroadcastError::ReceiptMissing { tx: step.tx }),
        SendOutcome::Failed(reason) => Err(BroadcastError::BroadcastFailed { tx: step.tx, reason }),
    }
}

/// Turns what came of sending a step into its receipt, paired with the
/// nonce it was sent with, or into the matching error.
pub fn settle<R>(step: &Step, outcome: SendOutcome<R>) -> (r: Result<SubmittedReceipt<R>, BroadcastError>)
    ensures
        r == settled(*step, outcome),
{
    match outcome {
        SendOutcome::Mined(receipt) => Ok(SubmittedReceipt { receipt, nonce: step.nonce, tx: step.tx }),
        SendOutcome::NoReceipt => Err(BroadcastError::ReceiptMissing { tx: step.tx }),
        SendOutcome::Failed(reason) => Err(BroadcastError::BroadcastFailed { tx: step.tx, reason }),
    }
}

/// From index `from` on, the receipt at each position answers the pending
/// transaction of that index.
pub open spec fn in_declared_order<R>(receipts: Seq<SubmittedReceipt<R>>, from: int) -> bool {
    forall|i: int| from <= i < receipts.len() ==> (#[trigger] receipts[i]).tx == i
}

/// Records the outcome of a step under the one-at-a-time policy: its
/// receipt is appended at once, or the record is left as it was and the
/// error returned. The next transaction to send is the one that the record
/// has no receipt for yet, so the order of declaration is kept.
pub fn record_sequential<R>(
    record: &mut DeploymentRecord<R>,
    step: &Step,
    outcome: SendOutcome<R>,
) -> (r: Result<(), BroadcastError>)
    requires
        old(record).receipts@.len() < old(record).transactions@.len(),
    ensures
        final(record).wf(),
        final(record).transactions@ == old(record).transactions@,
        final(record).path@ == old(record).path@,
        match settled(*step, outcome) {
            Ok(sr) => r is Ok && final(record).receipts@ == old(record).receipts@.push(sr),
            Err(e) => r == Err::<(), BroadcastError>(e) && final(record).receipts@ == old(record).receipts@,
        },
        forall|from: int|
            #![trigger in_declared_order(final(record).receipts@, from)]
            step.tx == old(record).receipts@.len() && in_declared_order(old(record).receipts@, from)
                ==> in_declared_order(final(record).receipts@, from),
{
    match settle(step, outcome) {
        Ok(sr) => {
            let ghost prev = record.receipts@;
            record.add_receipt(sr);
            assert forall|from: int|
                #![trigger in_declared_order(record.receipts@, from)]
                step.tx == prev.len() && in_declared_order(prev, from) implies in_declared_order(
                record.receipts@,
                from,
            ) by {
                assert forall|i: int| from <= i < record.receipts@.len() implies (
                #[trigger] record.receipts@[i]).tx == i by {
                    if i < prev.len() {
                        assert(record.receipts@[i] == prev[i]);
                    }
                }
            }
            Ok(())
        },
        Err(e) => Err(e),
    }
}

/// The receipts after sending `steps` one at a time, with `outcomes` as
/// what came of each, from a record holding `receipts`: each receipt is
/// appended as it comes, and the first failure ends the run.
pub open spec fn appended_sequentially<R>(
    receipts: Seq<SubmittedReceipt<R>>,
    steps: Seq<Step>,
    outcomes: Seq<SendOutcome<R>>,
) -> Seq<SubmittedReceipt<R>>
    decreases steps.len(),
{
    if steps.len() == 0 || outcomes.len() == 0 {
        receipts
    } else {
        match settled(steps[0], outcomes[0]) {
            Ok(sr) => appended_sequentially(receipts.push(sr), steps.drop_first(), outcomes.drop_first()),
            Err(_) => receipts,
        }
    }
}

proof fn lemma_appended_in_order<R>(
    receipts: Seq<SubmittedReceipt<R>>,
    from: int,
    steps: Seq<Step>,
    outcomes: Seq<SendOutcome<R>>,
)
    requires
        in_declared_order(receipts, from),
        forall|k: int| 0 <= k < steps.len() ==> (#[trigger] steps[k]).tx == receipts.len() + k,
    ensures
        in_declared_order(appended_sequentially(receipts, steps, outcomes), from),
        outcomes.len() >= steps.len() && (forall|k: int| 0 <= k < steps.len() ==> (#[trigger] outcomes[k]) is Mined)
            ==> appended_sequentially(receipts, steps, outcomes).len() == receipts.len() + steps.len(),
    decreases steps.len(),
{
    if steps.len() > 0 && outcomes.len() > 0 {
        if let Ok(sr) = settled(steps[0], outcomes[0]) {
            let next = receipts.push(sr);
            assert(steps[0].tx == receipts.len());
            assert forall|i: int| from <= i < next.len() implies (#[trigger] next[i]).tx == i by {
                if i < receipts.len() {
                    assert(next[i] == receipts[i]);
                }
            }
            assert forall|k: int| 0 <= k < steps.drop_first().len() implies (
            #[trigger] steps.drop_first()[k]).tx == next.len() + k by {
                assert(steps.drop_first()[k] == steps[k + 1]);
            }
            if outcomes.len() >= steps.len() && (forall|m: int| 0 <= m < steps.len() ==> (#[trigger] outcomes[m]) is Mined) {
                assert forall|k: int| 0 <= k < steps.drop_first().len() implies (
                #[trigger] outcomes.drop_first()[k]) is Mined by {
                    assert(outcomes.drop_first()[k] == outcomes[k + 1]);
                }
            }
            lemma_appended_in_order(next, from, steps.drop_first(), outcomes.drop_first());
        }
    }
}

/// With one signer, a run that resumes after the first `receipts.len()`
/// transactions and sends the planned steps one at a time appends the
/// receipts in the order the transactions were declared: each new receipt
/// stands at the index of the transaction it answers. When every step is
/// mined, each step adds exactly one receipt.
pub proof fn lemma_sequential_run_in_declared_order<R>(
    receipts: Seq<SubmittedReceipt<R>>,
    steps: Seq<Step>,
    outcomes: Seq<SendOutcome<R>>,
)
    requires
        forall|k: int| 0 <= k < steps.len() ==> (#[trigger] steps[k]).tx == receipts.len() + k,
    ensures
        in_declared_order(appended_sequentially(receipts, steps, outcomes), receipts.len() as int),
        outcomes.len() >= steps.len() && (forall|k: int| 0 <= k < steps.len() ==> (#[trigger] outcomes[k]) is Mined)
            ==> appended_sequentially(receipts, steps, outcomes).len() == receipts.len() + steps.len(),
{
    lemma_appended_in_order(receipts, receipts.len() as int, steps, outcomes);
}

/// Nonces never decrease along `s`.
pub open spec fn sorted_by_nonce<R>(s: Seq<SubmittedReceipt<R>>) -> bool {
    forall|i: int, j: int| 0 <= i < j < s.len() ==> (#[trigger] s[i]).nonce <= (#[trigger] s[j]).nonce
}

/// Every result of `s` is a receipt.
pub open spec fn all_ok<R>(s: Seq<Result<SubmittedReceipt<R>, BroadcastError>>) -> bool {
    forall|i: int| 0 <= i < s.len() ==> (#[trigger] s[i]) is Ok
}

/// The receipts of a sequence of results that are all receipts.
pub open spec fn ok_values<R>(s: Seq<Result<SubmittedReceipt<R>, BroadcastError>>) -> Seq<SubmittedReceipt<R>> {
    Seq::new(s.len(), |i: int| s[i]->Ok_0)
}

/// The batch appended by `wait_for_receipts`: the receipts before the first
/// error (all of them when none failed), sorted by nonce with equal nonces
/// in their order of completion; and the result: that first error, if any.
pub open spec fn batch_settled<R>(
    results: Seq<Result<SubmittedReceipt<R>, BroadcastError>>,
    added: Seq<SubmittedReceipt<R>>,
    r: Result<(), BroadcastError>,
) -> bool {
    match r {
        Ok(_) => all_ok(results) && stably_sorted(ok_values(results), added),
        Err(e) => exists|k: int|
            0 <= k < results.len() && #[trigger] results[k] == Err::<SubmittedReceipt<R>, BroadcastError>(e)
                && all_ok(results.take(k)) && stably_sorted(ok_values(results.take(k)), added),
    }
}

/// The entries of `s` with nonce `n`, in their order in `s`.
pub open spec fn with_nonce<R>(s: Seq<SubmittedReceipt<R>>, n: u64) -> Seq<SubmittedReceipt<R>>
    decreases s.len(),
{
    if s.len() == 0 {
        Seq::empty()
    } else if s.last().nonce == n {
        with_nonce(s.drop_last(), n).push(s.last())
    } else {
        with_nonce(s.drop_last(), n)
    }
}

/// `t` holds the entries of `s` sorted by nonce, entries of equal nonce
/// keeping their order in `s`.
pub open spec fn stably_sorted<R>(s: Seq<SubmittedReceipt<R>>, t: Seq<SubmittedReceipt<R>>) -> bool {
    &&& sorted_by_nonce(t)
    &&& t.to_multiset() == s.to_multiset()
    &&& forall|n: u64| #[trigger] with_nonce(t, n) == with_nonce(s, n)
}

proof fn lemma_with_nonce_add<R>(a: Seq<SubmittedReceipt<R>>, b: Seq<SubmittedReceipt<R>>, n: u64)
    ensures
        with_nonce(a + b, n) == with_nonce(a, n) + with_nonce(b, n),
    decreases b.len(),
{
    if b.len() == 0 {
        assert(a + b =~= a);
        assert(with_nonce(a, n) + with_nonce(b, n) =~= with_nonce(a, n));
    } else {
        assert((a + b).drop_last() =~= a + b.drop_last());
        lemma_with_nonce_add(a, b.drop_last(), n);
        if b.last().nonce == n {
            assert(with_nonce(a, n) + with_nonce(b.drop_last(), n).push(b.last()) =~= (with_nonce(a, n)
                + with_nonce(b.drop_last(), n)).push(b.last()));
        }
    }
}

proof fn lemma_with_nonce_none<R>(s: Seq<SubmittedReceipt<R>>, n: u64)
    requires
        forall|i: int| 0 <= i < s.len() ==> (#[trigger] s[i]).nonce != n,
    ensures
        with_nonce(s, n) == Seq::<SubmittedReceipt<R>>::empty(),
    decreases s.len(),
{
    if s.len() > 0 {
        lemma_with_nonce_none(s.drop_last(), n);
    }
}

/// Sorts receipts by nonce, ascending; receipts of equal nonce keep their
/// order.
pub fn sort_by_nonce<R>(v: Vec<SubmittedReceipt<R>>) -> (r: Vec<SubmittedReceipt<R>>)
    ensures
        stably_sorted(v@, r@),
{
    let ghost all = v@;
    let mut rest = v;
    let mut out: Vec<SubmittedReceipt<R>> = Vec::new();
    let mut i: usize = 0;
    let total: usize = rest.len();
    proof {
        assert(all.take(0) =~= Seq::<SubmittedReceipt<R>>::empty());
        assert(out@ =~= Seq::<SubmittedReceipt<R>>::empty());
    }
    while rest.len() > 0
        invariant
            i <= all.len(),
            total == all.len(),
            rest@ == all.skip(i as int),
            stably_sorted(all.take(i as int), out@),
            out@.len() == i,
        decreases rest@.len(),
    {
        let x = rest.remove(0);
        assert(x == all[i as int]);
        let mut p: usize = 0;
        while p < out.len() && out[p].nonce <= x.nonce
            invariant
                p <= out@.len(),
                forall|j: int| 0 <= j < p ==> (#[trigger] out@[j]).nonce <= x.nonce,
            decreases out@.len() - p,
        {
            p = p + 1;
        }
        let ghost prev = out@;
        let ghost seen = all.take(i as int);
        proof {
            assert(forall|j: int| p <= j < prev.len() ==> (#[trigger] prev[j]).nonce > x.nonce) by {
                assert forall|j: int| p <= j < prev.len() implies (#[trigger] prev[j]).nonce > x.nonce by {
                    if p < prev.len() {
                        assert(prev[p as int].nonce > x.nonce);
                    }
                }
            }
        }
        out.insert(p, x);
        i = i + 1;
        proof {
            assert(all.take(i as int) =~= seen.push(x));
            assert(rest@ =~= all.skip(i as int));
            let ins = out@;
            assert(ins =~= prev.take(p as int) + seq![x] + prev.skip(p as int));
            assert(prev =~= prev.take(p as int) + prev.skip(p as int));
            assert forall|a: int, b: int| 0 <= a < b < ins.len() implies (#[trigger] ins[a]).nonce
                <= (#[trigger] ins[b]).nonce by {
                if a < p && b > p {
                    assert(ins[b] == prev[b - 1]);
                    assert(ins[a] == prev[a]);
                }
                if a < p && b < p {
                    assert(ins[b] == prev[b]);
                    assert(ins[a] == prev[a]);
                }
                if a > p {
                    assert(ins[b] == prev[b - 1]);
                    assert(ins[a] == prev[a - 1]);
                }
                if a == p {
                    assert(ins[b] == prev[b - 1]);
                }
                if b == p {
                    assert(ins[a] == prev[a]);
                }
            }
            assert forall|n: u64| #[trigger] with_nonce(ins, n) == with_nonce(all.take(i as int), n) by {
                let front = prev.take(p as int);
                let back = prev.skip(p as int);
                lemma_with_nonce_add(front + seq![x], back, n);
                lemma_with_nonce_add(front, seq![x], n);
                lemma_with_nonce_add(front, back, n);
                assert(seq![x].drop_last() =~= Seq::<SubmittedReceipt<R>>::empty());
                assert(seq![x].last() == x);
                assert(with_nonce(Seq::<SubmittedReceipt<R>>::empty(), n) =~= Seq::<SubmittedReceipt<R>>::empty());
                assert(with_nonce(seen, n) == with_nonce(prev, n));
                if x.nonce == n {
                    lemma_with_nonce_none(back, n);
                    assert(with_nonce(seq![x], n) =~= seq![x]);
                    assert(seen.push(x).drop_last() =~= seen);
                    assert(with_nonce(front, n) + Seq::<SubmittedReceipt<R>>::empty() =~= with_nonce(front, n));
                    assert(with_nonce(front, n) + seq![x] + Seq::<SubmittedReceipt<R>>::empty() =~= with_nonce(front, n).push(x));
                } else {
                    assert(with_nonce(seq![x], n) =~= Seq::<SubmittedReceipt<R>>::empty());
                    assert(seen.push(x).drop_last() =~= seen);
                    assert(with_nonce(front, n) + Seq::<SubmittedReceipt<R>>::empty() =~= with_nonce(front, n));
                }
            }
        }
    }
    proof {
        assert(all.take(total as int) =~= all);
    }
    out
}

/// Gathers the results of concurrent submissions, all of them resolved:
/// the receipts before the first error, whose completion order need not be
/// their submission order, are sorted by nonce and appended to the record;
/// that first error, if any, is then returned.
pub fn wait_for_receipts<R>(
    results: Vec<Result<SubmittedReceipt<R>, BroadcastError>>,
    record: &mut DeploymentRecord<R>,
) -> (r: Result<(), BroadcastError>)
    requires
        old(record).receipts@.len() + results@.len() <= old(record).transactions@.len(),
    ensures
        final(record).wf(),
        final(record).transactions@ == old(record).transactions@,
        final(record).path@ == old(record).path@,
        final(record).receipts@.len() >= old(record).receipts@.len(),
        final(record).receipts@.take(old(record).receipts@.len() as int) == old(record).receipts@,
        batch_settled(
            results@,
            final(record).receipts@.skip(old(record).receipts@.len() as int),
            r,
        ),
{
    let ghost all = results@;
    let total: usize = results.len();
    let mut rest = results;
    let mut oks: Vec<SubmittedReceipt<R>> = Vec::new();
    let mut err: Option<BroadcastError> = None;
    let mut k: usize = 0;
    assert(all.len() == total);
    while err.is_none() && rest.len() > 0
        invariant
            k <= all.len(),
            all.len() <= usize::MAX,
            rest@.len() <= all.len() - k,
            err is None ==> rest@ == all.skip(k as int),
            err is Some ==> k < all.len() && all[k as int] == Err::<SubmittedReceipt<R>, BroadcastError>(
                err->Some_0,
            ),
            all_ok(all.take(k as int)),
            oks@ == ok_values(all.take(k as int)),
        decreases rest@.len(),
    {
        let ghost before = rest@;
        match rest.remove(0) {
            Ok(v) => {
                assert(all.take(k + 1) =~= all.take(k as int).push(Ok(v)));
                assert(ok_values(all.take(k + 1)) =~= ok_values(all.take(k as int)).push(v));
                oks.push(v);
                k = k + 1;
                assert(rest@ =~= all.skip(k as int));
                assert(oks@ =~= ok_values(all.take(k as int)));
            },
            Err(e) => {
                assert(all[k as int] == Err::<SubmittedReceipt<R>, BroadcastError>(e));
                err = Some(e);
            },
        }
    }
    let ghost ok_seq = oks@;
    assert(ok_seq.len() == k);
    let sorted = sort_by_nonce(oks);
    assert(sorted@.to_multiset().len() == ok_seq.to_multiset().len());
    assert(sorted@.len() == k);
    let ghost start = record.receipts@;
    let mut i: usize = 0;
    let mut sorted = sorted;
    let ghost sorted_all = sorted@;
    let count: usize = sorted.len();
    assert(sorted_all.len() == count);
    while sorted.len() > 0
        invariant
            record.transactions@ == old(record).transactions@,
            record.path@ == old(record).path@,
            start == old(record).receipts@,
            record.receipts@ == start + sorted_all.take(i as int),
            start.len() + sorted_all.len() <= record.transactions@.len(),
            sorted@ == sorted_all.skip(i as int),
            i <= sorted_all.len(),
            sorted_all.len() <= usize::MAX,
        decreases sorted@.len(),
    {
        let x = sorted.remove(0);
        record.add_receipt(x);
        i = i + 1;
        assert(record.receipts@ =~= start + sorted_all.take(i as int));
        assert(sorted@ =~= sorted_all.skip(i as int));
    }
    proof {
        assert(sorted_all.take(i as int) =~= sorted_all);
        assert(record.receipts@.take(start.len() as int) =~= start);
        assert(record.receipts@.skip(start.len() as int) =~= sorted_all);
    }
    match err {
        Some(e) => {
            assert(0 <= k < all.len() && all[k as int] == Err::<SubmittedReceipt<R>, BroadcastError>(e));
            Err(e)
        },
        None => {
            assert(all.take(k as int) =~= all);
            Ok(())
        },
    }
}

/// What a script run does next with the transactions it produced.
#[derive(Clone, Copy, Debug, PartialEq, Eq, Structural)]
pub enum ScriptStep {
    /// Nothing to do.
    Finish,
    /// Tell the user that an RPC URL is needed to simulate on chain.
    AskForRpc,
    /// Simulate the transactions on chain.
    Simulate,
    /// The simulation passed: broadcast the transactions.
    Broadcast,
    /// The simulation passed; report that broadcasting was not asked for.
    ReportSimulation,
    /// Broadcasting was asked for, but the script produced no transaction.
    FailNoTransactions,
    /// Some transaction failed in the on-chain simulation.
    FailSimulation,
    /// The script itself failed.
    FailScript,
}

/// The step after a script ran: `has_transactions` says whether it produced
/// transactions to broadcast, `has_rpc` whether an RPC URL was given.
pub fn after_script(has_transactions: bool, has_rpc: bool, broadcast: bool) -> (r: ScriptStep)
    ensures
        r == (if !has_transactions {
            if broadcast {
                ScriptStep::FailNoTransactions
            } else {
                ScriptStep::Finish
            }
        } else if has_rpc {
            ScriptStep::Simulate
        } else {
            ScriptStep::AskForRpc
        }),
{
    if !has_transactions {
        if broadcast {
            ScriptStep::FailNoTransactions
        } else {
            ScriptStep::Finish
        }
    } else if has_rpc {
        ScriptStep::Simulate
    } else {
        ScriptStep::AskForRpc
    }
}

/// The step after the on-chain simulation: `simulated` says whether every
/// transaction went through it, `script_success` whether the script itself
/// succeeded.
pub fn after_simulation(simulated: bool, script_success: bool, broadcast: bool) -> (r: ScriptStep)
    ensures
        r == (if !simulated {
            ScriptStep::FailSimulation
        } else if !script_success {
            ScriptStep::FailScript
        } else if broadcast {
            ScriptStep::Broadcast
        } else {
            ScriptStep::ReportSimulation
        }),
{
    if !simulated {
        ScriptStep::FailSimulation
    } else if !script_success {
        ScriptStep::FailScript
    } else if broadcast {
        ScriptStep::Broadcast
    } else {
        ScriptStep::ReportSimulation
    }
}

} // verus!
