//! Anchoring chain digests on an append-only ledger.
//!
//! `AnchorLog` is an in-process ledger: each anchor is written once, under a
//! transaction id that the log assigns, and can be read back by that id. A
//! networked ledger reports its failures as an `AnchorError`.
use vstd::prelude::*;
use crate::digest::{decimal_digits, lemma_decimal_digits_injective, push_decimal_digits};

verus! {

/// Why an anchor could not be written.
#[derive(PartialEq, Eq, Structural, Clone, Copy, Debug)]
pub enum AnchorError {
    /// Credentials, endpoint or contract address are missing or invalid.
    Configuration,
    /// The ledger could not be reached, or the submission was not acknowledged.
    Transport,
    /// The credential could not produce a valid signature.
    Signing,
    /// The ledger refused the call.
    LedgerRejected,
}

impl AnchorError {
    /// Only a transport failure may be retried without investigation.
    pub fn is_retryable(&self) -> (r: bool)
        ensures
            r == (*self is Transport),
    {
        match self {
            AnchorError::Transport => true,
            _ => false,
        }
    }
}

/// The ledger-assigned identifier of the transaction that wrote an anchor.
#[derive(Clone, Debug)]
pub struct AnchorReceipt {
    pub tx_id: Vec<u8>,
}

struct AnchorEntry {
    tx_id: Vec<u8>,
    label: u64,
    data: String,
}

/// The transaction id that an `AnchorLog` gives its `i`-th anchor: the ASCII
/// decimal digits of `i`.
pub open spec fn log_tx_id(i: nat) -> Seq<u8> {
    decimal_digits(i)
}

/// The anchor written under transaction id `tx` in a log whose anchors, in
/// order of writing, are `log`.
pub open spec fn anchor_under(log: Seq<(u64, Seq<char>)>, tx: Seq<u8>) -> Option<(u64, Seq<char>)> {
    if exists|i: nat| i < log.len() && log_tx_id(i) == tx {
        Some(log[(choose|i: nat| i < log.len() && log_tx_id(i) == tx) as int])
    } else {
        None
    }
}

/// An append-only ledger of `(label, data)` anchors.
pub struct AnchorLog {
    entries: Vec<AnchorEntry>,
}

impl View for AnchorLog {
    type V = Seq<(u64, Seq<char>)>;

    closed spec fn view(&self) -> Seq<(u64, Seq<char>)> {
        Seq::new(self.entries@.len(), |i: int| (self.entries@[i].label, self.entries@[i].data@))
    }
}

/// Whether two byte strings are equal.
fn bytes_equal(a: &Vec<u8>, b: &Vec<u8>) -> (r: bool)
    ensures
        r == (a@ == b@),
{
    if a.len() != b.len() {
        return false;
    }
    let mut i: usize = 0;
    while i < a.len()
        invariant
            a@.len() == b@.len(),
            i <= a@.len(),
            forall|j: int| 0 <= j < i ==> a@[j] == b@[j],
        decreases a@.len() - i,
    {
        if a[i] != b[i] {
            return false;
        }
        i += 1;
    }
    assert(a@ =~= b@);
    true
}

impl AnchorLog {
    /// The log's invariant: the `i`-th anchor is held under `log_tx_id(i)`.
    pub closed spec fn wf(&self) -> bool {
        forall|i: int| 0 <= i < self.entries@.len() ==> (#[trigger] self.entries@[i]).tx_id@ == log_tx_id(i as nat)
    }

    /// An empty log.
    pub fn new() -> (l: AnchorLog)
        ensures
            l.wf(),
            l@.len() == 0,
    {
        AnchorLog { entries: Vec::new() }
    }

    /// Number of anchors written.
    pub fn len(&self) -> (n: usize)
        ensures
            n == self@.len(),
    {
        self.entries.len()
    }

    /// Writes `digest` under `label` as a new anchor and returns the id of the
    /// transaction that wrote it.
    pub fn anchor(&mut self, digest: &str, label: u64) -> (r: AnchorReceipt)
        requires
            old(self).wf(),
        ensures
            final(self).wf(),
            final(self)@ == old(self)@.push((label, digest@)),
            r.tx_id@ == log_tx_id(old(self)@.len()),
    {
        let mut tx_id: Vec<u8> = Vec::new();
        push_decimal_digits(self.entries.len() as u64, &mut tx_id);
        assert(tx_id@ =~= log_tx_id(self@.len()));
        let ghost before = self@;
        self.entries.push(AnchorEntry { tx_id: tx_id.clone(), label, data: digest.to_owned() });
        assert(self@ =~= before.push((label, digest@)));
        AnchorReceipt { tx_id }
    }

    /// The `(label, data)` anchor written by the transaction of `receipt`, if
    /// this log wrote one.
    pub fn lookup(&self, receipt: &AnchorReceipt) -> (r: Option<(u64, String)>)
        requires
            self.wf(),
        ensures
            r is None <==> anchor_under(self@, receipt.tx_id@) is None,
            r matches Some((label, data)) ==> anchor_under(self@, receipt.tx_id@) == Some(
                (label, data@),
            ),
    {
        let n = self.entries.len();
        let mut i: usize = 0;
        while i < n
            invariant
                self.wf(),
                n == self@.len(),
                i <= n,
                forall|j: nat| j < i ==> log_tx_id(j) != receipt.tx_id@,
            decreases n - i,
        {
            if bytes_equal(&self.entries[i].tx_id, &receipt.tx_id) {
                proof {
                    let tx = receipt.tx_id@;
                    assert(self.entries@[i as int].tx_id@ == log_tx_id(i as nat));
                    let k = choose|k: nat| k < self@.len() && log_tx_id(k) == tx;
                    lemma_decimal_digits_injective(k, i as nat);
                }
                return Some((self.entries[i].label, self.entries[i].data.clone()));
            }
            proof {
                assert(self.entries@[i as int].tx_id@ == log_tx_id(i as nat));
            }
            i += 1;
        }
        None
    }
}

/// Reading an anchor back by the receipt of its transaction gives exactly the
/// label and digest that were written.
pub proof fn lemma_anchor_round_trip(log: Seq<(u64, Seq<char>)>, label: u64, digest: Seq<char>)
    ensures
        anchor_under(log.push((label, digest)), log_tx_id(log.len())) == Some((label, digest)),
{
    let after = log.push((label, digest));
    let tx = log_tx_id(log.len());
    assert(log.len() < after.len() && log_tx_id(log.len()) == tx);
    let k = choose|k: nat| k < after.len() && log_tx_id(k) == tx;
    lemma_decimal_digits_injective(k, log.len());
}

} // verus!
