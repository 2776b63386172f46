//! Records, the ordered store that holds them, and the hash chain over them.
//!
//! Records are chained in ascending order of id. The first record links to
//! the genesis sentinel `"0"`; every later one links to the hash of the record
//! before it. Latitude and longitude are held as their canonical text, the one
//! that is hashed: the `{:?}` rendering of the `f64`, which is the shortest
//! text that reads back as the same value and keeps a fractional part
//! (`"10.0"`, `"-33.8688"`).
use vstd::prelude::*;
use crate::digest::{calculate_hash, lemma_record_message_injective, record_message, sha256_hex};

verus! {

/// One sensor-position observation and its two chain fields.
#[derive(Clone, Debug)]
pub struct Record {
    pub id: i64,
    pub name: String,
    pub lat: String,
    pub lng: String,
    pub sensor_type: String,
    pub created_at: String,
    pub previous_hash: Option<String>,
    pub current_hash: Option<String>,
}

impl Record {
    /// A record whose chain fields are not yet populated.
    pub fn new(
        id: i64,
        name: String,
        lat: String,
        lng: String,
        sensor_type: String,
        created_at: String,
    ) -> (r: Record)
        ensures
            r.id == id,
            r.name == name,
            r.lat == lat,
            r.lng == lng,
            r.sensor_type == sensor_type,
            r.created_at == created_at,
            r.previous_hash is None,
            r.current_hash is None,
    {
        Record { id, name, lat, lng, sensor_type, created_at, previous_hash: None, current_hash: None }
    }
}

/// The hash that links the first record: the text `"0"`.
pub open spec fn genesis() -> Seq<char> {
    seq!['0']
}

/// The non-chain fields of two records agree.
pub open spec fn same_content(a: Record, b: Record) -> bool {
    &&& a.id == b.id
    &&& a.name@ == b.name@
    &&& a.lat@ == b.lat@
    &&& a.lng@ == b.lng@
    &&& a.sensor_type@ == b.sensor_type@
    &&& a.created_at@ == b.created_at@
}

/// Two record sequences agree on every non-chain field, position by position.
pub open spec fn same_contents(a: Seq<Record>, b: Seq<Record>) -> bool {
    &&& a.len() == b.len()
    &&& forall|i: int| 0 <= i < a.len() ==> same_content(#[trigger] a[i], b[i])
}

/// The hash of record `r` linked to `previous_hash`.
pub open spec fn record_hash(r: Record, previous_hash: Seq<char>) -> Seq<char> {
    sha256_hex(
        record_message(
            r.id as int,
            r.name@,
            r.lat@,
            r.lng@,
            r.sensor_type@,
            r.created_at@,
            previous_hash,
        ),
    )
}

/// The chain hash of the record at position `i` of `rs`, computed from the
/// non-chain fields of `rs[0..=i]` alone.
pub open spec fn chain_hash(rs: Seq<Record>, i: int) -> Seq<char>
    decreases i,
{
    if i <= 0 {
        record_hash(rs[0], genesis())
    } else {
        record_hash(rs[i], chain_hash(rs, i - 1))
    }
}

/// The hash that the record at position `i` links to.
pub open spec fn chain_prev(rs: Seq<Record>, i: int) -> Seq<char> {
    if i <= 0 {
        genesis()
    } else {
        chain_hash(rs, i - 1)
    }
}

/// The digest of a whole chain: the hash of its last record, or the genesis
/// sentinel when there is none.
pub open spec fn chain_digest(rs: Seq<Record>) -> Seq<char> {
    if rs.len() == 0 {
        genesis()
    } else {
        chain_hash(rs, rs.len() - 1)
    }
}

/// `o` holds a text equal to `t`.
pub open spec fn holds_text(o: Option<String>, t: Seq<char>) -> bool {
    o matches Some(s) && s@ == t
}

/// Every record of `rs` carries the chain fields that its position calls for.
pub open spec fn is_chained(rs: Seq<Record>) -> bool {
    forall|i: int|
        0 <= i < rs.len() ==> holds_text((#[trigger] rs[i]).previous_hash, chain_prev(rs, i))
            && holds_text(rs[i].current_hash, chain_hash(rs, i))
}

/// The stored hash of the record at position `i` is the one recomputed from
/// the non-chain fields.
pub open spec fn hash_matches(rs: Seq<Record>, i: int) -> bool {
    holds_text(rs[i].current_hash, chain_hash(rs, i))
}

/// Ids ascend strictly along `rs`.
pub open spec fn ids_ascending(rs: Seq<Record>) -> bool {
    forall|i: int, j: int| 0 <= i < j < rs.len() ==> (#[trigger] rs[i]).id < (#[trigger] rs[j]).id
}

/// Outcome of re-checking a chain against its stored hashes.
#[derive(Clone, Debug)]
pub enum Verification {
    /// Every stored hash equals the recomputed one.
    Valid,
    /// The first record whose stored hash diverges from the recomputed one.
    Invalid { at_id: i64, expected: String, actual: Option<String> },
}

/// Errors of the record store.
#[derive(PartialEq, Eq, Structural, Clone, Copy, Debug)]
pub enum StoreError {
    /// A record with this id is already held.
    DuplicateId,
}

/// Records kept in ascending order of id, with unique ids.
pub struct ChainStore {
    records: Vec<Record>,
}

impl View for ChainStore {
    type V = Seq<Record>;

    closed spec fn view(&self) -> Seq<Record> {
        self.records@
    }
}

impl ChainStore {
    /// The store's invariant: ids ascend strictly.
    pub open spec fn wf(&self) -> bool {
        ids_ascending(self@)
    }

    /// An empty store.
    pub fn new() -> (s: ChainStore)
        ensures
            s.wf(),
            s@.len() == 0,
    {
        ChainStore { records: Vec::new() }
    }

    /// The records, in ascending order of id.
    pub fn records(&self) -> (r: &Vec<Record>)
        ensures
            r@ == self@,
    {
        &self.records
    }

    /// Gives up the records, in ascending order of id.
    pub fn into_records(self) -> (r: Vec<Record>)
        ensures
            r@ == self@,
    {
        self.records
    }

    /// Number of records held.
    pub fn len(&self) -> (n: usize)
        ensures
            n == self@.len(),
    {
        self.records.len()
    }

    /// Adds a record at the place its id calls for. Fails, leaving the store
    /// unchanged, when a record with the same id is held.
    pub fn insert(&mut self, record: Record) -> (r: Result<(), StoreError>)
        requires
            old(self).wf(),
        ensures
            final(self).wf(),
            r is Err <==> exists|i: int| 0 <= i < old(self)@.len() && #[trigger] old(self)@[i].id == record.id,
            r is Err ==> final(self)@ == old(self)@,
            r is Ok ==> exists|k: int|
                0 <= k <= old(self)@.len() && final(self)@ == old(self)@.insert(k, record),
    {
        let n = self.records.len();
        let mut k: usize = 0;
        while k < n && self.records[k].id < record.id
            invariant
                n == self@.len(),
                k <= n,
                self.wf(),
                forall|i: int| 0 <= i < k ==> (#[trigger] self@[i]).id < record.id,
            decreases n - k,
        {
            k += 1;
        }
        if k < n && self.records[k].id == record.id {
            return Err(StoreError::DuplicateId);
        }
        proof {
            assert forall|i: int| 0 <= i < n implies #[trigger] self@[i].id != record.id by {
                if i >= k {
                    assert(self@[k as int].id > record.id);
                    if i > k {
                        assert(self@[k as int].id < self@[i].id);
                    }
                }
            }
        }
        let ghost before = self@;
        self.records.insert(k, record);
        proof {
            assert forall|i: int, j: int| 0 <= i < j < self@.len() implies (#[trigger] self@[i]).id
                < (#[trigger] self@[j]).id by {
                if j < k {
                    assert(self@[i] == before[i] && self@[j] == before[j]);
                } else if j == k {
                    assert(self@[i] == before[i]);
                } else if i == k {
                    assert(self@[j] == before[j - 1]);
                    assert(before[k as int].id > record.id);
                    if j - 1 > k {
                        assert(before[k as int].id < before[j - 1].id);
                    }
                } else if i < k {
                    assert(self@[i] == before[i] && self@[j] == before[j - 1]);
                } else {
                    assert(self@[i] == before[i - 1] && self@[j] == before[j - 1]);
                }
            }
        }
        Ok(())
    }
    /// Computes the hash chain over the records in ascending order of id and
    /// writes each record's two chain fields. Returns the chain digest: the
    /// last record's hash, or `"0"` when the store is empty. Only chain fields
    /// change.
    pub fn build_chain(&mut self) -> (digest: String)
        requires
            old(self).wf(),
        ensures
            final(self).wf(),
            same_contents(final(self)@, old(self)@),
            is_chained(final(self)@),
            digest@ == chain_digest(old(self)@),
            digest@ == chain_digest(final(self)@),
            old(self)@.len() == 0 ==> final(self)@ == old(self)@ && digest@ == genesis(),
    {
        let ghost orig = self@;
        proof {
            reveal_strlit("0");
        }
        let mut prev = String::from_str("0");
        let n = self.records.len();
        let mut i: usize = 0;
        while i < n
            invariant
                n == orig.len(),
                self@.len() == n,
                i <= n,
                same_contents(self@, orig),
                forall|j: int|
                    0 <= j < i ==> holds_text(#[trigger] self@[j].previous_hash, chain_prev(orig, j))
                        && holds_text(self@[j].current_hash, chain_hash(orig, j)),
                forall|j: int| i <= j < n ==> #[trigger] self@[j] == orig[j],
                prev@ == chain_prev(orig, i as int),
            decreases n - i,
        {
            let hash = calculate_hash(
                self.records[i].id,
                self.records[i].name.as_str(),
                self.records[i].lat.as_str(),
                self.records[i].lng.as_str(),
                self.records[i].sensor_type.as_str(),
                self.records[i].created_at.as_str(),
                prev.as_str(),
            );
            assert(hash@ == chain_hash(orig, i as int));
            let next = hash.clone();
            let r = &mut self.records[i];
            r.previous_hash = Some(prev);
            r.current_hash = Some(hash);
            prev = next;
            i += 1;
        }
        proof {
            lemma_chain_deterministic(self@, orig);
        }
        prev
    }

    /// Recomputes every record's hash from its non-chain fields, in ascending
    /// order of id and starting from `"0"`, and compares it with the stored
    /// one. Reports the first record where they differ, if any.
    pub fn verify_chain(&self) -> (v: Verification)
        ensures
            v is Valid <==> forall|i: int| 0 <= i < self@.len() ==> hash_matches(self@, i),
            v matches Verification::Invalid { at_id, expected, actual } ==> exists|k: int|
                0 <= k < self@.len() && (forall|i: int| 0 <= i < k ==> hash_matches(self@, i))
                    && !hash_matches(self@, k) && at_id == self@[k].id && expected@ == chain_hash(
                    self@,
                    k,
                ) && actual == self@[k].current_hash,
    {
        proof {
            reveal_strlit("0");
        }
        let mut prev = String::from_str("0");
        let n = self.records.len();
        let mut i: usize = 0;
        while i < n
            invariant
                n == self@.len(),
                i <= n,
                forall|j: int| 0 <= j < i ==> hash_matches(self@, j),
                prev@ == chain_prev(self@, i as int),
            decreases n - i,
        {
            let r = &self.records[i];
            let expected = calculate_hash(
                r.id,
                r.name.as_str(),
                r.lat.as_str(),
                r.lng.as_str(),
                r.sensor_type.as_str(),
                r.created_at.as_str(),
                prev.as_str(),
            );
            let same = match &r.current_hash {
                Some(s) => *s == expected,
                None => false,
            };
            if !same {
                let actual = match &r.current_hash {
                    Some(s) => Some(s.clone()),
                    None => None,
                };
                assert(expected@ == chain_hash(self@, i as int));
                assert(!hash_matches(self@, i as int));
                return Verification::Invalid { at_id: r.id, expected, actual };
            }
            assert(hash_matches(self@, i as int));
            prev = expected;
            i += 1;
        }
        Verification::Valid
    }
}

/// Running the chain construction on records with the same non-chain fields
/// in the same order yields the same hashes, links and digest: the chain is a
/// function of the non-chain fields and their order alone.
pub proof fn lemma_chain_deterministic(a: Seq<Record>, b: Seq<Record>)
    requires
        same_contents(a, b),
    ensures
        forall|i: int| 0 <= i < a.len() ==> #[trigger] chain_hash(a, i) == chain_hash(b, i),
        forall|i: int| 0 <= i < a.len() ==> #[trigger] chain_prev(a, i) == chain_prev(b, i),
        chain_digest(a) == chain_digest(b),
{
    assert forall|i: int| 0 <= i < a.len() implies #[trigger] chain_hash(a, i) == chain_hash(b, i) by {
        lemma_chain_hash_same(a, b, i);
    }
    assert forall|i: int| 0 <= i < a.len() implies #[trigger] chain_prev(a, i) == chain_prev(b, i) by {
        if i > 0 {
            lemma_chain_hash_same(a, b, i - 1);
        }
    }
    if a.len() > 0 {
        lemma_chain_hash_same(a, b, a.len() - 1);
    }
}

proof fn lemma_chain_hash_same(a: Seq<Record>, b: Seq<Record>, i: int)
    requires
        0 <= i < a.len(),
        0 <= i < b.len(),
        forall|j: int| 0 <= j <= i ==> same_content(#[trigger] a[j], b[j]),
    ensures
        chain_hash(a, i) == chain_hash(b, i),
    decreases i,
{
    assert(same_content(a[i], b[i]));
    if i > 0 {
        lemma_chain_hash_same(a, b, i - 1);
    }
}

/// In a chained sequence every record but the first links to the hash of the
/// record just before it.
pub proof fn lemma_chain_continuity(rs: Seq<Record>, i: int)
    requires
        is_chained(rs),
        0 < i < rs.len(),
    ensures
        rs[i].previous_hash is Some,
        rs[i - 1].current_hash is Some,
        rs[i].previous_hash.unwrap()@ == rs[i - 1].current_hash.unwrap()@,
{
    assert(holds_text(rs[i].previous_hash, chain_prev(rs, i)));
    assert(holds_text(rs[i - 1].current_hash, chain_hash(rs, i - 1)));
}

/// In a chained sequence the first record links to the genesis sentinel `"0"`.
pub proof fn lemma_chain_genesis(rs: Seq<Record>)
    requires
        is_chained(rs),
        rs.len() > 0,
    ensures
        holds_text(rs[0].previous_hash, genesis()),
{
    assert(holds_text(rs[0].previous_hash, chain_prev(rs, 0)));
}

/// Every stored hash of a chained sequence is the recomputed one, so a
/// re-check of a freshly built chain finds it valid.
pub proof fn lemma_chained_verifies(rs: Seq<Record>)
    requires
        is_chained(rs),
    ensures
        forall|i: int| 0 <= i < rs.len() ==> hash_matches(rs, i),
{
    assert forall|i: int| 0 <= i < rs.len() implies hash_matches(rs, i) by {
        assert(holds_text(rs[i].current_hash, chain_hash(rs, i)));
    }
}

/// Two distinct messages with the same SHA-256 digest.
pub open spec fn digest_collision(m1: Seq<u8>, m2: Seq<u8>) -> bool {
    m1 != m2 && sha256_hex(m1) == sha256_hex(m2)
}

/// Changing the non-chain fields of one record of a chained sequence, and
/// nothing else, is caught at that record: every record before it still
/// checks, and the record itself checks only if SHA-256 maps two distinct
/// messages to one digest. A re-check therefore reports the change at that
/// record, never a valid chain, unless SHA-256 collides.
pub proof fn lemma_tamper_detected(chained: Seq<Record>, tampered: Seq<Record>, k: int)
    requires
        is_chained(chained),
        tampered.len() == chained.len(),
        0 <= k < chained.len(),
        forall|i: int| 0 <= i < chained.len() && i != k ==> #[trigger] tampered[i] == chained[i],
        !same_content(tampered[k], chained[k]),
        tampered[k].current_hash == chained[k].current_hash,
    ensures
        forall|i: int| 0 <= i < k ==> hash_matches(tampered, i),
        hash_matches(tampered, k) ==> exists|m1: Seq<u8>, m2: Seq<u8>| digest_collision(m1, m2),
{
    assert forall|i: int| 0 <= i < k implies hash_matches(tampered, i) by {
        assert(forall|j: int| 0 <= j <= i ==> #[trigger] tampered[j] == chained[j]);
        lemma_chain_hash_same(tampered, chained, i);
        assert(holds_text(chained[i].current_hash, chain_hash(chained, i)));
    }
    let p = chain_prev(chained, k);
    if k > 0 {
        assert(forall|j: int| 0 <= j <= k - 1 ==> #[trigger] tampered[j] == chained[j]);
        lemma_chain_hash_same(tampered, chained, k - 1);
    }
    assert(chain_prev(tampered, k) == p);
    let t = tampered[k];
    let c = chained[k];
    let m1 = record_message(t.id as int, t.name@, t.lat@, t.lng@, t.sensor_type@, t.created_at@, p);
    let m2 = record_message(c.id as int, c.name@, c.lat@, c.lng@, c.sensor_type@, c.created_at@, p);
    if m1 == m2 {
        lemma_record_message_injective(
            t.id as int, t.name@, t.lat@, t.lng@, t.sensor_type@, t.created_at@, p,
            c.id as int, c.name@, c.lat@, c.lng@, c.sensor_type@, c.created_at@, p,
        );
    }
    if hash_matches(tampered, k) {
        assert(holds_text(c.current_hash, chain_hash(chained, k)));
        assert(digest_collision(m1, m2));
    }
}

} // verus!
