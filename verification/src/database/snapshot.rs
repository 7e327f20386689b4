//! Fixed-sequence views that can be explicitly revoked: their retention claims,
//! the range scans over them, and the catalogue that they show.

use super::Error;
use crate::bytes::same_bytes;
use vstd::prelude::*;

verus! {

pub const DROPPED_TABLE: &'static str = "table is unknown or dropped at snapshot sequence";

pub const REVERSED: &'static str = "reversed scan endpoints";

// ---- Claims --------------------------------------------------------------

/// A snapshot that holds a view, and the sequence that it shows.
#[derive(Clone, Copy, Debug, PartialEq, Eq, Structural)]
pub struct Claim {
    pub id: u64,
    pub sequence: u64,
}

/// The snapshots that hold a view. A snapshot leaves when it is revoked or its
/// last handle is dropped.
#[derive(Debug, PartialEq, Eq)]
pub struct Registry {
    pub claims: Vec<Claim>,
    /// No claim has this number or a greater one.
    pub next: u64,
}

/// Whether no number is used twice.
pub open spec fn distinct(claims: Seq<Claim>) -> bool {
    forall|i: int, j: int|
        0 <= i < j < claims.len() ==> (#[trigger] claims[i]).id != (#[trigger] claims[j]).id
}

/// The claims by their numbers.
pub open spec fn claim_map(claims: Seq<Claim>) -> Map<u64, u64>
    decreases claims.len(),
{
    if claims.len() == 0 {
        Map::empty()
    } else {
        claim_map(claims.drop_last()).insert(claims.last().id, claims.last().sequence)
    }
}

impl Registry {
    pub open spec fn view(&self) -> Map<u64, u64> {
        claim_map(self.claims@)
    }

    /// What every operation keeps.
    pub open spec fn wf(&self) -> bool {
        &&& distinct(self.claims@)
        &&& forall|i: int| 0 <= i < self.claims@.len() ==> (#[trigger] self.claims@[i]).id < self.next
    }
}

proof fn lemma_claims(claims: Seq<Claim>, id: u64)
    requires
        distinct(claims),
    ensures
        claim_map(claims).contains_key(id) <==> exists|i: int|
            0 <= i < claims.len() && (#[trigger] claims[i]).id == id,
        forall|i: int|
            0 <= i < claims.len() && (#[trigger] claims[i]).id == id ==> claim_map(claims)[id]
                == claims[i].sequence,
    decreases claims.len(),
{
    if claims.len() > 0 {
        let front = claims.drop_last();
        assert(distinct(front)) by {
            assert forall|i: int, j: int| 0 <= i < j < front.len() implies (#[trigger] front[i]).id
                != (#[trigger] front[j]).id by {
                assert(front[i] == claims[i] && front[j] == claims[j]);
            }
        }
        lemma_claims(front, id);
        let last = claims.len() - 1;
        assert(claims[last] == claims.last());
        if exists|i: int| 0 <= i < front.len() && (#[trigger] front[i]).id == id {
            let i = choose|i: int| 0 <= i < front.len() && (#[trigger] front[i]).id == id;
            assert(claims[i].id == id);
        }
        assert forall|i: int| 0 <= i < claims.len() && (#[trigger] claims[i]).id == id implies
            claim_map(claims)[id] == claims[i].sequence by {
            if i < front.len() {
                assert(front[i] == claims[i]);
                assert(claims[i].id != claims[last].id);
            }
        }
        if exists|i: int| 0 <= i < claims.len() && (#[trigger] claims[i]).id == id {
            let i = choose|i: int| 0 <= i < claims.len() && (#[trigger] claims[i]).id == id;
            if i < front.len() {
                assert(front[i].id == id);
            }
        }
    }
}

/// The lowest sequence that a claim or the frontier sets.
pub open spec fn floor_of(claims: Seq<Claim>, frontier: u64) -> u64
    decreases claims.len(),
{
    if claims.len() == 0 {
        frontier
    } else {
        let rest = floor_of(claims.drop_last(), frontier);
        if claims.last().sequence < rest {
            claims.last().sequence
        } else {
            rest
        }
    }
}

impl Registry {
    /// No snapshots.
    pub fn new() -> (registry: Registry)
        ensures
            registry.wf(),
            registry@ == Map::<u64, u64>::empty(),
    {
        Registry { claims: Vec::new(), next: 0 }
    }

    /// Register a snapshot of the state at `sequence`; gives its number.
    pub fn capture(&mut self, sequence: u64) -> (id: u64)
        requires
            old(self).wf(),
            old(self).next < u64::MAX,
        ensures
            final(self).wf(),
            !old(self)@.contains_key(id),
            final(self)@ == old(self)@.insert(id, sequence),
            final(self).next == old(self).next + 1,
    {
        let id: u64 = self.next;
        let ghost before = self.claims@;
        proof {
            lemma_claims(before, id);
        }
        self.claims.push(Claim { id, sequence });
        self.next = id + 1;
        assert(self.claims@.drop_last() =~= before);
        id
    }

    /// Revoke a snapshot; whether this call released its view. Other snapshots
    /// keep theirs.
    pub fn revoke(&mut self, id: u64) -> (released: bool)
        requires
            old(self).wf(),
        ensures
            final(self).wf(),
            released == old(self)@.contains_key(id),
            final(self)@ == old(self)@.remove(id),
            final(self).next == old(self).next,
    {
        let ghost before = self.claims@;
        let mut i: usize = 0;
        while i < self.claims.len()
            invariant
                i <= self.claims@.len(),
                self.claims@ == before,
                before == old(self).claims@,
                self.next == old(self).next,
                distinct(before),
                forall|k: int| 0 <= k < before.len() ==> (#[trigger] before[k]).id < self.next,
                forall|k: int| 0 <= k < i ==> (#[trigger] before[k]).id != id,
            decreases self.claims@.len() - i,
        {
            if self.claims[i].id == id {
                self.claims.remove(i);
                proof {
                    let after = self.claims@;
                    assert(before[i as int].id == id);
                    assert forall|k: int| 0 <= k < after.len() implies #[trigger] after[k] == if k
                        < i {
                        before[k]
                    } else {
                        before[k + 1]
                    } by {}
                    assert(distinct(after)) by {
                        assert forall|a: int, b: int| 0 <= a < b < after.len() implies (
                        #[trigger] after[a]).id != (#[trigger] after[b]).id by {
                            let x = if a < i {
                                a
                            } else {
                                a + 1
                            };
                            let y = if b < i {
                                b
                            } else {
                                b + 1
                            };
                            assert(before[x].id != before[y].id);
                        }
                    }
                    lemma_without(before, after, i as int);
                    lemma_claims(before, id);
                }
                return true;
            }
            i += 1;
        }
        proof {
            lemma_claims(before, id);
            assert(claim_map(before).remove(id) =~= claim_map(before));
        }
        false
    }

    /// Revoke every snapshot.
    pub fn revoke_all(&mut self)
        requires
            old(self).wf(),
        ensures
            final(self).wf(),
            final(self)@ == Map::<u64, u64>::empty(),
            final(self).next == old(self).next,
    {
        self.claims = Vec::new();
    }

    /// Whether a snapshot no longer holds a view.
    pub fn is_revoked(&self, id: u64) -> (revoked: bool)
        requires
            self.wf(),
        ensures
            revoked == !self@.contains_key(id),
    {
        proof {
            lemma_claims(self.claims@, id);
        }
        let mut i: usize = 0;
        while i < self.claims.len()
            invariant
                i <= self.claims@.len(),
                forall|k: int| 0 <= k < i ==> (#[trigger] self.claims@[k]).id != id,
                self@.contains_key(id) <==> exists|k: int|
                    0 <= k < self.claims@.len() && (#[trigger] self.claims@[k]).id == id,
            decreases self.claims@.len() - i,
        {
            if self.claims[i].id == id {
                return false;
            }
            i += 1;
        }
        true
    }

    /// The lowest sequence whose history a snapshot or the frontier needs.
    pub fn snapshot_floor(&self, frontier: u64) -> (floor: u64)
        ensures
            floor == floor_of(self.claims@, frontier),
    {
        let mut floor: u64 = frontier;
        let mut i: usize = 0;
        assert(self.claims@.subrange(0, 0) =~= Seq::empty());
        while i < self.claims.len()
            invariant
                i <= self.claims@.len(),
                floor == floor_of(self.claims@.subrange(0, i as int), frontier),
            decreases self.claims@.len() - i,
        {
            if self.claims[i].sequence < floor {
                floor = self.claims[i].sequence;
            }
            i += 1;
            assert(self.claims@.subrange(0, i as int).drop_last() =~= self.claims@.subrange(
                0,
                i - 1,
            ));
        }
        assert(self.claims@.subrange(0, self.claims@.len() as int) =~= self.claims@);
        floor
    }
}

/// Removing a claim removes its number.
proof fn lemma_without(before: Seq<Claim>, after: Seq<Claim>, i: int)
    requires
        distinct(before),
        distinct(after),
        0 <= i < before.len(),
        after.len() == before.len() - 1,
        forall|k: int|
            0 <= k < after.len() ==> #[trigger] after[k] == if k < i {
                before[k]
            } else {
                before[k + 1]
            },
    ensures
        claim_map(after) == claim_map(before).remove(before[i].id),
{
    let id = before[i].id;
    let removed = claim_map(before).remove(id);
    assert forall|n: u64|
        #![trigger claim_map(after).dom().contains(n)]
        #![trigger claim_map(after)[n]]
        claim_map(after).contains_key(n) == removed.contains_key(n) && (removed.contains_key(n)
            ==> claim_map(after)[n] == removed[n]) by {
        lemma_claims(before, n);
        lemma_claims(after, n);
        if claim_map(after).contains_key(n) {
            let k = choose|k: int| 0 <= k < after.len() && (#[trigger] after[k]).id == n;
            let j = if k < i {
                k
            } else {
                k + 1
            };
            assert(before[j].id == n);
            assert(before[j].id != before[i].id);
        }
        if removed.contains_key(n) {
            let j = choose|j: int| 0 <= j < before.len() && (#[trigger] before[j]).id == n;
            let k = if j < i {
                j
            } else {
                j - 1
            };
            assert(j != i);
            assert(after[k].id == n);
        }
    }
    assert(claim_map(after) =~= removed);
}

/// The floor protects every snapshot, and is no lower than they need.
pub proof fn snapshots_set_the_floor(registry: Registry, frontier: u64)
    requires
        registry.wf(),
    ensures
        ({
            let floor = floor_of(registry.claims@, frontier);
            &&& floor <= frontier
            &&& forall|id: u64| #[trigger] registry@.contains_key(id) ==> floor <= registry@[id]
            &&& floor == frontier || exists|id: u64| #[trigger]
                registry@.contains_key(id) && registry@[id] == floor
        }),
{
    let claims = registry.claims@;
    let floor = floor_of(claims, frontier);
    lemma_floor(claims, frontier);
    assert forall|id: u64| #[trigger] registry@.contains_key(id) implies floor <= registry@[id] by {
        lemma_claims(claims, id);
        let i = choose|i: int| 0 <= i < claims.len() && (#[trigger] claims[i]).id == id;
        assert(claims[i].sequence == registry@[id]);
    }
    if floor != frontier {
        let i = choose|i: int| 0 <= i < claims.len() && (#[trigger] claims[i]).sequence == floor;
        lemma_claims(claims, claims[i].id);
        assert(registry@.contains_key(claims[i].id));
    }
}

proof fn lemma_floor(claims: Seq<Claim>, frontier: u64)
    ensures
        ({
            let floor = floor_of(claims, frontier);
            &&& floor <= frontier
            &&& forall|i: int| 0 <= i < claims.len() ==> floor <= (#[trigger] claims[i]).sequence
            &&& floor == frontier || exists|i: int|
                0 <= i < claims.len() && (#[trigger] claims[i]).sequence == floor
        }),
    decreases claims.len(),
{
    if claims.len() > 0 {
        let front = claims.drop_last();
        lemma_floor(front, frontier);
        let floor = floor_of(claims, frontier);
        assert(claims[claims.len() - 1] == claims.last());
        assert forall|i: int| 0 <= i < claims.len() implies floor <= (#[trigger] claims[i]).sequence
            by {
            if i < front.len() {
                assert(front[i] == claims[i]);
            }
        }
        if floor_of(front, frontier) != frontier && floor == floor_of(front, frontier) {
            let i = choose|i: int|
                0 <= i < front.len() && (#[trigger] front[i]).sequence == floor;
            assert(claims[i].sequence == floor);
        }
    }
}

// ---- Scans ---------------------------------------------------------------

/// Whether the bytes of `a` come before those of `b`.
pub open spec fn precedes(a: Seq<u8>, b: Seq<u8>) -> bool
    decreases a.len(),
{
    if b.len() == 0 {
        false
    } else if a.len() == 0 {
        true
    } else if a[0] != b[0] {
        a[0] < b[0]
    } else {
        precedes(a.drop_first(), b.drop_first())
    }
}

/// Whether the bytes of `a` come before those of `b`.
fn comes_before(a: &[u8], b: &[u8]) -> (before: bool)
    ensures
        before == precedes(a@, b@),
{
    let mut i: usize = 0;
    let ghost na = a@.len() as int;
    let ghost nb = b@.len() as int;
    assert(a@.subrange(0, na) =~= a@);
    assert(b@.subrange(0, nb) =~= b@);
    while i < a.len() && i < b.len()
        invariant
            i <= a@.len(),
            i <= b@.len(),
            na == a@.len(),
            nb == b@.len(),
            precedes(a@, b@) == precedes(a@.subrange(i as int, na), b@.subrange(i as int, nb)),
        decreases a@.len() - i,
    {
        let ghost x = a@.subrange(i as int, na);
        let ghost y = b@.subrange(i as int, nb);
        assert(x[0] == a@[i as int] && y[0] == b@[i as int]);
        if a[i] != b[i] {
            return a[i] < b[i];
        }
        i += 1;
        assert(x.drop_first() =~= a@.subrange(i as int, na));
        assert(y.drop_first() =~= b@.subrange(i as int, nb));
    }
    i < b.len()
}

proof fn lemma_irreflexive(a: Seq<u8>)
    ensures
        !precedes(a, a),
    decreases a.len(),
{
    if a.len() > 0 {
        lemma_irreflexive(a.drop_first());
    }
}

/// Whether `a` comes before `b` where they first differ: they are equal before
/// the `n`-th byte, and there `a` ends or has the smaller byte.
pub open spec fn smaller_at(a: Seq<u8>, b: Seq<u8>, n: int) -> bool {
    &&& 0 <= n <= a.len()
    &&& n < b.len()
    &&& forall|i: int| 0 <= i < n ==> #[trigger] a[i] == b[i]
    &&& n == a.len() || a[n] < b[n]
}

/// Keys are ordered by their bytes, from the first one on: `a` comes before `b`
/// exactly when it is a proper prefix of `b`, or has the smaller byte where the
/// two first differ. A longer key may come before a shorter one.
pub proof fn keys_are_ordered_by_their_bytes(a: Seq<u8>, b: Seq<u8>)
    ensures
        precedes(a, b) <==> exists|n: int| smaller_at(a, b, n),
    decreases a.len(),
{
    if a.len() > 0 && b.len() > 0 {
        let x = a.drop_first();
        let y = b.drop_first();
        keys_are_ordered_by_their_bytes(x, y);
        if a[0] == b[0] {
            if precedes(x, y) {
                let n = choose|n: int| smaller_at(x, y, n);
                assert forall|i: int| 0 <= i < n + 1 implies #[trigger] a[i] == b[i] by {
                    if i > 0 {
                        assert(x[i - 1] == y[i - 1]);
                    }
                }
                assert(smaller_at(a, b, n + 1));
            }
            if exists|n: int| smaller_at(a, b, n) {
                let n = choose|n: int| smaller_at(a, b, n);
                assert forall|i: int| 0 <= i < n - 1 implies #[trigger] x[i] == y[i] by {
                    assert(a[i + 1] == b[i + 1]);
                }
                assert(smaller_at(x, y, n - 1));
            }
        } else {
            if a[0] < b[0] {
                assert(smaller_at(a, b, 0));
            }
            if exists|n: int| smaller_at(a, b, n) {
                let n = choose|n: int| smaller_at(a, b, n);
                assert(n == 0);
            }
        }
    } else if b.len() > 0 {
        assert(smaller_at(a, b, 0));
    }
}

/// Any two keys are in order one way or the other, unless they are equal, and
/// never both ways.
pub proof fn keys_are_totally_ordered(a: Seq<u8>, b: Seq<u8>)
    ensures
        a == b || precedes(a, b) || precedes(b, a),
        !(precedes(a, b) && precedes(b, a)),
        !precedes(a, a),
    decreases a.len(),
{
    lemma_irreflexive(a);
    if a.len() > 0 && b.len() > 0 {
        keys_are_totally_ordered(a.drop_first(), b.drop_first());
        if a[0] == b[0] && a.drop_first() == b.drop_first() {
            assert(a =~= seq![a[0]] + a.drop_first());
            assert(b =~= seq![b[0]] + b.drop_first());
        }
    } else {
        assert(a.len() == 0 && b.len() == 0 ==> a =~= b);
    }
}

/// One end of a range of encoded keys.
#[derive(Debug, PartialEq, Eq)]
pub enum Endpoint {
    Unbounded,
    Included(Vec<u8>),
    Excluded(Vec<u8>),
}

/// The model of an [`Endpoint`].
pub enum EndpointModel {
    Unbounded,
    Included(Seq<u8>),
    Excluded(Seq<u8>),
}

impl Endpoint {
    pub open spec fn view(&self) -> EndpointModel {
        match self {
            Endpoint::Unbounded => EndpointModel::Unbounded,
            Endpoint::Included(key) => EndpointModel::Included(key@),
            Endpoint::Excluded(key) => EndpointModel::Excluded(key@),
        }
    }
}

impl EndpointModel {
    /// The key at this end.
    pub open spec fn key(self) -> Option<Seq<u8>> {
        match self {
            EndpointModel::Unbounded => None,
            EndpointModel::Included(key) => Some(key),
            EndpointModel::Excluded(key) => Some(key),
        }
    }
}

/// Whether a key lies in a range.
pub open spec fn in_range(lower: EndpointModel, upper: EndpointModel, key: Seq<u8>) -> bool {
    &&& match lower {
        EndpointModel::Unbounded => true,
        EndpointModel::Included(a) => a == key || precedes(a, key),
        EndpointModel::Excluded(a) => precedes(a, key),
    }
    &&& match upper {
        EndpointModel::Unbounded => true,
        EndpointModel::Included(b) => key == b || precedes(key, b),
        EndpointModel::Excluded(b) => precedes(key, b),
    }
}

/// A scan under way: the range that is left.
#[derive(Debug, PartialEq, Eq)]
pub struct Scan {
    pub lower: Endpoint,
    pub upper: Endpoint,
    pub done: bool,
}

/// The model of a [`Scan`].
pub struct ScanModel {
    pub lower: EndpointModel,
    pub upper: EndpointModel,
    pub done: bool,
}

impl Scan {
    pub open spec fn view(&self) -> ScanModel {
        ScanModel { lower: self.lower@, upper: self.upper@, done: self.done }
    }
}

/// A scan between two ends. Equal ends select a key only when both are included;
/// reversed ends are rejected.
pub open spec fn scan_of(lower: EndpointModel, upper: EndpointModel) -> Result<ScanModel, Error> {
    match (lower.key(), upper.key()) {
        (Some(a), Some(b)) => if precedes(b, a) {
            Err(Error::InvalidInput(REVERSED))
        } else {
            Ok(
                ScanModel {
                    lower,
                    upper,
                    done: a == b && !(lower is Included && upper is Included),
                },
            )
        },
        _ => Ok(ScanModel { lower, upper, done: false }),
    }
}

/// What a scan does when its next row is asked for.
#[derive(Clone, Copy, Debug, PartialEq, Eq, Structural)]
pub enum Step {
    /// The snapshot was revoked, even if the scan had ended.
    Revoked,
    Ended,
    /// Read the first row in the range that is left.
    Read,
}

/// What a scan does when its next row is asked for.
pub open spec fn step_of(scan: ScanModel, revoked: bool) -> Step {
    if revoked {
        Step::Revoked
    } else if scan.done {
        Step::Ended
    } else {
        Step::Read
    }
}

/// A scan after it read the row of a key.
pub open spec fn behind(scan: ScanModel, key: Seq<u8>) -> ScanModel {
    ScanModel { lower: EndpointModel::Excluded(key), ..scan }
}

/// A scan after it found no further row, or one that could not be read.
pub open spec fn ended(scan: ScanModel) -> ScanModel {
    ScanModel { done: true, ..scan }
}

impl Scan {
    /// Start a scan between two ends.
    pub fn start(lower: Endpoint, upper: Endpoint) -> (scan: Result<Scan, Error>)
        ensures
            match scan {
                Ok(scan) => scan_of(lower@, upper@) == Ok::<ScanModel, Error>(scan@),
                Err(e) => scan_of(lower@, upper@) == Err::<ScanModel, Error>(e),
            },
    {
        let mut done = false;
        let both_included = match (&lower, &upper) {
            (Endpoint::Included(_), Endpoint::Included(_)) => true,
            _ => false,
        };
        match (Scan::key(&lower), Scan::key(&upper)) {
            (Some(a), Some(b)) => {
                if comes_before(b, a) {
                    return Err(Error::InvalidInput(REVERSED));
                }
                done = same_bytes(a, b) && !both_included;
            },
            _ => {},
        }
        Ok(Scan { lower, upper, done })
    }

    /// The key at an end.
    fn key(end: &Endpoint) -> (key: Option<&[u8]>)
        ensures
            match key {
                Some(key) => end@.key() == Some(key@),
                None => end@.key() is None,
            },
    {
        match end {
            Endpoint::Unbounded => None,
            Endpoint::Included(key) => Some(key.as_slice()),
            Endpoint::Excluded(key) => Some(key.as_slice()),
        }
    }

    /// What to do when the next row is asked for.
    pub fn next(&self, revoked: bool) -> (step: Step)
        ensures
            step == step_of(self@, revoked),
    {
        if revoked {
            Step::Revoked
        } else if self.done {
            Step::Ended
        } else {
            Step::Read
        }
    }

    /// A row with this key was read; the scan goes on behind it.
    pub fn read(&mut self, key: Vec<u8>)
        ensures
            final(self)@ == behind(old(self)@, key@),
    {
        self.lower = Endpoint::Excluded(key);
    }

    /// There was no further row, or it could not be read.
    pub fn end(&mut self)
        ensures
            final(self)@ == ended(old(self)@),
    {
        self.done = true;
    }
}

/// A scan gives its rows in ascending order, each once: behind a row it looks
/// only for greater keys, which lay in its range before.
pub proof fn scans_ascend(scan: ScanModel, key: Seq<u8>, later: Seq<u8>)
    requires
        in_range(scan.lower, scan.upper, key),
        in_range(EndpointModel::Excluded(key), scan.upper, later),
    ensures
        precedes(key, later),
        key != later,
        in_range(scan.lower, scan.upper, later),
{
    lemma_irreflexive(key);
    if let Some(a) = scan.lower.key() {
        if precedes(a, key) {
            lemma_transitive(a, key, later);
        }
    }
}

proof fn lemma_transitive(a: Seq<u8>, b: Seq<u8>, c: Seq<u8>)
    requires
        precedes(a, b),
        precedes(b, c),
    ensures
        precedes(a, c),
    decreases a.len(),
{
    if a.len() > 0 && b.len() > 0 && c.len() > 0 && a[0] == b[0] && b[0] == c[0] {
        lemma_transitive(a.drop_first(), b.drop_first(), c.drop_first());
    }
}

/// A scan that has ended before its first row has an empty range.
pub proof fn ended_scans_are_empty(lower: EndpointModel, upper: EndpointModel, key: Seq<u8>)
    requires
        scan_of(lower, upper) matches Ok(scan) && scan.done,
    ensures
        !in_range(lower, upper, key),
{
    let a = lower.key()->0;
    lemma_irreflexive(a);
    if precedes(a, key) && precedes(key, a) {
        lemma_transitive(a, key, a);
    }
}

/// A scan is refused exactly when both of its ends have keys and the upper one
/// comes before the lower one where they first differ. One that starts has the
/// ends that it was given.
pub proof fn scans_start_unless_reversed(lower: EndpointModel, upper: EndpointModel)
    ensures
        scan_of(lower, upper) is Err <==> (lower !is Unbounded && upper !is Unbounded
            && exists|n: int| smaller_at(upper.key()->0, lower.key()->0, n)),
        scan_of(lower, upper) matches Err(e) ==> e == Error::InvalidInput(REVERSED),
        scan_of(lower, upper) matches Ok(scan) ==> scan.lower == lower && scan.upper == upper,
{
    if lower !is Unbounded && upper !is Unbounded {
        keys_are_ordered_by_their_bytes(upper.key()->0, lower.key()->0);
    }
}

/// A scan looks for rows whenever its range holds a key: one with a key in range
/// is neither refused nor over before its first row.
pub proof fn scans_of_ranges_with_keys_read(
    lower: EndpointModel,
    upper: EndpointModel,
    key: Seq<u8>,
)
    requires
        in_range(lower, upper, key),
    ensures
        scan_of(lower, upper) matches Ok(scan) && step_of(scan, false) == Step::Read,
{
    if lower !is Unbounded && upper !is Unbounded {
        let a = lower.key()->0;
        let b = upper.key()->0;
        keys_are_totally_ordered(a, b);
        if precedes(b, a) {
            if a != key && key != b {
                lemma_transitive(a, key, b);
            }
            assert(false);
        }
        if scan_of(lower, upper)->Ok_0.done {
            ended_scans_are_empty(lower, upper, key);
        }
    }
}

/// Whether a key is the first one of some rows in the range that a scan has
/// left.
pub open spec fn first_row(rows: Set<Seq<u8>>, scan: ScanModel, key: Seq<u8>) -> bool {
    &&& rows.contains(key)
    &&& in_range(scan.lower, scan.upper, key)
    &&& forall|other: Seq<u8>|
        #![trigger rows.contains(other)]
        rows.contains(other) && in_range(scan.lower, scan.upper, other) ==> other == key
            || precedes(key, other)
}

/// Whether a scan gives the keys `found` until it ends, where each read finds
/// the first row in the range that is left. `rows` are the keys of the rows that
/// are live at the sequence of the snapshot.
pub open spec fn drained(rows: Set<Seq<u8>>, scan: ScanModel, found: Seq<Seq<u8>>) -> bool
    decreases found.len(),
{
    if found.len() == 0 {
        match step_of(scan, false) {
            Step::Read => forall|key: Seq<u8>| #[trigger]
                rows.contains(key) ==> !in_range(scan.lower, scan.upper, key),
            _ => true,
        }
    } else {
        &&& step_of(scan, false) == Step::Read
        &&& first_row(rows, scan, found[0])
        &&& drained(rows, behind(scan, found[0]), found.drop_first())
    }
}

proof fn lemma_drained(rows: Set<Seq<u8>>, scan: ScanModel, found: Seq<Seq<u8>>)
    requires
        drained(rows, scan, found),
        !scan.done,
    ensures
        forall|key: Seq<u8>| #[trigger]
            found.contains(key) <==> rows.contains(key) && in_range(scan.lower, scan.upper, key),
        forall|i: int, j: int|
            0 <= i < j < found.len() ==> precedes(#[trigger] found[i], #[trigger] found[j]),
    decreases found.len(),
{
    if found.len() > 0 {
        let first = found[0];
        let rest = found.drop_first();
        let next = behind(scan, first);
        lemma_drained(rows, next, rest);
        assert forall|key: Seq<u8>| #[trigger] found.contains(key) <==> rows.contains(key)
            && in_range(scan.lower, scan.upper, key) by {
            if found.contains(key) {
                let i = choose|i: int| 0 <= i < found.len() && found[i] == key;
                if i > 0 {
                    assert(rest[i - 1] == key);
                    assert(rest.contains(key));
                    scans_ascend(scan, first, key);
                }
            }
            if rows.contains(key) && in_range(scan.lower, scan.upper, key) {
                if key == first {
                    assert(found[0] == key);
                } else {
                    assert(rest.contains(key));
                    let i = choose|i: int| 0 <= i < rest.len() && rest[i] == key;
                    assert(found[i + 1] == key);
                }
            }
        }
        assert forall|i: int, j: int| 0 <= i < j < found.len() implies precedes(
            #[trigger] found[i],
            #[trigger] found[j],
        ) by {
            assert(rest[j - 1] == found[j]);
            if i == 0 {
                assert(rest.contains(found[j]));
            } else {
                assert(rest[i - 1] == found[i]);
            }
        }
    }
}

/// A drained scan leaves out no row: the keys that it gives are exactly those of
/// the rows in its range, each once and in ascending order.
pub proof fn drained_scans_give_every_row(
    rows: Set<Seq<u8>>,
    lower: EndpointModel,
    upper: EndpointModel,
    scan: ScanModel,
    found: Seq<Seq<u8>>,
)
    requires
        scan_of(lower, upper) == Ok::<ScanModel, Error>(scan),
        drained(rows, scan, found),
    ensures
        forall|key: Seq<u8>| #[trigger]
            found.contains(key) <==> rows.contains(key) && in_range(lower, upper, key),
        forall|i: int, j: int|
            0 <= i < j < found.len() ==> precedes(#[trigger] found[i], #[trigger] found[j])
                && found[i] != found[j],
{
    if scan.done {
        assert forall|key: Seq<u8>| #[trigger] found.contains(key) <==> rows.contains(key)
            && in_range(lower, upper, key) by {
            ended_scans_are_empty(lower, upper, key);
        }
    } else {
        lemma_drained(rows, scan, found);
        assert forall|i: int, j: int| 0 <= i < j < found.len() implies precedes(
            #[trigger] found[i],
            #[trigger] found[j],
        ) && found[i] != found[j] by {
            lemma_irreflexive(found[i]);
        }
    }
}

/// A scan of a revoked snapshot says so whenever it is asked, even if it had
/// ended before.
pub proof fn revoked_scans_say_so(scan: ScanModel)
    ensures
        step_of(scan, true) == Step::Revoked,
        step_of(ended(scan), true) == Step::Revoked,
        step_of(ended(scan), false) == Step::Ended,
{
}

// ---- Tables --------------------------------------------------------------

/// Check that a table is live at the sequence of a snapshot; `live` is none
/// where the catalogue has no version of the table.
pub fn check_live(live: Option<bool>) -> (checked: Result<(), Error>)
    ensures
        checked == if live == Some(true) {
            Ok::<(), Error>(())
        } else {
            Err(Error::InvalidInput(DROPPED_TABLE))
        },
{
    match live {
        Some(true) => Ok(()),
        _ => Err(Error::InvalidInput(DROPPED_TABLE)),
    }
}

/// A version of a table in the catalogue: the table, and the sequence that made
/// the version.
#[derive(Clone, Copy, Debug, PartialEq, Eq, Structural)]
pub struct VersionKey {
    pub table: u64,
    pub sequence: u64,
}

/// The places of the versions among the first `n` that a snapshot shows: of each
/// table the first one that is not newer than the snapshot.
pub open spec fn shown(keys: Seq<VersionKey>, sequence: u64, n: int) -> Seq<int>
    decreases n,
{
    if !(0 < n <= keys.len()) {
        Seq::empty()
    } else {
        let front = shown(keys, sequence, n - 1);
        let key = keys[n - 1];
        if key.sequence > sequence || (front.len() > 0 && keys[front.last()].table == key.table) {
            front
        } else {
            front.push(n - 1)
        }
    }
}

/// The places as numbers.
pub open spec fn places(list: Seq<usize>) -> Seq<int> {
    list.map_values(|i: usize| i as int)
}

/// The places of the versions that a snapshot shows. The keys are in the order of
/// the catalogue: by table, and the newest version of a table first.
pub fn visible_versions(keys: &Vec<VersionKey>, sequence: u64) -> (list: Vec<usize>)
    ensures
        places(list@) == shown(keys@, sequence, keys@.len() as int),
{
    let mut list: Vec<usize> = Vec::new();
    let mut selected: Option<u64> = None;
    let mut i: usize = 0;
    assert(places(list@) =~= Seq::empty());
    while i < keys.len()
        invariant
            i <= keys@.len(),
            places(list@) == shown(keys@, sequence, i as int),
            forall|k: int| 0 <= k < list@.len() ==> (#[trigger] list@[k]) < i,
            selected == if list@.len() > 0 {
                Some(keys@[list@.last() as int].table)
            } else {
                None
            },
        decreases keys@.len() - i,
    {
        let key = keys[i];
        let chosen = match selected {
            Some(table) => table == key.table,
            None => false,
        };
        let ghost before = places(list@);
        if key.sequence <= sequence && !chosen {
            selected = Some(key.table);
            list.push(i);
            assert(places(list@) =~= before.push(i as int));
        }
        i += 1;
    }
    list
}

/// Whether the versions are in the order of the catalogue.
pub open spec fn catalogue_order(keys: Seq<VersionKey>) -> bool {
    forall|i: int, j: int|
        0 <= i < j < keys.len() ==> (#[trigger] keys[i]).table < (#[trigger] keys[j]).table || (
        keys[i].table == keys[j].table && keys[i].sequence > keys[j].sequence)
}

/// A snapshot shows of every table the newest version that is not newer than
/// the snapshot itself, and no other.
pub proof fn snapshots_show_the_newest_versions(keys: Seq<VersionKey>, sequence: u64, i: int)
    requires
        catalogue_order(keys),
        0 <= i < keys.len(),
    ensures
        shown(keys, sequence, keys.len() as int).contains(i) <==> (keys[i].sequence <= sequence
            && forall|j: int|
            0 <= j < keys.len() && (#[trigger] keys[j]).table == keys[i].table && keys[j].sequence
                <= sequence ==> keys[j].sequence <= keys[i].sequence),
{
    lemma_shown(keys, sequence, keys.len() as int, i);
    let newest = keys[i].sequence <= sequence && forall|j: int|
        0 <= j < i && (#[trigger] keys[j]).table == keys[i].table ==> keys[j].sequence > sequence;
    if newest {
        assert forall|j: int|
            0 <= j < keys.len() && (#[trigger] keys[j]).table == keys[i].table && keys[j].sequence
                <= sequence implies keys[j].sequence <= keys[i].sequence by {
            if j > i {
                assert(keys[i].sequence > keys[j].sequence);
            }
        }
    } else if keys[i].sequence <= sequence {
        let j = choose|j: int|
            0 <= j < i && (#[trigger] keys[j]).table == keys[i].table && !(keys[j].sequence
                > sequence);
        assert(keys[j].sequence > keys[i].sequence);
    }
}

/// What is chosen among the first `n` versions.
proof fn lemma_shown(keys: Seq<VersionKey>, sequence: u64, n: int, i: int)
    requires
        catalogue_order(keys),
        0 <= n <= keys.len(),
        0 <= i < keys.len(),
    ensures
        shown(keys, sequence, n).contains(i) <==> (i < n && keys[i].sequence <= sequence
            && forall|j: int|
            0 <= j < i && (#[trigger] keys[j]).table == keys[i].table ==> keys[j].sequence
                > sequence),
        forall|k: int|
            0 <= k < shown(keys, sequence, n).len() ==> 0 <= (#[trigger] shown(
                keys,
                sequence,
                n,
            )[k]) < n,
    decreases n,
{
    if n > 0 {
        lemma_shown(keys, sequence, n - 1, i);
        let front = shown(keys, sequence, n - 1);
        let whole = shown(keys, sequence, n);
        let key = keys[n - 1];
        if whole != front {
            assert(whole[whole.len() - 1] == n - 1);
            assert(whole.contains(i) <==> front.contains(i) || i == n - 1) by {
                if front.contains(i) {
                    let k = choose|k: int| 0 <= k < front.len() && front[k] == i;
                    assert(whole[k] == i);
                }
                if whole.contains(i) {
                    let k = choose|k: int| 0 <= k < whole.len() && whole[k] == i;
                    if k < front.len() {
                        assert(front[k] == i);
                    }
                }
            }
        }
        if i == n - 1 {
            lemma_last_shown(keys, sequence, n - 1);
            if key.sequence <= sequence {
                if front.len() > 0 && keys[front.last()].table == key.table {
                    let j = front.last();
                    assert(front.contains(j));
                    lemma_shown(keys, sequence, n - 1, j);
                    assert(keys[j].sequence <= sequence);
                } else {
                    assert forall|j: int| 0 <= j < i && (#[trigger] keys[j]).table
                        == keys[i].table implies keys[j].sequence > sequence by {
                        if keys[j].sequence <= sequence {
                            assert(front.len() > 0 && keys[front.last()].table >= keys[j].table);
                            let l = front.last();
                            if l < i {
                                assert(keys[l].table <= keys[i].table);
                            }
                        }
                    }
                }
            }
        }
    }
}

/// The version that was chosen last belongs to the last table that has a version
/// that is not newer than the snapshot.
proof fn lemma_last_shown(keys: Seq<VersionKey>, sequence: u64, n: int)
    requires
        catalogue_order(keys),
        0 <= n <= keys.len(),
    ensures
        ({
            let list = shown(keys, sequence, n);
            &&& forall|j: int|
                0 <= j < n && (#[trigger] keys[j]).sequence <= sequence ==> list.len() > 0
                    && keys[list.last()].table >= keys[j].table
            &&& list.len() > 0 ==> 0 <= list.last() < n
        }),
    decreases n,
{
    if n > 0 {
        lemma_last_shown(keys, sequence, n - 1);
        let front = shown(keys, sequence, n - 1);
        let whole = shown(keys, sequence, n);
        if whole != front {
            assert(whole.last() == n - 1);
            assert forall|j: int| 0 <= j < n && (#[trigger] keys[j]).sequence <= sequence implies
                keys[n - 1].table >= keys[j].table by {
                if j < n - 1 {
                    assert(keys[j].table <= keys[n - 1].table);
                }
            }
        }
    }
}

} // verus!
