//! Access manifests: which rows a transaction may read or write.

use crate::bytes::{same_bytes, to_vec};
use vstd::prelude::*;

verus! {

/// A table, or one row of it.
#[derive(Debug, PartialEq, Eq)]
pub enum Scope {
    Table(u64),
    Key(u64, Vec<u8>),
}

/// The model of a [`Scope`].
pub enum ScopeModel {
    Table(u64),
    Key(u64, Seq<u8>),
}

/// How a scope is used.
#[derive(Clone, Copy, Debug, PartialEq, Eq, Structural)]
pub enum AccessMode {
    Read,
    Write,
    ReadWrite,
}

/// The scopes that a transaction may use.
#[derive(Debug, PartialEq, Eq)]
pub struct AccessManifest {
    pub entries: Vec<(Scope, AccessMode)>,
}

impl Scope {
    pub open spec fn view(self) -> ScopeModel {
        match self {
            Scope::Table(table) => ScopeModel::Table(table),
            Scope::Key(table, key) => ScopeModel::Key(table, key@),
        }
    }

    /// A copy of this scope.
    pub fn duplicate(&self) -> (copy: Scope)
        ensures
            copy@ == self@,
    {
        match self {
            Scope::Table(table) => Scope::Table(*table),
            Scope::Key(table, key) => Scope::Key(*table, to_vec(key.as_slice())),
        }
    }
}

/// The models of some scopes.
pub open spec fn scopes(list: Seq<Scope>) -> Seq<ScopeModel> {
    list.map_values(|s: Scope| s@)
}

impl AccessMode {
    pub open spec fn reads(self) -> bool {
        self != AccessMode::Write
    }

    pub open spec fn writes(self) -> bool {
        self != AccessMode::Read
    }
}

/// Whether two scopes share a row.
pub open spec fn share(a: ScopeModel, b: ScopeModel) -> bool {
    match (a, b) {
        (ScopeModel::Table(s), ScopeModel::Table(t)) => s == t,
        (ScopeModel::Table(s), ScopeModel::Key(t, _)) => s == t,
        (ScopeModel::Key(s, _), ScopeModel::Table(t)) => s == t,
        (ScopeModel::Key(s, k), ScopeModel::Key(t, l)) => s == t && k == l,
    }
}

/// Whether two scopes share a row.
pub fn overlap(a: &Scope, b: &Scope) -> (shared: bool)
    ensures
        shared == share(a@, b@),
{
    match (a, b) {
        (Scope::Table(s), Scope::Table(t)) => *s == *t,
        (Scope::Table(s), Scope::Key(t, _)) => *s == *t,
        (Scope::Key(s, _), Scope::Table(t)) => *s == *t,
        (Scope::Key(s, k), Scope::Key(t, l)) => *s == *t && same_bytes(k.as_slice(), l.as_slice()),
    }
}

/// The scopes of the entries that `keep` selects by their mode: readers if
/// `reading`, writers otherwise.
pub open spec fn selected(entries: Seq<(Scope, AccessMode)>, reading: bool) -> Seq<ScopeModel>
    decreases entries.len(),
{
    if entries.len() == 0 {
        Seq::empty()
    } else {
        let front = selected(entries.drop_last(), reading);
        let (scope, mode) = entries.last();
        if (reading && mode.reads()) || (!reading && mode.writes()) {
            front.push(scope@)
        } else {
            front
        }
    }
}

impl AccessManifest {
    /// The scopes that may be read, if `reading`, or written.
    fn select(&self, reading: bool) -> (list: Vec<Scope>)
        ensures
            scopes(list@) == selected(self.entries@, reading),
    {
        let mut list: Vec<Scope> = Vec::new();
        let mut i: usize = 0;
        assert(self.entries@.subrange(0, 0) =~= Seq::empty());
        assert(scopes(list@) =~= Seq::empty());
        while i < self.entries.len()
            invariant
                i <= self.entries@.len(),
                scopes(list@) == selected(self.entries@.subrange(0, i as int), reading),
            decreases self.entries@.len() - i,
        {
            let entry = &self.entries[i];
            let ghost before = scopes(list@);
            let used = if reading {
                entry.1 != AccessMode::Write
            } else {
                entry.1 != AccessMode::Read
            };
            if used {
                list.push(entry.0.duplicate());
                assert(scopes(list@) =~= before.push(entry.0@));
            }
            i += 1;
            assert(self.entries@.subrange(0, i as int).drop_last() =~= self.entries@.subrange(
                0,
                i - 1,
            ));
        }
        assert(self.entries@.subrange(0, self.entries@.len() as int) =~= self.entries@);
        list
    }

    /// The scopes that may be read.
    pub fn reads(&self) -> (list: Vec<Scope>)
        ensures
            scopes(list@) == selected(self.entries@, true),
            forall|scope: ScopeModel| #[trigger]
                scopes(list@).contains(scope) <==> exists|i: int|
                    0 <= i < self.entries@.len() && (#[trigger] self.entries@[i]).0@ == scope && (
                    self.entries@[i].1 == AccessMode::Read || self.entries@[i].1
                        == AccessMode::ReadWrite),
    {
        proof {
            assert forall|scope: ScopeModel| #[trigger]
                selected(self.entries@, true).contains(scope) <==> exists|i: int|
                    0 <= i < self.entries@.len() && (#[trigger] self.entries@[i]).0@ == scope && (
                    self.entries@[i].1 == AccessMode::Read || self.entries@[i].1
                        == AccessMode::ReadWrite) by {
                modes_select_scopes(self.entries@, scope);
            }
        }
        self.select(true)
    }

    /// The scopes that may be written.
    pub fn writes(&self) -> (list: Vec<Scope>)
        ensures
            scopes(list@) == selected(self.entries@, false),
            forall|scope: ScopeModel| #[trigger]
                scopes(list@).contains(scope) <==> exists|i: int|
                    0 <= i < self.entries@.len() && (#[trigger] self.entries@[i]).0@ == scope && (
                    self.entries@[i].1 == AccessMode::Write || self.entries@[i].1
                        == AccessMode::ReadWrite),
    {
        proof {
            assert forall|scope: ScopeModel| #[trigger]
                selected(self.entries@, false).contains(scope) <==> exists|i: int|
                    0 <= i < self.entries@.len() && (#[trigger] self.entries@[i]).0@ == scope && (
                    self.entries@[i].1 == AccessMode::Write || self.entries@[i].1
                        == AccessMode::ReadWrite) by {
                modes_select_scopes(self.entries@, scope);
            }
        }
        self.select(false)
    }

    /// The bytes that the entries are charged with in the submission queue:
    /// 128 each, and twice the length of a key.
    pub fn queue_bytes(&self) -> (bytes: u64)
        ensures
            bytes == saturated(charge(self.entries@)),
    {
        let mut bytes: u64 = 0;
        let mut i: usize = 0;
        assert(self.entries@.subrange(0, 0) =~= Seq::empty());
        while i < self.entries.len()
            invariant
                i <= self.entries@.len(),
                bytes == saturated(charge(self.entries@.subrange(0, i as int))),
            decreases self.entries@.len() - i,
        {
            let key: u64 = match &self.entries[i].0 {
                Scope::Table(_) => 0,
                Scope::Key(_, key) => (key.len() as u64).saturating_add(key.len() as u64),
            };
            bytes = bytes.saturating_add(key.saturating_add(128));
            i += 1;
            assert(self.entries@.subrange(0, i as int).drop_last() =~= self.entries@.subrange(
                0,
                i - 1,
            ));
        }
        assert(self.entries@.subrange(0, self.entries@.len() as int) =~= self.entries@);
        bytes
    }
}

/// `n`, or the largest `u64` where it is larger.
pub open spec fn saturated(n: nat) -> u64 {
    if n <= u64::MAX {
        n as u64
    } else {
        u64::MAX
    }
}

/// What the entries of a manifest are charged with in the submission queue.
pub open spec fn charge(entries: Seq<(Scope, AccessMode)>) -> nat
    decreases entries.len(),
{
    if entries.len() == 0 {
        0
    } else {
        let key = match entries.last().0@ {
            ScopeModel::Table(_) => 0,
            ScopeModel::Key(_, key) => 2 * key.len(),
        };
        charge(entries.drop_last()) + 128 + key
    }
}

/// A scope, whether a table or a row, is among those that may be read exactly
/// when an entry has it for reading, alone or with writing, and among those that
/// may be written exactly when an entry has it for writing, alone or with
/// reading.
pub proof fn modes_select_scopes(entries: Seq<(Scope, AccessMode)>, scope: ScopeModel)
    ensures
        selected(entries, true).contains(scope) <==> exists|i: int|
            0 <= i < entries.len() && (#[trigger] entries[i]).0@ == scope && (entries[i].1
                == AccessMode::Read || entries[i].1 == AccessMode::ReadWrite),
        selected(entries, false).contains(scope) <==> exists|i: int|
            0 <= i < entries.len() && (#[trigger] entries[i]).0@ == scope && (entries[i].1
                == AccessMode::Write || entries[i].1 == AccessMode::ReadWrite),
{
    lemma_selected(entries, true, scope);
    lemma_selected(entries, false, scope);
}

proof fn lemma_selected(entries: Seq<(Scope, AccessMode)>, reading: bool, scope: ScopeModel)
    ensures
        selected(entries, reading).contains(scope) <==> exists|i: int|
            0 <= i < entries.len() && (#[trigger] entries[i]).0@ == scope && (entries[i].1
                == AccessMode::ReadWrite || entries[i].1 == if reading {
                AccessMode::Read
            } else {
                AccessMode::Write
            }),
    decreases entries.len(),
{
    let mode = if reading {
        AccessMode::Read
    } else {
        AccessMode::Write
    };
    if entries.len() > 0 {
        let front = entries.drop_last();
        let last = entries.last();
        let before = selected(front, reading);
        let whole = selected(entries, reading);
        lemma_selected(front, reading, scope);
        assert(entries[entries.len() - 1] == last);
        if whole.contains(scope) {
            let k = choose|k: int| 0 <= k < whole.len() && whole[k] == scope;
            if k < before.len() {
                assert(before[k] == scope);
                let i = choose|i: int|
                    0 <= i < front.len() && (#[trigger] front[i]).0@ == scope && (front[i].1
                        == AccessMode::ReadWrite || front[i].1 == mode);
                assert(entries[i] == front[i]);
            }
        }
        if exists|i: int|
            0 <= i < entries.len() && (#[trigger] entries[i]).0@ == scope && (entries[i].1
                == AccessMode::ReadWrite || entries[i].1 == mode) {
            let i = choose|i: int|
                0 <= i < entries.len() && (#[trigger] entries[i]).0@ == scope && (entries[i].1
                    == AccessMode::ReadWrite || entries[i].1 == mode);
            if i < front.len() {
                assert(front[i] == entries[i]);
                let k = choose|k: int| 0 <= k < before.len() && before[k] == scope;
                assert(whole[k] == scope);
            } else {
                assert(whole[whole.len() - 1] == scope);
            }
        }
    }
}

/// Overlap does not depend on the order of the scopes.
pub proof fn overlap_is_symmetric(a: ScopeModel, b: ScopeModel)
    ensures
        share(a, b) == share(b, a),
{
}

} // verus!
