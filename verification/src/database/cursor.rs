//! Crash-safe retention metadata: durable cursor registrations and the floors
//! that they set. These operations never enter the log.

use super::exchange;
use super::exchange::{CursorKind, CursorToken, TokenModel, Watermark, WatermarkModel};
use super::segments;
use super::segments::read_segment;
use super::Error;
use crate::bytes;
use crate::bytes::{
    contains_byte, push_bytes, push_u32, push_u64, read_u16, read_u32, read_u64, same_bytes,
};
use crate::external::utf8_text;
use crate::storage;
use crate::storage::{Manifest, ManifestModel, SegmentDescriptor, SegmentModel};
use vstd::prelude::*;
use vstd::utf8::*;

verus! {

pub const BAD_CURSOR: &'static str = "invalid durable cursor value";

pub const BAD_CURSOR_KEY: &'static str = "invalid cursor key";

pub const OTHER_DATABASE: &'static str = "watermark database identity mismatch";

pub const OTHER_NAMESPACE: &'static str = "cursor database or namespace mismatch";

pub const NOT_ISSUED: &'static str = "cursor ID was not issued";

pub const OTHER_KIND: &'static str = "cursor kind mismatch";

pub const BAD_LABEL: &'static str = "cursor label exceeds 255 UTF-8 bytes or contains NUL";

pub const BAD_ACKNOWLEDGEMENT: &'static str =
    "cursor acknowledgement is backwards or above frontier";

pub const LOG_HEADER: &'static str = "cursor log header mismatch";

pub const LOG_TRAILER: &'static str = "cursor log trailer mismatch";

// ---- Stored registrations ------------------------------------------------

#[derive(Debug, PartialEq, Eq)]
pub struct CursorInfo {
    pub token: CursorToken,
    pub baseline: u64,
    /// Nonunique diagnostic label, never used to select a registration.
    pub label: String,
}

/// The model of a [`CursorInfo`].
#[verifier::ext_equal]
pub struct InfoModel {
    pub token: TokenModel,
    pub baseline: u64,
    pub label: Seq<char>,
}

impl CursorInfo {
    pub open spec fn view(&self) -> InfoModel {
        InfoModel { token: self.token@, baseline: self.baseline, label: self.label@ }
    }
}

/// Whether the bytes of a label are allowed.
pub open spec fn label_bytes(label: Seq<u8>) -> bool {
    label.len() <= 255 && !label.contains(0)
}

/// Whether history for a cursor is retained: from its baseline on, and for a
/// cursor on the log, the log right after it.
pub open spec fn retained(m: ManifestModel, baseline: u64, kind: CursorKind) -> bool {
    &&& m.history_floor <= baseline
    &&& kind != CursorKind::Resolved ==> m.log_floor <= baseline + 1
}

/// The stored form of a registration.
pub open spec fn cursor_bytes(kind: CursorKind, baseline: u64, label: Seq<char>) -> Seq<u8> {
    seq![1u8, 0u8, exchange::kind_byte(kind), 0u8] + bytes::le64(baseline) + bytes::blob(
        encode_utf8(label),
    )
}

/// The token of a registration.
pub open spec fn token_for(m: ManifestModel, id: u64, kind: CursorKind) -> TokenModel {
    TokenModel {
        database_id: m.database_id,
        cursor_namespace: m.cursor_namespace,
        cursor_id: id,
        kind,
    }
}

/// What a stored registration says; `None` where it is invalid.
pub open spec fn info_of(m: ManifestModel, id: u64, s: Seq<u8>) -> Option<InfoModel> {
    if !(16 <= s.len() <= 271) || bytes::un16(bytes::part(s, 0, 2)) != 1 || s[3] != 0
        || exchange::kind_of(s[2]) is None {
        None
    } else {
        let kind = exchange::kind_of(s[2]).unwrap();
        let baseline = bytes::un64(bytes::part(s, 4, 8));
        let label = s.subrange(16, s.len() as int);
        if bytes::un32(bytes::part(s, 12, 4)) != s.len() - 16 || label.contains(0) || id == 0 || id
            >= m.next_cursor_id || !retained(m, baseline, kind) || baseline > m.durable_sequence
            || !valid_utf8(label) {
            None
        } else {
            Some(
                InfoModel {
                    token: token_for(m, id, kind),
                    baseline,
                    label: decode_utf8(label),
                },
            )
        }
    }
}

/// The token of a registration.
fn token(manifest: &Manifest, id: u64, kind: CursorKind) -> (token: CursorToken)
    ensures
        token@ == token_for(manifest@, id, kind),
{
    CursorToken::new(manifest.database_id, manifest.cursor_namespace, id, kind)
}

/// Read a stored registration.
pub fn decode(manifest: &Manifest, id: u64, stored: &[u8]) -> (info: Result<CursorInfo, Error>)
    ensures
        match info {
            Ok(info) => info_of(manifest@, id, stored@) == Some(info@),
            Err(e) => info_of(manifest@, id, stored@) is None && e == Error::Storage(
                storage::Error::Corrupt(BAD_CURSOR),
            ),
        },
{
    broadcast use encode_utf8_decode_utf8;

    if stored.len() < 16 || stored.len() > 271 || read_u16(stored, 0) != 1 || stored[3] != 0 {
        return Err(Error::Storage(storage::Error::Corrupt(BAD_CURSOR)));
    }
    let kind = match CursorKind::decode(stored[2]) {
        Ok(kind) => kind,
        Err(_) => {
            return Err(Error::Storage(storage::Error::Corrupt(BAD_CURSOR)));
        },
    };
    let baseline: u64 = read_u64(stored, 4);
    let length: usize = read_u32(stored, 12) as usize;
    let label = &stored[16..stored.len()];
    if length != stored.len() - 16 || contains_byte(label, 0) || id == 0 || id
        >= manifest.next_cursor_id || baseline < manifest.history_floor || baseline
        > manifest.durable_sequence || (kind != CursorKind::Resolved && manifest.log_floor
        > baseline && manifest.log_floor - baseline > 1) {
        return Err(Error::Storage(storage::Error::Corrupt(BAD_CURSOR)));
    }
    match utf8_text(label) {
        Some(label) => {
            assert(decode_utf8(encode_utf8(label@)) == label@);
            Ok(CursorInfo { token: token(manifest, id, kind), baseline, label })
        },
        None => Err(Error::Storage(storage::Error::Corrupt(BAD_CURSOR))),
    }
}

/// The stored form of a registration.
pub fn encode(info: &CursorInfo) -> (stored: Vec<u8>)
    requires
        encode_utf8(info@.label).len() <= u32::MAX,
    ensures
        stored@ == cursor_bytes(info@.token.kind, info@.baseline, info@.label),
{
    let mut out: Vec<u8> = Vec::new();
    out.push(1);
    out.push(0);
    out.push(info.token.kind().byte());
    out.push(0);
    push_u64(&mut out, info.baseline);
    let label = info.label.as_str().as_bytes();
    push_u32(&mut out, label.len() as u32);
    push_bytes(&mut out, label);
    assert(out@ =~= cursor_bytes(info@.token.kind, info@.baseline, info@.label));
    out
}

/// A registration is read back as it was stored, while its history is retained
/// and its number is one that was issued.
pub proof fn registrations_are_read_back(
    m: ManifestModel,
    id: u64,
    kind: CursorKind,
    baseline: u64,
    label: Seq<char>,
)
    requires
        label_bytes(encode_utf8(label)),
        0 < id < m.next_cursor_id,
        retained(m, baseline, kind),
        baseline <= m.durable_sequence,
    ensures
        info_of(m, id, cursor_bytes(kind, baseline, label)) == Some(
            InfoModel { token: token_for(m, id, kind), baseline, label },
        ),
{
    broadcast use {bytes::group_le, encode_utf8_decode_utf8, encode_utf8_valid_utf8};

    let s = cursor_bytes(kind, baseline, label);
    assert(bytes::un16(bytes::part(s, 0, 2)) == 1) by {
        reveal(bytes::un16);
    }
    assert(bytes::part(s, 4, 8) =~= bytes::le64(baseline));
    assert(bytes::part(s, 12, 4) =~= bytes::le32(encode_utf8(label).len() as u32));
    assert(s.subrange(16, s.len() as int) =~= encode_utf8(label));
}

// ---- The registered cursors ----------------------------------------------

/// All stored registrations, by ascending cursor number.
#[derive(Debug, PartialEq, Eq)]
pub struct Cursors {
    pub entries: Vec<(u64, Vec<u8>)>,
}

/// The stored registrations as a map.
pub open spec fn entry_map(entries: Seq<(u64, Vec<u8>)>) -> Map<u64, Seq<u8>>
    decreases entries.len(),
{
    if entries.len() == 0 {
        Map::empty()
    } else {
        entry_map(entries.drop_last()).insert(entries.last().0, entries.last().1@)
    }
}

/// Whether the cursor numbers ascend.
pub open spec fn ascending(entries: Seq<(u64, Vec<u8>)>) -> bool {
    forall|i: int, j: int|
        0 <= i < j < entries.len() ==> (#[trigger] entries[i]).0 < (#[trigger] entries[j]).0
}

/// The map holds exactly the entries.
proof fn lemma_entries(entries: Seq<(u64, Vec<u8>)>)
    requires
        ascending(entries),
    ensures
        forall|id: u64|
            #[trigger] entry_map(entries).contains_key(id) <==> exists|i: int|
                0 <= i < entries.len() && #[trigger] entries[i].0 == id,
        forall|i: int|
            0 <= i < entries.len() ==> entry_map(entries).contains_key(#[trigger] entries[i].0)
                && entry_map(entries)[entries[i].0] == entries[i].1@,
    decreases entries.len(),
{
    if entries.len() > 0 {
        let front = entries.drop_last();
        lemma_entries(front);
        let map = entry_map(entries);
        assert forall|id: u64| #[trigger] map.contains_key(id) implies exists|i: int|
            0 <= i < entries.len() && #[trigger] entries[i].0 == id by {
            if id == entries.last().0 {
                assert(entries[entries.len() - 1].0 == id);
            } else {
                assert(entry_map(front).contains_key(id));
                let i = choose|i: int| 0 <= i < front.len() && #[trigger] front[i].0 == id;
                assert(entries[i].0 == id);
            }
        }
        assert forall|i: int| 0 <= i < entries.len() implies map.contains_key(
            #[trigger] entries[i].0,
        ) && map[entries[i].0] == entries[i].1@ by {
            if i < entries.len() - 1 {
                assert(front[i] == entries[i]);
                assert(entries[i].0 < entries[entries.len() - 1].0);
            }
        }
    }
}

impl Cursors {
    pub open spec fn view(&self) -> Map<u64, Seq<u8>> {
        entry_map(self.entries@)
    }

    pub open spec fn wf(&self) -> bool {
        ascending(self.entries@)
    }

    /// The stored registration of a cursor.
    pub fn get(&self, id: u64) -> (stored: Option<&Vec<u8>>)
        requires
            self.wf(),
        ensures
            match stored {
                Some(stored) => self@.contains_key(id) && self@[id] == stored@,
                None => !self@.contains_key(id),
            },
    {
        proof {
            lemma_entries(self.entries@);
        }
        let mut i: usize = 0;
        while i < self.entries.len()
            invariant
                i <= self.entries@.len(),
                self.wf(),
                forall|k: int| 0 <= k < i ==> #[trigger] self.entries@[k].0 != id,
                forall|k: int|
                    0 <= k < self.entries@.len() ==> self@.contains_key(
                        #[trigger] self.entries@[k].0,
                    ) && self@[self.entries@[k].0] == self.entries@[k].1@,
            decreases self.entries@.len() - i,
        {
            if self.entries[i].0 == id {
                assert(self@.contains_key(self.entries@[i as int].0));
                return Some(&self.entries[i].1);
            }
            i += 1;
        }
        None
    }
}

/// A change of one registration that is to be published with the manifest.
#[derive(Debug, PartialEq, Eq)]
pub struct Change {
    pub id: u64,
    /// The new stored form; none releases the cursor.
    pub value: Option<Vec<u8>>,
    pub next_id: u64,
}

/// The published registrations and the manifest that they belong to.
#[verifier::ext_equal]
pub struct World {
    pub manifest: ManifestModel,
    pub cursors: Map<u64, Seq<u8>>,
}

/// The model of a [`Change`].
#[verifier::ext_equal]
pub struct ChangeModel {
    pub id: u64,
    pub value: Option<Seq<u8>>,
    pub next_id: u64,
}

impl Change {
    pub open spec fn view(&self) -> ChangeModel {
        ChangeModel {
            id: self.id,
            value: match self.value {
                Some(value) => Some(value@),
                None => None,
            },
            next_id: self.next_id,
        }
    }
}

/// `w` after a change was published.
pub open spec fn published(w: World, change: ChangeModel) -> World {
    World {
        manifest: ManifestModel { next_cursor_id: change.next_id, ..w.manifest },
        cursors: match change.value {
            Some(value) => w.cursors.insert(change.id, value),
            None => w.cursors.remove(change.id),
        },
    }
}

// ---- Lookup --------------------------------------------------------------

/// The registration that a token names: none once it is released.
pub open spec fn found(w: World, t: TokenModel) -> Result<Option<InfoModel>, Error> {
    if t.database_id != w.manifest.database_id || t.cursor_namespace
        != w.manifest.cursor_namespace {
        Err(Error::InvalidToken(OTHER_NAMESPACE))
    } else if t.cursor_id == 0 || t.cursor_id >= w.manifest.next_cursor_id {
        Err(Error::InvalidToken(NOT_ISSUED))
    } else if !w.cursors.contains_key(t.cursor_id) {
        Ok(None)
    } else {
        match info_of(w.manifest, t.cursor_id, w.cursors[t.cursor_id]) {
            None => Err(Error::Storage(storage::Error::Corrupt(BAD_CURSOR))),
            Some(info) => if t.kind != info.token.kind {
                Err(Error::InvalidToken(OTHER_KIND))
            } else {
                Ok(Some(info))
            },
        }
    }
}

/// The model of an optional registration.
pub open spec fn optional(info: Option<CursorInfo>) -> Option<InfoModel> {
    match info {
        Some(info) => Some(info@),
        None => None,
    }
}

/// The published registrations of some cursors.
pub open spec fn world(manifest: &Manifest, cursors: &Cursors) -> World {
    World { manifest: manifest@, cursors: cursors@ }
}

/// Find the registration that a token names.
pub fn lookup(manifest: &Manifest, cursors: &Cursors, token: &CursorToken) -> (info: Result<
    Option<CursorInfo>,
    Error,
>)
    requires
        cursors.wf(),
    ensures
        match info {
            Ok(info) => found(world(manifest, cursors), token@) == Ok::<Option<InfoModel>, Error>(
                optional(info),
            ),
            Err(e) => found(world(manifest, cursors), token@) == Err::<Option<InfoModel>, Error>(e),
        },
{
    if !same_bytes(token.database_id().as_slice(), manifest.database_id.as_slice()) || !same_bytes(
        token.cursor_namespace().as_slice(),
        manifest.cursor_namespace.as_slice(),
    ) {
        return Err(Error::InvalidToken(OTHER_NAMESPACE));
    }
    let id: u64 = token.cursor_id();
    if id == 0 || id >= manifest.next_cursor_id {
        return Err(Error::InvalidToken(NOT_ISSUED));
    }
    match cursors.get(id) {
        None => Ok(None),
        Some(stored) => {
            let info = decode(manifest, id, stored.as_slice())?;
            if token.kind() != info.token.kind() {
                return Err(Error::InvalidToken(OTHER_KIND));
            }
            Ok(Some(info))
        },
    }
}

/// Whether a watermark belongs to a database.
pub open spec fn belongs(m: ManifestModel, w: WatermarkModel) -> bool {
    w.database_id == m.database_id
}

/// Check that a watermark belongs to the database.
pub fn check_watermark(manifest: &Manifest, watermark: &Watermark) -> (checked: Result<(), Error>)
    ensures
        checked == if belongs(manifest@, watermark@) {
            Ok::<(), Error>(())
        } else {
            Err(Error::InvalidToken(OTHER_DATABASE))
        },
{
    if !same_bytes(watermark.database_id().as_slice(), manifest.database_id.as_slice()) {
        return Err(Error::InvalidToken(OTHER_DATABASE));
    }
    Ok(())
}

// ---- Checkout, acknowledgement and release -------------------------------

/// What checking a cursor out gives: the token and the change that registers
/// it. `available` says whether the history that it needs is there.
pub open spec fn checked_out(
    m: ManifestModel,
    baseline: WatermarkModel,
    kind: CursorKind,
    label: Seq<char>,
    available: Result<(), Error>,
) -> Result<(TokenModel, ChangeModel), Error> {
    if !belongs(m, baseline) {
        Err(Error::InvalidToken(OTHER_DATABASE))
    } else if !label_bytes(encode_utf8(label)) {
        Err(Error::InvalidInput(BAD_LABEL))
    } else if m.next_cursor_id == u64::MAX {
        Err(Error::CursorIdExhausted)
    } else {
        match available {
            Err(e) => Err(e),
            Ok(()) => {
                let id = m.next_cursor_id;
                Ok(
                    (
                        token_for(m, id, kind),
                        ChangeModel {
                            id,
                            value: Some(cursor_bytes(kind, baseline.sequence, label)),
                            next_id: (id + 1) as u64,
                        },
                    ),
                )
            },
        }
    }
}

/// Register a cursor at a baseline.
pub fn checkout(
    manifest: &Manifest,
    baseline: &Watermark,
    kind: CursorKind,
    label: String,
    available: Result<(), Error>,
) -> (registered: Result<(CursorToken, Change), Error>)
    ensures
        ({
            let spec = checked_out(manifest@, baseline@, kind, label@, available);
            match registered {
                Ok((token, change)) => spec == Ok::<(TokenModel, ChangeModel), Error>(
                    (token@, change@),
                ),
                Err(e) => spec == Err::<(TokenModel, ChangeModel), Error>(e),
            }
        }),
{
    check_watermark(manifest, baseline)?;
    let text = label.as_str().as_bytes();
    if text.len() > 255 || contains_byte(text, 0) {
        return Err(Error::InvalidInput(BAD_LABEL));
    }
    let id: u64 = manifest.next_cursor_id;
    let next_id: u64 = match id.checked_add(1) {
        Some(next_id) => next_id,
        None => {
            return Err(Error::CursorIdExhausted);
        },
    };
    match available {
        Ok(()) => {},
        Err(e) => {
            return Err(e);
        },
    }
    let info = CursorInfo { token: token(manifest, id, kind), baseline: baseline.sequence(), label };
    let value = encode(&info);
    Ok((info.token, Change { id, value: Some(value), next_id }))
}

/// What acknowledging a watermark gives: the change that moves the baseline, or
/// none where it stays.
pub open spec fn acknowledged(w: World, t: TokenModel, watermark: WatermarkModel, frontier: u64) -> Result<
    Option<ChangeModel>,
    Error,
> {
    match found(w, t) {
        Err(e) => Err(e),
        Ok(None) => Err(Error::CursorReleased),
        Ok(Some(info)) => if !belongs(w.manifest, watermark) {
            Err(Error::InvalidToken(OTHER_DATABASE))
        } else if watermark.sequence < info.baseline || watermark.sequence > frontier {
            Err(Error::InvalidInput(BAD_ACKNOWLEDGEMENT))
        } else if watermark.sequence == info.baseline {
            Ok(None)
        } else {
            Ok(
                Some(
                    ChangeModel {
                        id: t.cursor_id,
                        value: Some(
                            cursor_bytes(info.token.kind, watermark.sequence, info.label),
                        ),
                        next_id: w.manifest.next_cursor_id,
                    },
                ),
            )
        },
    }
}

/// The model of an optional change.
pub open spec fn optional_change(change: Option<Change>) -> Option<ChangeModel> {
    match change {
        Some(change) => Some(change@),
        None => None,
    }
}

/// Move the baseline of a cursor to a watermark.
pub fn acknowledge(
    manifest: &Manifest,
    cursors: &Cursors,
    token: &CursorToken,
    watermark: &Watermark,
    frontier: u64,
) -> (change: Result<Option<Change>, Error>)
    requires
        cursors.wf(),
    ensures
        ({
            let spec = acknowledged(world(manifest, cursors), token@, watermark@, frontier);
            match change {
                Ok(change) => spec == Ok::<Option<ChangeModel>, Error>(optional_change(change)),
                Err(e) => spec == Err::<Option<ChangeModel>, Error>(e),
            }
        }),
{
    let mut info = match lookup(manifest, cursors, token)? {
        Some(info) => info,
        None => {
            return Err(Error::CursorReleased);
        },
    };
    check_watermark(manifest, watermark)?;
    let sequence: u64 = watermark.sequence();
    if sequence < info.baseline || sequence > frontier {
        return Err(Error::InvalidInput(BAD_ACKNOWLEDGEMENT));
    }
    if sequence == info.baseline {
        return Ok(None);
    }
    proof {
        lemma_info_label(manifest@, token@.cursor_id, cursors@[token@.cursor_id]);
    }
    info.baseline = sequence;
    let value = encode(&info);
    Ok(
        Some(
            Change {
                id: token.cursor_id(),
                value: Some(value),
                next_id: manifest.next_cursor_id,
            },
        ),
    )
}

/// The label of a stored registration is short.
proof fn lemma_info_label(m: ManifestModel, id: u64, s: Seq<u8>)
    ensures
        info_of(m, id, s) matches Some(info) ==> label_bytes(encode_utf8(info.label)),
{
    broadcast use decode_utf8_encode_utf8;

}

/// What releasing a cursor gives: the change that removes it, or none where it
/// is gone already.
pub open spec fn released(w: World, t: TokenModel) -> Result<Option<ChangeModel>, Error> {
    match found(w, t) {
        Err(e) => Err(e),
        Ok(None) => Ok(None),
        Ok(Some(_)) => Ok(
            Some(
                ChangeModel {
                    id: t.cursor_id,
                    value: None,
                    next_id: w.manifest.next_cursor_id,
                },
            ),
        ),
    }
}

/// Remove the registration that a token names.
pub fn release(manifest: &Manifest, cursors: &Cursors, token: &CursorToken) -> (change: Result<
    Option<Change>,
    Error,
>)
    requires
        cursors.wf(),
    ensures
        match change {
            Ok(change) => released(world(manifest, cursors), token@) == Ok::<
                Option<ChangeModel>,
                Error,
            >(optional_change(change)),
            Err(e) => released(world(manifest, cursors), token@) == Err::<
                Option<ChangeModel>,
                Error,
            >(e),
        },
{
    match lookup(manifest, cursors, token)? {
        Some(_) => Ok(
            Some(
                Change { id: token.cursor_id(), value: None, next_id: manifest.next_cursor_id },
            ),
        ),
        None => Ok(None),
    }
}

/// What reopening a cursor gives.
pub open spec fn reopened(w: World, t: TokenModel) -> Result<InfoModel, Error> {
    match found(w, t) {
        Err(e) => Err(e),
        Ok(None) => Err(Error::CursorReleased),
        Ok(Some(info)) => Ok(info),
    }
}

/// Check a saved token against the registrations.
pub fn reopen(manifest: &Manifest, cursors: &Cursors, token: &CursorToken) -> (info: Result<
    CursorInfo,
    Error,
>)
    requires
        cursors.wf(),
    ensures
        match info {
            Ok(info) => reopened(world(manifest, cursors), token@) == Ok::<InfoModel, Error>(info@),
            Err(e) => reopened(world(manifest, cursors), token@) == Err::<InfoModel, Error>(e),
        },
{
    match lookup(manifest, cursors, token)? {
        Some(info) => Ok(info),
        None => Err(Error::CursorReleased),
    }
}

// ---- Listing and floors --------------------------------------------------

/// The models of some registrations.
pub open spec fn infos(list: Seq<CursorInfo>) -> Seq<InfoModel> {
    list.map_values(|i: CursorInfo| i@)
}

/// All registrations, in the order of their numbers; none where one is invalid.
pub open spec fn listed(m: ManifestModel, entries: Seq<(u64, Vec<u8>)>) -> Option<Seq<InfoModel>>
    decreases entries.len(),
{
    if entries.len() == 0 {
        Some(Seq::empty())
    } else {
        match (
            listed(m, entries.drop_last()),
            info_of(m, entries.last().0, entries.last().1@),
        ) {
            (Some(front), Some(last)) => Some(front.push(last)),
            _ => None,
        }
    }
}

proof fn lemma_listed_prefix(m: ManifestModel, entries: Seq<(u64, Vec<u8>)>, n: int)
    requires
        0 <= n <= entries.len(),
        listed(m, entries.subrange(0, n)) is None,
    ensures
        listed(m, entries) is None,
    decreases entries.len(),
{
    if n == entries.len() {
        assert(entries.subrange(0, n) =~= entries);
    } else {
        assert(entries.drop_last().subrange(0, n) =~= entries.subrange(0, n));
        lemma_listed_prefix(m, entries.drop_last(), n);
    }
}

/// The number of the cursor that is stored under a key.
pub fn cursor_key(key: &[u8]) -> (id: Result<u64, Error>)
    ensures
        match id {
            Ok(id) => key@.len() == 8 && key@ == bytes::be64(id),
            Err(e) => key@.len() != 8 && e == Error::Storage(
                storage::Error::Corrupt(BAD_CURSOR_KEY),
            ),
        },
{
    broadcast use bytes::group_le;

    if key.len() != 8 {
        return Err(Error::Storage(storage::Error::Corrupt(BAD_CURSOR_KEY)));
    }
    let mut little: Vec<u8> = Vec::new();
    let mut i: usize = 0;
    while i < 8
        invariant
            i <= 8,
            key@.len() == 8,
            little@.len() == i,
            forall|k: int| 0 <= k < i ==> little@[k] == key@[7 - k],
        decreases 8 - i,
    {
        little.push(key[7 - i]);
        i += 1;
    }
    let id: u64 = read_u64(little.as_slice(), 0);
    proof {
        assert(bytes::part(little@, 0, 8) =~= little@);
        assert(bytes::le64(id) == little@);
        assert(key@ =~= bytes::be64(id));
    }
    Ok(id)
}

/// All registrations, including those whose tokens were lost.
pub fn list(manifest: &Manifest, cursors: &Cursors) -> (list: Result<Vec<CursorInfo>, Error>)
    ensures
        match list {
            Ok(list) => listed(manifest@, cursors.entries@) == Some(infos(list@)),
            Err(e) => listed(manifest@, cursors.entries@) is None && e == Error::Storage(
                storage::Error::Corrupt(BAD_CURSOR),
            ),
        },
{
    let mut list: Vec<CursorInfo> = Vec::new();
    let mut i: usize = 0;
    assert(cursors.entries@.subrange(0, 0) =~= Seq::empty());
    assert(infos(list@) =~= Seq::empty());
    while i < cursors.entries.len()
        invariant
            i <= cursors.entries@.len(),
            listed(manifest@, cursors.entries@.subrange(0, i as int)) == Some(infos(list@)),
        decreases cursors.entries@.len() - i,
    {
        let entry = &cursors.entries[i];
        let ghost longer = cursors.entries@.subrange(0, i + 1);
        assert(longer.drop_last() =~= cursors.entries@.subrange(0, i as int));
        match decode(manifest, entry.0, entry.1.as_slice()) {
            Ok(info) => {
                let ghost before = infos(list@);
                list.push(info);
                assert(infos(list@) =~= before.push(info@));
            },
            Err(e) => {
                proof {
                    lemma_listed_prefix(manifest@, cursors.entries@, i + 1);
                }
                return Err(e);
            },
        }
        i += 1;
    }
    assert(cursors.entries@.subrange(0, cursors.entries@.len() as int) =~= cursors.entries@);
    Ok(list)
}

/// Conservative current retention claims, not a promise that older history
/// exists.
#[derive(Clone, Copy, Debug, PartialEq, Eq, Structural)]
pub struct RetentionFloors {
    pub history: u64,
    pub log: u64,
}

/// The smaller of two numbers.
pub open spec fn lesser(a: u64, b: u64) -> u64 {
    if a <= b {
        a
    } else {
        b
    }
}

/// The floors that some registrations set, beside the snapshots' floor and the
/// log that recovery needs.
pub open spec fn floors(list: Seq<InfoModel>, snapshots: u64, recovery: u64) -> RetentionFloors
    decreases list.len(),
{
    if list.len() == 0 {
        RetentionFloors { history: snapshots, log: recovery }
    } else {
        let front = floors(list.drop_last(), snapshots, recovery);
        let last = list.last();
        RetentionFloors {
            history: lesser(front.history, last.baseline),
            log: if last.token.kind != CursorKind::Resolved {
                lesser(front.log, (last.baseline + 1) as u64)
            } else {
                front.log
            },
        }
    }
}

/// The floors for later reclamation. Cursors on the log pin it from right after
/// their baseline; recovery needs it from right after the checkpoint.
pub fn retention_floors(manifest: &Manifest, cursors: &Cursors, snapshots: u64) -> (set: Result<
    RetentionFloors,
    Error,
>)
    requires
        manifest@.checkpoint_sequence < u64::MAX,
        manifest@.durable_sequence < u64::MAX,
    ensures
        match set {
            Ok(set) => listed(manifest@, cursors.entries@) matches Some(list) && set == floors(
                list,
                snapshots,
                (manifest@.checkpoint_sequence + 1) as u64,
            ),
            Err(e) => listed(manifest@, cursors.entries@) is None && e == Error::Storage(
                storage::Error::Corrupt(BAD_CURSOR),
            ),
        },
{
    let list = list(manifest, cursors)?;
    proof {
        lemma_baselines(manifest@, cursors.entries@);
    }
    let recovery: u64 = manifest.checkpoint_sequence + 1;
    let mut set = RetentionFloors { history: snapshots, log: recovery };
    let mut i: usize = 0;
    assert(infos(list@).subrange(0, 0) =~= Seq::empty());
    while i < list.len()
        invariant
            i <= list@.len(),
            manifest@.durable_sequence < u64::MAX,
            forall|k: int|
                0 <= k < infos(list@).len() ==> (#[trigger] infos(list@)[k]).baseline
                    <= manifest@.durable_sequence,
            set == floors(infos(list@).subrange(0, i as int), snapshots, recovery),
        decreases list@.len() - i,
    {
        let info = &list[i];
        assert(infos(list@)[i as int] == info@);
        if info.baseline < set.history {
            set.history = info.baseline;
        }
        if info.token.kind() != CursorKind::Resolved && info.baseline + 1 < set.log {
            set.log = info.baseline + 1;
        }
        i += 1;
        assert(infos(list@).subrange(0, i as int).drop_last() =~= infos(list@).subrange(0, i - 1));
    }
    assert(infos(list@).subrange(0, list@.len() as int) =~= infos(list@));
    Ok(set)
}

/// Valid registrations lie in the durable log.
proof fn lemma_baselines(m: ManifestModel, entries: Seq<(u64, Vec<u8>)>)
    ensures
        listed(m, entries) matches Some(list) ==> list.len() == entries.len() && forall|k: int|
            0 <= k < list.len() ==> (#[trigger] list[k]).baseline <= m.durable_sequence,
    decreases entries.len(),
{
    if entries.len() > 0 {
        lemma_baselines(m, entries.drop_last());
    }
}

/// The floors protect every registration, every snapshot and recovery: history
/// from each baseline on, and the log right after the baselines of cursors on
/// the log and after the checkpoint.
pub proof fn floors_protect_every_claim(list: Seq<InfoModel>, snapshots: u64, recovery: u64, i: int)
    requires
        0 <= i < list.len(),
        list[i].baseline < u64::MAX,
    ensures
        floors(list, snapshots, recovery).history <= list[i].baseline,
        list[i].token.kind != CursorKind::Resolved ==> floors(list, snapshots, recovery).log
            <= list[i].baseline + 1,
        floors(list, snapshots, recovery).history <= snapshots,
        floors(list, snapshots, recovery).log <= recovery,
    decreases list.len(),
{
    lemma_floors_lower(list.drop_last(), snapshots, recovery);
    if i < list.len() - 1 {
        floors_protect_every_claim(list.drop_last(), snapshots, recovery, i);
    }
}

proof fn lemma_floors_lower(list: Seq<InfoModel>, snapshots: u64, recovery: u64)
    ensures
        floors(list, snapshots, recovery).history <= snapshots,
        floors(list, snapshots, recovery).log <= recovery,
    decreases list.len(),
{
    if list.len() > 0 {
        lemma_floors_lower(list.drop_last(), snapshots, recovery);
    }
}

/// The floors hold nothing back needlessly: each is set by a snapshot, by
/// recovery or by a registration.
pub proof fn floors_are_set_by_a_claim(list: Seq<InfoModel>, snapshots: u64, recovery: u64)
    ensures
        ({
            let set = floors(list, snapshots, recovery);
            &&& set.history == snapshots || exists|i: int|
                0 <= i < list.len() && #[trigger] list[i].baseline == set.history
            &&& set.log == recovery || exists|i: int|
                0 <= i < list.len() && (#[trigger] list[i]).token.kind != CursorKind::Resolved
                    && (list[i].baseline + 1) as u64 == set.log
        }),
    decreases list.len(),
{
    if list.len() > 0 {
        let front = list.drop_last();
        floors_are_set_by_a_claim(front, snapshots, recovery);
        let set = floors(list, snapshots, recovery);
        let before = floors(front, snapshots, recovery);
        assert(list[list.len() - 1] == list.last());
        if set.history == before.history && set.history != snapshots {
            let i = choose|i: int| 0 <= i < front.len() && #[trigger] front[i].baseline
                == set.history;
            assert(list[i].baseline == set.history);
        }
        if set.log == before.log && set.log != recovery {
            let i = choose|i: int|
                0 <= i < front.len() && (#[trigger] front[i]).token.kind != CursorKind::Resolved
                    && (front[i].baseline + 1) as u64 == set.log;
            assert(list[i] == front[i]);
        }
    }
}

// ---- Availability --------------------------------------------------------

/// Check that a baseline lies between the history that is left and the visible
/// frontier.
pub fn check_history(manifest: &Manifest, baseline: u64, frontier: u64) -> (checked: Result<
    (),
    Error,
>)
    ensures
        checked == if manifest@.history_floor <= baseline <= frontier {
            Ok::<(), Error>(())
        } else {
            Err(Error::HistoryUnavailable)
        },
{
    if baseline < manifest.history_floor || baseline > frontier {
        return Err(Error::HistoryUnavailable);
    }
    Ok(())
}

/// How far the log after a baseline has been checked: the next sequence that is
/// to be found.
#[derive(Clone, Copy, Debug, PartialEq, Eq, Structural)]
pub struct LogWalk {
    pub baseline: u64,
    pub next: u64,
}

/// The walk after a segment, whose file may be missing. Segments that end by the
/// baseline are passed over.
pub open spec fn walked(
    walk: LogWalk,
    id: Seq<u8>,
    segment: SegmentModel,
    file: Option<Seq<u8>>,
) -> Result<LogWalk, Error> {
    if segment.last_sequence <= walk.baseline {
        Ok(walk)
    } else if segment.first_sequence > walk.next {
        Err(Error::HistoryUnavailable)
    } else {
        match file {
            None => Err(Error::HistoryUnavailable),
            Some(file) => if file.len() < segment.committed_bytes {
                Err(Error::HistoryUnavailable)
            } else if segment.committed_bytes < 96 {
                Err(Error::Storage(storage::Error::Corrupt(LOG_HEADER)))
            } else {
                match segments::segment_records(id, segment, file, LOG_HEADER, LOG_TRAILER) {
                    Err(e) => Err(Error::Storage(e)),
                    Ok(_) => Ok(LogWalk { next: (segment.last_sequence + 1) as u64, ..walk }),
                }
            },
        }
    }
}

/// The model of an optional file.
pub open spec fn file_model(file: Option<&[u8]>) -> Option<Seq<u8>> {
    match file {
        Some(file) => Some(file@),
        None => None,
    }
}

impl LogWalk {
    /// Start to check that the log after a baseline is there.
    pub fn start(manifest: &Manifest, baseline: u64) -> (walk: Result<LogWalk, Error>)
        requires
            baseline < u64::MAX,
        ensures
            walk == if manifest@.log_floor > baseline + 1 {
                Err::<LogWalk, Error>(Error::HistoryUnavailable)
            } else {
                Ok(LogWalk { baseline, next: (baseline + 1) as u64 })
            },
    {
        if manifest.log_floor > baseline + 1 {
            return Err(Error::HistoryUnavailable);
        }
        Ok(LogWalk { baseline, next: baseline + 1 })
    }

    /// Check the next segment.
    pub fn segment(
        &mut self,
        database_id: [u8; 16],
        segment: &SegmentDescriptor,
        file: Option<&[u8]>,
    ) -> (checked: Result<(), Error>)
        requires
            segment.last_sequence < u64::MAX,
        ensures
            match checked {
                Ok(()) => walked(*old(self), database_id@, segment@, file_model(file)) == Ok::<
                    LogWalk,
                    Error,
                >(*final(self)),
                Err(e) => walked(*old(self), database_id@, segment@, file_model(file)) == Err::<
                    LogWalk,
                    Error,
                >(e) && *final(self) == *old(self),
            },
    {
        if segment.last_sequence <= self.baseline {
            return Ok(());
        }
        if segment.first_sequence > self.next {
            return Err(Error::HistoryUnavailable);
        }
        match file {
            None => Err(Error::HistoryUnavailable),
            Some(file) => {
                if (file.len() as u64) < segment.committed_bytes {
                    return Err(Error::HistoryUnavailable);
                }
                if segment.committed_bytes < 96 {
                    return Err(Error::Storage(storage::Error::Corrupt(LOG_HEADER)));
                }
                match read_segment(database_id, segment, file, LOG_HEADER, LOG_TRAILER) {
                    Ok(_) => {
                        self.next = segment.last_sequence + 1;
                        Ok(())
                    },
                    Err(e) => Err(Error::Storage(e)),
                }
            },
        }
    }

    /// Check that the log reaches the visible frontier.
    pub fn finish(&self, frontier: u64) -> (checked: Result<(), Error>)
        ensures
            checked == if self.next > frontier {
                Ok::<(), Error>(())
            } else {
                Err(Error::HistoryUnavailable)
            },
    {
        if self.next <= frontier {
            return Err(Error::HistoryUnavailable);
        }
        Ok(())
    }
}

// ---- Requests ------------------------------------------------------------

/// A request to the registrations.
#[derive(Debug, PartialEq, Eq)]
pub enum Operation {
    Checkout { baseline: Watermark, kind: CursorKind, label: String },
    /// Capture a snapshot at the visible frontier and register a cursor there.
    SnapshotTail { kind: CursorKind, label: String },
    Reopen(CursorToken),
    Ack { token: CursorToken, watermark: Watermark },
    Release(CursorToken),
    List,
    Floors,
}

/// What a request is answered.
#[derive(Debug, PartialEq, Eq)]
pub enum Response {
    Token(CursorToken),
    /// Where the snapshot was captured, and the cursor.
    SnapshotTail(Watermark, CursorToken),
    Info(CursorInfo),
    List(Vec<CursorInfo>),
    Unit,
    Floors(RetentionFloors),
}

/// The model of a [`Response`].
pub enum ResponseModel {
    Token(TokenModel),
    SnapshotTail(WatermarkModel, TokenModel),
    Info(InfoModel),
    List(Seq<InfoModel>),
    Unit,
    Floors(RetentionFloors),
}

impl Response {
    pub open spec fn view(&self) -> ResponseModel {
        match self {
            Response::Token(token) => ResponseModel::Token(token@),
            Response::SnapshotTail(watermark, token) => ResponseModel::SnapshotTail(
                watermark@,
                token@,
            ),
            Response::Info(info) => ResponseModel::Info(info@),
            Response::List(list) => ResponseModel::List(infos(list@)),
            Response::Unit => ResponseModel::Unit,
            Response::Floors(floors) => ResponseModel::Floors(*floors),
        }
    }
}

/// What a request gives: its answer, and the change that is to be published
/// before it is answered. `snapshots` is the floor of the live snapshots, and
/// `available` whether the history of a cursor to be checked out is there.
pub open spec fn handled(
    w: World,
    entries: Seq<(u64, Vec<u8>)>,
    operation: Operation,
    frontier: u64,
    snapshots: u64,
    available: Result<(), Error>,
) -> Result<(ResponseModel, Option<ChangeModel>), Error> {
    let corrupt = Error::Storage(storage::Error::Corrupt(BAD_CURSOR));
    match operation {
        Operation::Checkout { baseline, kind, label } => match checked_out(
            w.manifest,
            baseline@,
            kind,
            label@,
            available,
        ) {
            Err(e) => Err(e),
            Ok((token, change)) => Ok((ResponseModel::Token(token), Some(change))),
        },
        Operation::SnapshotTail { kind, label } => {
            let here = WatermarkModel { database_id: w.manifest.database_id, sequence: frontier };
            match checked_out(w.manifest, here, kind, label@, available) {
                Err(e) => Err(e),
                Ok((token, change)) => Ok((ResponseModel::SnapshotTail(here, token), Some(change))),
            }
        },
        Operation::Reopen(token) => match reopened(w, token@) {
            Err(e) => Err(e),
            Ok(info) => Ok((ResponseModel::Info(info), None)),
        },
        Operation::Ack { token, watermark } => match acknowledged(
            w,
            token@,
            watermark@,
            frontier,
        ) {
            Err(e) => Err(e),
            Ok(change) => Ok((ResponseModel::Unit, change)),
        },
        Operation::Release(token) => match released(w, token@) {
            Err(e) => Err(e),
            Ok(change) => Ok((ResponseModel::Unit, change)),
        },
        Operation::List => match listed(w.manifest, entries) {
            None => Err(corrupt),
            Some(list) => Ok((ResponseModel::List(list), None)),
        },
        Operation::Floors => match listed(w.manifest, entries) {
            None => Err(corrupt),
            Some(list) => Ok(
                (
                    ResponseModel::Floors(
                        floors(list, snapshots, (w.manifest.checkpoint_sequence + 1) as u64),
                    ),
                    None,
                ),
            ),
        },
    }
}

/// Decide a request to the registrations.
pub fn handle(
    manifest: &Manifest,
    cursors: &Cursors,
    operation: Operation,
    frontier: u64,
    snapshots: u64,
    available: Result<(), Error>,
) -> (handled_request: Result<(Response, Option<Change>), Error>)
    requires
        cursors.wf(),
        manifest@.checkpoint_sequence < u64::MAX,
        manifest@.durable_sequence < u64::MAX,
        exchange::watermark_allowed(
            WatermarkModel { database_id: manifest@.database_id, sequence: frontier },
        ),
    ensures
        ({
            let spec = handled(
                world(manifest, cursors),
                cursors.entries@,
                operation,
                frontier,
                snapshots,
                available,
            );
            match handled_request {
                Ok((response, change)) => spec == Ok::<
                    (ResponseModel, Option<ChangeModel>),
                    Error,
                >((response@, optional_change(change))),
                Err(e) => spec == Err::<(ResponseModel, Option<ChangeModel>), Error>(e),
            }
        }),
{
    match operation {
        Operation::Checkout { baseline, kind, label } => {
            let (token, change) = checkout(manifest, &baseline, kind, label, available)?;
            Ok((Response::Token(token), Some(change)))
        },
        Operation::SnapshotTail { kind, label } => {
            match Watermark::new(manifest.database_id, frontier) {
                Ok(here) => {
                    let (token, change) = checkout(manifest, &here, kind, label, available)?;
                    Ok((Response::SnapshotTail(here, token), Some(change)))
                },
                Err(e) => Err(e),
            }
        },
        Operation::Reopen(token) => {
            let info = reopen(manifest, cursors, &token)?;
            Ok((Response::Info(info), None))
        },
        Operation::Ack { token, watermark } => {
            let change = acknowledge(manifest, cursors, &token, &watermark, frontier)?;
            Ok((Response::Unit, change))
        },
        Operation::Release(token) => {
            let change = release(manifest, cursors, &token)?;
            Ok((Response::Unit, change))
        },
        Operation::List => {
            let list = list(manifest, cursors)?;
            Ok((Response::List(list), None))
        },
        Operation::Floors => {
            let set = retention_floors(manifest, cursors, snapshots)?;
            Ok((Response::Floors(set), None))
        },
    }
}

// ---- Laws of registrations -----------------------------------------------

/// A cursor that was checked out is found under its token, with the baseline
/// and the label that it was given.
pub proof fn checked_out_cursors_are_found(
    w: World,
    baseline: WatermarkModel,
    kind: CursorKind,
    label: Seq<char>,
    t: TokenModel,
    change: ChangeModel,
)
    requires
        checked_out(w.manifest, baseline, kind, label, Ok(())) == Ok::<
            (TokenModel, ChangeModel),
            Error,
        >((t, change)),
        w.manifest.next_cursor_id > 0,
        retained(w.manifest, baseline.sequence, kind),
        baseline.sequence <= w.manifest.durable_sequence,
    ensures
        reopened(published(w, change), t) == Ok::<InfoModel, Error>(
            InfoModel { token: t, baseline: baseline.sequence, label },
        ),
{
    let next = published(w, change);
    registrations_are_read_back(next.manifest, t.cursor_id, kind, baseline.sequence, label);
    assert(token_for(next.manifest, t.cursor_id, kind) == t);
}

/// Cursor numbers are never reused: a new cursor has a number that no earlier
/// registration had, and it stays below the next one.
pub proof fn cursor_numbers_are_fresh(
    m: ManifestModel,
    baseline: WatermarkModel,
    kind: CursorKind,
    label: Seq<char>,
    available: Result<(), Error>,
    t: TokenModel,
    change: ChangeModel,
)
    requires
        checked_out(m, baseline, kind, label, available) == Ok::<(TokenModel, ChangeModel), Error>(
            (t, change),
        ),
    ensures
        t.cursor_id == m.next_cursor_id,
        change.next_id > t.cursor_id,
        change.next_id > m.next_cursor_id,
{
}

/// A released cursor stays released: reopening or acknowledging it fails, and
/// releasing it again succeeds without a change.
pub proof fn released_cursors_stay_released(
    w: World,
    t: TokenModel,
    change: ChangeModel,
    watermark: WatermarkModel,
    frontier: u64,
)
    requires
        released(w, t) == Ok::<Option<ChangeModel>, Error>(Some(change)),
    ensures
        ({
            let next = published(w, change);
            &&& reopened(next, t) == Err::<InfoModel, Error>(Error::CursorReleased)
            &&& acknowledged(next, t, watermark, frontier) == Err::<Option<ChangeModel>, Error>(
                Error::CursorReleased,
            )
            &&& released(next, t) == Ok::<Option<ChangeModel>, Error>(None)
            &&& next.manifest == w.manifest
        }),
{
    assert(published(w, change).manifest =~= w.manifest);
}

/// Acknowledging moves a cursor to the watermark, never backwards, and keeps its
/// token and label; acknowledging the same watermark again changes nothing.
pub proof fn acknowledgements_advance(
    w: World,
    t: TokenModel,
    watermark: WatermarkModel,
    frontier: u64,
    change: ChangeModel,
)
    requires
        acknowledged(w, t, watermark, frontier) == Ok::<Option<ChangeModel>, Error>(Some(change)),
        frontier <= w.manifest.durable_sequence,
    ensures
        ({
            let before = reopened(w, t)->Ok_0;
            let next = published(w, change);
            &&& reopened(next, t) == Ok::<InfoModel, Error>(
                InfoModel { baseline: watermark.sequence, ..before },
            )
            &&& before.baseline < watermark.sequence <= frontier
            &&& acknowledged(next, t, watermark, frontier) == Ok::<Option<ChangeModel>, Error>(
                None,
            )
        }),
{
    let before = reopened(w, t)->Ok_0;
    let next = published(w, change);
    lemma_info_label(w.manifest, t.cursor_id, w.cursors[t.cursor_id]);
    assert(next.manifest =~= w.manifest);
    registrations_are_read_back(
        w.manifest,
        t.cursor_id,
        t.kind,
        watermark.sequence,
        before.label,
    );
}

/// A registered cursor of any kind can be acknowledged up to every watermark of
/// its database from its baseline to the frontier, and to no other. Behind the
/// baseline this gives a change, and once it is published the cursor reopens at
/// the watermark, with the same token and label. There is no change exactly
/// where the watermark is the baseline.
pub proof fn registered_cursors_can_be_acknowledged(
    w: World,
    t: TokenModel,
    info: InfoModel,
    watermark: WatermarkModel,
    frontier: u64,
)
    requires
        reopened(w, t) == Ok::<InfoModel, Error>(info),
        frontier <= w.manifest.durable_sequence,
    ensures
        ({
            let here = watermark.database_id == w.manifest.database_id;
            let answer = acknowledged(w, t, watermark, frontier);
            &&& answer is Ok <==> here && info.baseline <= watermark.sequence <= frontier
            &&& here && watermark.sequence == info.baseline <= frontier ==> answer == Ok::<
                Option<ChangeModel>,
                Error,
            >(None)
            &&& here && info.baseline < watermark.sequence <= frontier ==> {
                &&& answer matches Ok(Some(change))
                &&& reopened(published(w, change), t) == Ok::<InfoModel, Error>(
                    InfoModel {
                        token: info.token,
                        baseline: watermark.sequence,
                        label: info.label,
                    },
                )
                &&& change.id == t.cursor_id
                &&& change.next_id == w.manifest.next_cursor_id
            }
        }),
{
    if let Ok(Some(change)) = acknowledged(w, t, watermark, frontier) {
        acknowledgements_advance(w, t, watermark, frontier, change);
    }
}

/// A registered cursor can be released, and only such a one: this gives a
/// change, and once it is published the cursor is gone. No other cursor is
/// touched.
pub proof fn registered_cursors_can_be_released(w: World, t: TokenModel, other: TokenModel)
    requires
        found(w, t) is Ok,
        other.cursor_id != t.cursor_id,
    ensures
        released(w, t) matches Ok(change) && (change is Some <==> reopened(w, t) is Ok),
        released(w, t) matches Ok(Some(change)) ==> {
            &&& reopened(published(w, change), t) == Err::<InfoModel, Error>(Error::CursorReleased)
            &&& reopened(published(w, change), other) == reopened(w, other)
        },
{
    if let Ok(Some(change)) = released(w, t) {
        assert(published(w, change).manifest =~= w.manifest);
    }
}

/// A cursor can be checked out at every watermark of the database whose history
/// is there, while numbers are left, with any label that is allowed; it is then
/// found under its token.
pub proof fn cursors_can_be_checked_out(
    w: World,
    baseline: WatermarkModel,
    kind: CursorKind,
    label: Seq<char>,
)
    requires
        baseline.database_id == w.manifest.database_id,
        encode_utf8(label).len() <= 255,
        !encode_utf8(label).contains(0),
        0 < w.manifest.next_cursor_id < u64::MAX,
        w.manifest.history_floor <= baseline.sequence <= w.manifest.durable_sequence,
        kind == CursorKind::Resolved || w.manifest.log_floor <= baseline.sequence + 1,
    ensures
        checked_out(w.manifest, baseline, kind, label, Ok(())) matches Ok((t, change)) && {
            &&& t.kind == kind
            &&& reopened(published(w, change), t) == Ok::<InfoModel, Error>(
                InfoModel { token: t, baseline: baseline.sequence, label },
            )
        },
{
    let (t, change) = checked_out(w.manifest, baseline, kind, label, Ok(()))->Ok_0;
    checked_out_cursors_are_found(w, baseline, kind, label, t, change);
}

/// Every registration is listed once, in the order of the numbers, as it is
/// found under its token.
pub proof fn registrations_are_listed(m: ManifestModel, entries: Seq<(u64, Vec<u8>)>, i: int)
    requires
        ascending(entries),
        listed(m, entries) is Some,
        0 <= i < entries.len(),
    ensures
        ({
            let list = listed(m, entries)->0;
            let w = World { manifest: m, cursors: entry_map(entries) };
            &&& list.len() == entries.len()
            &&& list[i].token.cursor_id == entries[i].0
            &&& reopened(w, list[i].token) == Ok::<InfoModel, Error>(list[i])
        }),
{
    lemma_entries(entries);
    lemma_listed(m, entries, i);
    assert(entry_map(entries).contains_key(entries[i].0));
}

proof fn lemma_listed(m: ManifestModel, entries: Seq<(u64, Vec<u8>)>, i: int)
    requires
        listed(m, entries) is Some,
        0 <= i < entries.len(),
    ensures
        listed(m, entries)->0.len() == entries.len(),
        info_of(m, entries[i].0, entries[i].1@) == Some(listed(m, entries)->0[i]),
    decreases entries.len(),
{
    let front = entries.drop_last();
    lemma_baselines(m, entries);
    lemma_baselines(m, front);
    if i < front.len() {
        lemma_listed(m, front, i);
        assert(front[i] == entries[i]);
    }
}

/// A token of another namespace is refused by every request, so that a renewed
/// namespace invalidates all earlier tokens.
pub proof fn other_namespaces_are_refused(
    w: World,
    t: TokenModel,
    watermark: WatermarkModel,
    frontier: u64,
)
    requires
        t.cursor_namespace != w.manifest.cursor_namespace,
    ensures
        reopened(w, t) == Err::<InfoModel, Error>(Error::InvalidToken(OTHER_NAMESPACE)),
        acknowledged(w, t, watermark, frontier) == Err::<Option<ChangeModel>, Error>(
            Error::InvalidToken(OTHER_NAMESPACE),
        ),
        released(w, t) == Err::<Option<ChangeModel>, Error>(Error::InvalidToken(OTHER_NAMESPACE)),
{
}

/// A change leaves all other registrations as they were.
pub proof fn changes_touch_one_registration(w: World, change: ChangeModel, id: u64)
    requires
        id != change.id,
    ensures
        published(w, change).cursors.contains_key(id) == w.cursors.contains_key(id),
        w.cursors.contains_key(id) ==> published(w, change).cursors[id] == w.cursors[id],
{
}

} // verus!
