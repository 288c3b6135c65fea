//! The table locking protocol: lock options, the sync record, the request
//! list and the decisions of a lock file's holder.
//!
//! A CASA table is coordinated between processes through record locks on
//! `<tabledir>/table.lock`: byte 0 is the lock itself, byte 1 tells that the
//! table is open, and bytes 1-2 are locked while a permanent lock is held.
//! The file body holds a request list of fixed size (a count and up to 32
//! pairs of a process and a host), followed by the length-prefixed sync
//! record: an AipsIO stream with the authoritative row count and the change
//! counters.
use crate::aipsio;
use crate::aipsio::{AipsIoError, AipsIoFault, Cursor, Reader, Step, Writer};
use crate::bytes;
use crate::columnset;
use crate::columnset::write_block_u32;
use crate::recordio;
use crate::recordio::read_elements;
use crate::setlaw;
use crate::text::text_eq;
use vstd::prelude::*;

verus! {

/// Bytes of the request list that heads the file.
pub const SIZE_REQ_ID: usize = 260;

/// The locking modes.
#[derive(Debug, Clone, Copy, PartialEq, Eq, Structural)]
pub enum LockMode {
    PermanentLocking,
    PermanentLockingWait,
    AutoLocking,
    UserLocking,
    AutoNoReadLocking,
    UserNoReadLocking,
    NoLocking,
    DefaultLocking,
}

impl LockMode {
    /// The option word of a mode.
    pub open spec fn word(self) -> Seq<char> {
        match self {
            LockMode::PermanentLocking => "permanent"@,
            LockMode::PermanentLockingWait => "permanentwait"@,
            LockMode::AutoLocking => "auto"@,
            LockMode::UserLocking => "user"@,
            LockMode::AutoNoReadLocking => "autonoread"@,
            LockMode::UserNoReadLocking => "usernoread"@,
            LockMode::NoLocking => "nolock"@,
            LockMode::DefaultLocking => "default"@,
        }
    }

    /// The canonical option word.
    pub fn as_str(self) -> (r: &'static str)
        ensures
            r@ == self.word(),
    {
        match self {
            LockMode::PermanentLocking => "permanent",
            LockMode::PermanentLockingWait => "permanentwait",
            LockMode::AutoLocking => "auto",
            LockMode::UserLocking => "user",
            LockMode::AutoNoReadLocking => "autonoread",
            LockMode::UserNoReadLocking => "usernoread",
            LockMode::NoLocking => "nolock",
            LockMode::DefaultLocking => "default",
        }
    }

    /// The mode with the given option word.
    pub fn parse(s: &str) -> (r: Option<LockMode>)
        ensures
            match r {
                Some(mode) => s@ == mode.word(),
                None => forall|mode: LockMode| s@ != #[trigger] mode.word(),
            },
    {
        if text_eq(s, "default") {
            Some(LockMode::DefaultLocking)
        } else if text_eq(s, "auto") {
            Some(LockMode::AutoLocking)
        } else if text_eq(s, "autonoread") {
            Some(LockMode::AutoNoReadLocking)
        } else if text_eq(s, "user") {
            Some(LockMode::UserLocking)
        } else if text_eq(s, "usernoread") {
            Some(LockMode::UserNoReadLocking)
        } else if text_eq(s, "permanent") {
            Some(LockMode::PermanentLocking)
        } else if text_eq(s, "permanentwait") {
            Some(LockMode::PermanentLockingWait)
        } else if text_eq(s, "nolock") {
            Some(LockMode::NoLocking)
        } else {
            None
        }
    }
}

/// No two modes have the same option word, so that parsing a mode's word
/// gives the mode.
pub proof fn law_words_distinct(a: LockMode, b: LockMode)
    requires
        a.word() == b.word(),
    ensures
        a == b,
{
    reveal_strlit("permanent");
    reveal_strlit("permanentwait");
    reveal_strlit("auto");
    reveal_strlit("user");
    reveal_strlit("autonoread");
    reveal_strlit("usernoread");
    reveal_strlit("nolock");
    reveal_strlit("default");
    assert("permanent"@.len() == 9 && "permanentwait"@.len() == 13 && "nolock"@.len() == 6
        && "default"@.len() == 7);
    assert("auto"@.len() == 4 && "user"@.len() == 4 && "autonoread"@.len() == 10
        && "usernoread"@.len() == 10);
    assert("auto"@[0] == 'a' && "user"@[0] == 'u');
    assert("autonoread"@[0] == 'a' && "usernoread"@[0] == 'u');
    let x = a.word();
    let y = b.word();
    assert(x.len() == y.len());
    assert(x[0] == y[0]);
}

/// A locking mode with its inspection interval (seconds) and maximum wait.
#[derive(Debug, Clone, Copy, PartialEq, Eq)]
pub struct LockOptions {
    pub mode: LockMode,
    pub interval: u32,
    pub maxwait: u32,
}

/// Lock options with the default and the no-read modes resolved.
#[derive(Debug, Clone, Copy, PartialEq, Eq)]
pub struct EffectiveLockOptions {
    pub mode: LockMode,
    pub interval: u32,
    pub maxwait: u32,
    pub read_locking: bool,
}

/// The mode that a mode stands for.
pub open spec fn base_mode(mode: LockMode) -> LockMode {
    match mode {
        LockMode::DefaultLocking | LockMode::AutoNoReadLocking => LockMode::AutoLocking,
        LockMode::UserNoReadLocking => LockMode::UserLocking,
        other => other,
    }
}

/// Whether a mode locks for reading.
pub open spec fn locks_reads(mode: LockMode) -> bool {
    !(mode is AutoNoReadLocking || mode is UserNoReadLocking || mode is NoLocking)
}

impl LockOptions {
    /// The default mode, with an interval of five seconds and no limit on
    /// the wait.
    pub fn locking_default() -> (r: LockOptions)
        ensures
            r == (LockOptions { mode: LockMode::DefaultLocking, interval: 5, maxwait: 0 }),
    {
        LockOptions { mode: LockMode::DefaultLocking, interval: 5, maxwait: 0 }
    }

    /// No locking.
    pub fn no_locking() -> (r: LockOptions)
        ensures
            r == (LockOptions { mode: LockMode::NoLocking, interval: 5, maxwait: 0 }),
    {
        LockOptions { mode: LockMode::NoLocking, interval: 5, maxwait: 0 }
    }

    /// Resolve the default mode to auto locking, fold the no-read modes into
    /// their base mode, and drop read locking for them and for no locking.
    pub fn effective(self) -> (r: EffectiveLockOptions)
        ensures
            r == (EffectiveLockOptions {
                mode: base_mode(self.mode),
                interval: self.interval,
                maxwait: self.maxwait,
                read_locking: locks_reads(self.mode),
            }),
    {
        let (mode, read_locking) = match self.mode {
            LockMode::DefaultLocking => (LockMode::AutoLocking, true),
            LockMode::AutoNoReadLocking => (LockMode::AutoLocking, false),
            LockMode::UserNoReadLocking => (LockMode::UserLocking, false),
            LockMode::NoLocking => (LockMode::NoLocking, false),
            other => (other, true),
        };
        EffectiveLockOptions {
            mode,
            interval: self.interval,
            maxwait: self.maxwait,
            read_locking,
        }
    }
}

impl EffectiveLockOptions {
    /// Whether the lock is held for as long as the table is open.
    pub fn is_permanent(&self) -> (r: bool)
        ensures
            r == (self.mode is PermanentLocking || self.mode is PermanentLockingWait),
    {
        match self.mode {
            LockMode::PermanentLocking | LockMode::PermanentLockingWait => true,
            _ => false,
        }
    }
}

/// The two kinds of lock.
#[derive(Debug, Clone, Copy, PartialEq, Eq, Structural)]
pub enum LockType {
    Read,
    Write,
}

/// The sync record in the lock file's info area: the authoritative row
/// count, the column count and the change counters.
#[derive(Debug, Clone, PartialEq, Eq)]
pub struct TableSyncData {
    pub nrrow: u64,
    /// Negative in the short form, which has no counters.
    pub nrcolumn: i32,
    pub modify_counter: u32,
    pub table_change_counter: u32,
    pub dm_counters: Vec<u32>,
}

/// What a [`TableSyncData`] says.
#[verifier::ext_equal]
pub struct SyncModel {
    pub nrrow: u64,
    pub nrcolumn: i32,
    pub modify_counter: u32,
    pub table_change_counter: u32,
    pub dm_counters: Seq<u32>,
}

impl View for TableSyncData {
    type V = SyncModel;

    open spec fn view(&self) -> SyncModel {
        SyncModel {
            nrrow: self.nrrow,
            nrcolumn: self.nrcolumn,
            modify_counter: self.modify_counter,
            table_change_counter: self.table_change_counter,
            dm_counters: self.dm_counters@,
        }
    }
}

/// Errors from parsing a sync record.
#[derive(Debug)]
pub enum SyncError {
    /// The root object is not a sync record.
    Record(AipsIoError),
    /// The counters are not a block.
    Block(AipsIoError),
    AipsIo(AipsIoError),
    UnsupportedVersion(u32),
    UnsupportedBlockVersion(u32),
}

/// What a [`SyncError`] says.
pub enum SyncFault {
    Record(AipsIoFault),
    Block(AipsIoFault),
    AipsIo(AipsIoFault),
    UnsupportedVersion(u32),
    UnsupportedBlockVersion(u32),
}

impl View for SyncError {
    type V = SyncFault;

    open spec fn view(&self) -> SyncFault {
        match *self {
            SyncError::Record(e) => SyncFault::Record(e@),
            SyncError::Block(e) => SyncFault::Block(e@),
            SyncError::AipsIo(e) => SyncFault::AipsIo(e@),
            SyncError::UnsupportedVersion(v) => SyncFault::UnsupportedVersion(v),
            SyncError::UnsupportedBlockVersion(v) => SyncFault::UnsupportedBlockVersion(v),
        }
    }
}

/// A stream fault as a sync record fault.
pub open spec fn lift<T>(s: Step<T, AipsIoFault>) -> Step<T, SyncFault> {
    match s {
        Ok(v) => Ok(v),
        Err((f, c)) => Err((SyncFault::AipsIo(f), c)),
    }
}

fn io<T>(r: Result<T, AipsIoError>) -> (q: Result<T, SyncError>)
    ensures
        match r {
            Ok(v) => q == Ok::<T, SyncError>(v),
            Err(e) => q == Err::<T, SyncError>(SyncError::AipsIo(e)),
        },
{
    match r {
        Ok(v) => Ok(v),
        Err(e) => Err(SyncError::AipsIo(e)),
    }
}

/// The row count: 32-bit in version 1, 64-bit in version 2.
pub open spec fn rows_at(c: Cursor, version: u32) -> Step<u64, SyncFault> {
    if version == 1 {
        match lift(c.u32()) {
            Err(e) => Err(e),
            Ok((v, c)) => Ok((v as u64, c)),
        }
    } else if version == 2 {
        lift(c.u64())
    } else {
        Err((SyncFault::UnsupportedVersion(version), c))
    }
}

/// The table change counter and the data manager counters, where the record
/// has them.
pub open spec fn counters_at(c: Cursor, nrcolumn: i32) -> Step<(u32, Seq<u32>), SyncFault> {
    if nrcolumn < 0 {
        Ok(((0, Seq::empty()), c))
    } else {
        match lift(c.u32()) {
            Err(e) => Err(e),
            Ok((table, c)) => match c.object(false, "Block"@) {
                Err((f, c)) => Err((SyncFault::Block(f), c)),
                Ok((head, c)) => if head.version != 1 {
                    Err((SyncFault::UnsupportedBlockVersion(head.version), c))
                } else {
                    match lift(c.u32()) {
                        Err(e) => Err(e),
                        Ok((n, c)) => match lift(
                            recordio::elements_at::<u32>(c, n as nat, Seq::empty()),
                        ) {
                            Err(e) => Err(e),
                            Ok((s, c)) => Ok(((table, s), c)),
                        },
                    }
                },
            },
        }
    }
}

/// The sync record at a cursor.
pub open spec fn sync_at(c: Cursor) -> Step<SyncModel, SyncFault> {
    match c.object(true, "sync"@) {
        Err((f, c)) => Err((SyncFault::Record(f), c)),
        Ok((head, c)) => match rows_at(c, head.version) {
            Err(e) => Err(e),
            Ok((nrrow, c)) => match lift(c.i32()) {
                Err(e) => Err(e),
                Ok((nrcolumn, c)) => match lift(c.u32()) {
                    Err(e) => Err(e),
                    Ok((modify_counter, c)) => match counters_at(c, nrcolumn) {
                        Err(e) => Err(e),
                        Ok(((table_change_counter, dm_counters), c)) => Ok(
                            (
                                SyncModel {
                                    nrrow,
                                    nrcolumn,
                                    modify_counter,
                                    table_change_counter,
                                    dm_counters,
                                },
                                c,
                            ),
                        ),
                    },
                },
            },
        },
    }
}

/// What an info area says.
pub open spec fn sync_of(info: Seq<u8>) -> Result<SyncModel, SyncFault> {
    match sync_at(Cursor { data: info, big: true, pos: 0 }) {
        Ok((m, _)) => Ok(m),
        Err((f, _)) => Err(f),
    }
}

/// The counters, in the long form.
pub open spec fn counters_bytes(m: SyncModel) -> Seq<u8> {
    if m.nrcolumn >= 0 {
        aipsio::u32_bytes(true, m.table_change_counter) + columnset::block_bytes(
            true,
            m.dm_counters,
        )
    } else {
        Seq::empty()
    }
}

/// The row count, in 32 bits where it fits.
pub open spec fn rows_bytes(nrrow: u64) -> Seq<u8> {
    if nrrow > u32::MAX {
        aipsio::u64_bytes(true, nrrow)
    } else {
        aipsio::u32_bytes(true, nrrow as u32)
    }
}

/// A sync record.
pub open spec fn sync_bytes(m: SyncModel) -> Seq<u8> {
    aipsio::object_bytes(
        true,
        true,
        "sync"@,
        if m.nrrow > u32::MAX {
            2
        } else {
            1
        },
        rows_bytes(m.nrrow) + aipsio::i32_bytes(true, m.nrcolumn) + aipsio::u32_bytes(
            true,
            m.modify_counter,
        ) + counters_bytes(m),
    )
}

fn read_rows(r: &mut Reader<'_>, version: u32) -> (res: Result<u64, SyncError>)
    ensures
        aipsio::reads(res, final(r)@, rows_at(old(r)@, version)),
{
    if version == 1 {
        Ok(io(r.read_u32())? as u64)
    } else if version == 2 {
        io(r.read_u64())
    } else {
        Err(SyncError::UnsupportedVersion(version))
    }
}

fn read_counters(r: &mut Reader<'_>, nrcolumn: i32) -> (res: Result<(u32, Vec<u32>), SyncError>)
    ensures
        match counters_at(old(r)@, nrcolumn) {
            Ok(((t, s), c)) => (res matches Ok(x) && x.0 == t && x.1@ == s) && final(r)@ == c,
            Err((f, c)) => res is Err && res->Err_0@ == f && final(r)@ == c,
        },
{
    if nrcolumn < 0 {
        return Ok((0, Vec::new()));
    }
    let table: u32 = io(r.read_u32())?;
    let version: u32 = match r.read_object(false, "Block") {
        Ok((version, _)) => version,
        Err(e) => {
            return Err(SyncError::Block(e));
        },
    };
    if version != 1 {
        return Err(SyncError::UnsupportedBlockVersion(version));
    }
    let n: u32 = io(r.read_u32())?;
    let list = io(read_elements::<u32>(r, n as usize))?;
    assert(recordio::views(list@) =~= list@);
    Ok((table, list))
}

impl TableSyncData {
    /// Parse the info bytes (an AipsIO stream whose root object is `sync`).
    pub fn parse(info: &[u8]) -> (res: Result<TableSyncData, SyncError>)
        ensures
            match sync_of(info@) {
                Ok(m) => res is Ok && res->Ok_0@ == m,
                Err(f) => res is Err && res->Err_0@ == f,
            },
    {
        let mut r = Reader::new(info);
        let version: u32 = match r.read_object(true, "sync") {
            Ok((version, _)) => version,
            Err(e) => {
                return Err(SyncError::Record(e));
            },
        };
        let nrrow = read_rows(&mut r, version)?;
        let nrcolumn = io(r.read_i32())?;
        let modify_counter = io(r.read_u32())?;
        let (table_change_counter, dm_counters) = read_counters(&mut r, nrcolumn)?;
        Ok(
            TableSyncData {
                nrrow,
                nrcolumn,
                modify_counter,
                table_change_counter,
                dm_counters,
            },
        )
    }

    /// Serialize as an AipsIO stream with a root `sync` object; the row
    /// count takes the 64-bit form above `u32::MAX`.
    pub fn to_bytes(&self) -> (r: Vec<u8>)
        ensures
            r@ == sync_bytes(self@),
    {
        let ghost m = self@;
        let mut w = Writer::new();
        let ghost outer = w@;
        let version: u32 = if self.nrrow > 0xffff_ffff { 2 } else { 1 };
        w.put_root_object_start("sync", version);
        let ghost inner = w@;
        if version == 1 {
            w.put_u32(self.nrrow as u32);
        } else {
            w.put_u64(self.nrrow);
        }
        w.put_i32(self.nrcolumn);
        w.put_u32(self.modify_counter);
        let ghost mid = w@;
        if self.nrcolumn >= 0 {
            w.put_u32(self.table_change_counter);
            write_block_u32(&mut w, self.dm_counters.as_slice());
            proof {
                aipsio::lemma_sheet_put(
                    mid,
                    aipsio::u32_bytes(true, m.table_change_counter),
                    columnset::block_bytes(true, m.dm_counters),
                );
            }
        } else {
            proof {
                aipsio::lemma_sheet_put_nothing(mid);
            }
        }
        w.put_object_end();
        proof {
            let a = rows_bytes(m.nrrow);
            let b = aipsio::i32_bytes(true, m.nrcolumn);
            let c = aipsio::u32_bytes(true, m.modify_counter);
            let d = counters_bytes(m);
            aipsio::lemma_sheet_put4(inner, a, b, c, d);
            aipsio::lemma_sheet_object(outer, true, "sync"@, version, a + b + c + d);
            assert(outer.put(sync_bytes(m)).body =~= sync_bytes(m));
        }
        w.into_bytes()
    }
}

/// A record that can be read back: the short form has no counters.
pub open spec fn sync_storable(m: SyncModel) -> bool {
    &&& m.dm_counters.len() <= u32::MAX
    &&& m.nrcolumn < 0 ==> m.table_change_counter == 0 && m.dm_counters == Seq::<u32>::empty()
}

proof fn lemma_counters(c: Cursor, m: SyncModel)
    requires
        0 <= c.pos,
        c.big,
        sync_storable(m),
        c.holds(counters_bytes(m)),
    ensures
        counters_at(c, m.nrcolumn) matches Ok((x, _)) && x == (
            m.table_change_counter,
            m.dm_counters,
        ),
{
    if m.nrcolumn >= 0 {
        let s = m.dm_counters;
        let a = aipsio::u32_bytes(true, m.table_change_counter);
        let n = bytes::low32(s.len() as int);
        let head = aipsio::u32_bytes(true, n);
        let body = columnset::u32s_bytes(true, s, s.len());
        bytes::lemma_uint_bytes_len(true, m.table_change_counter as nat, 4);
        bytes::lemma_uint_bytes_len(true, n as nat, 4);
        aipsio::lemma_holds_concat(c, a, columnset::block_bytes(true, s));
        aipsio::law_u32_round_trip(c, m.table_change_counter);
        reveal_strlit("Block");
        vstd::utf8::is_ascii_chars_encode_utf8("Block"@);
        aipsio::law_object_round_trip(c.skip(4), false, "Block"@, 1, head + body);
        let (h, d) = c.skip(4).object_start(false)->Ok_0;
        aipsio::lemma_holds_concat(d, head, body);
        aipsio::law_u32_round_trip(d, n);
        setlaw::law_u32s_round_trip(d.skip(4), s);
    }
}

/// A written sync record is read back.
#[verifier::rlimit(40)]
pub proof fn law_sync_round_trip(m: SyncModel)
    requires
        sync_storable(m),
    ensures
        sync_of(sync_bytes(m)) == Ok::<SyncModel, SyncFault>(m),
{
    let all = sync_bytes(m);
    let cur = Cursor { data: all, big: true, pos: 0 };
    assert(all.subrange(0, all.len() as int) =~= all);
    let a = rows_bytes(m.nrrow);
    let b = aipsio::i32_bytes(true, m.nrcolumn);
    let c = aipsio::u32_bytes(true, m.modify_counter);
    let d = counters_bytes(m);
    let version = if m.nrrow > u32::MAX {
        2u32
    } else {
        1u32
    };
    bytes::lemma_uint_bytes_len(true, m.nrrow as nat, 8);
    bytes::lemma_uint_bytes_len(true, m.nrrow as u32 as nat, 4);
    bytes::lemma_uint_bytes_len(true, bytes::pattern32(m.nrcolumn) as nat, 4);
    bytes::lemma_uint_bytes_len(true, m.modify_counter as nat, 4);
    reveal_strlit("sync");
    vstd::utf8::is_ascii_chars_encode_utf8("sync"@);
    aipsio::law_object_round_trip(cur, true, "sync"@, version, a + b + c + d);
    let (h, e) = cur.object_start(true)->Ok_0;
    aipsio::lemma_holds_concat(e, a + b + c, d);
    aipsio::lemma_holds_concat(e, a + b, c);
    aipsio::lemma_holds_concat(e, a, b);
    if m.nrrow > u32::MAX {
        aipsio::law_u64_round_trip(e, m.nrrow);
    } else {
        aipsio::law_u32_round_trip(e, m.nrrow as u32);
    }
    let e1 = e.skip(a.len() as int);
    aipsio::law_i32_round_trip(e1, m.nrcolumn);
    let e2 = e1.skip(4);
    assert(e.skip((a + b).len() as int) == e2);
    aipsio::law_u32_round_trip(e2, m.modify_counter);
    let e3 = e2.skip(4);
    assert(e.skip((a + b + c).len() as int) == e3);
    lemma_counters(e3, m);
}

/// A mode that does not lock for reading is called like the mode that it stands
/// for, with `noread` behind, or is no locking at all; every other mode but the
/// default one stands for itself, and the default one for auto locking.
pub proof fn law_modes_resolved(m: LockMode)
    ensures
        base_mode(base_mode(m)) == base_mode(m),
        locks_reads(m) == (m.word() != base_mode(m).word() + "noread"@ && m.word() != "nolock"@),
        m.word() != "default"@ && locks_reads(m) ==> base_mode(m) == m,
        m.word() == "default"@ ==> base_mode(m).word() == "auto"@,
{
    reveal_strlit("permanent");
    reveal_strlit("permanentwait");
    reveal_strlit("auto");
    reveal_strlit("user");
    reveal_strlit("autonoread");
    reveal_strlit("usernoread");
    reveal_strlit("nolock");
    reveal_strlit("default");
    reveal_strlit("noread");
    assert("permanent"@.len() == 9 && "permanentwait"@.len() == 13 && "nolock"@.len() == 6
        && "default"@.len() == 7 && "noread"@.len() == 6);
    assert("auto"@.len() == 4 && "user"@.len() == 4 && "autonoread"@.len() == 10
        && "usernoread"@.len() == 10);
    assert("auto"@ + "noread"@ =~= "autonoread"@);
    assert("user"@ + "noread"@ =~= "usernoread"@);
}

} // verus!
