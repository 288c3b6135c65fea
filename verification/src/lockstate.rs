//! The decisions of a lock file's holder: when a lock request needs the file,
//! what a release does, when to look for waiting processes, and what stands
//! in the request list and the info area.
use crate::aipsio;
use crate::bytes;
use crate::bytes::{length32, push_uint, to_pattern32, to_signed32, uint_from};
use crate::lockfile;
use crate::lockfile::{EffectiveLockOptions, LockType, SyncFault, SyncModel, TableSyncData};
use vstd::prelude::*;

verus! {

/// What a process knows of the lock file that it has open.
#[derive(Debug, Clone, Copy)]
pub struct LockState {
    /// The lock file did not exist: every request succeeds.
    pub missing: bool,
    /// The file cannot be written: write locks degrade to success without
    /// locking.
    pub read_only: bool,
    /// The lock that this process holds.
    pub held: Option<LockType>,
    /// Seconds between two looks at the request list.
    pub interval: u32,
    /// Calls since the last look.
    pub inspect_count: u32,
}

/// What releasing a lock takes.
#[derive(Debug, Clone, Copy, PartialEq, Eq, Structural)]
pub enum Release {
    /// There is nothing to release.
    Nothing,
    /// The lock is forgotten; the file is not touched.
    Forget,
    /// The file is unlocked.
    Unlock,
    /// The sync record is stored, then the file is unlocked.
    StoreAndUnlock,
}

/// A request that is met without touching the file.
pub open spec fn met(s: LockState, typ: LockType) -> bool {
    degraded(s, typ) || s.held == Some(LockType::Write) || s.held == Some(typ)
}

/// A request that succeeds because no real lock can be taken.
pub open spec fn degraded(s: LockState, typ: LockType) -> bool {
    s.missing || (typ == LockType::Write && s.read_only)
}

impl LockState {
    /// The state after opening the file.
    pub fn new(options: &EffectiveLockOptions, missing: bool, read_only: bool) -> (r: LockState)
        ensures
            r == (LockState {
                missing,
                read_only,
                held: None,
                interval: options.interval,
                inspect_count: 0,
            }),
    {
        LockState { missing, read_only, held: None, interval: options.interval, inspect_count: 0 }
    }

    /// Whether a lock request is met at once. A write lock already held meets
    /// any request: taking a read lock over it would weaken it.
    pub fn begin(&mut self, typ: LockType) -> (r: bool)
        ensures
            r == met(*old(self), typ),
            *final(self) == if degraded(*old(self), typ) {
                LockState { held: Some(typ), ..*old(self) }
            } else {
                *old(self)
            },
    {
        if self.missing {
            self.held = Some(typ);
            return true;
        }
        match typ {
            LockType::Write => {
                if self.read_only {
                    self.held = Some(typ);
                    return true;
                }
            },
            LockType::Read => {},
        }
        match self.held {
            None => false,
            Some(LockType::Write) => true,
            Some(LockType::Read) => match typ {
                LockType::Read => true,
                LockType::Write => false,
            },
        }
    }

    /// Whether a failed first attempt is followed by others, with this
    /// process in the request list meanwhile.
    pub fn retries(first: bool, nattempts: u32) -> (r: bool)
        ensures
            r == (!first && nattempts != 1),
    {
        !first && nattempts != 1
    }

    /// Record the outcome of a lock request that went to the file.
    pub fn settle(&mut self, typ: LockType, acquired: bool)
        ensures
            *final(self) == if acquired {
                LockState { held: Some(typ), ..*old(self) }
            } else {
                *old(self)
            },
    {
        if acquired {
            self.held = Some(typ);
        }
    }

    /// What releasing a read lock takes: nothing while a write lock is held,
    /// for it covers the read case.
    pub fn read_release(&self) -> (r: Release)
        ensures
            r == if self.held != Some(LockType::Read) {
                Release::Nothing
            } else if self.missing {
                Release::Forget
            } else {
                Release::Unlock
            },
    {
        match self.held {
            Some(LockType::Read) => {
                if self.missing {
                    Release::Forget
                } else {
                    Release::Unlock
                }
            },
            _ => Release::Nothing,
        }
    }

    /// What releasing a write lock takes; the sync record is stored where
    /// there is one and the file can be written.
    pub fn write_release(&self, with_info: bool) -> (r: Release)
        ensures
            r == if self.held != Some(LockType::Write) {
                Release::Nothing
            } else if self.missing {
                Release::Forget
            } else if with_info && !self.read_only {
                Release::StoreAndUnlock
            } else {
                Release::Unlock
            },
    {
        match self.held {
            Some(LockType::Write) => {
                if self.missing {
                    Release::Forget
                } else if with_info && !self.read_only {
                    Release::StoreAndUnlock
                } else {
                    Release::Unlock
                }
            },
            _ => Release::Nothing,
        }
    }

    /// Record that the lock is released.
    pub fn released(&mut self)
        ensures
            *final(self) == (LockState { held: None, ..*old(self) }),
    {
        self.held = None;
    }

    /// Whether it can be told that another process has the table open.
    pub fn observable(&self) -> (r: bool)
        ensures
            r == (!self.missing && !self.read_only),
    {
        !self.missing && !self.read_only
    }

    /// Whether it is time to look for a waiting process: at every call when
    /// `always` is set, else at every 26th one and not before the interval
    /// has passed since the last look (`since`, in whole seconds).
    pub fn inspect_due(&mut self, always: bool, since: Option<u64>) -> (r: bool)
        ensures
            r == (always || !(old(self).interval > 0 && (old(self).inspect_count < 25 || (
            since matches Some(t) && t < old(self).interval)))),
            *final(self) == if always {
                *old(self)
            } else if old(self).interval > 0 && old(self).inspect_count < 25 {
                LockState { inspect_count: (old(self).inspect_count + 1) as u32, ..*old(self) }
            } else {
                LockState { inspect_count: 0, ..*old(self) }
            },
    {
        if always {
            return true;
        }
        if self.interval > 0 && self.inspect_count < 25 {
            self.inspect_count = self.inspect_count + 1;
            return false;
        }
        self.inspect_count = 0;
        if self.interval > 0 {
            if let Some(t) = since {
                if t < self.interval as u64 {
                    return false;
                }
            }
        }
        true
    }
}

/// While a process holds the write lock, no request and no read release
/// weakens it, unless the lock file is missing.
pub proof fn law_write_lock_stays(s: LockState, typ: LockType)
    requires
        s.held == Some(LockType::Write),
        !s.missing,
    ensures
        met(s, typ),
        degraded(s, typ) ==> typ == LockType::Write,
{
}

/// The bytes of the lock file that mark the table as open: a permanent lock
/// marks two.
pub fn use_range(options: &EffectiveLockOptions) -> (r: (i64, i64))
    ensures
        r == (
            1i64,
            if options.mode is PermanentLocking || options.mode is PermanentLockingWait {
                2i64
            } else {
                1i64
            },
        ),
{
    if options.is_permanent() {
        (1, 2)
    } else {
        (1, 1)
    }
}

/// The largest info area that is read.
pub const MAX_INFO: u32 = 67108864;

/// The length of the info area, from the four bytes before it; an empty or an
/// oversized one counts as none.
pub fn info_length(head: &[u8]) -> (r: Option<u32>)
    requires
        head@.len() == 4,
    ensures
        ({
            let n = bytes::uint_value(true, head@);
            if n == 0 || n > MAX_INFO {
                r is None
            } else {
                r == Some(n as u32)
            }
        }),
{
    let n: u64 = uint_from(true, head);
    if n == 0 || n > MAX_INFO as u64 {
        None
    } else {
        Some(n as u32)
    }
}

/// The info area as it is stored: the record behind its length.
pub open spec fn frame(m: SyncModel) -> Seq<u8> {
    let b = lockfile::sync_bytes(m);
    aipsio::u32_bytes(true, bytes::low32(b.len() as int)) + b
}

/// The info area as it is stored: the record behind its length.
pub fn info_frame(data: &TableSyncData) -> (r: Vec<u8>)
    ensures
        r@ == frame(data@),
{
    let b = data.to_bytes();
    let mut out: Vec<u8> = Vec::new();
    push_uint(&mut out, true, length32(b.len()) as u64, 4);
    let ghost head = out@;
    out.extend_from_slice(b.as_slice());
    proof {
        assert(head =~= aipsio::u32_bytes(true, bytes::low32(b@.len() as int)));
        assert(out@ =~= head + b@);
    }
    out
}

/// Bytes behind their length.
proof fn lemma_framed(b: Seq<u8>)
    requires
        b.len() <= u32::MAX,
    ensures
        ({
            let n = b.len() as int;
            let f = aipsio::u32_bytes(true, bytes::low32(n)) + b;
            &&& f.len() == 4 + n
            &&& bytes::uint_value(true, f.subrange(0, 4)) == n
            &&& f.subrange(4, 4 + n) == b
        }),
{
    let n = b.len() as int;
    let head = aipsio::u32_bytes(true, bytes::low32(n));
    let f = head + b;
    bytes::lemma_spans();
    bytes::lemma_uint_bytes_len(true, bytes::low32(n) as nat, 4);
    bytes::law_uint_round_trip(true, bytes::low32(n) as nat, 4);
    assert(f.subrange(0, 4) =~= head);
    assert(f.subrange(4, 4 + n) =~= b);
}

/// A stored sync record is read back: its length from the first four bytes,
/// the record from the rest.
#[verifier::spinoff_prover]
#[verifier::rlimit(60)]
pub proof fn law_info_round_trip(m: SyncModel)
    requires
        lockfile::sync_storable(m),
        lockfile::sync_bytes(m).len() <= MAX_INFO,
    ensures
        ({
            let f = frame(m);
            let n = lockfile::sync_bytes(m).len() as int;
            &&& f.len() == 4 + n
            &&& bytes::uint_value(true, f.subrange(0, 4)) == n
            &&& lockfile::sync_of(f.subrange(4, 4 + n)) == Ok::<SyncModel, SyncFault>(m)
        }),
{
    lemma_framed(lockfile::sync_bytes(m));
    lockfile::law_sync_round_trip(m);
}

/// The largest number of entries of the request list.
pub const MAX_REQUESTS: u32 = 32;

/// An entry of the request list.
pub open spec fn request_entry(pid: i32) -> Seq<u8> {
    aipsio::i32_bytes(true, pid) + aipsio::i32_bytes(true, 0)
}

/// The process of entry `i` of a request list.
pub open spec fn request_pid(list: Seq<u8>, i: int) -> i32 {
    bytes::signed32(bytes::uint_value(true, list.subrange(4 + 8 * i, 8 + 8 * i)) as u32)
}

/// Where to write this process's entry and what the count becomes, unless
/// the list is full: the offset of the entry, the entry and the new count.
pub fn add_request(count: u32, pid: i32) -> (r: Option<(u64, Vec<u8>, Vec<u8>)>)
    ensures
        if count >= MAX_REQUESTS {
            r is None
        } else {
            r matches Some((at, entry, head)) && at == 4 + 8 * count && entry@ == request_entry(
                pid,
            ) && head@ == aipsio::u32_bytes(true, (count + 1) as u32)
        },
{
    if count >= MAX_REQUESTS {
        return None;
    }
    let mut entry: Vec<u8> = Vec::new();
    push_uint(&mut entry, true, to_pattern32(pid) as u64, 4);
    push_uint(&mut entry, true, to_pattern32(0) as u64, 4);
    let mut head: Vec<u8> = Vec::new();
    push_uint(&mut head, true, (count + 1) as u64, 4);
    assert(entry@ =~= request_entry(pid));
    assert(head@ =~= aipsio::u32_bytes(true, (count + 1) as u32));
    Some((4 + 8 * count as u64, entry, head))
}

/// The processes in a request list of `count` entries.
pub fn request_pids(list: &[u8], count: u32) -> (r: Vec<i32>)
    requires
        4 + 8 * count <= list@.len(),
    ensures
        r@ == Seq::new(count as nat, |i: int| request_pid(list@, i)),
{
    let len: usize = list.len();
    let mut out: Vec<i32> = Vec::new();
    let mut i: u32 = 0;
    while i < count
        invariant
            i <= count,
            len == list@.len(),
            4 + 8 * count <= len,
            out@.len() == i,
            forall|k: int| 0 <= k < i ==> out@[k] == request_pid(list@, k),
        decreases count - i,
    {
        let at: usize = 4 + 8 * i as usize;
        proof {
            bytes::lemma_spans();
        }
        out.push(
            to_signed32(uint_from(true, vstd::slice::slice_subrange(list, at, at + 4)) as u32),
        );
        i = i + 1;
    }
    assert(out@ =~= Seq::new(count as nat, |i: int| request_pid(list@, i)));
    out
}

/// Whether entry `i` stays when process `own` leaves the list: it does
/// unless it is the process's own or that of a dead process.
pub open spec fn stays(list: Seq<u8>, own: i32, dead: Seq<bool>, i: int) -> bool {
    !dead[i] && request_pid(list, i) != own
}

/// The entries that stay, among the first `n`.
pub open spec fn kept(list: Seq<u8>, own: i32, dead: Seq<bool>, n: nat) -> Seq<u8>
    decreases n,
{
    if n == 0 {
        Seq::empty()
    } else {
        let before = kept(list, own, dead, (n - 1) as nat);
        if stays(list, own, dead, n - 1) {
            before + list.subrange(4 + 8 * (n - 1), 12 + 8 * (n - 1))
        } else {
            before
        }
    }
}

/// How many entries stay, among the first `n`.
pub open spec fn kept_count(list: Seq<u8>, own: i32, dead: Seq<bool>, n: nat) -> nat
    decreases n,
{
    if n == 0 {
        0
    } else {
        kept_count(list, own, dead, (n - 1) as nat) + if stays(list, own, dead, n - 1) {
            1nat
        } else {
            0nat
        }
    }
}

/// The request list without process `own` and the dead processes.
pub fn remove_request(list: &[u8], count: u32, own: i32, dead: &[bool]) -> (r: Vec<u8>)
    requires
        4 + 8 * count <= list@.len(),
        dead@.len() == count,
    ensures
        r@ == aipsio::u32_bytes(true, kept_count(list@, own, dead@, count as nat) as u32) + kept(
            list@,
            own,
            dead@,
            count as nat,
        ),
        kept_count(list@, own, dead@, count as nat) <= count,
{
    let len: usize = list.len();
    let mut entries: Vec<u8> = Vec::new();
    let mut n: u32 = 0;
    let mut i: u32 = 0;
    while i < count
        invariant
            i <= count,
            len == list@.len(),
            4 + 8 * count <= len,
            dead@.len() == count,
            n <= i,
            n == kept_count(list@, own, dead@, i as nat),
            entries@ == kept(list@, own, dead@, i as nat),
        decreases count - i,
    {
        let at: usize = 4 + 8 * i as usize;
        proof {
            bytes::lemma_spans();
        }
        let pid: i32 = to_signed32(
            uint_from(true, vstd::slice::slice_subrange(list, at, at + 4)) as u32,
        );
        if !dead[i as usize] && pid != own {
            let ghost before = entries@;
            let e = vstd::slice::slice_subrange(list, at, at + 8);
            entries.extend_from_slice(e);
            assert(entries@ =~= before + e@);
            n = n + 1;
        }
        i = i + 1;
    }
    let mut out: Vec<u8> = Vec::new();
    push_uint(&mut out, true, n as u64, 4);
    let ghost head = out@;
    out.extend_from_slice(entries.as_slice());
    proof {
        assert(head =~= aipsio::u32_bytes(true, n));
        assert(out@ =~= head + entries@);
    }
    out
}

/// What stays of a request list is a request list of as many entries as
/// stay, without the leaving process.
pub proof fn law_request_removed(list: Seq<u8>, own: i32, dead: Seq<bool>, n: nat, i: int)
    requires
        4 + 8 * n <= list.len(),
        dead.len() == n,
        0 <= i < kept_count(list, own, dead, n),
    ensures
        kept(list, own, dead, n).len() == 8 * kept_count(list, own, dead, n),
        bytes::signed32(
            bytes::uint_value(true, kept(list, own, dead, n).subrange(8 * i, 8 * i + 4)) as u32,
        ) != own,
{
    lemma_kept_len(list, own, dead, n);
    lemma_kept_foreign(list, own, dead, n, i);
}

proof fn lemma_kept_len(list: Seq<u8>, own: i32, dead: Seq<bool>, n: nat)
    requires
        4 + 8 * n <= list.len(),
    ensures
        kept(list, own, dead, n).len() == 8 * kept_count(list, own, dead, n),
    decreases n,
{
    if n > 0 {
        lemma_kept_len(list, own, dead, (n - 1) as nat);
    }
}

proof fn lemma_kept_foreign(list: Seq<u8>, own: i32, dead: Seq<bool>, n: nat, i: int)
    requires
        4 + 8 * n <= list.len(),
        0 <= i < kept_count(list, own, dead, n),
    ensures
        bytes::signed32(
            bytes::uint_value(true, kept(list, own, dead, n).subrange(8 * i, 8 * i + 4)) as u32,
        ) != own,
    decreases n,
{
    if n > 0 {
        let m = (n - 1) as nat;
        let before = kept(list, own, dead, m);
        let all = kept(list, own, dead, n);
        lemma_kept_len(list, own, dead, m);
        if i < kept_count(list, own, dead, m) {
            lemma_kept_foreign(list, own, dead, m, i);
            assert(all.subrange(8 * i, 8 * i + 4) =~= before.subrange(8 * i, 8 * i + 4));
        } else {
            let at = 4 + 8 * m as int;
            assert(all.subrange(8 * i, 8 * i + 4) =~= list.subrange(at, at + 4));
        }
    }
}

/// A process whose entry is written behind the others of a request list is the
/// last one of it, and the others stay.
pub proof fn law_request_added(list: Seq<u8>, count: u32, pid: i32, i: int)
    requires
        4 + 8 * count <= list.len(),
    ensures
        ({
            let at = 4 + 8 * count;
            let rest = if at + 8 < list.len() {
                list.subrange(at + 8, list.len() as int)
            } else {
                Seq::empty()
            };
            let after = list.subrange(0, at) + request_entry(pid) + rest;
            &&& request_entry(pid).len() == 8
            &&& request_pid(after, count as int) == pid
            &&& 0 <= i < count ==> request_pid(after, i) == request_pid(list, i)
        }),
{
    let at = 4 + 8 * count;
    let rest = if at + 8 < list.len() {
        list.subrange(at + 8, list.len() as int)
    } else {
        Seq::empty()
    };
    let front = aipsio::i32_bytes(true, pid);
    let after = list.subrange(0, at) + request_entry(pid) + rest;
    let v = bytes::pattern32(pid) as nat;
    bytes::lemma_spans();
    bytes::lemma_uint_bytes_len(true, v, 4);
    bytes::lemma_uint_bytes_len(true, bytes::pattern32(0) as nat, 4);
    bytes::law_uint_round_trip(true, v, 4);
    bytes::law_twos_complement(0, pid, 0, 0, 0, 0);
    assert(after.subrange(at, at + 4) =~= front);
    if 0 <= i < count {
        assert(after.subrange(4 + 8 * i, 8 + 8 * i) =~= list.subrange(4 + 8 * i, 8 + 8 * i));
    }
}

} // verus!
