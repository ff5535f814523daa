use crate::error::RepositoryError;
use vstd::prelude::*;

verus! {

/// Seconds after which a lock counts as stale.
pub const STALE_AFTER: u64 = 86400;

/// One lock file: who holds the lock, since when, and whether it excludes all others.
#[derive(Clone, Copy, Debug, PartialEq, Eq, Structural)]
pub struct LockFile {
    /// A number that stands for the holder's host.
    pub host: u64,
    /// The holder's process id.
    pub pid: u32,
    /// Seconds since the epoch at which the lock was taken.
    pub timestamp: u64,
    pub exclusive: bool,
}

/// The handle of a lock that was taken: it names the lock file to remove on release.
#[derive(Clone, Copy, Debug, PartialEq, Eq, Structural)]
pub struct LockHandle {
    pub file: LockFile,
}

/// Whether `file` stands in the way of a new lock: an exclusive lock excludes every other
/// lock, a shared lock only exclusive ones.
pub open spec fn conflicts(file: LockFile, exclusive: bool) -> bool {
    exclusive || file.exclusive
}

/// Whether `file` is stale at time `now`.
pub open spec fn stale(file: LockFile, now: u64) -> bool {
    now > file.timestamp && now - file.timestamp > STALE_AFTER
}

/// Whether a lock in `files` stands in the way of a new lock.
pub open spec fn blocked(files: Seq<LockFile>, exclusive: bool) -> bool {
    exists|k: int| 0 <= k < files.len() && conflicts(#[trigger] files[k], exclusive)
}

/// Whether a lock that is not stale stands in the way of a new lock.
pub open spec fn blocked_by_live(files: Seq<LockFile>, exclusive: bool, now: u64) -> bool {
    exists|k: int|
        0 <= k < files.len() && conflicts(#[trigger] files[k], exclusive) && !stale(files[k], now)
}

/// The files of `files` that are not stale at `now`, in their order.
pub open spec fn live_files(files: Seq<LockFile>, now: u64) -> Seq<LockFile> {
    files.filter(|f: LockFile| !stale(f, now))
}

/// Whether `k` is the first place at which `files` holds `file`.
pub open spec fn is_first(files: Seq<LockFile>, file: LockFile, k: int) -> bool {
    &&& 0 <= k < files.len()
    &&& files[k] == file
    &&& forall|j: int| 0 <= j < k ==> files[j] != file
}

/// Exclusion: while an exclusive lock is held no lock can be taken, and while any lock is
/// held no exclusive lock can be taken.
pub proof fn lemma_exclusion(files: Seq<LockFile>, held: LockFile, exclusive: bool)
    requires
        files.contains(held),
        held.exclusive || exclusive,
    ensures
        blocked(files, exclusive),
{
    let k = choose|k: int| 0 <= k < files.len() && files[k] == held;
    assert(conflicts(files[k], exclusive));
}

/// The lock folder: the lock files on the remote, and who this process is.
pub struct LockFolder {
    files: Vec<LockFile>,
    host: u64,
    pid: u32,
}

impl View for LockFolder {
    type V = Seq<LockFile>;

    closed spec fn view(&self) -> Seq<LockFile> {
        self.files@
    }
}

impl LockFolder {
    /// The number that stands for this process's host.
    pub closed spec fn host(&self) -> u64 {
        self.host
    }

    /// The id of this process.
    pub closed spec fn pid(&self) -> u32 {
        self.pid
    }

    /// The folder with the lock files `files`, seen by process `pid` on host `host`.
    pub fn new(files: Vec<LockFile>, host: u64, pid: u32) -> (folder: LockFolder)
        ensures
            folder@ == files@,
            folder.host() == host,
            folder.pid() == pid,
    {
        LockFolder { files, host, pid }
    }

    /// The lock files.
    pub fn files(&self) -> (out: Vec<LockFile>)
        ensures
            out@ == self@,
    {
        let mut out: Vec<LockFile> = Vec::new();
        let mut k: usize = 0;
        while k < self.files.len()
            invariant
                k <= self.files@.len(),
                out@ == self.files@.subrange(0, k as int),
            decreases self.files@.len() - k,
        {
            out.push(self.files[k]);
            assert(out@ =~= self.files@.subrange(0, k + 1));
            k += 1;
        }
        assert(self.files@.subrange(0, k as int) =~= self.files@);
        out
    }

    /// Takes a lock at time `now`. It is refused with `LockBusy` if a lock that is not stale
    /// stands in the way, and with `LockStale` if only stale locks do: those are never
    /// broken silently.
    pub fn lock(&mut self, exclusive: bool, now: u64) -> (r: Result<LockHandle, RepositoryError>)
        ensures
            match r {
                Ok(handle) => {
                    &&& !blocked(old(self)@, exclusive)
                    &&& handle.file == LockFile {
                        host: old(self).host(),
                        pid: old(self).pid(),
                        timestamp: now,
                        exclusive,
                    }
                    &&& final(self)@ == old(self)@.push(handle.file)
                },
                Err(e) => {
                    &&& blocked(old(self)@, exclusive)
                    &&& final(self)@ == old(self)@
                    &&& e == (if blocked_by_live(old(self)@, exclusive, now) {
                        RepositoryError::LockBusy
                    } else {
                        RepositoryError::LockStale
                    })
                },
            },
            final(self).host() == old(self).host(),
            final(self).pid() == old(self).pid(),
    {
        let mut is_blocked = false;
        let mut k: usize = 0;
        while k < self.files.len()
            invariant
                k <= self.files@.len(),
                self.files == old(self).files,
                self.host == old(self).host,
                self.pid == old(self).pid,
                is_blocked == blocked(self.files@.subrange(0, k as int), exclusive),
                !blocked_by_live(self.files@.subrange(0, k as int), exclusive, now),
            decreases self.files@.len() - k,
        {
            let f = self.files[k];
            let ghost prefix = self.files@.subrange(0, k as int);
            let ghost next = self.files@.subrange(0, k + 1);
            proof {
                assert(next[k as int] == f);
                assert forall|j: int| 0 <= j < k implies next[j] == prefix[j] by {}
                if blocked(prefix, exclusive) {
                    let w = choose|w: int|
                        0 <= w < prefix.len() && conflicts(#[trigger] prefix[w], exclusive);
                    assert(conflicts(next[w], exclusive));
                }
                if blocked(next, exclusive) && !conflicts(f, exclusive) {
                    let w = choose|w: int|
                        0 <= w < next.len() && conflicts(#[trigger] next[w], exclusive);
                    assert(conflicts(prefix[w], exclusive));
                }
                if blocked_by_live(next, exclusive, now) && (!conflicts(f, exclusive) || stale(
                    f,
                    now,
                )) {
                    let w = choose|w: int|
                        0 <= w < next.len() && conflicts(#[trigger] next[w], exclusive) && !stale(
                            next[w],
                            now,
                        );
                    assert(conflicts(prefix[w], exclusive) && !stale(prefix[w], now));
                }
            }
            if exclusive || f.exclusive {
                is_blocked = true;
                if !(now > f.timestamp && now - f.timestamp > STALE_AFTER) {
                    proof {
                        assert(conflicts(self.files@[k as int], exclusive) && !stale(
                            self.files@[k as int],
                            now,
                        ));
                    }
                    return Err(RepositoryError::LockBusy);
                }
            }
            k += 1;
        }
        assert(self.files@.subrange(0, k as int) =~= self.files@);
        if is_blocked {
            return Err(RepositoryError::LockStale);
        }
        let file = LockFile { host: self.host, pid: self.pid, timestamp: now, exclusive };
        self.files.push(file);
        Ok(LockHandle { file })
    }

    /// Gives a lock back: the first lock file that equals the handle's is removed. Returns
    /// whether there was one.
    pub fn unlock(&mut self, handle: LockHandle) -> (was: bool)
        ensures
            was == old(self)@.contains(handle.file),
            was ==> exists|k: int|
                0 <= k < old(self)@.len() && is_first(old(self)@, handle.file, k) && final(self)@
                    == #[trigger] old(self)@.remove(k),
            !was ==> final(self)@ == old(self)@,
            final(self).host() == old(self).host(),
            final(self).pid() == old(self).pid(),
    {
        let mut k: usize = 0;
        while k < self.files.len()
            invariant
                k <= self.files@.len(),
                *self == *old(self),
                forall|j: int| 0 <= j < k ==> self.files@[j] != handle.file,
            decreases self.files@.len() - k,
        {
            if self.files[k] == handle.file {
                assert(self.files@.contains(handle.file));
                assert(is_first(self.files@, handle.file, k as int));
                self.files.remove(k);
                assert(self.files@ == old(self).files@.remove(k as int));
                return true;
            }
            k += 1;
        }
        false
    }

    /// Breaks the stale locks, if the operator has confirmed that. Without confirmation
    /// nothing changes. Returns the number of locks that were removed.
    pub fn break_stale(&mut self, now: u64, confirmed: bool) -> (removed: usize)
        ensures
            !confirmed ==> final(self)@ == old(self)@ && removed == 0,
            confirmed ==> final(self)@ == live_files(old(self)@, now) && removed == old(self)@.len()
                - final(self)@.len(),
            final(self).host() == old(self).host(),
            final(self).pid() == old(self).pid(),
    {
        if !confirmed {
            return 0;
        }
        let mut kept: Vec<LockFile> = Vec::new();
        let mut k: usize = 0;
        let ghost keep = |f: LockFile| !stale(f, now);
        while k < self.files.len()
            invariant
                k <= self.files@.len(),
                *self == *old(self),
                keep == (|f: LockFile| !stale(f, now)),
                kept@ == self.files@.subrange(0, k as int).filter(keep),
                kept@.len() <= k,
            decreases self.files@.len() - k,
        {
            let f = self.files[k];
            proof {
                let next = self.files@.subrange(0, k + 1);
                assert(next.drop_last() =~= self.files@.subrange(0, k as int));
                reveal(Seq::filter);
            }
            if !(now > f.timestamp && now - f.timestamp > STALE_AFTER) {
                kept.push(f);
            }
            k += 1;
        }
        assert(self.files@.subrange(0, k as int) =~= self.files@);
        let removed = self.files.len() - kept.len();
        self.files = kept;
        removed
    }
}

} // verus!
