use vstd::prelude::*;

use crate::read::Read;
use crate::records::ResultsApi;
use crate::store::{has_read_id, is_marking_of};

verus! {

broadcast use vstd::seq_lib::group_seq_properties;

/// The most reads sent in one request.
pub const UPLOAD_CHUNK_SIZE: usize = 50;

/// Where the uploader stands.
#[derive(Debug, Clone, Copy, PartialEq, Eq, Structural)]
pub enum Status {
    Running,
    Stopping,
    Stopped,
    Unknown,
}

/// The uploader's state: its status and its own keep-alive flag. The worker
/// that sends the reads asks it what to do and reports what happened.
pub struct Uploader {
    pub status: Status,
    pub keepalive: bool,
}

impl Uploader {
    pub fn new() -> (u: Uploader)
        ensures
            u.status == Status::Stopped,
            !u.keepalive,
    {
        Uploader { status: Status::Stopped, keepalive: false }
    }

    pub fn status(&self) -> (s: Status)
        ensures
            s == self.status,
    {
        self.status
    }

    pub fn running(&self) -> (r: bool)
        ensures
            r == (self.status == Status::Running),
    {
        self.status == Status::Running
    }

    /// Asks the worker to stop at its next check.
    pub fn stop(&mut self)
        ensures
            final(self).status == Status::Stopping,
            !final(self).keepalive,
    {
        self.keepalive = false;
        self.status = Status::Stopping;
    }

    /// Starts a run: refused, changing nothing, when one is already running.
    pub fn begin(&mut self) -> (started: bool)
        ensures
            started == (old(self).status != Status::Running),
            started ==> final(self).status == Status::Running && final(self).keepalive,
            !started ==> *final(self) == *old(self),
    {
        if self.status == Status::Running {
            return false;
        }
        self.status = Status::Running;
        self.keepalive = true;
        true
    }

    /// Whether the worker goes on with another cycle: only while both its own
    /// flag and the process-wide one are up.
    pub fn keep_going(&self, server_keepalive: bool) -> (r: bool)
        ensures
            r == (self.keepalive && server_keepalive),
    {
        self.keepalive && server_keepalive
    }

    /// Ends a run.
    pub fn finish(&mut self)
        ensures
            final(self).status == Status::Stopped,
            final(self).keepalive == old(self).keepalive,
    {
        self.status = Status::Stopped;
    }
}

/// The position of the first service that reads are uploaded to.
pub fn find_remote_api(apis: &Vec<ResultsApi>) -> (r: Option<usize>)
    ensures
        match r {
            Some(i) => i < apis@.len() && apis@[i as int].kind.spec_is_remote() && forall|k: int|
                0 <= k < i ==> !(#[trigger] apis@[k]).kind.spec_is_remote(),
            None => forall|k: int| 0 <= k < apis@.len() ==> !(#[trigger] apis@[k]).kind.spec_is_remote(),
        },
{
    let mut i: usize = 0;
    while i < apis.len()
        invariant
            i <= apis@.len(),
            forall|k: int| 0 <= k < i ==> !(#[trigger] apis@[k]).kind.spec_is_remote(),
        decreases apis@.len() - i,
    {
        if apis[i].kind.is_remote() {
            return Some(i);
        }
        i = i + 1;
    }
    None
}

/// The windows `[start, end)` that split `n` reads into chunks of at most
/// `UPLOAD_CHUNK_SIZE`, in order.
pub fn chunk_bounds(n: usize) -> (v: Vec<(usize, usize)>)
    ensures
        v@.len() == (n + UPLOAD_CHUNK_SIZE - 1) / UPLOAD_CHUNK_SIZE as int,
        forall|k: int|
            0 <= k < v@.len() ==> (#[trigger] v@[k]).0 == k * UPLOAD_CHUNK_SIZE && v@[k].1 == if (k
                + 1) * UPLOAD_CHUNK_SIZE <= n {
                (k + 1) * UPLOAD_CHUNK_SIZE
            } else {
                n as int
            },
{
    let mut v: Vec<(usize, usize)> = Vec::new();
    let mut start: usize = 0;
    while start < n
        invariant
            start <= n,
            start <= v@.len() * UPLOAD_CHUNK_SIZE,
            start < n ==> start == v@.len() * UPLOAD_CHUNK_SIZE,
            v@.len() > 0 ==> (v@.len() - 1) * UPLOAD_CHUNK_SIZE < n,
            forall|k: int|
                0 <= k < v@.len() ==> (#[trigger] v@[k]).0 == k * UPLOAD_CHUNK_SIZE && v@[k].1 == if (k
                    + 1) * UPLOAD_CHUNK_SIZE <= n {
                    (k + 1) * UPLOAD_CHUNK_SIZE
                } else {
                    n as int
                },
        decreases n - start,
    {
        let end = if n - start >= UPLOAD_CHUNK_SIZE { start + UPLOAD_CHUNK_SIZE } else { n };
        v.push((start, end));
        start = end;
    }
    assert(v@.len() == (n + UPLOAD_CHUNK_SIZE - 1) / UPLOAD_CHUNK_SIZE as int) by {
        assert(v@.len() * 50 >= n);
        assert(v@.len() == 0 || (v@.len() - 1) * 50 < n);
        assert(v@.len() == (n + 49) / 50) by (nonlinear_arith)
            requires
                v@.len() * 50 >= n,
                v@.len() == 0 || (v@.len() - 1) * 50 < n,
                n >= 0,
        ;
    }
    v
}

/// The reads of `reads[start..end)`.
pub fn chunk_of(reads: &Vec<Read>, start: usize, end: usize) -> (c: Vec<Read>)
    requires
        start <= end <= reads@.len(),
    ensures
        c@ == reads@.subrange(start as int, end as int),
{
    let mut c: Vec<Read> = Vec::new();
    let mut i: usize = start;
    while i < end
        invariant
            start <= i <= end,
            end <= reads@.len(),
            c@ == reads@.subrange(start as int, i as int),
        decreases end - i,
    {
        c.push(reads[i].duplicate());
        assert(c@ =~= reads@.subrange(start as int, i + 1));
        i = i + 1;
    }
    c
}

/// The reads to mark uploaded (with `MemStore::mark_uploaded`, which takes
/// only their identifiers) once the service reported `accepted` reads of
/// `chunk`: when it took the whole chunk, every read of it; otherwise none, and
/// the chunk is sent again later.
pub fn uploaded_marks(chunk: &Vec<Read>, accepted: usize) -> (m: Vec<Read>)
    ensures
        accepted == chunk@.len() ==> m@ == chunk@.map_values(|r: Read| r.marked_uploaded()),
        accepted != chunk@.len() ==> m@.len() == 0,
{
    let mut m: Vec<Read> = Vec::new();
    if accepted != chunk.len() {
        return m;
    }
    let mut i: usize = 0;
    while i < chunk.len()
        invariant
            i <= chunk@.len(),
            m@ == chunk@.take(i as int).map_values(|r: Read| r.marked_uploaded()),
        decreases chunk@.len() - i,
    {
        let mut r = chunk[i].duplicate();
        r.uploaded = true;
        m.push(r);
        assert(m@ =~= chunk@.take(i + 1).map_values(|r: Read| r.marked_uploaded()));
        i = i + 1;
    }
    assert(chunk@.take(i as int) =~= chunk@);
    m
}

/// After the service reports that it accepted `accepted` reads of `chunk`,
/// and the reads `uploaded_marks` gives for that report are stored with
/// `MemStore::mark_uploaded`, each stored read that is one of the first
/// `accepted` reads of the chunk is uploaded, with its status as it was in
/// the store. This holds where the service accepted the whole chunk, the one
/// report on which reads are marked.
pub proof fn lemma_upload_marks(
    chunk: Seq<Read>,
    accepted: int,
    marks: Seq<Read>,
    before: Seq<Read>,
    after: Seq<Read>,
)
    requires
        accepted == chunk.len(),
        marks == chunk.map_values(|r: Read| r.marked_uploaded()),
        is_marking_of(before, marks, after),
    ensures
        forall|k: int, i: int|
            0 <= k < after.len() && 0 <= i < accepted && #[trigger] before[k].id == #[trigger] chunk[i].id
                ==> after[k].uploaded && after[k].status == before[k].status && after[k].key() == before[k].key(),
{
    assert forall|k: int, i: int|
        0 <= k < after.len() && 0 <= i < accepted && #[trigger] before[k].id == #[trigger] chunk[i].id
            implies after[k].uploaded && after[k].status == before[k].status && after[k].key()
            == before[k].key() by {
        assert(marks[i].id == before[k].id);
        assert(has_read_id(marks, before[k].id));
        assert(after[k] == before[k].marked_uploaded());
    }
}

} // verus!
