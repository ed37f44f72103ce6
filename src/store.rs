use vstd::prelude::*;

use crate::participant::Participant;
use crate::processor::Sighting;
use crate::read::{Read, ReadStatus};
use crate::records::{same_text, Reader, ReaderKind, ResultsApi};
use crate::setting::Setting;

verus! {

broadcast use vstd::seq_lib::group_seq_properties;

/// Why a store operation failed.
#[derive(Debug, Clone, PartialEq, Eq)]
pub enum DBError {
    /// The queried key is absent.
    NotFound,
    ConnectionError(String),
    DataInsertionError(String),
    DataRetrievalError(String),
    DataDeletionError(String),
    /// No migration leads from the stored schema version to the current one.
    InvalidVersion(String),
    /// The stored schema is newer than this program knows.
    DatabaseTooNew(String),
    MutexError(String),
}

/// A stored sighting: the participant and read it joins, by identifier.
#[derive(Debug, Clone, Copy, PartialEq, Eq, Structural)]
pub struct SightingRow {
    pub participant_id: u64,
    pub read_id: u64,
}

/// The portal's tables, with the unique keys and collision rules of its schema.
/// Every row gets an identifier from `next_id`.
pub struct MemStore {
    pub settings: Vec<Setting>,
    pub readers: Vec<Reader>,
    pub apis: Vec<ResultsApi>,
    pub participants: Vec<Participant>,
    pub reads: Vec<Read>,
    pub sightings: Vec<SightingRow>,
    pub next_id: u64,
}

/// The schema version this program writes.
pub const DATABASE_VERSION: u16 = 1;

/// What bringing a store's schema up to date takes.
#[derive(Debug, Clone, Copy, PartialEq, Eq, Structural)]
pub enum Migration {
    UpToDate,
    CreateTables,
}

/// How to bring a schema at version `stored` to version `current`: only
/// forward, and only from a version there is a path from.
pub fn plan_migration(stored: u16, current: u16) -> (r: Result<Migration, DBError>)
    ensures
        stored == current ==> r == Ok::<Migration, DBError>(Migration::UpToDate),
        stored < current && stored == 1 ==> r == Ok::<Migration, DBError>(Migration::CreateTables),
        stored < current && stored != 1 ==> r matches Err(DBError::InvalidVersion(_)),
        stored > current ==> r matches Err(DBError::DatabaseTooNew(_)),
{
    if stored < current {
        if stored == 1 {
            Ok(Migration::CreateTables)
        } else {
            Err(DBError::InvalidVersion("invalid version specified for upgrade".to_owned()))
        }
    } else if current < stored {
        Err(DBError::DatabaseTooNew("database version is newer than our known version".to_owned()))
    } else {
        Ok(Migration::UpToDate)
    }
}

/// The schema version that a version row's text reads as.
pub open spec fn version_number(version: Option<&str>) -> Option<u16> {
    match version {
        Some(t) => match crate::text::u64_value(t@) {
            Some(v) => if v <= u16::MAX {
                Some(v as u16)
            } else {
                None
            },
            None => None,
        },
        None => None,
    }
}

/// How to set a store up, given the text of its stored schema version row, if
/// any: a store without one gets its tables; one whose version does not read
/// as a number is refused.
pub fn plan_setup(version: Option<&str>) -> (r: Result<Migration, DBError>)
    ensures
        version is None ==> r == Ok::<Migration, DBError>(Migration::CreateTables),
        version is Some && version_number(version) is None ==> (r matches Err(
            DBError::DataRetrievalError(_),
        )),
        version_number(version) matches Some(v) ==> {
            &&& v == DATABASE_VERSION ==> r == Ok::<Migration, DBError>(Migration::UpToDate)
            &&& v < DATABASE_VERSION && v == 1 ==> r == Ok::<Migration, DBError>(Migration::CreateTables)
            &&& v < DATABASE_VERSION && v != 1 ==> (r matches Err(DBError::InvalidVersion(_)))
            &&& v > DATABASE_VERSION ==> (r matches Err(DBError::DatabaseTooNew(_)))
        },
{
    match version {
        None => Ok(Migration::CreateTables),
        Some(t) => match crate::text::parse_u64(t) {
            Some(v) => {
                if v <= u16::MAX as u64 {
                    plan_migration(v as u16, DATABASE_VERSION)
                } else {
                    Err(DBError::DataRetrievalError("error parsing version value".to_owned()))
                }
            },
            None => Err(DBError::DataRetrievalError("error parsing version value".to_owned())),
        },
    }
}

/// Whether some read of `s` has `key`.
pub open spec fn has_read_key(s: Seq<Read>, key: (Seq<char>, u64, u32)) -> bool {
    exists|i: int| 0 <= i < s.len() && (#[trigger] s[i]).key() == key
}

/// The reads of `batch` that a store holding `stored` takes in: each read whose
/// key is neither stored nor taken earlier in the batch.
pub open spec fn fresh_reads(stored: Seq<Read>, batch: Seq<Read>) -> Seq<Read>
    decreases batch.len(),
{
    if batch.len() == 0 {
        Seq::empty()
    } else {
        let f = fresh_reads(stored, batch.drop_last());
        let r = batch.last();
        if has_read_key(stored, r.key()) || has_read_key(f, r.key()) {
            f
        } else {
            f.push(r)
        }
    }
}

/// `rows` with identifiers `base`, `base + 1`, ... given in order.
pub open spec fn numbered(rows: Seq<Read>, base: u64) -> Seq<Read> {
    Seq::new(rows.len(), |k: int| Read { id: (base + k) as u64, ..rows[k] })
}

/// What a batch of status updates does to one stored read: the last update
/// with its identifier sets its status, and `uploaded` is never cleared.
pub open spec fn updated(r: Read, ups: Seq<Read>) -> Read
    decreases ups.len(),
{
    if ups.len() == 0 {
        r
    } else {
        let p = updated(r, ups.drop_last());
        let u = ups.last();
        if u.id == r.id {
            Read { status: u.status, uploaded: p.uploaded || u.uploaded, ..p }
        } else {
            p
        }
    }
}

pub(crate) proof fn lemma_updated_keeps(r: Read, ups: Seq<Read>)
    ensures
        updated(r, ups).id == r.id,
        updated(r, ups).key() == r.key(),
        updated(r, ups).chip == r.chip,
        updated(r, ups).ident_type == r.ident_type,
        (forall|i: int| 0 <= i < ups.len() ==> (#[trigger] ups[i]).id != r.id) ==> updated(r, ups) == r,
    decreases ups.len(),
{
    if ups.len() > 0 {
        lemma_updated_keeps(r, ups.drop_last());
        if forall|i: int| 0 <= i < ups.len() ==> (#[trigger] ups[i]).id != r.id {
            assert forall|i: int| 0 <= i < ups.drop_last().len() implies (#[trigger] ups.drop_last()[i]).id != r.id by {
                assert(ups.drop_last()[i] == ups[i]);
            }
            assert(ups[ups.len() - 1].id != r.id);
        }
    }
}

/// Whether some read of `s` has identifier `id`.
pub open spec fn has_read_id(s: Seq<Read>, id: u64) -> bool {
    exists|i: int| 0 <= i < s.len() && (#[trigger] s[i]).id == id
}

/// `new` is the readers table `old` after saving `r` under identifier `id`.
pub open spec fn reader_saved(old: Seq<Reader>, id: u64, r: Reader, new: Seq<Reader>) -> bool {
    new == old.filter(|x: Reader| x.nickname@ != r.nickname@).push(Reader { id, ..r })
}

/// `new` is the services table `old` after saving `a` under identifier `id`.
pub open spec fn api_saved(old: Seq<ResultsApi>, id: u64, a: ResultsApi, new: Seq<ResultsApi>) -> bool {
    new == old.filter(|x: ResultsApi| x.key() != a.key()).push(ResultsApi { id, ..a })
}

/// `new_reads` is `old_reads` with each read named, by identifier, in `marks`
/// marked uploaded and nothing else changed.
pub open spec fn is_marking_of(old_reads: Seq<Read>, marks: Seq<Read>, new_reads: Seq<Read>) -> bool {
    &&& new_reads.len() == old_reads.len()
    &&& forall|k: int|
        0 <= k < new_reads.len() ==> #[trigger] new_reads[k] == (if has_read_id(marks, old_reads[k].id) {
            old_reads[k].marked_uploaded()
        } else {
            old_reads[k]
        })
}

/// `new_reads`, `new_next` and the count `n` are what saving `batch` into reads
/// `old_reads`, with identifiers from `old_next`, leaves and returns.
pub open spec fn is_save_of(
    old_reads: Seq<Read>,
    old_next: u64,
    batch: Seq<Read>,
    new_reads: Seq<Read>,
    new_next: u64,
    n: int,
) -> bool {
    let f = fresh_reads(old_reads, batch);
    &&& n == f.len()
    &&& new_reads == old_reads + numbered(f, old_next)
    &&& new_next == old_next + n
}

pub open spec fn ids_ascending_reads(s: Seq<Read>, bound: u64) -> bool {
    &&& forall|i: int, j: int| 0 <= i < j < s.len() ==> s[i].id < s[j].id
    &&& forall|i: int| 0 <= i < s.len() ==> (#[trigger] s[i]).id < bound
}

pub open spec fn keys_unique_reads(s: Seq<Read>) -> bool {
    forall|i: int, j: int| 0 <= i < j < s.len() ==> s[i].key() != s[j].key()
}

/// Whether two participants collide on a unique key of the participants table:
/// the chip, or `(bib, first, last, distance)`.
pub open spec fn collides(a: Participant, b: Participant) -> bool {
    a.chip@ == b.chip@ || a.entry_key() == b.entry_key()
}

/// The participants table after adding `batch` to `table`, identifiers counted
/// from `base`: each added participant first removes the rows it collides with.
pub open spec fn after_adding(table: Seq<Participant>, batch: Seq<Participant>, base: u64) -> Seq<Participant>
    decreases batch.len(),
{
    if batch.len() == 0 {
        table
    } else {
        let t = after_adding(table, batch.drop_last(), base);
        let p = batch.last();
        t.filter(|x: Participant| !collides(x, p)).push(
            Participant { id: (base + batch.len() - 1) as u64, ..p },
        )
    }
}

/// Each setting as its `(name, value)` pair.
pub open spec fn settings_view(s: Seq<Setting>) -> Seq<(Seq<char>, Seq<char>)> {
    s.map_values(|x: Setting| x@)
}

/// The value pair of the last setting named `name`.
pub open spec fn setting_named(s: Seq<(Seq<char>, Seq<char>)>, name: Seq<char>) -> Option<(Seq<char>, Seq<char>)>
    decreases s.len(),
{
    if s.len() == 0 {
        None
    } else if s.last().0 == name {
        Some(s.last())
    } else {
        setting_named(s.drop_last(), name)
    }
}

pub open spec fn is_useful(r: Read) -> bool {
    r.status == ReadStatus::Unused || r.status == ReadStatus::Used
}

impl MemStore {
    /// An empty store; identifiers start at 1.
    pub fn new() -> (s: MemStore)
        ensures
            s.settings@.len() == 0,
            s.readers@.len() == 0,
            s.apis@.len() == 0,
            s.participants@.len() == 0,
            s.reads@.len() == 0,
            s.sightings@.len() == 0,
            s.next_id == 1,
            s.reads_wf(),
    {
        MemStore {
            settings: Vec::new(),
            readers: Vec::new(),
            apis: Vec::new(),
            participants: Vec::new(),
            reads: Vec::new(),
            sightings: Vec::new(),
            next_id: 1,
        }
    }

    /// The reads table keeps one row per `(chip, seconds, milliseconds)` and
    /// gives identifiers in ascending order.
    pub open spec fn reads_wf(&self) -> bool {
        &&& keys_unique_reads(self.reads@)
        &&& ids_ascending_reads(self.reads@, self.next_id)
    }

    /// Whether `reads_wf` holds: a check for callers that cannot prove it.
    pub fn reads_wf_holds(&self) -> (r: bool)
        ensures
            r == self.reads_wf(),
    {
        let n = self.reads.len();
        let mut i: usize = 0;
        while i < n
            invariant
                i <= n,
                n == self.reads@.len(),
                forall|a: int, b: int| 0 <= a < b < n && a < i ==> self.reads@[a].key() != self.reads@[b].key()
                    && self.reads@[a].id < self.reads@[b].id,
                forall|a: int| 0 <= a < i ==> (#[trigger] self.reads@[a]).id < self.next_id,
            decreases n - i,
        {
            if self.reads[i].id >= self.next_id {
                return false;
            }
            let mut j: usize = i + 1;
            while j < n
                invariant
                    i < n,
                    i + 1 <= j <= n,
                    n == self.reads@.len(),
                    forall|b: int| i < b < j ==> self.reads@[i as int].key() != (#[trigger] self.reads@[b]).key()
                        && self.reads@[i as int].id < self.reads@[b].id,
                decreases n - j,
            {
                if self.reads[i].same_key(&self.reads[j]) || self.reads[i].id >= self.reads[j].id {
                    return false;
                }
                j = j + 1;
            }
            i = i + 1;
        }
        true
    }

    /// Stores the reads of `batch` whose key is new, in one transaction, and
    /// returns how many it stored; a read whose key is already stored, or taken
    /// earlier in the batch, is dropped. Fails, storing nothing, when the
    /// identifiers would run out.
    pub fn save_reads(&mut self, batch: &Vec<Read>) -> (r: Result<usize, DBError>)
        requires
            old(self).reads_wf(),
        ensures
            final(self).reads_wf(),
            final(self).settings == old(self).settings,
            final(self).readers == old(self).readers,
            final(self).apis == old(self).apis,
            final(self).participants == old(self).participants,
            final(self).sightings == old(self).sightings,
            old(self).next_id as int + batch@.len() > u64::MAX ==> r is Err && final(self).reads
                == old(self).reads && final(self).next_id == old(self).next_id,
            old(self).next_id as int + batch@.len() <= u64::MAX ==> r is Ok,
            r matches Ok(n) ==> is_save_of(
                old(self).reads@,
                old(self).next_id,
                batch@,
                final(self).reads@,
                final(self).next_id,
                n as int,
            ),
    {
        if batch.len() as u64 > u64::MAX - self.next_id {
            return Err(DBError::DataInsertionError("no identifiers left for new reads".to_owned()));
        }
        let ghost stored = self.reads@;
        let base = self.next_id;
        let mut count: usize = 0;
        let mut i: usize = 0;
        while i < batch.len()
            invariant
                i <= batch@.len(),
                base as int + batch@.len() <= u64::MAX,
                count == fresh_reads(stored, batch@.take(i as int)).len(),
                count <= i,
                self.next_id == base + count,
                self.reads@ == stored + numbered(fresh_reads(stored, batch@.take(i as int)), base),
                self.reads_wf(),
                self.settings == old(self).settings,
                self.readers == old(self).readers,
                self.apis == old(self).apis,
                self.participants == old(self).participants,
                self.sightings == old(self).sightings,
                stored == old(self).reads@,
                base == old(self).next_id,
            decreases batch@.len() - i,
        {
            let ghost f = fresh_reads(stored, batch@.take(i as int));
            assert(batch@.take(i + 1).drop_last() =~= batch@.take(i as int));
            assert(batch@.take(i + 1).last() == batch@[i as int]);
            let known = self.holds_read_key(&batch[i]);
            proof {
                let nf = numbered(f, base);
                let key = batch@[i as int].key();
                if has_read_key(self.reads@, key) {
                    let j = choose|j: int| 0 <= j < self.reads@.len() && (#[trigger] self.reads@[j]).key() == key;
                    if j >= stored.len() {
                        assert(self.reads@[j] == nf[j - stored.len()]);
                        assert(f[j - stored.len()].key() == key);
                    }
                } else {
                    assert(!has_read_key(stored, key)) by {
                        if has_read_key(stored, key) {
                            let j = choose|j: int| 0 <= j < stored.len() && (#[trigger] stored[j]).key() == key;
                            assert(self.reads@[j] == stored[j]);
                        }
                    }
                    assert(!has_read_key(f, key)) by {
                        if has_read_key(f, key) {
                            let j = choose|j: int| 0 <= j < f.len() && (#[trigger] f[j]).key() == key;
                            assert(self.reads@[stored.len() + j] == nf[j]);
                        }
                    }
                }
            }
            if !known {
                let mut r = batch[i].duplicate();
                r.id = self.next_id;
                let ghost before = self.reads@;
                self.reads.push(r);
                self.next_id = self.next_id + 1;
                count = count + 1;
                proof {
                    let f2 = fresh_reads(stored, batch@.take(i + 1));
                    assert(f2 == f.push(batch@[i as int]));
                    assert(numbered(f2, base) =~= numbered(f, base).push(r));
                    assert(self.reads@ =~= stored + numbered(f2, base));
                    assert forall|a: int, b: int| 0 <= a < b < self.reads@.len() implies self.reads@[a].key()
                        != self.reads@[b].key() by {
                        if b == before.len() {
                            assert(self.reads@[a] == before[a]);
                        } else {
                            assert(self.reads@[a] == before[a]);
                            assert(self.reads@[b] == before[b]);
                        }
                    }
                    assert forall|a: int, b: int| 0 <= a < b < self.reads@.len() implies self.reads@[a].id
                        < self.reads@[b].id by {
                        assert(self.reads@[a] == before[a]);
                        if b < before.len() {
                            assert(self.reads@[b] == before[b]);
                        }
                    }
                    assert forall|a: int| 0 <= a < self.reads@.len() implies (#[trigger] self.reads@[a]).id
                        < self.next_id by {
                        if a < before.len() {
                            assert(self.reads@[a] == before[a]);
                        }
                    }
                }
            }
            i = i + 1;
        }
        assert(batch@.take(i as int) =~= batch@);
        Ok(count)
    }

    /// Whether a stored read has the key of `r`.
    fn holds_read_key(&self, r: &Read) -> (b: bool)
        ensures
            b == has_read_key(self.reads@, r.key()),
    {
        let mut i: usize = 0;
        while i < self.reads.len()
            invariant
                i <= self.reads@.len(),
                forall|j: int| 0 <= j < i ==> (#[trigger] self.reads@[j]).key() != r.key(),
            decreases self.reads@.len() - i,
        {
            if self.reads[i].same_key(r) {
                return true;
            }
            i = i + 1;
        }
        false
    }

    /// Sets the status of each stored read named, by identifier, in `updates`
    /// to the update's, and marks it uploaded where the update is; a read stays
    /// uploaded once it is.
    pub fn update_reads_status(&mut self, updates: &Vec<Read>)
        requires
            old(self).reads_wf(),
        ensures
            final(self).reads_wf(),
            final(self).reads@.len() == old(self).reads@.len(),
            forall|k: int|
                0 <= k < final(self).reads@.len() ==> #[trigger] final(self).reads@[k] == updated(
                    old(self).reads@[k],
                    updates@,
                ),
            final(self).next_id == old(self).next_id,
            final(self).settings == old(self).settings,
            final(self).readers == old(self).readers,
            final(self).apis == old(self).apis,
            final(self).participants == old(self).participants,
            final(self).sightings == old(self).sightings,
    {
        let ghost start = self.reads@;
        let mut i: usize = 0;
        while i < updates.len()
            invariant
                i <= updates@.len(),
                self.reads_wf(),
                self.reads@.len() == start.len(),
                forall|k: int|
                    0 <= k < self.reads@.len() ==> #[trigger] self.reads@[k] == updated(
                        start[k],
                        updates@.take(i as int),
                    ),
                self.next_id == old(self).next_id,
                self.settings == old(self).settings,
                self.readers == old(self).readers,
                self.apis == old(self).apis,
                self.participants == old(self).participants,
                self.sightings == old(self).sightings,
                start == old(self).reads@,
            decreases updates@.len() - i,
        {
            let u = &updates[i];
            let ghost before = self.reads@;
            assert(updates@.take(i + 1).drop_last() =~= updates@.take(i as int));
            assert(updates@.take(i + 1).last() == updates@[i as int]);
            let mut j: usize = 0;
            while j < self.reads.len()
                invariant
                    j <= self.reads@.len(),
                    self.reads@ == before,
                    forall|k: int| 0 <= k < j ==> (#[trigger] before[k]).id != u.id,
                ensures
                    j <= self.reads@.len(),
                    self.reads@ == before,
                    forall|k: int| 0 <= k < j ==> (#[trigger] before[k]).id != u.id,
                    j < self.reads@.len() ==> before[j as int].id == u.id,
                decreases self.reads@.len() - j,
            {
                if self.reads[j].id == u.id {
                    break;
                }
                j = j + 1;
            }
            if j < self.reads.len() {
                let mut r = self.reads[j].duplicate();
                r.status = u.status;
                r.uploaded = r.uploaded || u.uploaded;
                self.reads.set(j, r);
                proof {
                    assert(updates@.take(i + 1).drop_last() =~= updates@.take(i as int));
                    assert(updates@.take(i + 1).last() == updates@[i as int]);
                    assert forall|k: int| 0 <= k < self.reads@.len() implies #[trigger] self.reads@[k]
                        == updated(start[k], updates@.take(i + 1)) by {
                        lemma_updated_keeps(start[k], updates@.take(i as int));
                        assert(before[k] == updated(start[k], updates@.take(i as int)));
                        if k != j {
                            assert(self.reads@[k] == before[k]);
                            if k < j {
                                assert(before[k].id < before[j as int].id);
                            } else {
                                assert(before[j as int].id < before[k].id);
                            }
                        }
                    }
                    assert forall|a: int, b: int| 0 <= a < b < self.reads@.len() implies self.reads@[a].key()
                        != self.reads@[b].key() && self.reads@[a].id < self.reads@[b].id by {
                        assert(self.reads@[a].key() == before[a].key() && self.reads@[a].id == before[a].id);
                        assert(self.reads@[b].key() == before[b].key() && self.reads@[b].id == before[b].id);
                    }
                    assert forall|a: int| 0 <= a < self.reads@.len() implies (#[trigger] self.reads@[a]).id
                        < self.next_id by {
                        assert(self.reads@[a].id == before[a].id);
                    }
                }
            } else {
                proof {
                    assert(updates@.take(i + 1).drop_last() =~= updates@.take(i as int));
                    assert(updates@.take(i + 1).last() == updates@[i as int]);
                    assert forall|k: int| 0 <= k < self.reads@.len() implies #[trigger] self.reads@[k]
                        == updated(start[k], updates@.take(i + 1)) by {
                        lemma_updated_keeps(start[k], updates@.take(i as int));
                        assert(before[k] == updated(start[k], updates@.take(i as int)));
                        assert(before[k].id != u.id);
                    }
                }
            }
            i = i + 1;
        }
        assert(updates@.take(i as int) =~= updates@);
    }

    /// Marks each stored read named, by identifier, in `reads` as uploaded,
    /// leaving its status and every other field as it is.
    pub fn mark_uploaded(&mut self, reads: &Vec<Read>)
        requires
            old(self).reads_wf(),
        ensures
            final(self).reads_wf(),
            final(self).reads@.len() == old(self).reads@.len(),
            is_marking_of(old(self).reads@, reads@, final(self).reads@),
            final(self).next_id == old(self).next_id,
            final(self).settings == old(self).settings,
            final(self).readers == old(self).readers,
            final(self).apis == old(self).apis,
            final(self).participants == old(self).participants,
            final(self).sightings == old(self).sightings,
    {
        let mut k: usize = 0;
        while k < self.reads.len()
            invariant
                k <= self.reads@.len(),
                self.reads@.len() == old(self).reads@.len(),
                forall|a: int|
                    0 <= a < self.reads@.len() ==> #[trigger] self.reads@[a] == (if a < k && has_read_id(
                        reads@,
                        old(self).reads@[a].id,
                    ) {
                        old(self).reads@[a].marked_uploaded()
                    } else {
                        old(self).reads@[a]
                    }),
                self.next_id == old(self).next_id,
                self.settings == old(self).settings,
                self.readers == old(self).readers,
                self.apis == old(self).apis,
                self.participants == old(self).participants,
                self.sightings == old(self).sightings,
                old(self).reads_wf(),
            decreases self.reads@.len() - k,
        {
            let id = self.reads[k].id;
            let mut j: usize = 0;
            let mut found = false;
            while j < reads.len()
                invariant
                    j <= reads@.len(),
                    found == exists|b: int| 0 <= b < j && (#[trigger] reads@[b]).id == id,
                decreases reads@.len() - j,
            {
                if reads[j].id == id {
                    found = true;
                }
                j = j + 1;
            }
            if found {
                let mut r = self.reads[k].duplicate();
                r.uploaded = true;
                self.reads.set(k, r);
            }
            k = k + 1;
        }
        proof {
            assert forall|a: int| 0 <= a < self.reads@.len() implies #[trigger] self.reads@[a] == (if has_read_id(
                reads@,
                old(self).reads@[a].id,
            ) {
                old(self).reads@[a].marked_uploaded()
            } else {
                old(self).reads@[a]
            }) by {}
            assert forall|a: int, b: int| 0 <= a < b < self.reads@.len() implies self.reads@[a].key()
                != self.reads@[b].key() && self.reads@[a].id < self.reads@[b].id by {
                assert(self.reads@[a].key() == old(self).reads@[a].key());
                assert(self.reads@[b].key() == old(self).reads@[b].key());
            }
            assert forall|a: int| 0 <= a < self.reads@.len() implies (#[trigger] self.reads@[a]).id
                < self.next_id by {
                assert(self.reads@[a].id == old(self).reads@[a].id);
            }
        }
    }

    /// The reads with status `Unused` or `Used`.
    pub fn get_useful_reads(&self) -> (r: Vec<Read>)
        ensures
            r@ == self.reads@.filter(|x: Read| is_useful(x)),
    {
        let mut out: Vec<Read> = Vec::new();
        let mut i: usize = 0;
        while i < self.reads.len()
            invariant
                i <= self.reads@.len(),
                out@ == self.reads@.take(i as int).filter(|x: Read| is_useful(x)),
            decreases self.reads@.len() - i,
        {
            proof {
                assert(self.reads@.take(i + 1) =~= self.reads@.take(i as int).push(self.reads@[i as int]));
                self.reads@.take(i as int).lemma_filter_push(self.reads@[i as int], |x: Read| is_useful(x));
            }
            if self.reads[i].status == ReadStatus::Unused || self.reads[i].status == ReadStatus::Used {
                out.push(self.reads[i].duplicate());
            }
            i = i + 1;
        }
        assert(self.reads@.take(i as int) =~= self.reads@);
        out
    }

    /// The reads not yet uploaded.
    pub fn get_not_uploaded_reads(&self) -> (r: Vec<Read>)
        ensures
            r@ == self.reads@.filter(|x: Read| !x.uploaded),
    {
        let mut out: Vec<Read> = Vec::new();
        let mut i: usize = 0;
        while i < self.reads.len()
            invariant
                i <= self.reads@.len(),
                out@ == self.reads@.take(i as int).filter(|x: Read| !x.uploaded),
            decreases self.reads@.len() - i,
        {
            proof {
                assert(self.reads@.take(i + 1) =~= self.reads@.take(i as int).push(self.reads@[i as int]));
                self.reads@.take(i as int).lemma_filter_push(self.reads@[i as int], |x: Read| !x.uploaded);
            }
            if !self.reads[i].uploaded {
                out.push(self.reads[i].duplicate());
            }
            i = i + 1;
        }
        assert(self.reads@.take(i as int) =~= self.reads@);
        out
    }

    /// The reads taken from second `start` to second `end`, both included.
    pub fn get_reads(&self, start: u64, end: u64) -> (r: Vec<Read>)
        ensures
            r@ == self.reads@.filter(|x: Read| start <= x.seconds <= end),
    {
        let mut out: Vec<Read> = Vec::new();
        let mut i: usize = 0;
        while i < self.reads.len()
            invariant
                i <= self.reads@.len(),
                out@ == self.reads@.take(i as int).filter(|x: Read| start <= x.seconds <= end),
            decreases self.reads@.len() - i,
        {
            proof {
                assert(self.reads@.take(i + 1) =~= self.reads@.take(i as int).push(self.reads@[i as int]));
                self.reads@.take(i as int).lemma_filter_push(
                    self.reads@[i as int],
                    |x: Read| start <= x.seconds <= end,
                );
            }
            if start <= self.reads[i].seconds && self.reads[i].seconds <= end {
                out.push(self.reads[i].duplicate());
            }
            i = i + 1;
        }
        assert(self.reads@.take(i as int) =~= self.reads@);
        out
    }

    /// Deletes the reads taken from second `start` to second `end`, both
    /// included, and returns how many it deleted.
    pub fn delete_reads(&mut self, start: u64, end: u64) -> (n: usize)
        requires
            old(self).reads_wf(),
        ensures
            final(self).reads_wf(),
            final(self).reads@ == old(self).reads@.filter(|x: Read| !(start <= x.seconds <= end)),
            n == old(self).reads@.len() - final(self).reads@.len(),
            final(self).next_id == old(self).next_id,
            final(self).settings == old(self).settings,
            final(self).readers == old(self).readers,
            final(self).apis == old(self).apis,
            final(self).participants == old(self).participants,
            final(self).sightings == old(self).sightings,
    {
        let mut kept: Vec<Read> = Vec::new();
        let mut i: usize = 0;
        while i < self.reads.len()
            invariant
                i <= self.reads@.len(),
                self.reads@ == old(self).reads@,
                kept@ == self.reads@.take(i as int).filter(|x: Read| !(start <= x.seconds <= end)),
                kept@.len() <= i,
            decreases self.reads@.len() - i,
        {
            proof {
                assert(self.reads@.take(i + 1) =~= self.reads@.take(i as int).push(self.reads@[i as int]));
                self.reads@.take(i as int).lemma_filter_push(
                    self.reads@[i as int],
                    |x: Read| !(start <= x.seconds <= end),
                );
            }
            if !(start <= self.reads[i].seconds && self.reads[i].seconds <= end) {
                kept.push(self.reads[i].duplicate());
            }
            i = i + 1;
        }
        assert(self.reads@.take(i as int) =~= self.reads@);
        let n = self.reads.len() - kept.len();
        proof {
            lemma_filter_keeps_order(self.reads@, |x: Read| !(start <= x.seconds <= end), self.next_id);
        }
        self.reads = kept;
        n
    }

    /// Saves `reader` under the next identifier, replacing any saved reader
    /// with the same nickname, and returns the number of rows written, 1.
    /// Fails, changing nothing, when the identifiers have run out.
    pub fn save_reader(&mut self, reader: &Reader) -> (r: Result<usize, DBError>)
        ensures
            old(self).next_id == u64::MAX <==> r is Err,
            r is Err ==> *final(self) == *old(self),
            r is Ok ==> {
                &&& r == Ok::<usize, DBError>(1)
                &&& final(self).next_id == old(self).next_id + 1
                &&& reader_saved(old(self).readers@, old(self).next_id, *reader, final(self).readers@)
                &&& final(self).settings == old(self).settings
                &&& final(self).apis == old(self).apis
                &&& final(self).participants == old(self).participants
                &&& final(self).reads == old(self).reads
                &&& final(self).sightings == old(self).sightings
            },
    {
        if self.next_id == u64::MAX {
            return Err(DBError::DataInsertionError("no identifiers left for a new reader".to_owned()));
        }
        let id = self.next_id;
        let mut kept = self.readers_without(&reader.nickname);
        let mut row = reader.duplicate();
        row.id = id;
        kept.push(row);
        self.readers = kept;
        self.next_id = id + 1;
        Ok(1)
    }

    /// The saved readers whose nickname is not `nickname`.
    fn readers_without(&self, nickname: &String) -> (v: Vec<Reader>)
        ensures
            v@ == self.readers@.filter(|x: Reader| x.nickname@ != nickname@),
    {
        let mut out: Vec<Reader> = Vec::new();
        let mut i: usize = 0;
        while i < self.readers.len()
            invariant
                i <= self.readers@.len(),
                out@ == self.readers@.take(i as int).filter(|x: Reader| x.nickname@ != nickname@),
            decreases self.readers@.len() - i,
        {
            proof {
                assert(self.readers@.take(i + 1) =~= self.readers@.take(i as int).push(self.readers@[i as int]));
                self.readers@.take(i as int).lemma_filter_push(
                    self.readers@[i as int],
                    |x: Reader| x.nickname@ != nickname@,
                );
            }
            if self.readers[i].nickname != *nickname {
                out.push(self.readers[i].duplicate());
            }
            i = i + 1;
        }
        assert(self.readers@.take(i as int) =~= self.readers@);
        out
    }

    /// Deletes the saved reader with `nickname` and returns how many rows went.
    pub fn delete_reader(&mut self, nickname: &String) -> (n: usize)
        ensures
            final(self).readers@ == old(self).readers@.filter(|x: Reader| x.nickname@ != nickname@),
            n == old(self).readers@.len() - final(self).readers@.len(),
            final(self).next_id == old(self).next_id,
            final(self).settings == old(self).settings,
            final(self).apis == old(self).apis,
            final(self).participants == old(self).participants,
            final(self).reads == old(self).reads,
            final(self).sightings == old(self).sightings,
    {
        let kept = self.readers_without(nickname);
        proof {
            self.readers@.lemma_filter_len(|x: Reader| x.nickname@ != nickname@);
        }
        let n = self.readers.len() - kept.len();
        self.readers = kept;
        n
    }

    /// The saved readers.
    /// Fails with `DataRetrievalError` when some saved reader is of a kind
    /// that has no session yet: only Zebra readers can be used.
    pub fn get_readers(&self) -> (r: Result<Vec<Reader>, DBError>)
        ensures
            (exists|k: int| 0 <= k < self.readers@.len() && (#[trigger] self.readers@[k]).kind != ReaderKind::Zebra)
                <==> (r matches Err(DBError::DataRetrievalError(_))),
            r matches Ok(v) ==> v@ == self.readers@,
            r is Err ==> (r matches Err(DBError::DataRetrievalError(_))),
    {
        let mut out: Vec<Reader> = Vec::new();
        let mut i: usize = 0;
        while i < self.readers.len()
            invariant
                i <= self.readers@.len(),
                out@ == self.readers@.take(i as int),
                forall|k: int| 0 <= k < i ==> (#[trigger] self.readers@[k]).kind == ReaderKind::Zebra,
            decreases self.readers@.len() - i,
        {
            if self.readers[i].kind != ReaderKind::Zebra {
                return Err(DBError::DataRetrievalError("not yet implemented".to_owned()));
            }
            out.push(self.readers[i].duplicate());
            assert(out@ =~= self.readers@.take(i + 1));
            i = i + 1;
        }
        assert(self.readers@.take(i as int) =~= self.readers@);
        Ok(out)
    }

    /// Saves `api` under the next identifier, replacing any saved service with
    /// the same `(uri, token)`, and returns the number of rows written, 1.
    /// Fails, changing nothing, when the identifiers have run out.
    pub fn save_api(&mut self, api: &ResultsApi) -> (r: Result<usize, DBError>)
        ensures
            old(self).next_id == u64::MAX <==> r is Err,
            r is Err ==> *final(self) == *old(self),
            r is Ok ==> {
                &&& r == Ok::<usize, DBError>(1)
                &&& final(self).next_id == old(self).next_id + 1
                &&& api_saved(old(self).apis@, old(self).next_id, *api, final(self).apis@)
                &&& final(self).settings == old(self).settings
                &&& final(self).readers == old(self).readers
                &&& final(self).participants == old(self).participants
                &&& final(self).reads == old(self).reads
                &&& final(self).sightings == old(self).sightings
            },
    {
        if self.next_id == u64::MAX {
            return Err(DBError::DataInsertionError("no identifiers left for a new service".to_owned()));
        }
        let id = self.next_id;
        let mut kept: Vec<ResultsApi> = Vec::new();
        let mut i: usize = 0;
        while i < self.apis.len()
            invariant
                i <= self.apis@.len(),
                kept@ == self.apis@.take(i as int).filter(|x: ResultsApi| x.key() != api.key()),
            decreases self.apis@.len() - i,
        {
            proof {
                assert(self.apis@.take(i + 1) =~= self.apis@.take(i as int).push(self.apis@[i as int]));
                self.apis@.take(i as int).lemma_filter_push(
                    self.apis@[i as int],
                    |x: ResultsApi| x.key() != api.key(),
                );
            }
            if !(self.apis[i].uri == api.uri && self.apis[i].token == api.token) {
                kept.push(self.apis[i].duplicate());
            }
            i = i + 1;
        }
        assert(self.apis@.take(i as int) =~= self.apis@);
        let mut row = api.duplicate();
        row.id = id;
        kept.push(row);
        self.apis = kept;
        self.next_id = id + 1;
        Ok(1)
    }

    /// Deletes the saved services with `nickname` and returns how many went.
    pub fn delete_api(&mut self, nickname: &String) -> (n: usize)
        ensures
            final(self).apis@ == old(self).apis@.filter(|x: ResultsApi| x.nickname@ != nickname@),
            n == old(self).apis@.len() - final(self).apis@.len(),
            final(self).next_id == old(self).next_id,
            final(self).settings == old(self).settings,
            final(self).readers == old(self).readers,
            final(self).participants == old(self).participants,
            final(self).reads == old(self).reads,
            final(self).sightings == old(self).sightings,
    {
        let mut kept: Vec<ResultsApi> = Vec::new();
        let mut i: usize = 0;
        while i < self.apis.len()
            invariant
                i <= self.apis@.len(),
                kept@ == self.apis@.take(i as int).filter(|x: ResultsApi| x.nickname@ != nickname@),
            decreases self.apis@.len() - i,
        {
            proof {
                assert(self.apis@.take(i + 1) =~= self.apis@.take(i as int).push(self.apis@[i as int]));
                self.apis@.take(i as int).lemma_filter_push(
                    self.apis@[i as int],
                    |x: ResultsApi| x.nickname@ != nickname@,
                );
            }
            if self.apis[i].nickname != *nickname {
                kept.push(self.apis[i].duplicate());
            }
            i = i + 1;
        }
        assert(self.apis@.take(i as int) =~= self.apis@);
        proof {
            self.apis@.lemma_filter_len(|x: ResultsApi| x.nickname@ != nickname@);
        }
        let n = self.apis.len() - kept.len();
        self.apis = kept;
        n
    }

    /// The saved services.
    pub fn get_apis(&self) -> (r: Vec<ResultsApi>)
        ensures
            r@ == self.apis@,
    {
        let mut out: Vec<ResultsApi> = Vec::new();
        let mut i: usize = 0;
        while i < self.apis.len()
            invariant
                i <= self.apis@.len(),
                out@ == self.apis@.take(i as int),
            decreases self.apis@.len() - i,
        {
            out.push(self.apis[i].duplicate());
            assert(out@ =~= self.apis@.take(i + 1));
            i = i + 1;
        }
        assert(self.apis@.take(i as int) =~= self.apis@);
        out
    }

    /// Adds `batch` in one transaction: each participant replaces the stored
    /// ones it collides with, on its chip or on `(bib, first, last, distance)`,
    /// and gets the next identifier. Returns how many it added. Fails, changing
    /// nothing, when the identifiers would run out.
    pub fn add_participants(&mut self, batch: &Vec<Participant>) -> (r: Result<usize, DBError>)
        ensures
            (old(self).next_id as int + batch@.len() > u64::MAX) <==> r is Err,
            r is Err ==> *final(self) == *old(self),
            r matches Ok(n) ==> {
                &&& n == batch@.len()
                &&& final(self).next_id == old(self).next_id + n
                &&& final(self).participants@ == after_adding(
                    old(self).participants@,
                    batch@,
                    old(self).next_id,
                )
                &&& final(self).settings == old(self).settings
                &&& final(self).readers == old(self).readers
                &&& final(self).apis == old(self).apis
                &&& final(self).reads == old(self).reads
                &&& final(self).sightings == old(self).sightings
            },
    {
        if batch.len() as u64 > u64::MAX - self.next_id {
            return Err(DBError::DataInsertionError("no identifiers left for new participants".to_owned()));
        }
        let base = self.next_id;
        let mut table: Vec<Participant> = Vec::new();
        let mut i: usize = 0;
        while i < self.participants.len()
            invariant
                i <= self.participants@.len(),
                table@ == self.participants@.take(i as int),
            decreases self.participants@.len() - i,
        {
            table.push(self.participants[i].duplicate());
            assert(table@ =~= self.participants@.take(i + 1));
            i = i + 1;
        }
        assert(self.participants@.take(i as int) =~= self.participants@);
        let mut k: usize = 0;
        while k < batch.len()
            invariant
                k <= batch@.len(),
                base as int + batch@.len() <= u64::MAX,
                table@ == after_adding(self.participants@, batch@.take(k as int), base),
            decreases batch@.len() - k,
        {
            let p = &batch[k];
            let mut kept: Vec<Participant> = Vec::new();
            let mut j: usize = 0;
            while j < table.len()
                invariant
                    j <= table@.len(),
                    kept@ == table@.take(j as int).filter(|x: Participant| !collides(x, *p)),
                decreases table@.len() - j,
            {
                proof {
                    assert(table@.take(j + 1) =~= table@.take(j as int).push(table@[j as int]));
                    table@.take(j as int).lemma_filter_push(table@[j as int], |x: Participant| !collides(x, *p));
                }
                if !table[j].collides_with(p) {
                    kept.push(table[j].duplicate());
                }
                j = j + 1;
            }
            assert(table@.take(j as int) =~= table@);
            let mut row = p.duplicate();
            row.id = base + k as u64;
            kept.push(row);
            proof {
                assert(batch@.take(k + 1).drop_last() =~= batch@.take(k as int));
                assert(batch@.take(k + 1).last() == batch@[k as int]);
            }
            table = kept;
            k = k + 1;
        }
        assert(batch@.take(k as int) =~= batch@);
        self.participants = table;
        self.next_id = base + batch.len() as u64;
        Ok(batch.len())
    }

    /// The stored participants.
    pub fn get_participants(&self) -> (r: Vec<Participant>)
        ensures
            r@ == self.participants@,
    {
        let mut out: Vec<Participant> = Vec::new();
        let mut i: usize = 0;
        while i < self.participants.len()
            invariant
                i <= self.participants@.len(),
                out@ == self.participants@.take(i as int),
            decreases self.participants@.len() - i,
        {
            out.push(self.participants[i].duplicate());
            assert(out@ =~= self.participants@.take(i + 1));
            i = i + 1;
        }
        assert(self.participants@.take(i as int) =~= self.participants@);
        out
    }

    /// Deletes the participants wearing `bib` and returns how many went.
    pub fn delete_participant(&mut self, bib: &String) -> (n: usize)
        ensures
            final(self).participants@ == old(self).participants@.filter(|x: Participant| x.bib@ != bib@),
            n == old(self).participants@.len() - final(self).participants@.len(),
            final(self).next_id == old(self).next_id,
            final(self).settings == old(self).settings,
            final(self).readers == old(self).readers,
            final(self).apis == old(self).apis,
            final(self).reads == old(self).reads,
            final(self).sightings == old(self).sightings,
    {
        let mut kept: Vec<Participant> = Vec::new();
        let mut i: usize = 0;
        while i < self.participants.len()
            invariant
                i <= self.participants@.len(),
                kept@ == self.participants@.take(i as int).filter(|x: Participant| x.bib@ != bib@),
            decreases self.participants@.len() - i,
        {
            proof {
                assert(self.participants@.take(i + 1) =~= self.participants@.take(i as int).push(
                    self.participants@[i as int],
                ));
                self.participants@.take(i as int).lemma_filter_push(
                    self.participants@[i as int],
                    |x: Participant| x.bib@ != bib@,
                );
            }
            if self.participants[i].bib != *bib {
                kept.push(self.participants[i].duplicate());
            }
            i = i + 1;
        }
        assert(self.participants@.take(i as int) =~= self.participants@);
        proof {
            self.participants@.lemma_filter_len(|x: Participant| x.bib@ != bib@);
        }
        let n = self.participants.len() - kept.len();
        self.participants = kept;
        n
    }

    /// Deletes every participant and returns how many went.
    pub fn delete_participants(&mut self) -> (n: usize)
        ensures
            final(self).participants@.len() == 0,
            n == old(self).participants@.len(),
            final(self).next_id == old(self).next_id,
            final(self).settings == old(self).settings,
            final(self).readers == old(self).readers,
            final(self).apis == old(self).apis,
            final(self).reads == old(self).reads,
            final(self).sightings == old(self).sightings,
    {
        let n = self.participants.len();
        self.participants = Vec::new();
        n
    }

    /// Stores `setting`, replacing any setting of the same name, and returns
    /// what was stored.
    pub fn set_setting(&mut self, setting: &Setting) -> (r: Setting)
        ensures
            r@ == setting@,
            settings_view(final(self).settings@) == settings_view(old(self).settings@).filter(
                |x: (Seq<char>, Seq<char>)| x.0 != setting@.0,
            ).push(setting@),
            final(self).next_id == old(self).next_id,
            final(self).readers == old(self).readers,
            final(self).apis == old(self).apis,
            final(self).participants == old(self).participants,
            final(self).reads == old(self).reads,
            final(self).sightings == old(self).sightings,
    {
        let mut kept: Vec<Setting> = Vec::new();
        let mut i: usize = 0;
        let ghost keep = |x: (Seq<char>, Seq<char>)| x.0 != setting@.0;
        while i < self.settings.len()
            invariant
                i <= self.settings@.len(),
                settings_view(kept@) == settings_view(self.settings@.take(i as int)).filter(keep),
                keep == (|x: (Seq<char>, Seq<char>)| x.0 != setting@.0),
            decreases self.settings@.len() - i,
        {
            let ghost prev = settings_view(self.settings@.take(i as int));
            proof {
                assert(settings_view(self.settings@.take(i + 1)) =~= prev.push(self.settings@[i as int]@));
                prev.lemma_filter_push(self.settings@[i as int]@, keep);
            }
            let ghost before = kept@;
            if !same_text(self.settings[i].name(), setting.name()) {
                kept.push(self.settings[i].duplicate());
                assert(settings_view(kept@) =~= settings_view(before).push(self.settings@[i as int]@));
            }
            i = i + 1;
        }
        assert(self.settings@.take(i as int) =~= self.settings@);
        let ghost before = kept@;
        kept.push(setting.duplicate());
        assert(settings_view(kept@) =~= settings_view(before).push(setting@));
        self.settings = kept;
        setting.duplicate()
    }

    /// The stored setting named `name`; `NotFound` when there is none.
    pub fn get_setting(&self, name: &str) -> (r: Result<Setting, DBError>)
        ensures
            match setting_named(settings_view(self.settings@), name@) {
                Some(v) => r matches Ok(s) && s@ == v,
                None => r matches Err(DBError::NotFound),
            },
    {
        let mut i = self.settings.len();
        assert(settings_view(self.settings@).take(i as int) =~= settings_view(self.settings@));
        while i > 0
            invariant
                i <= self.settings@.len(),
                setting_named(settings_view(self.settings@), name@) == setting_named(
                    settings_view(self.settings@).take(i as int),
                    name@,
                ),
            decreases i,
        {
            let ghost v = settings_view(self.settings@);
            assert(v.take(i as int).drop_last() =~= v.take(i - 1));
            assert(v.take(i as int).last() == v[i - 1]);
            if same_text(self.settings[i - 1].name(), name) {
                return Ok(self.settings[i - 1].duplicate());
            }
            i = i - 1;
        }
        assert(settings_view(self.settings@).take(0) =~= Seq::<(Seq<char>, Seq<char>)>::empty());
        Err(DBError::NotFound)
    }

    /// Stores the sightings as rows joining participant and read identifiers.
    pub fn save_sightings(&mut self, sightings: &Vec<Sighting>)
        ensures
            final(self).sightings@ == old(self).sightings@ + sightings@.map_values(
                |s: Sighting| SightingRow { participant_id: s.participant.id, read_id: s.read.id },
            ),
            final(self).next_id == old(self).next_id,
            final(self).settings == old(self).settings,
            final(self).readers == old(self).readers,
            final(self).apis == old(self).apis,
            final(self).participants == old(self).participants,
            final(self).reads == old(self).reads,
    {
        let ghost f = |s: Sighting| SightingRow { participant_id: s.participant.id, read_id: s.read.id };
        let mut i: usize = 0;
        while i < sightings.len()
            invariant
                i <= sightings@.len(),
                f == (|s: Sighting| SightingRow { participant_id: s.participant.id, read_id: s.read.id }),
                self.sightings@ == old(self).sightings@ + sightings@.take(i as int).map_values(f),
                self.next_id == old(self).next_id,
                self.settings == old(self).settings,
                self.readers == old(self).readers,
                self.apis == old(self).apis,
                self.participants == old(self).participants,
                self.reads == old(self).reads,
            decreases sightings@.len() - i,
        {
            self.sightings.push(
                SightingRow { participant_id: sightings[i].participant.id, read_id: sightings[i].read.id },
            );
            assert(sightings@.take(i + 1).map_values(f) =~= sightings@.take(i as int).map_values(f).push(
                f(sightings@[i as int]),
            ));
            assert(self.sightings@ =~= old(self).sightings@ + sightings@.take(i + 1).map_values(f));
            i = i + 1;
        }
        assert(sightings@.take(i as int) =~= sightings@);
    }
}

pub(crate) proof fn lemma_filter_keeps_order(s: Seq<Read>, pred: spec_fn(Read) -> bool, bound: u64)
    requires
        keys_unique_reads(s),
        ids_ascending_reads(s, bound),
    ensures
        keys_unique_reads(s.filter(pred)),
        ids_ascending_reads(s.filter(pred), bound),
        s.filter(pred).len() <= s.len(),
    decreases s.len(),
{
    reveal(Seq::filter);
    if s.len() > 0 {
        let prev = s.drop_last();
        lemma_filter_keeps_order(prev, pred, bound);
        let f = prev.filter(pred);
        if pred(s.last()) {
            let g = f.push(s.last());
            assert forall|a: int| 0 <= a < f.len() implies (#[trigger] f[a]).id < s.last().id && f[a].key() != s.last().key() by {
                assert(f.contains(f[a]));
                prev.lemma_filter_contains_rev(pred, f[a]);
                let j = choose|j: int| 0 <= j < prev.len() && prev[j] == f[a];
                assert(s[j] == prev[j]);
            }
            assert forall|a: int, b: int| 0 <= a < b < g.len() implies g[a].id < g[b].id && g[a].key() != g[b].key() by {
                if b < f.len() {
                    assert(g[a] == f[a] && g[b] == f[b]);
                } else {
                    assert(g[a] == f[a]);
                }
            }
            assert forall|a: int| 0 <= a < g.len() implies (#[trigger] g[a]).id < bound by {
                if a < f.len() {
                    assert(g[a] == f[a]);
                } else {
                    assert(s[s.len() - 1] == s.last());
                }
            }
        }
    }
}

} // verus!

verus! {

/// The key of each read.
pub open spec fn read_keys(s: Seq<Read>) -> Seq<(Seq<char>, u64, u32)> {
    s.map_values(|r: Read| r.key())
}

proof fn lemma_has_key_set(s: Seq<Read>, key: (Seq<char>, u64, u32))
    ensures
        has_read_key(s, key) <==> read_keys(s).to_set().contains(key),
{
    if has_read_key(s, key) {
        let i = choose|i: int| 0 <= i < s.len() && (#[trigger] s[i]).key() == key;
        assert(read_keys(s)[i] == key);
    }
    if read_keys(s).to_set().contains(key) {
        let i = choose|i: int| 0 <= i < read_keys(s).len() && read_keys(s)[i] == key;
        assert(s[i].key() == key);
    }
}

proof fn lemma_fresh_shape(stored: Seq<Read>, batch: Seq<Read>)
    ensures
        forall|i: int|
            0 <= i < batch.len() ==> has_read_key(stored, (#[trigger] batch[i]).key()) || has_read_key(
                fresh_reads(stored, batch),
                batch[i].key(),
            ),
        forall|i: int|
            0 <= i < fresh_reads(stored, batch).len() ==> !has_read_key(
                stored,
                (#[trigger] fresh_reads(stored, batch)[i]).key(),
            ) && has_read_key(batch, fresh_reads(stored, batch)[i].key()),
        keys_unique_reads(fresh_reads(stored, batch)),
    decreases batch.len(),
{
    if batch.len() > 0 {
        let prev = batch.drop_last();
        lemma_fresh_shape(stored, prev);
        let f = fresh_reads(stored, prev);
        let g = fresh_reads(stored, batch);
        let r = batch.last();
        assert forall|i: int| 0 <= i < batch.len() implies has_read_key(stored, (#[trigger] batch[i]).key())
            || has_read_key(g, batch[i].key()) by {
            if i < batch.len() - 1 {
                assert(prev[i] == batch[i]);
                if has_read_key(f, batch[i].key()) && g != f {
                    let j = choose|j: int| 0 <= j < f.len() && (#[trigger] f[j]).key() == batch[i].key();
                    assert(g[j] == f[j]);
                }
            } else if !has_read_key(stored, r.key()) && !has_read_key(f, r.key()) {
                assert(g[f.len() as int] == r);
            }
        }
        assert forall|i: int| 0 <= i < g.len() implies !has_read_key(stored, (#[trigger] g[i]).key())
            && has_read_key(batch, g[i].key()) by {
            if i < f.len() {
                assert(g[i] == f[i]);
                let j = choose|j: int| 0 <= j < prev.len() && (#[trigger] prev[j]).key() == f[i].key();
                assert(batch[j] == prev[j]);
            } else {
                assert(batch[batch.len() - 1] == r);
            }
        }
        assert forall|a: int, b: int| 0 <= a < b < g.len() implies g[a].key() != g[b].key() by {
            if b < f.len() {
                assert(g[a] == f[a] && g[b] == f[b]);
            } else {
                assert(g[a] == f[a]);
            }
        }
    }
}

proof fn lemma_known_batch_adds_nothing(stored: Seq<Read>, batch: Seq<Read>)
    requires
        forall|i: int| 0 <= i < batch.len() ==> has_read_key(stored, (#[trigger] batch[i]).key()),
    ensures
        fresh_reads(stored, batch).len() == 0,
    decreases batch.len(),
{
    if batch.len() > 0 {
        let prev = batch.drop_last();
        assert forall|i: int| 0 <= i < prev.len() implies has_read_key(stored, (#[trigger] prev[i]).key()) by {
            assert(prev[i] == batch[i]);
        }
        lemma_known_batch_adds_nothing(stored, prev);
        assert(has_read_key(stored, batch[batch.len() - 1].key()));
    }
}

/// Saving a batch of reads stores each key of the batch that was not stored
/// yet exactly once, so it stores as many reads as the batch has distinct new
/// keys; saving the same batch again stores nothing.
pub proof fn lemma_save_reads_dedup(stored: Seq<Read>, batch: Seq<Read>, base: u64)
    ensures
        fresh_reads(stored, batch).len() == read_keys(batch).to_set().difference(
            read_keys(stored).to_set(),
        ).len(),
        fresh_reads(stored + numbered(fresh_reads(stored, batch), base), batch).len() == 0,
{
    let f = fresh_reads(stored, batch);
    lemma_fresh_shape(stored, batch);
    let fk = read_keys(f);
    let want = read_keys(batch).to_set().difference(read_keys(stored).to_set());
    assert forall|k: (Seq<char>, u64, u32)| fk.to_set().contains(k) <==> want.contains(k) by {
        lemma_has_key_set(f, k);
        lemma_has_key_set(batch, k);
        lemma_has_key_set(stored, k);
        if has_read_key(batch, k) && !has_read_key(stored, k) {
            let i = choose|i: int| 0 <= i < batch.len() && (#[trigger] batch[i]).key() == k;
        }
        if has_read_key(f, k) {
            let i = choose|i: int| 0 <= i < f.len() && (#[trigger] f[i]).key() == k;
        }
    }
    assert(fk.to_set() =~= want);
    assert(fk.no_duplicates()) by {
        assert forall|a: int, b: int| 0 <= a < fk.len() && 0 <= b < fk.len() && a != b implies fk[a] != fk[b] by {
            if a < b {
                assert(f[a].key() != f[b].key());
            } else {
                assert(f[b].key() != f[a].key());
            }
        }
    }
    fk.unique_seq_to_set();
    let s2 = stored + numbered(f, base);
    assert forall|i: int| 0 <= i < batch.len() implies has_read_key(s2, (#[trigger] batch[i]).key()) by {
        let k = batch[i].key();
        if has_read_key(stored, k) {
            let j = choose|j: int| 0 <= j < stored.len() && (#[trigger] stored[j]).key() == k;
            assert(s2[j] == stored[j]);
        } else {
            let j = choose|j: int| 0 <= j < f.len() && (#[trigger] f[j]).key() == k;
            assert(s2[stored.len() + j] == numbered(f, base)[j]);
        }
    }
    lemma_known_batch_adds_nothing(s2, batch);
}

} // verus!

verus! {

proof fn lemma_filter_excludes<A>(s: Seq<A>, keep: spec_fn(A) -> bool, pick: spec_fn(A) -> bool)
    requires
        forall|x: A| #[trigger] keep(x) ==> !pick(x),
    ensures
        s.filter(keep).filter(pick).len() == 0,
    decreases s.len(),
{
    reveal(Seq::filter);
    if s.len() > 0 {
        lemma_filter_excludes(s.drop_last(), keep, pick);
        let f = s.drop_last().filter(keep);
        if keep(s.last()) {
            f.lemma_filter_push(s.last(), pick);
        }
    }
}

proof fn lemma_filter_all<A>(s: Seq<A>, keep: spec_fn(A) -> bool)
    requires
        forall|i: int| 0 <= i < s.len() ==> #[trigger] keep(s[i]),
    ensures
        s.filter(keep) == s,
    decreases s.len(),
{
    reveal(Seq::filter);
    if s.len() > 0 {
        lemma_filter_all(s.drop_last(), keep);
        assert(keep(s[s.len() - 1]));
        assert(s.drop_last().push(s.last()) =~= s);
    }
}

proof fn lemma_filter_keeps<A>(s: Seq<A>, keep: spec_fn(A) -> bool, x: A)
    ensures
        s.contains(x) && keep(x) ==> s.filter(keep).contains(x),
        s.filter(keep).contains(x) ==> s.contains(x),
{
    if s.contains(x) && keep(x) {
        let i = choose|i: int| 0 <= i < s.len() && s[i] == x;
        s.lemma_filter_contains(keep, i);
    }
    if s.filter(keep).contains(x) {
        s.lemma_filter_contains_rev(keep, x);
    }
}

/// Saving a reader leaves exactly one saved reader with its nickname, the one
/// saved, keeps every reader with another nickname, and adds nothing else.
pub proof fn lemma_reader_saved(old: Seq<Reader>, id: u64, r: Reader, new: Seq<Reader>)
    requires
        reader_saved(old, id, r, new),
    ensures
        new.filter(|x: Reader| x.nickname@ == r.nickname@) == seq![(Reader { id, ..r })],
        forall|x: Reader| #[trigger] old.contains(x) && x.nickname@ != r.nickname@ ==> new.contains(x),
        forall|x: Reader| #[trigger] new.contains(x) ==> old.contains(x) || x == (Reader { id, ..r }),
{
    let row = Reader { id, ..r };
    let kept = old.filter(|x: Reader| x.nickname@ != r.nickname@);
    lemma_filter_excludes(old, |x: Reader| x.nickname@ != r.nickname@, |x: Reader| x.nickname@ == r.nickname@);
    kept.lemma_filter_push(row, |x: Reader| x.nickname@ == r.nickname@);
    assert(kept.filter(|x: Reader| x.nickname@ == r.nickname@) =~= Seq::<Reader>::empty());
    assert(Seq::<Reader>::empty().push(row) =~= seq![row]);
    assert forall|x: Reader| #[trigger] old.contains(x) && x.nickname@ != r.nickname@ implies new.contains(x) by {
        lemma_filter_keeps(old, |x: Reader| x.nickname@ != r.nickname@, x);
        let m = choose|m: int| 0 <= m < kept.len() && kept[m] == x;
        assert(new[m] == x);
    }
    assert forall|x: Reader| #[trigger] new.contains(x) implies old.contains(x) || x == row by {
        let m = choose|m: int| 0 <= m < new.len() && new[m] == x;
        if m < kept.len() {
            assert(kept[m] == x);
            assert(kept.contains(x));
            lemma_filter_keeps(old, |x: Reader| x.nickname@ != r.nickname@, x);
        }
    }
}

/// Saving a reader and then another with the same nickname leaves exactly one
/// saved reader with that nickname: the second.
pub proof fn lemma_reader_saved_twice(
    t0: Seq<Reader>,
    id1: u64,
    first: Reader,
    t1: Seq<Reader>,
    id2: u64,
    second: Reader,
    t2: Seq<Reader>,
)
    requires
        reader_saved(t0, id1, first, t1),
        reader_saved(t1, id2, second, t2),
        first.nickname@ == second.nickname@,
    ensures
        t2.filter(|x: Reader| x.nickname@ == second.nickname@) == seq![(Reader { id: id2, ..second })],
{
    lemma_reader_saved(t1, id2, second, t2);
}

/// Saving a service leaves exactly one saved service with its `(uri, token)`,
/// the one saved, whatever its nickname; it keeps every service with another
/// key, even one with the same nickname, and adds nothing else. So where no
/// service had that key the table grows by one row.
pub proof fn lemma_api_saved(old: Seq<ResultsApi>, id: u64, a: ResultsApi, new: Seq<ResultsApi>)
    requires
        api_saved(old, id, a, new),
    ensures
        new.filter(|x: ResultsApi| x.key() == a.key()) == seq![(ResultsApi { id, ..a })],
        forall|x: ResultsApi| #[trigger] old.contains(x) && x.key() != a.key() ==> new.contains(x),
        forall|x: ResultsApi| #[trigger] new.contains(x) ==> old.contains(x) || x == (ResultsApi { id, ..a }),
        (forall|k: int| 0 <= k < old.len() ==> (#[trigger] old[k]).key() != a.key()) ==> new.len()
            == old.len() + 1,
{
    let key = a.key();
    let row = ResultsApi { id, ..a };
    let kept = old.filter(|x: ResultsApi| x.key() != key);
    lemma_filter_excludes(old, |x: ResultsApi| x.key() != key, |x: ResultsApi| x.key() == key);
    kept.lemma_filter_push(row, |x: ResultsApi| x.key() == key);
    assert(kept.filter(|x: ResultsApi| x.key() == key) =~= Seq::<ResultsApi>::empty());
    assert(Seq::<ResultsApi>::empty().push(row) =~= seq![row]);
    assert forall|x: ResultsApi| #[trigger] old.contains(x) && x.key() != key implies new.contains(x) by {
        lemma_filter_keeps(old, |x: ResultsApi| x.key() != key, x);
        let m = choose|m: int| 0 <= m < kept.len() && kept[m] == x;
        assert(new[m] == x);
    }
    assert forall|x: ResultsApi| #[trigger] new.contains(x) implies old.contains(x) || x == row by {
        let m = choose|m: int| 0 <= m < new.len() && new[m] == x;
        if m < kept.len() {
            assert(kept[m] == x);
            assert(kept.contains(x));
            lemma_filter_keeps(old, |x: ResultsApi| x.key() != key, x);
        }
    }
    if forall|k: int| 0 <= k < old.len() ==> (#[trigger] old[k]).key() != key {
        lemma_filter_all(old, |x: ResultsApi| x.key() != key);
    }
}

/// Saving a service and then another with the same `(uri, token)` leaves
/// exactly one saved service with that key: the second.
pub proof fn lemma_api_saved_twice(
    t0: Seq<ResultsApi>,
    id1: u64,
    first: ResultsApi,
    t1: Seq<ResultsApi>,
    id2: u64,
    second: ResultsApi,
    t2: Seq<ResultsApi>,
)
    requires
        api_saved(t0, id1, first, t1),
        api_saved(t1, id2, second, t2),
        first.key() == second.key(),
    ensures
        t2.filter(|x: ResultsApi| x.key() == second.key()) == seq![(ResultsApi { id: id2, ..second })],
{
    lemma_api_saved(t1, id2, second, t2);
}

/// Adding a batch of participants: the last one added is afterwards the one
/// stored participant colliding with it, on the chip or on `(bib, first,
/// last, distance)`; and every stored participant that collides with no
/// participant of the batch is kept.
pub proof fn lemma_participants_added(table: Seq<Participant>, batch: Seq<Participant>, base: u64)
    requires
        batch.len() > 0,
    ensures
        after_adding(table, batch, base).filter(|x: Participant| collides(x, batch.last())) == seq![
            (Participant { id: (base + batch.len() - 1) as u64, ..batch.last() }),
        ],
        forall|x: Participant|
            #[trigger] table.contains(x) && (forall|j: int| 0 <= j < batch.len() ==> !collides(x, #[trigger] batch[j]))
                ==> after_adding(table, batch, base).contains(x),
    decreases batch.len(),
{
    let p = batch.last();
    let added = Participant { id: (base + batch.len() - 1) as u64, ..p };
    let prev = after_adding(table, batch.drop_last(), base);
    let kept = prev.filter(|x: Participant| !collides(x, p));
    let t = kept.push(added);
    assert(after_adding(table, batch, base) == t);
    lemma_filter_excludes(prev, |x: Participant| !collides(x, p), |x: Participant| collides(x, p));
    kept.lemma_filter_push(added, |x: Participant| collides(x, p));
    assert(kept.filter(|x: Participant| collides(x, p)) =~= Seq::<Participant>::empty());
    assert(Seq::<Participant>::empty().push(added) =~= seq![added]);
    assert forall|x: Participant|
        #[trigger] table.contains(x) && (forall|j: int| 0 <= j < batch.len() ==> !collides(x, #[trigger] batch[j]))
            implies t.contains(x) by {
        if batch.len() > 1 {
            assert forall|j: int| 0 <= j < batch.drop_last().len() implies !collides(x, #[trigger] batch.drop_last()[j]) by {
                assert(batch.drop_last()[j] == batch[j]);
            }
            lemma_participants_added(table, batch.drop_last(), base);
        } else {
            assert(batch.drop_last() =~= Seq::<Participant>::empty());
        }
        assert(!collides(x, batch[batch.len() - 1]));
        lemma_filter_keeps(prev, |x: Participant| !collides(x, p), x);
        let m = choose|m: int| 0 <= m < kept.len() && kept[m] == x;
        assert(t[m] == x);
    }
}

/// Saving a batch of reads stores, for each key of the batch not stored yet,
/// the first read of the batch with that key, so it stores as many reads as
/// the batch has new keys; saving the same batch right after stores nothing
/// and leaves the reads as they are.
pub proof fn lemma_save_reads_twice(
    r0: Seq<Read>,
    next0: u64,
    batch: Seq<Read>,
    r1: Seq<Read>,
    next1: u64,
    n1: int,
    r2: Seq<Read>,
    next2: u64,
    n2: int,
)
    requires
        is_save_of(r0, next0, batch, r1, next1, n1),
        is_save_of(r1, next1, batch, r2, next2, n2),
    ensures
        n1 == read_keys(batch).to_set().difference(read_keys(r0).to_set()).len(),
        n2 == 0,
        r2 == r1,
{
    lemma_save_reads_dedup(r0, batch, next0);
    assert(numbered(Seq::<Read>::empty(), next1) =~= Seq::<Read>::empty());
    assert(r1 + Seq::<Read>::empty() =~= r1);
    assert(fresh_reads(r1, batch) =~= Seq::<Read>::empty());
}

/// A read whose key is already stored, as a hardware retransmit is, stores
/// nothing: saving it leaves every stored read as it was.
pub proof fn lemma_retransmit_ignored(stored: Seq<Read>, next: u64, r: Read, after: Seq<Read>, next2: u64, n: int)
    requires
        has_read_key(stored, r.key()),
        is_save_of(stored, next, seq![r], after, next2, n),
    ensures
        n == 0,
        after == stored,
{
    assert(seq![r].drop_last() =~= Seq::<Read>::empty());
    assert(seq![r].last() == r);
    assert(fresh_reads(stored, Seq::<Read>::empty()) == Seq::<Read>::empty());
    assert(fresh_reads(stored, seq![r]) == fresh_reads(stored, seq![r].drop_last()));
    assert(fresh_reads(stored, seq![r]) =~= Seq::<Read>::empty());
    assert(numbered(Seq::<Read>::empty(), next) =~= Seq::<Read>::empty());
    assert(stored + Seq::<Read>::empty() =~= stored);
}

} // verus!
