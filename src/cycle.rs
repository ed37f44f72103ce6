use vstd::prelude::*;

use crate::participant::{is_placeholder_for, looks_like_placeholder, Participant};
use crate::processor::{
    attach_ids, canonical_chip, classify, credited, is_attachment, is_cycle_of, is_unused, is_used,
    lemma_judged_chips_have_participant, lemma_participant_for_some, lemma_quiet_window, lemma_sightings_credited,
    participant_for, unknown_chips, Cycle, Sighting,
};
use crate::store::{collides, ids_ascending_reads, keys_unique_reads, lemma_filter_keeps_order, lemma_updated_keeps};
use vstd::seq_lib::to_multiset_len;
use crate::read::{second_span, Read, ReadStatus};
use crate::setting::Setting;
use crate::store::{after_adding, is_useful, setting_named, settings_view, updated, DBError, MemStore, SightingRow};
use crate::text::{parse_u64, u64_value};

verus! {

broadcast use vstd::seq_lib::group_seq_properties;

/// A stored participant that no placeholder can displace: one that does not
/// look like a placeholder, or one that wears its chip as its bib, as the
/// placeholders themselves do.
pub open spec fn displaceable_ok(p: Participant) -> bool {
    !looks_like_placeholder(p) || p.bib@ == p.chip@
}

/// The name of the setting that holds the sighting period, in seconds.
pub const SETTING_SIGHTING_PERIOD: &'static str = "SETTING_SIGHTING_PERIOD";

/// The sighting period used when none is stored, in seconds.
pub const DEFAULT_SIGHTING_PERIOD: u64 = 300;

/// The sighting period a store holds: the stored setting where it reads as a
/// number, the default otherwise.
pub open spec fn period_of(settings: Seq<Setting>) -> u64 {
    match setting_named(settings_view(settings), SETTING_SIGHTING_PERIOD@) {
        Some(v) => match u64_value(v.1) {
            Some(p) => p,
            None => DEFAULT_SIGHTING_PERIOD,
        },
        None => DEFAULT_SIGHTING_PERIOD,
    }
}

/// The sighting period `store` holds.
pub fn sighting_period(store: &MemStore) -> (p: u64)
    ensures
        p == period_of(store.settings@),
{
    match store.get_setting(SETTING_SIGHTING_PERIOD) {
        Ok(s) => match parse_u64(s.value()) {
            Some(p) => p,
            None => DEFAULT_SIGHTING_PERIOD,
        },
        Err(_) => DEFAULT_SIGHTING_PERIOD,
    }
}

/// What a cycle run against the store decided, and the sightings it stored.
pub struct Outcome {
    pub cycle: Cycle,
    pub sightings: Vec<Sighting>,
}

/// One processing cycle against `store`: judges its unused reads against the
/// useful ones and its participants, stores the placeholder participants,
/// credits the sightings to the stored participants, and stores the new read
/// statuses and the sightings, in that order. On failure no read status and no
/// sighting is stored.
pub fn run_cycle(store: &mut MemStore) -> (r: Result<Outcome, DBError>)
    requires
        old(store).reads_wf(),
    ensures
        final(store).reads_wf(),
        old(store).next_id as int + old(store).reads@.len() <= u64::MAX && (forall|k: int|
            0 <= k < old(store).participants@.len() ==> displaceable_ok(
                #[trigger] old(store).participants@[k],
            )) ==> r is Ok,
        r is Err ==> final(store).reads == old(store).reads && final(store).sightings == old(
            store,
        ).sightings,
        r matches Ok(o) ==> {
            let c = o.cycle;
            &&& is_cycle_of(
                old(store).reads@.filter(|x: Read| is_useful(x)),
                old(store).participants@,
                period_of(old(store).settings@),
                c,
            )
            &&& c.participants@.len() == 0 ==> final(store).participants == old(store).participants
            &&& c.participants@.len() > 0 ==> final(store).participants@ == after_adding(
                old(store).participants@,
                c.participants@,
                old(store).next_id,
            )
            &&& final(store).reads@.len() == old(store).reads@.len()
            &&& forall|j: int|
                0 <= j < final(store).reads@.len() ==> #[trigger] final(store).reads@[j] == updated(
                    old(store).reads@[j],
                    c.reads@,
                )
            &&& o.sightings@.len() == c.sightings@.len()
            &&& forall|k: int|
                0 <= k < o.sightings@.len() ==> (#[trigger] o.sightings@[k]).read == c.sightings@[k].read
                    && final(store).participants@.contains(o.sightings@[k].participant) && is_used(
                    o.sightings@[k].read,
                ) && o.sightings@[k].participant.chip@ == canonical_chip(
                    old(store).participants@,
                    o.sightings@[k].read,
                )
            &&& spaced(old(store).participants@, old(store).reads@, period_of(old(store).settings@))
                ==> spaced(old(store).participants@, final(store).reads@, period_of(old(store).settings@))
            &&& forall|k: int, j: int|
                0 <= k < o.sightings@.len() && 0 <= j < final(store).reads@.len()
                    && #[trigger] final(store).reads@[j].id == #[trigger] o.sightings@[k].read.id
                    ==> final(store).reads@[j].status == ReadStatus::Used
            &&& final(store).sightings@ == old(store).sightings@ + o.sightings@.map_values(
                |s: Sighting| SightingRow { participant_id: s.participant.id, read_id: s.read.id },
            )
        },
{
    let reads = store.get_useful_reads();
    let parts = store.get_participants();
    let period = sighting_period(store);
    let cycle = classify(&reads, &parts, period);
    proof {
        lemma_judged_chips_have_participant(reads@, parts@, period, cycle);
        lemma_staged_fit(reads@, parts@, period, cycle);
        store.reads@.lemma_filter_len(|x: Read| is_useful(x));
    }
    let mut sightings: Vec<Sighting> = Vec::new();
    let mut i: usize = 0;
    while i < cycle.sightings.len()
        invariant
            i <= cycle.sightings@.len(),
            sightings@ == cycle.sightings@.take(i as int),
        decreases cycle.sightings@.len() - i,
    {
        sightings.push(
            Sighting {
                participant: cycle.sightings[i].participant.duplicate(),
                read: cycle.sightings[i].read.duplicate(),
            },
        );
        assert(sightings@ =~= cycle.sightings@.take(i + 1));
        i = i + 1;
    }
    assert(cycle.sightings@.take(i as int) =~= cycle.sightings@);
    let ghost start_id = store.next_id;
    if cycle.participants.len() > 0 {
        match store.add_participants(&cycle.participants) {
            Ok(_) => {},
            Err(e) => {
                return Err(e);
            },
        }
        let stored = store.get_participants();
        proof {
            if forall|k: int| 0 <= k < parts@.len() ==> displaceable_ok(#[trigger] parts@[k]) {
                lemma_attachable(reads@, parts@, period, cycle, start_id);
            }
        }
        match attach_ids(&sightings, &stored) {
            Some(v) => {
                proof {
                    lemma_sightings_credited(reads@, parts@, period, cycle, stored@, v);
                }
                sightings = v;
            },
            None => {
                return Err(DBError::DataRetrievalError("a sighting's participant is missing".to_owned()));
            },
        }
    } else {
        proof {
            lemma_credited_known(reads@, parts@, period, cycle);
        }
    }
    let ghost before_update = store.reads@;
    store.update_reads_status(&cycle.reads);
    proof {
        lemma_sighted_reads_used(before_update, store.next_id, parts@, period, cycle, store.reads@);
        if spaced(parts@, before_update, period) {
            lemma_cycle_keeps_quiet_window(before_update, store.next_id, parts@, period, cycle, store.reads@);
        }
    }
    store.save_sightings(&sightings);
    Ok(Outcome { cycle, sightings })
}

proof fn lemma_credited_known(reads: Seq<Read>, parts: Seq<Participant>, period: u64, c: Cycle)
    requires
        is_cycle_of(reads, parts, period, c),
        c.participants@.len() == 0,
    ensures
        forall|k: int|
            0 <= k < c.sightings@.len() ==> parts.contains((#[trigger] c.sightings@[k]).participant)
                && is_used(c.sightings@[k].read) && c.sightings@[k].participant.chip@ == canonical_chip(
                parts,
                c.sightings@[k].read,
            ),
{
    let done = c.reads@;
    let used = done.filter(|r: Read| is_used(r));
    assert forall|k: int| 0 <= k < c.sightings@.len() implies parts.contains(
        (#[trigger] c.sightings@[k]).participant,
    ) && is_used(c.sightings@[k].read) && c.sightings@[k].participant.chip@ == canonical_chip(
        parts,
        c.sightings@[k].read,
    ) by {
        let s = c.sightings@[k];
        lemma_participant_for_some(parts, canonical_chip(parts, s.read));
        assert(c.sightings@.map_values(|s: Sighting| s.read)[k] == used[k]);
        done.lemma_filter_pred(|r: Read| is_used(r), k);
        assert(used.contains(used[k]));
        done.lemma_filter_contains_rev(|r: Read| is_used(r), used[k]);
        let j = choose|j: int| 0 <= j < done.len() && done[j] == s.read;
        lemma_judged_chips_have_participant(reads, parts, period, c);
        crate::processor::lemma_credited_member(parts, s);
    }
}

/// The sightings processor's flags: whether it runs, and whether new reads
/// were announced since it last drained. The worker that runs the cycles asks
/// it what to do.
pub struct SightingsProcessor {
    pub running: bool,
    pub notified: bool,
}

impl SightingsProcessor {
    pub fn new() -> (p: SightingsProcessor)
        ensures
            !p.running,
            !p.notified,
    {
        SightingsProcessor { running: false, notified: false }
    }

    /// Announces new reads.
    pub fn notify(&mut self)
        ensures
            final(self).notified,
            final(self).running == old(self).running,
    {
        self.notified = true;
    }

    /// Asks the worker to stop at its next check.
    pub fn stop(&mut self)
        ensures
            !final(self).running,
            final(self).notified == old(self).notified,
    {
        self.running = false;
    }

    pub fn running(&self) -> (r: bool)
        ensures
            r == self.running,
    {
        self.running
    }

    /// Marks the worker as started.
    pub fn begin(&mut self)
        ensures
            final(self).running,
            final(self).notified == old(self).notified,
    {
        self.running = true;
    }

    /// Whether the worker quits: when the process-wide flag or its own one is
    /// down.
    pub fn should_quit(&self, keepalive: bool) -> (r: bool)
        ensures
            r == (!keepalive || !self.running),
    {
        !keepalive || !self.running
    }

    /// Whether there is work to wait no longer for.
    pub fn has_work(&self) -> (r: bool)
        ensures
            r == self.notified,
    {
        self.notified
    }

    /// Whether to run another cycle after `o`: as long as the last one found
    /// unused reads.
    pub fn drain_again(o: &Outcome) -> (r: bool)
        ensures
            r == (o.cycle.reads@.len() > 0),
    {
        o.cycle.reads.len() > 0
    }

    /// Marks the announced work as drained.
    pub fn drained(&mut self)
        ensures
            !final(self).notified,
            final(self).running == old(self).running,
    {
        self.notified = false;
    }
}

proof fn lemma_unknown_chips_shape(parts: Seq<Participant>, seq: Seq<Read>)
    ensures
        unknown_chips(parts, seq).len() <= seq.len(),
        unknown_chips(parts, seq).no_duplicates(),
        forall|k: int|
            0 <= k < unknown_chips(parts, seq).len() ==> participant_for(
                parts,
                #[trigger] unknown_chips(parts, seq)[k],
            ) is None,
    decreases seq.len(),
{
    if seq.len() > 0 {
        lemma_unknown_chips_shape(parts, seq.drop_last());
        let u = unknown_chips(parts, seq.drop_last());
        let c = canonical_chip(parts, seq.last());
        if !(participant_for(parts, c) is Some || u.contains(c)) {
            let v = u.push(c);
            assert forall|a: int, b: int| 0 <= a < v.len() && 0 <= b < v.len() && a != b implies v[a]
                != v[b] by {
                if a == u.len() as int {
                    assert(v[b] == u[b] && v[a] == c);
                } else if b == u.len() as int {
                    assert(v[a] == u[a] && v[b] == c);
                } else {
                    assert(v[a] == u[a] && v[b] == u[b]);
                }
            }
        }
    }
}

/// The placeholders a cycle stages are no more than the reads it judged.
proof fn lemma_staged_fit(reads: Seq<Read>, parts: Seq<Participant>, period: u64, c: Cycle)
    requires
        is_cycle_of(reads, parts, period, c),
    ensures
        c.participants@.len() <= reads.len(),
{
    let done = c.reads@;
    lemma_unknown_chips_shape(parts, done);
    let back = done.map_values(|r: Read| r.with_status(crate::read::ReadStatus::Unused));
    to_multiset_len(back);
    to_multiset_len(reads.filter(|r: Read| is_unused(r)));
    reads.lemma_filter_len(|r: Read| is_unused(r));
}

/// Rows kept while placeholders for unknown chips are added: every stored row
/// that does not look like a placeholder, and every placeholder added so far.
proof fn lemma_adding_keeps(table: Seq<Participant>, chips: Seq<Seq<char>>, batch: Seq<Participant>, base: u64)
    requires
        batch.len() <= chips.len(),
        chips.no_duplicates(),
        forall|k: int| 0 <= k < batch.len() ==> is_placeholder_for(#[trigger] batch[k], chips[k]),
        forall|k: int| 0 <= k < chips.len() ==> participant_for(table, #[trigger] chips[k]) is None,
    ensures
        forall|x: Participant|
            #[trigger] table.contains(x) && displaceable_ok(x) ==> after_adding(table, batch, base).contains(x),
        forall|k: int|
            0 <= k < batch.len() ==> after_adding(table, batch, base).contains(
                Participant { id: (base + k) as u64, ..#[trigger] batch[k] },
            ),
    decreases batch.len(),
{
    if batch.len() > 0 {
        let prev = batch.drop_last();
        assert forall|k: int| 0 <= k < prev.len() implies is_placeholder_for(#[trigger] prev[k], chips[k]) by {
            assert(prev[k] == batch[k]);
        }
        lemma_adding_keeps(table, chips, prev, base);
        let t = after_adding(table, prev, base);
        let p = batch.last();
        let n = batch.len() - 1;
        assert(p == batch[n]);
        let keep = |x: Participant| !collides(x, p);
        let kept = t.filter(keep);
        let added = Participant { id: (base + n) as u64, ..p };
        let next = kept.push(added);
        assert(after_adding(table, batch, base) == next);
        assert forall|x: Participant| #[trigger] table.contains(x) && displaceable_ok(x) implies next.contains(x) by {
            let i = choose|i: int| 0 <= i < table.len() && table[i] == x;
            lemma_participant_for_some(table, chips[n]);
            assert(x.chip@ != chips[n]);
            if looks_like_placeholder(x) {
                assert(x.bib@ != p.bib@);
            }
            assert(!collides(x, p));
            let j = choose|j: int| 0 <= j < t.len() && t[j] == x;
            t.lemma_filter_contains(keep, j);
            let m = choose|m: int| 0 <= m < kept.len() && kept[m] == x;
            assert(next[m] == x);
        }
        assert forall|k: int| 0 <= k < batch.len() implies next.contains(
            Participant { id: (base + k) as u64, ..#[trigger] batch[k] },
        ) by {
            if k == n {
                assert(next[kept.len() as int] == added);
            } else {
                let x = Participant { id: (base + k) as u64, ..batch[k] };
                assert(batch[k] == prev[k]);
                assert(chips[k] != chips[n]);
                assert(!collides(x, p));
                let j = choose|j: int| 0 <= j < t.len() && t[j] == x;
                t.lemma_filter_contains(keep, j);
                let m = choose|m: int| 0 <= m < kept.len() && kept[m] == x;
                assert(next[m] == x);
            }
        }
    }
}

/// When no stored participant looks like a placeholder, every sighting of a
/// cycle finds a stored participant with its chip once the placeholders are
/// added.
proof fn lemma_attachable(reads: Seq<Read>, parts: Seq<Participant>, period: u64, c: Cycle, base: u64)
    requires
        is_cycle_of(reads, parts, period, c),
        forall|k: int| 0 <= k < parts.len() ==> displaceable_ok(#[trigger] parts[k]),
    ensures
        forall|k: int|
            0 <= k < c.sightings@.len() ==> participant_for(
                after_adding(parts, c.participants@, base),
                (#[trigger] c.sightings@[k]).participant.chip@,
            ) is Some,
{
    let done = c.reads@;
    let u = unknown_chips(parts, done);
    let stored = after_adding(parts, c.participants@, base);
    lemma_unknown_chips_shape(parts, done);
    lemma_adding_keeps(parts, u, c.participants@, base);
    crate::processor::lemma_chips_covered(parts, done);
    let used = done.filter(|r: Read| is_used(r));
    assert forall|k: int| 0 <= k < c.sightings@.len() implies participant_for(
        stored,
        (#[trigger] c.sightings@[k]).participant.chip@,
    ) is Some by {
        let s = c.sightings@[k];
        assert(c.sightings@.map_values(|s: Sighting| s.read)[k] == used[k]);
        assert(used.contains(used[k]));
        done.lemma_filter_contains_rev(|r: Read| is_used(r), used[k]);
        let j = choose|j: int| 0 <= j < done.len() && done[j] == s.read;
        let ch = canonical_chip(parts, s.read);
        assert(credited(parts, s));
        lemma_participant_for_some(parts, ch);
        lemma_participant_for_some(stored, s.participant.chip@);
        if participant_for(parts, ch) is Some {
            let p = participant_for(parts, ch)->0;
            let i = choose|i: int| 0 <= i < parts.len() && parts[i] == p;
            assert(displaceable_ok(parts[i]));
            assert(stored.contains(p));
            let m = choose|m: int| 0 <= m < stored.len() && stored[m] == p;
            assert(stored[m].chip@ == s.participant.chip@);
        } else {
            assert(u.contains(ch));
            let q = choose|q: int| 0 <= q < u.len() && u[q] == ch;
            let x = Participant { id: (base + q) as u64, ..c.participants@[q] };
            assert(is_placeholder_for(c.participants@[q], u[q]));
            assert(stored.contains(x));
            let m = choose|m: int| 0 <= m < stored.len() && stored[m] == x;
            assert(stored[m].chip@ == s.participant.chip@);
        }
    }
}

proof fn lemma_distinct_ids_carry(s: Seq<Read>, t: Seq<Read>)
    requires
        forall|i: int, j: int| 0 <= i < j < s.len() ==> s[i].id < s[j].id,
        t.to_multiset() == s.to_multiset(),
    ensures
        forall|i: int, j: int| 0 <= i < t.len() && 0 <= j < t.len() && i != j ==> t[i].id != t[j].id,
{
    assert(s.no_duplicates()) by {
        assert forall|i: int, j: int| 0 <= i < s.len() && 0 <= j < s.len() && i != j implies s[i] != s[j] by {
            if i < j {
                assert(s[i].id < s[j].id);
            } else {
                assert(s[j].id < s[i].id);
            }
        }
    }
    s.lemma_multiset_has_no_duplicates();
    t.lemma_multiset_has_no_duplicates_conv();
    assert forall|i: int, j: int| 0 <= i < t.len() && 0 <= j < t.len() && i != j implies t[i].id != t[j].id by {
        assert(t.contains(t[i]) && t.contains(t[j]));
        assert(t.to_multiset().count(t[i]) > 0 && t.to_multiset().count(t[j]) > 0);
        assert(s.contains(t[i]) && s.contains(t[j]));
        let a = choose|a: int| 0 <= a < s.len() && s[a] == t[i];
        let b = choose|b: int| 0 <= b < s.len() && s[b] == t[j];
        assert(t[i] != t[j]);
        if a < b {
            assert(s[a].id < s[b].id);
        } else if b < a {
            assert(s[b].id < s[a].id);
        }
    }
}

proof fn lemma_updated_at(r: Read, ups: Seq<Read>, i: int)
    requires
        0 <= i < ups.len(),
        ups[i].id == r.id,
        forall|a: int, b: int| 0 <= a < ups.len() && 0 <= b < ups.len() && a != b ==> ups[a].id != ups[b].id,
    ensures
        updated(r, ups).status == ups[i].status,
    decreases ups.len(),
{
    if i < ups.len() - 1 {
        let prev = ups.drop_last();
        assert(ups[ups.len() - 1].id != ups[i].id);
        assert(prev[i] == ups[i]);
        assert forall|a: int, b: int| 0 <= a < prev.len() && 0 <= b < prev.len() && a != b implies prev[a].id
            != prev[b].id by {
            assert(prev[a] == ups[a] && prev[b] == ups[b]);
        }
        lemma_updated_at(r, prev, i);
    }
}

/// After a cycle's statuses are stored, the stored read behind each of its
/// sightings is `Used`.
proof fn lemma_sighted_reads_used(
    stored: Seq<Read>,
    next: u64,
    parts: Seq<Participant>,
    period: u64,
    c: Cycle,
    after: Seq<Read>,
)
    requires
        keys_unique_reads(stored),
        ids_ascending_reads(stored, next),
        is_cycle_of(stored.filter(|x: Read| is_useful(x)), parts, period, c),
        after.len() == stored.len(),
        forall|j: int| 0 <= j < after.len() ==> #[trigger] after[j] == updated(stored[j], c.reads@),
    ensures
        forall|k: int, j: int|
            0 <= k < c.sightings@.len() && 0 <= j < after.len() && #[trigger] after[j].id
                == #[trigger] c.sightings@[k].read.id ==> after[j].status == ReadStatus::Used,
{
    let useful = stored.filter(|x: Read| is_useful(x));
    lemma_filter_keeps_order(stored, |x: Read| is_useful(x), next);
    let pending = useful.filter(|r: Read| is_unused(r));
    lemma_filter_keeps_order(useful, |r: Read| is_unused(r), next);
    let done = c.reads@;
    let back = done.map_values(|r: Read| r.with_status(ReadStatus::Unused));
    lemma_distinct_ids_carry(pending, back);
    assert forall|a: int, b: int| 0 <= a < done.len() && 0 <= b < done.len() && a != b implies done[a].id
        != done[b].id by {
        assert(back[a].id == done[a].id && back[b].id == done[b].id);
    }
    let used = done.filter(|r: Read| is_used(r));
    assert forall|k: int, j: int|
        0 <= k < c.sightings@.len() && 0 <= j < after.len() && #[trigger] after[j].id
            == #[trigger] c.sightings@[k].read.id implies after[j].status == ReadStatus::Used by {
        let s = c.sightings@[k];
        assert(c.sightings@.map_values(|s: Sighting| s.read)[k] == used[k]);
        done.lemma_filter_pred(|r: Read| is_used(r), k);
        assert(used.contains(used[k]));
        done.lemma_filter_contains_rev(|r: Read| is_used(r), used[k]);
        let i = choose|i: int| 0 <= i < done.len() && done[i] == s.read;
        lemma_updated_keeps(stored[j], done);
        lemma_updated_at(stored[j], done, i);
    }
}

/// The `Used` reads among `reads` that stand for one chip lie at least
/// `period` seconds apart.
pub open spec fn spaced(parts: Seq<Participant>, reads: Seq<Read>, period: u64) -> bool {
    forall|a: int, b: int|
        0 <= a < reads.len() && 0 <= b < reads.len() && is_used(#[trigger] reads[a]) && is_used(
            #[trigger] reads[b],
        ) && canonical_chip(parts, reads[a]) == canonical_chip(parts, reads[b]) && reads[a].time()
            < reads[b].time() ==> reads[b].time() >= reads[a].time() + period * second_span()
}

/// What one stored read became when a cycle's statuses were stored: either it
/// was not judged and is unchanged, or it is the judged read `c.reads@[i]`,
/// with the same chip, ident type and time, and that read's status.
proof fn lemma_row_after_cycle(
    stored: Seq<Read>,
    next: u64,
    parts: Seq<Participant>,
    period: u64,
    c: Cycle,
    j: int,
) -> (i: int)
    requires
        keys_unique_reads(stored),
        ids_ascending_reads(stored, next),
        is_cycle_of(stored.filter(|x: Read| is_useful(x)), parts, period, c),
        0 <= j < stored.len(),
    ensures
        i == -1 ==> updated(stored[j], c.reads@) == stored[j],
        i != -1 ==> 0 <= i < c.reads@.len() && updated(stored[j], c.reads@).status == c.reads@[i].status
            && stored[j].chip == c.reads@[i].chip && stored[j].ident_type == c.reads@[i].ident_type
            && stored[j].time() == c.reads@[i].time(),
{
    let useful = stored.filter(|x: Read| is_useful(x));
    lemma_filter_keeps_order(stored, |x: Read| is_useful(x), next);
    let pending = useful.filter(|r: Read| is_unused(r));
    lemma_filter_keeps_order(useful, |r: Read| is_unused(r), next);
    let done = c.reads@;
    let back = done.map_values(|r: Read| r.with_status(ReadStatus::Unused));
    lemma_distinct_ids_carry(pending, back);
    assert forall|a: int, b: int| 0 <= a < done.len() && 0 <= b < done.len() && a != b implies done[a].id
        != done[b].id by {
        assert(back[a].id == done[a].id && back[b].id == done[b].id);
    }
    lemma_updated_keeps(stored[j], done);
    if exists|i: int| 0 <= i < done.len() && (#[trigger] done[i]).id == stored[j].id {
        let i = choose|i: int| 0 <= i < done.len() && (#[trigger] done[i]).id == stored[j].id;
        lemma_updated_at(stored[j], done, i);
        assert(back.contains(back[i]));
        assert(back.to_multiset().count(back[i]) > 0);
        assert(pending.contains(back[i]));
        useful.lemma_filter_contains_rev(|r: Read| is_unused(r), back[i]);
        stored.lemma_filter_contains_rev(|x: Read| is_useful(x), back[i]);
        let a = choose|a: int| 0 <= a < stored.len() && stored[a] == back[i];
        if a < j {
            assert(stored[a].id < stored[j].id);
        } else if j < a {
            assert(stored[j].id < stored[a].id);
        }
        i
    } else {
        -1
    }
}

/// A cycle keeps the quiet window over the whole reads table: if the stored
/// `Used` reads of each chip lay at least the sighting period apart before
/// the cycle's statuses were stored, they still do afterwards.
pub proof fn lemma_cycle_keeps_quiet_window(
    stored: Seq<Read>,
    next: u64,
    parts: Seq<Participant>,
    period: u64,
    c: Cycle,
    after: Seq<Read>,
)
    requires
        keys_unique_reads(stored),
        ids_ascending_reads(stored, next),
        is_cycle_of(stored.filter(|x: Read| is_useful(x)), parts, period, c),
        after.len() == stored.len(),
        forall|j: int| 0 <= j < after.len() ==> #[trigger] after[j] == updated(stored[j], c.reads@),
        spaced(parts, stored, period),
    ensures
        spaced(parts, after, period),
{
    let useful = stored.filter(|x: Read| is_useful(x));
    let done = c.reads@;
    lemma_quiet_window(useful, parts, period, c);
    assert forall|x: int, y: int|
        0 <= x < after.len() && 0 <= y < after.len() && is_used(#[trigger] after[x]) && is_used(
            #[trigger] after[y],
        ) && canonical_chip(parts, after[x]) == canonical_chip(parts, after[y]) && after[x].time()
            < after[y].time() implies after[y].time() >= after[x].time() + period * second_span() by {
        let ix = lemma_row_after_cycle(stored, next, parts, period, c, x);
        let iy = lemma_row_after_cycle(stored, next, parts, period, c, y);
        lemma_updated_keeps(stored[x], done);
        lemma_updated_keeps(stored[y], done);
        if ix == -1 && iy == -1 {
        } else if ix == -1 {
            stored.lemma_filter_contains(|x: Read| is_useful(x), x);
            let a = choose|a: int| 0 <= a < useful.len() && useful[a] == stored[x];
            assert(is_used(useful[a]) && is_used(done[iy]));
        } else if iy == -1 {
            stored.lemma_filter_contains(|x: Read| is_useful(x), y);
            let a = choose|a: int| 0 <= a < useful.len() && useful[a] == stored[y];
            assert(is_used(useful[a]) && is_used(done[ix]));
            assert(done[ix].time() >= useful[a].time() + period * second_span());
        } else {
            if iy < ix {
                assert(done[iy].time() <= done[ix].time());
            }
            assert(ix != iy);
            assert(is_used(done[ix]) && is_used(done[iy]));
        }
    }
}

} // verus!
