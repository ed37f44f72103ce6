use vstd::prelude::*;
use vstd::seq_lib::*;

use crate::participant::{is_placeholder_for, Participant};
use crate::read::{second_span, stamp, IdentType, Read, ReadStatus};

verus! {

broadcast use vstd::seq_lib::group_seq_properties, vstd::seq_lib::group_to_multiset_ensures;

/// A read credited to a participant.
#[derive(Debug, Clone)]
pub struct Sighting {
    pub participant: Participant,
    pub read: Read,
}

/// What one processing cycle decided: the unused reads, in the order they were
/// judged and with their new status; the placeholder participants to be stored;
/// and the sightings produced.
#[derive(Debug, Clone)]
pub struct Cycle {
    pub reads: Vec<Read>,
    pub participants: Vec<Participant>,
    pub sightings: Vec<Sighting>,
}

/// The chip of the last participant, in list order, that wears `bib`.
pub open spec fn chip_for_bib(parts: Seq<Participant>, bib: Seq<char>) -> Option<Seq<char>>
    decreases parts.len(),
{
    if parts.len() == 0 {
        None
    } else if parts.last().bib@ == bib {
        Some(parts.last().chip@)
    } else {
        chip_for_bib(parts.drop_last(), bib)
    }
}

/// The last participant, in list order, that carries `chip`.
pub open spec fn participant_for(parts: Seq<Participant>, chip: Seq<char>) -> Option<Participant>
    decreases parts.len(),
{
    if parts.len() == 0 {
        None
    } else if parts.last().chip@ == chip {
        Some(parts.last())
    } else {
        participant_for(parts.drop_last(), chip)
    }
}

/// The chip a read stands for: a bib is mapped through the participants,
/// and kept as it is when no participant wears it.
pub open spec fn canonical_chip(parts: Seq<Participant>, r: Read) -> Seq<char> {
    match r.ident_type {
        IdentType::Chip => r.chip@,
        IdentType::Bib => match chip_for_bib(parts, r.chip@) {
            Some(c) => c,
            None => r.chip@,
        },
    }
}

/// Whether a read at `r` on `chip` is clear of the quiet window, given the time
/// of the latest sighting of each chip: it is when the chip has none, or when
/// `r` comes at least `period` seconds after it.
pub open spec fn is_clear(latest: Map<Seq<char>, int>, chip: Seq<char>, r: Read, period: u64) -> bool {
    !latest.contains_key(chip) || r.time() >= latest[chip] + period * second_span()
}

/// The time of the latest `Used` read of each chip among `reads`.
pub open spec fn latest_used(parts: Seq<Participant>, reads: Seq<Read>) -> Map<Seq<char>, int>
    decreases reads.len(),
{
    if reads.len() == 0 {
        Map::empty()
    } else {
        let m = latest_used(parts, reads.drop_last());
        let r = reads.last();
        let c = canonical_chip(parts, r);
        if r.status == ReadStatus::Used && !(m.contains_key(c) && m[c] >= r.time()) {
            m.insert(c, r.time())
        } else {
            m
        }
    }
}

/// The time of the latest sighting of each chip after judging `seq` in order,
/// starting from `start`.
pub open spec fn window_after(
    parts: Seq<Participant>,
    start: Map<Seq<char>, int>,
    seq: Seq<Read>,
    period: u64,
) -> Map<Seq<char>, int>
    decreases seq.len(),
{
    if seq.len() == 0 {
        start
    } else {
        let m = window_after(parts, start, seq.drop_last(), period);
        let r = seq.last();
        let c = canonical_chip(parts, r);
        if is_clear(m, c, r, period) {
            m.insert(c, r.time())
        } else {
            m
        }
    }
}

/// The status given to `seq[i]` when `seq` is judged in order.
pub open spec fn verdict(
    parts: Seq<Participant>,
    start: Map<Seq<char>, int>,
    seq: Seq<Read>,
    period: u64,
    i: int,
) -> ReadStatus {
    if is_clear(window_after(parts, start, seq.take(i), period), canonical_chip(parts, seq[i]), seq[i], period) {
        ReadStatus::Used
    } else {
        ReadStatus::TooSoon
    }
}

/// The chips among `seq` that no participant carries, each once, in order of
/// first appearance: those for which a placeholder is made.
pub open spec fn unknown_chips(parts: Seq<Participant>, seq: Seq<Read>) -> Seq<Seq<char>>
    decreases seq.len(),
{
    if seq.len() == 0 {
        Seq::empty()
    } else {
        let s = unknown_chips(parts, seq.drop_last());
        let c = canonical_chip(parts, seq.last());
        if participant_for(parts, c) is Some || s.contains(c) {
            s
        } else {
            s.push(c)
        }
    }
}

pub open spec fn is_unused(r: Read) -> bool {
    r.status == ReadStatus::Unused
}

pub open spec fn is_used(r: Read) -> bool {
    r.status == ReadStatus::Used
}

/// `s` credits its read to the participant carrying the read's chip, or to
/// that chip's placeholder.
pub open spec fn credited(parts: Seq<Participant>, s: Sighting) -> bool {
    let c = canonical_chip(parts, s.read);
    match participant_for(parts, c) {
        Some(p) => s.participant == p,
        None => is_placeholder_for(s.participant, c),
    }
}

/// Everything one cycle over `reads` and `parts` with the given quiet period
/// decides.
pub open spec fn is_cycle_of(reads: Seq<Read>, parts: Seq<Participant>, period: u64, c: Cycle) -> bool {
    let done = c.reads@;
    &&& done.map_values(|r: Read| r.with_status(ReadStatus::Unused)).to_multiset()
        == reads.filter(|r: Read| is_unused(r)).to_multiset()
    &&& forall|i: int, j: int| 0 <= i < j < done.len() ==> done[i].time() <= done[j].time()
    &&& forall|i: int| 0 <= i < done.len() ==> #[trigger] done[i].status == verdict(
        parts,
        latest_used(parts, reads),
        done,
        period,
        i,
    )
    &&& c.participants@.len() == unknown_chips(parts, done).len()
    &&& forall|k: int| 0 <= k < c.participants@.len() ==> is_placeholder_for(
        #[trigger] c.participants@[k],
        unknown_chips(parts, done)[k],
    )
    &&& c.sightings@.map_values(|s: Sighting| s.read) == done.filter(|r: Read| is_used(r))
    &&& forall|k: int| 0 <= k < c.sightings@.len() ==> credited(parts, #[trigger] c.sightings@[k])
}

/// The chip that `r` stands for among `parts`.
pub fn resolve_chip(parts: &Vec<Participant>, r: &Read) -> (c: String)
    ensures
        c@ == canonical_chip(parts@, *r),
{
    match r.ident_type {
        IdentType::Chip => r.chip.clone(),
        IdentType::Bib => {
            let mut i = parts.len();
            assert(parts@.take(i as int) =~= parts@);
            while i > 0
                invariant
                    i <= parts@.len(),
                    r.ident_type == IdentType::Bib,
                    chip_for_bib(parts@, r.chip@) == chip_for_bib(parts@.take(i as int), r.chip@),
                decreases i,
            {
                assert(parts@.take(i as int).drop_last() =~= parts@.take(i - 1));
                assert(parts@.take(i as int).last() == parts@[i - 1]);
                if parts[i - 1].bib == r.chip {
                    return parts[i - 1].chip.clone();
                }
                i = i - 1;
            }
            assert(parts@.take(0) =~= Seq::<Participant>::empty());
            r.chip.clone()
        },
    }
}

/// The position of the last participant carrying `chip`, if any.
fn find_participant(parts: &Vec<Participant>, chip: &String) -> (r: Option<usize>)
    ensures
        match r {
            Some(i) => i < parts@.len() && participant_for(parts@, chip@) == Some(parts@[i as int]),
            None => participant_for(parts@, chip@) is None,
        },
{
    let mut i = parts.len();
    assert(parts@.take(i as int) =~= parts@);
    while i > 0
        invariant
            i <= parts@.len(),
            participant_for(parts@, chip@) == participant_for(parts@.take(i as int), chip@),
        decreases i,
    {
        assert(parts@.take(i as int).drop_last() =~= parts@.take(i - 1));
        assert(parts@.take(i as int).last() == parts@[i - 1]);
        if parts[i - 1].chip == *chip {
            return Some(i - 1);
        }
        i = i - 1;
    }
    assert(parts@.take(0) =~= Seq::<Participant>::empty());
    None
}

/// The map that a log of `(chip, seconds, milliseconds)` entries stands for:
/// a later entry for a chip overrides the earlier ones.
pub open spec fn log_map(log: Seq<(String, u64, u32)>) -> Map<Seq<char>, int>
    decreases log.len(),
{
    if log.len() == 0 {
        Map::empty()
    } else {
        log_map(log.drop_last()).insert(log.last().0@, stamp(log.last().1, log.last().2))
    }
}

proof fn lemma_stamp_order(a_s: int, a_m: int, b_s: int, b_m: int)
    requires
        0 <= a_m < second_span(),
        0 <= b_m < second_span(),
    ensures
        (a_s * second_span() + a_m < b_s * second_span() + b_m) <==> (a_s < b_s || (a_s == b_s
            && a_m < b_m)),
{
    assert((a_s * 4294967296 + a_m < b_s * 4294967296 + b_m) <==> (a_s < b_s || (a_s == b_s
        && a_m < b_m))) by (nonlinear_arith)
        requires
            0 <= a_m < 4294967296,
            0 <= b_m < 4294967296,
    ;
}

/// The time logged last for `chip`, if any.
fn log_lookup(log: &Vec<(String, u64, u32)>, chip: &String) -> (r: Option<(u64, u32)>)
    ensures
        match r {
            Some((s, ms)) => log_map(log@).contains_key(chip@) && log_map(log@)[chip@] == stamp(
                s,
                ms,
            ),
            None => !log_map(log@).contains_key(chip@),
        },
{
    let mut i = log.len();
    assert(log@.take(i as int) =~= log@);
    while i > 0
        invariant
            i <= log@.len(),
            log_map(log@).contains_key(chip@) == log_map(log@.take(i as int)).contains_key(chip@),
            log_map(log@).contains_key(chip@) ==> log_map(log@)[chip@] == log_map(
                log@.take(i as int),
            )[chip@],
        decreases i,
    {
        assert(log@.take(i as int).drop_last() =~= log@.take(i - 1));
        assert(log@.take(i as int).last() == log@[i - 1]);
        if log[i - 1].0 == *chip {
            return Some((log[i - 1].1, log[i - 1].2));
        }
        i = i - 1;
    }
    assert(log@.take(0) =~= Seq::<(String, u64, u32)>::empty());
    None
}

pub proof fn lemma_participant_for_some(parts: Seq<Participant>, chip: Seq<char>)
    ensures
        participant_for(parts, chip) is Some <==> exists|k: int|
            0 <= k < parts.len() && (#[trigger] parts[k]).chip@ == chip,
        participant_for(parts, chip) is Some ==> participant_for(parts, chip)->0.chip@ == chip,
        participant_for(parts, chip) is Some ==> parts.contains(participant_for(parts, chip)->0),
    decreases parts.len(),
{
    if parts.len() > 0 {
        lemma_participant_for_some(parts.drop_last(), chip);
        if parts.last().chip@ == chip {
            assert(parts[parts.len() - 1] == parts.last());
        } else if participant_for(parts.drop_last(), chip) is Some {
            let p = participant_for(parts.drop_last(), chip)->0;
            let k = choose|k: int| 0 <= k < parts.drop_last().len() && parts.drop_last()[k] == p;
            assert(parts[k] == p);
        }
        if participant_for(parts.drop_last(), chip) is Some {
            let k = choose|k: int|
                0 <= k < parts.drop_last().len() && (#[trigger] parts.drop_last()[k]).chip@
                    == chip;
            assert(parts[k] == parts.drop_last()[k]);
        }
        if exists|k: int| 0 <= k < parts.len() && (#[trigger] parts[k]).chip@ == chip {
            let k = choose|k: int| 0 <= k < parts.len() && (#[trigger] parts[k]).chip@ == chip;
            if k < parts.len() - 1 {
                assert(parts.drop_last()[k] == parts[k]);
            }
        }
    }
}

/// The unused reads of `reads`, ordered by time.
fn pending_in_order(reads: &Vec<Read>) -> (v: Vec<Read>)
    ensures
        v@.to_multiset() == reads@.filter(|r: Read| is_unused(r)).to_multiset(),
        forall|i: int, j: int| 0 <= i < j < v@.len() ==> v@[i].time() <= v@[j].time(),
        forall|i: int| 0 <= i < v@.len() ==> is_unused(#[trigger] v@[i]),
{
    let mut v: Vec<Read> = Vec::new();
    let mut i: usize = 0;
    while i < reads.len()
        invariant
            i <= reads@.len(),
            v@.to_multiset() == reads@.take(i as int).filter(|r: Read| is_unused(r)).to_multiset(),
            forall|a: int, b: int| 0 <= a < b < v@.len() ==> v@[a].time() <= v@[b].time(),
            forall|a: int| 0 <= a < v@.len() ==> is_unused(#[trigger] v@[a]),
        decreases reads@.len() - i,
    {
        assert(reads@.take(i + 1) =~= reads@.take(i as int).push(reads@[i as int]));
        proof {
            reads@.take(i as int).lemma_filter_push(reads@[i as int], |r: Read| is_unused(r));
        }
        if reads[i].status == ReadStatus::Unused {
            let r = reads[i].duplicate();
            let mut pos: usize = 0;
            while pos < v.len() && !r.is_before(&v[pos])
                invariant
                    pos <= v@.len(),
                    forall|a: int| 0 <= a < pos ==> v@[a].time() <= r.time(),
                decreases v@.len() - pos,
            {
                pos = pos + 1;
            }
            let ghost old_v = v@;
            v.insert(pos, r);
            proof {
                to_multiset_insert(old_v, pos as int, r);
                assert forall|a: int, b: int| 0 <= a < b < v@.len() implies v@[a].time()
                    <= v@[b].time() by {
                    if b == pos {
                    } else if a == pos {
                        assert(v@[b] == old_v[b - 1]);
                        assert(old_v[pos as int].time() <= old_v[b - 1].time());
                    } else {
                        let oa = if a < pos { a } else { a - 1 };
                        let ob = if b < pos { b } else { b - 1 };
                        assert(v@[a] == old_v[oa]);
                        assert(v@[b] == old_v[ob]);
                    }
                }
                assert forall|a: int| 0 <= a < v@.len() implies is_unused(#[trigger] v@[a]) by {
                    if a < pos {
                        assert(v@[a] == old_v[a]);
                    } else if a > pos {
                        assert(v@[a] == old_v[a - 1]);
                    }
                }
            }
        }
        i = i + 1;
    }
    assert(reads@.take(i as int) =~= reads@);
    v
}

/// A log of the latest `Used` read of each chip among `reads`.
fn latest_of_used(reads: &Vec<Read>, parts: &Vec<Participant>) -> (log: Vec<(String, u64, u32)>)
    ensures
        log_map(log@) == latest_used(parts@, reads@),
{
    let mut log: Vec<(String, u64, u32)> = Vec::new();
    let mut i: usize = 0;
    while i < reads.len()
        invariant
            i <= reads@.len(),
            log_map(log@) == latest_used(parts@, reads@.take(i as int)),
        decreases reads@.len() - i,
    {
        assert(reads@.take(i + 1).drop_last() =~= reads@.take(i as int));
        assert(reads@.take(i + 1).last() == reads@[i as int]);
        let r = &reads[i];
        if r.status == ReadStatus::Used {
            let c = resolve_chip(parts, r);
            let newer = match log_lookup(&log, &c) {
                None => true,
                Some((s, ms)) => {
                    proof {
                        lemma_stamp_order(s as int, ms as int, r.seconds as int, r.milliseconds as int);
                    }
                    s < r.seconds || (s == r.seconds && ms < r.milliseconds)
                },
            };
            if newer {
                let ghost old_log = log@;
                log.push((c, r.seconds, r.milliseconds));
                assert(log@.drop_last() =~= old_log);
            }
        }
        i = i + 1;
    }
    assert(reads@.take(i as int) =~= reads@);
    log
}

/// Judges the unused reads among `reads` against the quiet window of `period`
/// seconds: in time order, a read becomes `Used` and yields a sighting unless
/// its chip was sighted less than `period` seconds before it, in which case it
/// becomes `TooSoon`. A chip that no participant carries gets a placeholder
/// participant. Nothing is decided when no read is unused.
#[verifier::loop_isolation(false)]
pub fn classify(reads: &Vec<Read>, parts: &Vec<Participant>, period: u64) -> (c: Cycle)
    ensures
        is_cycle_of(reads@, parts@, period, c),
{
    let ghost start = latest_used(parts@, reads@);
    let mut log = latest_of_used(reads, parts);
    let pending = pending_in_order(reads);
    let mut done: Vec<Read> = Vec::new();
    let mut staged: Vec<Participant> = Vec::new();
    let mut sightings: Vec<Sighting> = Vec::new();
    let mut i: usize = 0;
    while i < pending.len()
        invariant
            i <= pending@.len(),
            done@.len() == i,
            done@.map_values(|r: Read| r.with_status(ReadStatus::Unused)) == pending@.take(i as int),
            forall|k: int| 0 <= k < i ==> #[trigger] done@[k].status == verdict(
                parts@,
                start,
                done@,
                period,
                k,
            ),
            log_map(log@) == window_after(parts@, start, done@, period),
            staged@.len() == unknown_chips(parts@, done@).len(),
            forall|k: int| 0 <= k < staged@.len() ==> is_placeholder_for(
                #[trigger] staged@[k],
                unknown_chips(parts@, done@)[k],
            ),
            sightings@.map_values(|s: Sighting| s.read) == done@.filter(|r: Read| is_used(r)),
            forall|k: int| 0 <= k < sightings@.len() ==> credited(parts@, #[trigger] sightings@[k]),
        decreases pending@.len() - i,
    {
        let chip = resolve_chip(parts, &pending[i]);
        let ghost old_done = done@;
        let ghost old_staged = staged@;
        proof {
            lemma_participant_for_some(parts@, chip@);
            lemma_participant_for_some(staged@, chip@);
        }
        // the participant the read would be credited to
        let who = match find_participant(parts, &chip) {
            Some(k) => parts[k].duplicate(),
            None => match find_participant(&staged, &chip) {
                Some(k) => staged[k].duplicate(),
                None => {
                    let p = Participant::placeholder(&chip);
                    staged.push(p.duplicate());
                    p
                },
            },
        };
        proof {
            let u = unknown_chips(parts@, old_done);
            assert(u.contains(chip@) <==> participant_for(old_staged, chip@) is Some) by {
                if u.contains(chip@) {
                    let k = choose|k: int| 0 <= k < u.len() && u[k] == chip@;
                    assert(is_placeholder_for(old_staged[k], u[k]));
                }
                if participant_for(old_staged, chip@) is Some {
                    let k = choose|k: int|
                        0 <= k < old_staged.len() && (#[trigger] old_staged[k]).chip@ == chip@;
                    assert(is_placeholder_for(old_staged[k], u[k]));
                }
            }
        }
        let r = &pending[i];
        let clear = match log_lookup(&log, &chip) {
            None => true,
            Some((s, ms)) => {
                proof {
                    lemma_stamp_order(
                        r.seconds as int,
                        r.milliseconds as int,
                        s as int + period as int,
                        ms as int,
                    );
                }
                if s > u64::MAX - period {
                    false
                } else {
                    !(s + period > r.seconds || (s + period == r.seconds && ms > r.milliseconds))
                }
            },
        };
        let mut judged = r.duplicate();
        judged.status = if clear { ReadStatus::Used } else { ReadStatus::TooSoon };
        if clear {
            let ghost old_log = log@;
            log.push((chip, r.seconds, r.milliseconds));
            assert(log@.drop_last() =~= old_log);
            let ghost old_sightings = sightings@;
            sightings.push(Sighting { participant: who, read: judged.duplicate() });
            assert(sightings@.map_values(|s: Sighting| s.read) =~= old_sightings.map_values(
                |s: Sighting| s.read,
            ).push(judged));
        }
        done.push(judged);
        proof {
            assert(done@.drop_last() =~= old_done);
            assert(done@.take(i as int) =~= old_done);
            old_done.lemma_filter_push(judged, |r: Read| is_used(r));
            assert(done@.map_values(|r: Read| r.with_status(ReadStatus::Unused)) =~= pending@.take(
                i + 1,
            ));
            assert forall|k: int| 0 <= k < i + 1 implies #[trigger] done@[k].status == verdict(
                parts@,
                start,
                done@,
                period,
                k,
            ) by {
                assert(done@.take(k) =~= old_done.take(k));
            }
        }
        i = i + 1;
    }
    assert(pending@.take(i as int) =~= pending@);
    assert forall|a: int, b: int| 0 <= a < b < done@.len() implies done@[a].time()
        <= done@[b].time() by {
        assert(done@.map_values(|r: Read| r.with_status(ReadStatus::Unused))[a] == pending@[a]);
        assert(done@.map_values(|r: Read| r.with_status(ReadStatus::Unused))[b] == pending@[b]);
    }
    Cycle { reads: done, participants: staged, sightings }
}

/// Puts the stored participants into `sightings`: each sighting is credited to
/// the stored participant that carries its participant's chip, so that it holds
/// the identifiers the store gave. `None` when some chip has no stored
/// participant.
pub fn attach_ids(sightings: &Vec<Sighting>, stored: &Vec<Participant>) -> (r: Option<Vec<Sighting>>)
    ensures
        is_attachment(sightings@, stored@, r),
{
    let mut out: Vec<Sighting> = Vec::new();
    let mut i: usize = 0;
    while i < sightings.len()
        invariant
            i <= sightings@.len(),
            out@.len() == i,
            forall|k: int| 0 <= k < i ==> #[trigger] out@[k].read == sightings@[k].read
                && participant_for(stored@, sightings@[k].participant.chip@) == Some(
                out@[k].participant,
            ),
        decreases sightings@.len() - i,
    {
        match find_participant(stored, &sightings[i].participant.chip) {
            Some(k) => {
                out.push(
                    Sighting {
                        participant: stored[k].duplicate(),
                        read: sightings[i].read.duplicate(),
                    },
                );
            },
            None => {
                return None;
            },
        }
        i = i + 1;
    }
    Some(out)
}

/// `r` is what `attach_ids` gives for `sightings` and `stored`.
pub open spec fn is_attachment(
    sightings: Seq<Sighting>,
    stored: Seq<Participant>,
    r: Option<Vec<Sighting>>,
) -> bool {
    match r {
        None => exists|k: int|
            0 <= k < sightings.len() && participant_for(
                stored,
                (#[trigger] sightings[k]).participant.chip@,
            ) is None,
        Some(v) => v@.len() == sightings.len() && forall|k: int|
            0 <= k < sightings.len() ==> #[trigger] v@[k].read == sightings[k].read
                && participant_for(stored, sightings[k].participant.chip@) == Some(
                v@[k].participant,
            ),
    }
}

proof fn lemma_latest_used_bounds(parts: Seq<Participant>, reads: Seq<Read>)
    ensures
        forall|a: int|
            0 <= a < reads.len() && is_used(#[trigger] reads[a]) ==> latest_used(
                parts,
                reads,
            ).contains_key(canonical_chip(parts, reads[a])) && latest_used(parts, reads)[canonical_chip(
                parts,
                reads[a],
            )] >= reads[a].time(),
    decreases reads.len(),
{
    if reads.len() > 0 {
        let prev = reads.drop_last();
        lemma_latest_used_bounds(parts, prev);
        assert forall|a: int| 0 <= a < reads.len() - 1 && is_used(#[trigger] reads[a]) implies latest_used(
            parts,
            reads,
        ).contains_key(canonical_chip(parts, reads[a])) && latest_used(parts, reads)[canonical_chip(
            parts,
            reads[a],
        )] >= reads[a].time() by {
            assert(prev[a] == reads[a]);
        }
    }
}

proof fn lemma_window_grows(parts: Seq<Participant>, start: Map<Seq<char>, int>, seq: Seq<Read>, period: u64, k: int, chip: Seq<char>)
    requires
        0 <= k <= seq.len(),
        window_after(parts, start, seq.take(k), period).contains_key(chip),
    ensures
        window_after(parts, start, seq, period).contains_key(chip),
        window_after(parts, start, seq, period)[chip] >= window_after(parts, start, seq.take(k), period)[chip],
    decreases seq.len() - k,
{
    if k < seq.len() {
        let next = seq.take(k + 1);
        assert(next.drop_last() =~= seq.take(k));
        assert(next.take(k) =~= seq.take(k));
        assert(seq.take(k + 1).take(k + 1) =~= seq.take(k + 1));
        assert(window_after(parts, start, next, period).contains_key(chip));
        lemma_window_grows(parts, start, seq, period, k + 1, chip);
    } else {
        assert(seq.take(k) =~= seq);
    }
}

/// The quiet window holds after a cycle: two `Used` reads of one chip lie at
/// least the sighting period apart, whether both were judged in the cycle or
/// one of them was already `Used` before it.
pub proof fn lemma_quiet_window(reads: Seq<Read>, parts: Seq<Participant>, period: u64, c: Cycle)
    requires
        is_cycle_of(reads, parts, period, c),
    ensures
        forall|i: int, j: int|
            0 <= i < j < c.reads@.len() && is_used(#[trigger] c.reads@[i]) && is_used(
                #[trigger] c.reads@[j],
            ) && canonical_chip(parts, c.reads@[i]) == canonical_chip(parts, c.reads@[j])
                ==> c.reads@[j].time() >= c.reads@[i].time() + period * second_span(),
        forall|a: int, j: int|
            0 <= a < reads.len() && 0 <= j < c.reads@.len() && is_used(#[trigger] reads[a])
                && is_used(#[trigger] c.reads@[j]) && canonical_chip(parts, reads[a])
                == canonical_chip(parts, c.reads@[j]) ==> c.reads@[j].time() >= reads[a].time()
                + period * second_span(),
{
    let done = c.reads@;
    let start = latest_used(parts, reads);
    lemma_latest_used_bounds(parts, reads);
    assert forall|i: int, j: int|
        0 <= i < j < done.len() && is_used(#[trigger] done[i]) && is_used(#[trigger] done[j])
            && canonical_chip(parts, done[i]) == canonical_chip(parts, done[j]) implies done[j].time()
        >= done[i].time() + period * second_span() by {
        let ch = canonical_chip(parts, done[i]);
        assert(done[i].status == verdict(parts, start, done, period, i));
        assert(done[j].status == verdict(parts, start, done, period, j));
        let pre = done.take(j);
        assert(pre.take(i + 1).drop_last() =~= done.take(i));
        assert(pre.take(i + 1).last() == done[i]);
        assert(window_after(parts, start, pre.take(i + 1), period).contains_key(ch));
        lemma_window_grows(parts, start, pre, period, i + 1, ch);
    }
    assert forall|a: int, j: int|
        0 <= a < reads.len() && 0 <= j < done.len() && is_used(#[trigger] reads[a]) && is_used(
            #[trigger] done[j],
        ) && canonical_chip(parts, reads[a]) == canonical_chip(parts, done[j]) implies done[j].time()
        >= reads[a].time() + period * second_span() by {
        let ch = canonical_chip(parts, reads[a]);
        assert(done[j].status == verdict(parts, start, done, period, j));
        let pre = done.take(j);
        assert(pre.take(0) =~= Seq::<Read>::empty());
        lemma_window_grows(parts, start, pre, period, 0, ch);
    }
}

/// Each chip a sequence of reads stands for is carried by a participant or
/// is among the sequence's unknown chips.
pub proof fn lemma_chips_covered(parts: Seq<Participant>, seq: Seq<Read>)
    ensures
        forall|i: int|
            0 <= i < seq.len() ==> participant_for(parts, canonical_chip(parts, #[trigger] seq[i]))
                is Some || unknown_chips(parts, seq).contains(canonical_chip(parts, seq[i])),
    decreases seq.len(),
{
    if seq.len() > 0 {
        let prev = seq.drop_last();
        lemma_chips_covered(parts, prev);
        let u = unknown_chips(parts, prev);
        assert forall|i: int| 0 <= i < seq.len() implies participant_for(
            parts,
            canonical_chip(parts, #[trigger] seq[i]),
        ) is Some || unknown_chips(parts, seq).contains(canonical_chip(parts, seq[i])) by {
            let ch = canonical_chip(parts, seq[i]);
            if i < seq.len() - 1 {
                assert(prev[i] == seq[i]);
                if u.contains(ch) {
                    let k = choose|k: int| 0 <= k < u.len() && u[k] == ch;
                    if !(participant_for(parts, canonical_chip(parts, seq.last())) is Some
                        || u.contains(canonical_chip(parts, seq.last()))) {
                        assert(u.push(canonical_chip(parts, seq.last()))[k] == ch);
                    }
                }
            } else {
                let last = canonical_chip(parts, seq.last());
                if !(participant_for(parts, last) is Some || u.contains(last)) {
                    assert(u.push(last)[u.len() as int] == last);
                }
            }
        }
    }
}

/// Every chip that a cycle judged, and so every chip of a read it made
/// `Used`, is carried by a participant: one already known, or one of the
/// placeholders the cycle stages.
pub proof fn lemma_judged_chips_have_participant(
    reads: Seq<Read>,
    parts: Seq<Participant>,
    period: u64,
    c: Cycle,
)
    requires
        is_cycle_of(reads, parts, period, c),
    ensures
        forall|j: int|
            0 <= j < c.reads@.len() ==> (exists|p: Participant| #[trigger] parts.contains(p)
                && p.chip@ == canonical_chip(parts, #[trigger] c.reads@[j])) || (exists|k: int|
                0 <= k < c.participants@.len() && (#[trigger] c.participants@[k]).chip@
                    == canonical_chip(parts, c.reads@[j])),
{
    let done = c.reads@;
    lemma_chips_covered(parts, done);
    assert forall|j: int| 0 <= j < done.len() implies (exists|p: Participant|
        #[trigger] parts.contains(p) && p.chip@ == canonical_chip(parts, #[trigger] done[j])) || (
    exists|k: int|
        0 <= k < c.participants@.len() && (#[trigger] c.participants@[k]).chip@ == canonical_chip(
            parts,
            done[j],
        )) by {
        let ch = canonical_chip(parts, done[j]);
        lemma_participant_for_some(parts, ch);
        if participant_for(parts, ch) is Some {
            assert(parts.contains(participant_for(parts, ch)->0));
        } else {
            let u = unknown_chips(parts, done);
            let k = choose|k: int| 0 <= k < u.len() && u[k] == ch;
            assert(is_placeholder_for(c.participants@[k], u[k]));
        }
    }
}

/// After a cycle whose sightings were given the stored participants, each
/// sighting names a participant held by the store, carrying the read's chip,
/// and its read is `Used`.
pub proof fn lemma_sightings_credited(
    reads: Seq<Read>,
    parts: Seq<Participant>,
    period: u64,
    c: Cycle,
    stored: Seq<Participant>,
    attached: Vec<Sighting>,
)
    requires
        is_cycle_of(reads, parts, period, c),
        is_attachment(c.sightings@, stored, Some(attached)),
    ensures
        forall|k: int|
            0 <= k < attached@.len() ==> stored.contains((#[trigger] attached@[k]).participant)
                && attached@[k].participant.chip@ == canonical_chip(parts, attached@[k].read)
                && is_used(attached@[k].read),
{
    let done = c.reads@;
    let f = |s: Sighting| s.read;
    let used = done.filter(|r: Read| is_used(r));
    assert forall|k: int| 0 <= k < attached@.len() implies stored.contains(
        (#[trigger] attached@[k]).participant,
    ) && attached@[k].participant.chip@ == canonical_chip(parts, attached@[k].read) && is_used(
        attached@[k].read,
    ) by {
        let s = c.sightings@[k];
        assert(c.sightings@.map_values(f)[k] == used[k]);
        done.lemma_filter_pred(|r: Read| is_used(r), k);
        assert(credited(parts, s));
        lemma_participant_for_some(stored, s.participant.chip@);
        let ch = canonical_chip(parts, s.read);
        lemma_participant_for_some(parts, ch);
    }
}

/// A cycle over reads none of which is unused decides nothing: no read is
/// judged, no participant staged, no sighting produced. Since a cycle leaves
/// every read it judges `Used` or `TooSoon`, a second cycle run once the first
/// one's statuses are stored, with no new reads, produces no sighting.
pub proof fn lemma_idle_cycle(reads: Seq<Read>, parts: Seq<Participant>, period: u64, c: Cycle)
    requires
        is_cycle_of(reads, parts, period, c),
    ensures
        forall|j: int| 0 <= j < c.reads@.len() ==> !is_unused(#[trigger] c.reads@[j]),
        (forall|a: int| 0 <= a < reads.len() ==> !is_unused(#[trigger] reads[a])) ==> c.reads@.len()
            == 0 && c.participants@.len() == 0 && c.sightings@.len() == 0,
{
    let done = c.reads@;
    let start = latest_used(parts, reads);
    assert forall|j: int| 0 <= j < done.len() implies !is_unused(#[trigger] done[j]) by {
        assert(done[j].status == verdict(parts, start, done, period, j));
    }
    if forall|a: int| 0 <= a < reads.len() ==> !is_unused(#[trigger] reads[a]) {
        let pending = reads.filter(|r: Read| is_unused(r));
        if pending.len() > 0 {
            reads.lemma_filter_pred(|r: Read| is_unused(r), 0);
            assert(pending.contains(pending[0]));
            reads.lemma_filter_contains_rev(|r: Read| is_unused(r), pending[0]);
        }
        assert(pending =~= Seq::<Read>::empty());
        let back = done.map_values(|r: Read| r.with_status(ReadStatus::Unused));
        to_multiset_len(back);
        to_multiset_len(pending);
        assert(done =~= Seq::<Read>::empty());
        assert(done.filter(|r: Read| is_used(r)).len() == 0) by {
            done.lemma_filter_len(|r: Read| is_used(r));
        }
        assert(c.sightings@.map_values(|s: Sighting| s.read).len() == 0);
    }
}

/// A credited sighting whose chip some participant carries names one of the
/// participants.
pub proof fn lemma_credited_member(parts: Seq<Participant>, s: Sighting)
    requires
        credited(parts, s),
        exists|p: Participant| #[trigger] parts.contains(p) && p.chip@ == canonical_chip(parts, s.read),
    ensures
        parts.contains(s.participant),
{
    let ch = canonical_chip(parts, s.read);
    lemma_participant_for_some(parts, ch);
    let p = choose|p: Participant| #[trigger] parts.contains(p) && p.chip@ == ch;
    let k = choose|k: int| 0 <= k < parts.len() && parts[k] == p;
    assert(parts[k].chip@ == ch);
}

} // verus!
