use vstd::prelude::*;

verus! {

/// Where a read stands in sighting processing.
#[derive(Debug, Clone, Copy, PartialEq, Eq, Structural)]
pub enum ReadStatus {
    /// Not yet looked at by the sightings processor.
    Unused,
    /// Produced a sighting.
    Used,
    /// Fell inside the quiet window of an earlier sighting of the same chip.
    TooSoon,
    /// Set aside by the operator.
    Ignored,
}

impl ReadStatus {
    /// The number the status is stored as.
    pub open spec fn spec_code(self) -> u8 {
        match self {
            ReadStatus::Unused => 0,
            ReadStatus::Used => 1,
            ReadStatus::TooSoon => 2,
            ReadStatus::Ignored => 3,
        }
    }

    pub fn code(&self) -> (c: u8)
        ensures
            c == self.spec_code(),
    {
        match self {
            ReadStatus::Unused => 0,
            ReadStatus::Used => 1,
            ReadStatus::TooSoon => 2,
            ReadStatus::Ignored => 3,
        }
    }

    /// The status stored as `c`, if any.
    pub fn from_code(c: u8) -> (r: Option<ReadStatus>)
        ensures
            match r {
                Some(s) => s.spec_code() == c,
                None => c > 3,
            },
    {
        match c {
            0 => Some(ReadStatus::Unused),
            1 => Some(ReadStatus::Used),
            2 => Some(ReadStatus::TooSoon),
            3 => Some(ReadStatus::Ignored),
            _ => None,
        }
    }
}

/// What the `chip` field of a read holds.
#[derive(Debug, Clone, Copy, PartialEq, Eq, Structural)]
pub enum IdentType {
    /// A raw chip identifier.
    Chip,
    /// A bib number, to be mapped to the participant's chip.
    Bib,
}

/// A single chip observation made by a reader.
#[derive(Debug, Clone)]
pub struct Read {
    pub id: u64,
    pub chip: String,
    pub seconds: u64,
    pub milliseconds: u32,
    pub reader_seconds: u64,
    pub reader_milliseconds: u32,
    pub antenna: u32,
    pub reader: String,
    pub rssi: String,
    pub ident_type: IdentType,
    pub status: ReadStatus,
    pub uploaded: bool,
}

/// One second in the units of `stamp`: milliseconds always fit below it.
pub open spec fn second_span() -> int {
    4294967296
}

/// A point in time `(seconds, milliseconds)` as one integer; ordering stamps is
/// ordering the pairs lexicographically.
pub open spec fn stamp(seconds: u64, milliseconds: u32) -> int {
    seconds as int * second_span() + milliseconds as int
}

impl Read {
    pub open spec fn time(&self) -> int {
        stamp(self.seconds, self.milliseconds)
    }

    /// The key on which the store keeps reads unique.
    pub open spec fn key(&self) -> (Seq<char>, u64, u32) {
        (self.chip@, self.seconds, self.milliseconds)
    }

    /// The same read with its status replaced.
    pub open spec fn with_status(self, status: ReadStatus) -> Read {
        Read { status, ..self }
    }

    /// The same read marked as uploaded.
    pub open spec fn marked_uploaded(self) -> Read {
        Read { uploaded: true, ..self }
    }

    /// A new, unprocessed read as a reader session hands it over.
    pub fn new(
        chip: String,
        seconds: u64,
        milliseconds: u32,
        reader_seconds: u64,
        reader_milliseconds: u32,
        antenna: u32,
        reader: String,
        rssi: String,
        ident_type: IdentType,
    ) -> (r: Read)
        ensures
            r.id == 0,
            r.chip == chip,
            r.seconds == seconds,
            r.milliseconds == milliseconds,
            r.reader_seconds == reader_seconds,
            r.reader_milliseconds == reader_milliseconds,
            r.antenna == antenna,
            r.reader == reader,
            r.rssi == rssi,
            r.ident_type == ident_type,
            r.status == ReadStatus::Unused,
            !r.uploaded,
    {
        Read {
            id: 0,
            chip,
            seconds,
            milliseconds,
            reader_seconds,
            reader_milliseconds,
            antenna,
            reader,
            rssi,
            ident_type,
            status: ReadStatus::Unused,
            uploaded: false,
        }
    }

    /// A field-by-field copy.
    pub fn duplicate(&self) -> (r: Read)
        ensures
            r == *self,
    {
        Read {
            id: self.id,
            chip: self.chip.clone(),
            seconds: self.seconds,
            milliseconds: self.milliseconds,
            reader_seconds: self.reader_seconds,
            reader_milliseconds: self.reader_milliseconds,
            antenna: self.antenna,
            reader: self.reader.clone(),
            rssi: self.rssi.clone(),
            ident_type: self.ident_type,
            status: self.status,
            uploaded: self.uploaded,
        }
    }

    /// Whether `self` was taken strictly before `other`.
    pub fn is_before(&self, other: &Read) -> (r: bool)
        ensures
            r == (self.time() < other.time()),
    {
        self.seconds < other.seconds || (self.seconds == other.seconds && self.milliseconds
            < other.milliseconds)
    }

    /// Whether `self` and `other` share the store's unique key.
    pub fn same_key(&self, other: &Read) -> (r: bool)
        ensures
            r == (self.key() == other.key()),
    {
        self.seconds == other.seconds && self.milliseconds == other.milliseconds && self.chip
            == other.chip
    }
}

} // verus!
