use vstd::prelude::*;

verus! {

/// A registered (or placeholder) entrant of the event.
#[derive(Debug, Clone)]
pub struct Participant {
    pub id: u64,
    pub bib: String,
    pub first: String,
    pub last: String,
    pub age: u32,
    pub gender: String,
    pub age_group: String,
    pub distance: String,
    pub chip: String,
    pub anonymous: bool,
}

/// The placeholder record made for a chip that no participant carries.
pub open spec fn is_placeholder_for(p: Participant, chip: Seq<char>) -> bool {
    &&& p.id == 0
    &&& p.bib@ == chip
    &&& p.first@ == "J"@
    &&& p.last@ == "Doe"@
    &&& p.age == 0
    &&& p.gender@ == "U"@
    &&& p.age_group@ == "0-110"@
    &&& p.distance@ == "Unknown"@
    &&& p.chip@ == chip
    &&& !p.anonymous
}

/// Whether `p` has the name and distance a placeholder gets, so that a
/// placeholder wearing its bib would collide with it.
pub open spec fn looks_like_placeholder(p: Participant) -> bool {
    p.first@ == "J"@ && p.last@ == "Doe"@ && p.distance@ == "Unknown"@
}

impl Participant {
    /// The key `(bib, first, last, distance)` on which participants are unique,
    /// besides their chip.
    pub open spec fn entry_key(&self) -> (Seq<char>, Seq<char>, Seq<char>, Seq<char>) {
        (self.bib@, self.first@, self.last@, self.distance@)
    }

    /// A field-by-field copy.
    pub fn duplicate(&self) -> (r: Participant)
        ensures
            r == *self,
    {
        Participant {
            id: self.id,
            bib: self.bib.clone(),
            first: self.first.clone(),
            last: self.last.clone(),
            age: self.age,
            gender: self.gender.clone(),
            age_group: self.age_group.clone(),
            distance: self.distance.clone(),
            chip: self.chip.clone(),
            anonymous: self.anonymous,
        }
    }

    /// The placeholder participant ("J Doe", distance "Unknown") for `chip`.
    pub fn placeholder(chip: &String) -> (r: Participant)
        ensures
            is_placeholder_for(r, chip@),
    {
        Participant {
            id: 0,
            bib: chip.clone(),
            first: "J".to_owned(),
            last: "Doe".to_owned(),
            age: 0,
            gender: "U".to_owned(),
            age_group: "0-110".to_owned(),
            distance: "Unknown".to_owned(),
            chip: chip.clone(),
            anonymous: false,
        }
    }

    /// Whether `self` and `other` collide on a unique key of the participants
    /// table: the chip, or `(bib, first, last, distance)`.
    pub fn collides_with(&self, other: &Participant) -> (r: bool)
        ensures
            r == (self.chip@ == other.chip@ || self.entry_key() == other.entry_key()),
    {
        self.chip == other.chip || (self.bib == other.bib && self.first == other.first
            && self.last == other.last && self.distance == other.distance)
    }
}

} // verus!
