use vstd::prelude::*;

verus! {

/// A named configuration value, as kept in the settings table.
#[derive(Debug, Clone)]
pub struct Setting {
    name: String,
    value: String,
}

impl View for Setting {
    /// The setting's name and its value.
    type V = (Seq<char>, Seq<char>);

    closed spec fn view(&self) -> (Seq<char>, Seq<char>) {
        (self.name@, self.value@)
    }
}

impl Setting {
    pub fn new(name: String, value: String) -> (r: Setting)
        ensures
            r@ == (name@, value@),
    {
        Setting { name, value }
    }

    /// A field-by-field copy.
    pub fn duplicate(&self) -> (r: Setting)
        ensures
            r@ == self@,
    {
        Setting { name: self.name.clone(), value: self.value.clone() }
    }

    pub fn name(&self) -> (r: &str)
        ensures
            r@ == self@.0,
    {
        self.name.as_str()
    }

    pub fn value(&self) -> (r: &str)
        ensures
            r@ == self@.1,
    {
        self.value.as_str()
    }
}

} // verus!
