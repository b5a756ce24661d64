//! Verified trait dispatch: animals with names, sounds and announcements.
//!
//! Each trait method carries a contract phrased over the implementor's own
//! spec functions, so static and enum-based dynamic dispatch are verified
//! alike.  The announcement strings are built with verified string
//! concatenation; printing them is left to unverified callers.

use vstd::prelude::*;
use vstd::string::StrSliceExecFns;
use vstd::string::StringExecFns;

verus! {

/// An animal has a name, a sound, and an announcement line combining the
/// two.
pub trait Animal {
    /// The animal's name.
    spec fn spec_name(&self) -> Seq<char>;

    /// The noise the animal makes.
    spec fn spec_sound(&self) -> Seq<char>;

    /// The full line `make_sound` produces.
    spec fn spec_announcement(&self) -> Seq<char>;

    fn name(&self) -> (r: &str)
        ensures
            r@ == self.spec_name(),
    ;

    fn sound(&self) -> (r: &str)
        ensures
            r@ == self.spec_sound(),
    ;

    fn make_sound(&self) -> (r: String)
        ensures
            r@ == self.spec_announcement(),
    ;
}

/// A pet is an animal that is, or is not, friendly.
pub trait Pet: Animal {
    /// Whether the pet is friendly.
    spec fn spec_friendly(&self) -> bool;

    fn is_friendly(&self) -> (r: bool)
        ensures
            r == self.spec_friendly(),
    ;
}

pub struct Dog {
    pub name: String,
}

impl Animal for Dog {
    open spec fn spec_name(&self) -> Seq<char> {
        self.name@
    }

    open spec fn spec_sound(&self) -> Seq<char> {
        "Woof!"@
    }

    open spec fn spec_announcement(&self) -> Seq<char> {
        self.spec_name() + " says "@ + self.spec_sound()
    }

    fn name(&self) -> (r: &str) {
        self.name.as_str()
    }

    fn sound(&self) -> (r: &str) {
        "Woof!"
    }

    fn make_sound(&self) -> (r: String) {
        let mut line = self.name.clone();
        line.append(" says ");
        line.append(self.sound());
        line
    }
}

pub struct Cat {
    pub name: String,
}

impl Animal for Cat {
    open spec fn spec_name(&self) -> Seq<char> {
        self.name@
    }

    open spec fn spec_sound(&self) -> Seq<char> {
        "Meow!"@
    }

    open spec fn spec_announcement(&self) -> Seq<char> {
        self.spec_name() + " purrs and then says "@ + self.spec_sound()
    }

    fn name(&self) -> (r: &str) {
        self.name.as_str()
    }

    fn sound(&self) -> (r: &str) {
        "Meow!"
    }

    fn make_sound(&self) -> (r: String) {
        let mut line = self.name.clone();
        line.append(" purrs and then says ");
        line.append(self.sound());
        line
    }
}

impl Pet for Dog {
    open spec fn spec_friendly(&self) -> bool {
        true
    }

    fn is_friendly(&self) -> (r: bool) {
        true
    }
}

impl Pet for Cat {
    open spec fn spec_friendly(&self) -> bool {
        false
    }

    fn is_friendly(&self) -> (r: bool) {
        false
    }
}

/// A closed choice of animal, standing in for dynamic dispatch: every
/// method call is resolved by one `match`.
pub enum Creature {
    Dog(Dog),
    Cat(Cat),
}

impl Animal for Creature {
    open spec fn spec_name(&self) -> Seq<char> {
        match self {
            Creature::Dog(d) => d.spec_name(),
            Creature::Cat(c) => c.spec_name(),
        }
    }

    open spec fn spec_sound(&self) -> Seq<char> {
        match self {
            Creature::Dog(d) => d.spec_sound(),
            Creature::Cat(c) => c.spec_sound(),
        }
    }

    open spec fn spec_announcement(&self) -> Seq<char> {
        match self {
            Creature::Dog(d) => d.spec_announcement(),
            Creature::Cat(c) => c.spec_announcement(),
        }
    }

    fn name(&self) -> (r: &str) {
        match self {
            Creature::Dog(d) => d.name(),
            Creature::Cat(c) => c.name(),
        }
    }

    fn sound(&self) -> (r: &str) {
        match self {
            Creature::Dog(d) => d.sound(),
            Creature::Cat(c) => c.sound(),
        }
    }

    fn make_sound(&self) -> (r: String) {
        match self {
            Creature::Dog(d) => d.make_sound(),
            Creature::Cat(c) => c.make_sound(),
        }
    }
}

/// The announcement any animal makes, by static dispatch.
pub fn animal_sound<T: Animal>(animal: &T) -> (r: String)
    ensures
        r@ == animal.spec_announcement(),
{
    animal.make_sound()
}

/// A pet's description line and its announcement.
pub fn pet_info<T: Pet>(pet: &T) -> (r: (String, String))
    ensures
        r.0@ == "Pet '"@ + pet.spec_name() + "' is friendly: "@ + (if pet.spec_friendly() {
            "true"@
        } else {
            "false"@
        }),
        r.1@ == pet.spec_announcement(),
{
    let mut line = String::from_str("Pet '");
    line.append(pet.name());
    line.append("' is friendly: ");
    line.append(if pet.is_friendly() { "true" } else { "false" });
    (line, pet.make_sound())
}

/// An activity line and the announcement, with the bound in `where` form.
pub fn animal_activities<T>(animal: &T) -> (r: (String, String)) where T: Animal
    ensures
        r.0@ == animal.spec_name() + " is active!"@,
        r.1@ == animal.spec_announcement(),
{
    let mut line = animal.name().to_owned();
    line.append(" is active!");
    (line, animal.make_sound())
}

/// Builds the animal a kind designator picks out, carrying the given
/// name.  The designator must be `"dog"` or `"cat"`; any other input is
/// outside this function's domain.
pub fn create_animal(kind: &str, name: &str) -> (a: Creature)
    requires
        kind@ == "dog"@ || kind@ == "cat"@,
    ensures
        kind@ == "dog"@ ==> a is Dog,
        kind@ == "cat"@ ==> a is Cat,
        a.spec_name() == name@,
{
    proof {
        reveal_strlit("dog");
        reveal_strlit("cat");
    }
    let first = kind.get_char(0);
    if first == 'd' {
        Creature::Dog(Dog { name: String::from_str(name) })
    } else {
        Creature::Cat(Cat { name: String::from_str(name) })
    }
}

} // verus!
