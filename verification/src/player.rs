//! Player identities: a wrapper around a name string. Equality is by name,
//! and a player is immutable once created.

use vstd::prelude::*;

verus! {

/// A player, identified by name. The view of a player is the name itself.
#[derive(Debug, Eq, Hash)]
pub struct Player(String);

impl View for Player {
    type V = Seq<char>;

    closed spec fn view(&self) -> Seq<char> {
        self.0@
    }
}

impl Player {
    pub fn new(name: String) -> (r: Player)
        ensures
            r@ == name@,
    {
        Player(name)
    }

    pub fn as_str(&self) -> (r: &str)
        ensures
            r@ == self@,
    {
        self.0.as_str()
    }
}

impl Clone for Player {
    fn clone(&self) -> (r: Player)
        ensures
            r == *self,
    {
        Player(self.0.clone())
    }
}

impl PartialEq for Player {
    fn eq(&self, other: &Player) -> (r: bool) {
        self.0 == other.0
    }
}

impl vstd::std_specs::cmp::PartialEqSpecImpl for Player {
    open spec fn obeys_eq_spec() -> bool {
        true
    }

    open spec fn eq_spec(&self, other: &Player) -> bool {
        self@ == other@
    }
}

} // verus!
