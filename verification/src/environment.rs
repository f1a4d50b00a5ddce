//! The lookup from variable names to values that evaluation reads.

use vstd::prelude::*;
use vstd::string::*;
use vstd::hash_map::StringHashMap;

verus! {

/// A finite mapping from variable names to values. Names are unique;
/// setting a name again replaces its value.
pub struct Environment {
    vars: StringHashMap<String>,
}

impl View for Environment {
    type V = Map<Seq<char>, Seq<char>>;

    closed spec fn view(&self) -> Map<Seq<char>, Seq<char>> {
        self.vars@.map_values(|v: String| v@)
    }
}

impl Environment {
    /// The empty environment.
    pub fn new() -> (r: Self)
        ensures
            r@ == Map::<Seq<char>, Seq<char>>::empty(),
    {
        let r = Self { vars: StringHashMap::new() };
        assert(r@ =~= Map::<Seq<char>, Seq<char>>::empty());
        r
    }

    /// Binds `key` to `value`, replacing any earlier value of `key`.
    pub fn insert(&mut self, key: String, value: String)
        ensures
            final(self)@ == old(self)@.insert(key@, value@),
    {
        self.vars.insert(key, value);
        assert(self@ =~= old(self)@.insert(key@, value@));
    }

    /// Looks `key` up.
    pub fn get(&self, key: &str) -> (r: Option<&String>)
        ensures
            match r {
                Some(v) => self@.contains_key(key@) && v@ == self@[key@],
                None => !self@.contains_key(key@),
            },
    {
        self.vars.get(key)
    }
}

/// Builds an [`Environment`] one binding at a time.
pub struct EnvironmentBuilder {
    vars: Environment,
}

impl View for EnvironmentBuilder {
    type V = Map<Seq<char>, Seq<char>>;

    closed spec fn view(&self) -> Map<Seq<char>, Seq<char>> {
        self.vars@
    }
}

impl Default for EnvironmentBuilder {
    fn default() -> (r: Self)
        ensures
            r@ == Map::<Seq<char>, Seq<char>>::empty(),
    {
        Self { vars: Environment::new() }
    }
}

impl EnvironmentBuilder {
    /// Hands over the environment built so far.
    pub fn build(self) -> (r: Environment)
        ensures
            r@ == self@,
    {
        self.vars
    }

    /// Set a key value pair.
    pub fn set(self, key: &str, value: &str) -> (r: Self)
        ensures
            r@ == self@.insert(key@, value@),
    {
        let mut vars = self.vars;
        vars.insert(key.to_owned(), value.to_owned());
        Self { vars }
    }
}

} // verus!
