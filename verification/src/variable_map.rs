//! The variable map: what a configuration text binds, queried by key.

use vstd::prelude::*;
use vstd::hash_map::StringHashMap;

verus! {

/// A map from keys to values, built once from a text and only read
/// afterwards. Its view is the mathematical map from each key's characters
/// to its value's characters.
pub struct VariableMap(StringHashMap<String>);

impl View for VariableMap {
    type V = Map<Seq<char>, Seq<char>>;

    closed spec fn view(&self) -> Map<Seq<char>, Seq<char>> {
        self.0@.map_values(|value: String| value@)
    }
}

impl VariableMap {
    /// Only finitely many keys are ever bound.
    #[verifier::type_invariant]
    spec fn well_formed(&self) -> bool {
        self.0@.dom().finite()
    }

    /// A map that binds nothing.
    pub(crate) fn new() -> (map: VariableMap)
        ensures
            map@ == Map::<Seq<char>, Seq<char>>::empty(),
    {
        let map = VariableMap(StringHashMap::new());
        assert(map@ =~= Map::<Seq<char>, Seq<char>>::empty());
        map
    }

    /// The map with `key` bound to `value`, in place of what `key` was
    /// bound to before.
    pub(crate) fn with(self, key: String, value: String) -> (map: VariableMap)
        ensures
            map@ == self@.insert(key@, value@),
    {
        proof {
            use_type_invariant(&self);
        }
        let mut vars = self.0;
        vars.insert(key, value);
        let map = VariableMap(vars);
        assert(map@ =~= self@.insert(key@, value@));
        map
    }

    /// The value bound to `name`, or `None` where `name` is not bound. The
    /// name is matched as it is given: exactly, with nothing trimmed.
    pub fn get_val(&self, name: &str) -> (value: Option<&str>)
        ensures
            match value {
                Some(v) => self@.contains_key(name@) && v@ == self@[name@],
                None => !self@.contains_key(name@),
            },
    {
        match self.0.get(name) {
            Some(v) => Some(v.as_str()),
            None => None,
        }
    }

    /// The number of keys that are bound.
    pub fn len(&self) -> (n: usize)
        ensures
            n == self@.len(),
            self@.dom().finite(),
    {
        proof {
            use_type_invariant(self);
        }
        assert(self@.dom() =~= self.0@.dom());
        self.0.len()
    }
}

} // verus!
