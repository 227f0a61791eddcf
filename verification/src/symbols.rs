use crate::input_event::SimpleKey;
use vstd::hash_map::StringHashMap;
use vstd::prelude::*;

verus! {

/// The names of the hardware keys, such as `KEY_A`, each with its code.
pub struct KeySymbols {
    codes: StringHashMap<u16>,
}

impl View for KeySymbols {
    type V = Map<Seq<char>, u16>;

    closed spec fn view(&self) -> Map<Seq<char>, u16> {
        self.codes@
    }
}

impl KeySymbols {
    /// The table without names.
    pub fn new() -> (symbols: KeySymbols)
        ensures
            symbols@ == Map::<Seq<char>, u16>::empty(),
    {
        KeySymbols { codes: StringHashMap::new() }
    }

    /// Gives `name` the code `code`, also where it had another before.
    pub fn insert(&mut self, name: &str, code: u16)
        ensures
            final(self)@ == old(self)@.insert(name@, code),
    {
        self.codes.insert(name.to_owned(), code);
    }

    /// The key called `name`, if there is one.
    pub fn lookup(&self, name: &str) -> (key: Option<SimpleKey>)
        ensures
            key == if self@.contains_key(name@) {
                Some(SimpleKey { code: self@[name@] })
            } else {
                None
            },
    {
        match self.codes.get(name) {
            Some(code) => Some(SimpleKey { code: *code }),
            None => None,
        }
    }
}

} // verus!
