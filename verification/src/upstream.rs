//! What an initializer sees: the values of the stores that its store reads,
//! each under the name it was bound with.

use vstd::prelude::*;
use crate::error::StoreError;
use crate::value::Value;

verus! {

/// The value that `name` stands for in `entries`: that of the last entry
/// with this name, so that a name bound again reads the later binding.
pub open spec fn lookup(entries: Seq<(Seq<char>, Value)>, name: Seq<char>) -> Option<Value>
    decreases entries.len(),
{
    if entries.len() == 0 {
        None
    } else if entries.last().0 == name {
        Some(entries.last().1)
    } else {
        lookup(entries.drop_last(), name)
    }
}

/// The named upstream values handed to an initializer. They are copies
/// taken when the store is recomputed: an initializer cannot write to the
/// stores it reads.
pub struct Upstream {
    entries: Vec<(String, Value)>,
}

impl View for Upstream {
    type V = Seq<(Seq<char>, Value)>;

    closed spec fn view(&self) -> Seq<(Seq<char>, Value)> {
        Seq::new(self.entries@.len(), |i: int| (self.entries@[i].0@, self.entries@[i].1))
    }
}

impl Upstream {
    /// No upstream values.
    pub fn new() -> (up: Upstream)
        ensures
            up@ == Seq::<(Seq<char>, Value)>::empty(),
    {
        let up = Upstream { entries: Vec::new() };
        assert(up@ =~= Seq::<(Seq<char>, Value)>::empty());
        up
    }

    /// Adds `value` under `name`, after the entries already there.
    pub fn push(&mut self, name: String, value: Value)
        ensures
            final(self)@ == old(self)@.push((name@, value)),
    {
        self.entries.push((name, value));
        assert(self@ =~= old(self)@.push((name@, value)));
    }

    /// The number of entries.
    pub fn len(&self) -> (n: usize)
        ensures
            n == self@.len(),
    {
        self.entries.len()
    }

    /// The value bound to `name`; `UnboundInitializerReference` if no entry
    /// has this name.
    pub fn get(&self, name: &str) -> (r: Result<&Value, StoreError>)
        ensures
            r == (match lookup(self@, name@) {
                Some(v) => Ok::<&Value, StoreError>(&v),
                None => Err(StoreError::UnboundInitializerReference),
            }),
    {
        let wanted = name.to_owned();
        let mut i: usize = self.entries.len();
        assert(self@.take(i as int) =~= self@);
        while i > 0
            invariant
                i <= self.entries@.len(),
                wanted@ == name@,
                lookup(self@, name@) == lookup(self@.take(i as int), name@),
            decreases i,
        {
            i = i - 1;
            proof {
                let prefix = self@.take(i + 1);
                assert(prefix.last() == self@[i as int]);
                assert(prefix.drop_last() =~= self@.take(i as int));
            }
            if self.entries[i].0 == wanted {
                return Ok(&self.entries[i].1);
            }
        }
        Err(StoreError::UnboundInitializerReference)
    }
}

} // verus!
