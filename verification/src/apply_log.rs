//! The apply log: the set of operations that have been folded into the view.

use vstd::prelude::*;

verus! {

/// Whether `entries` holds the identifier `op_id`.
pub open spec fn holds_id(entries: Seq<String>, op_id: Seq<char>) -> bool {
    exists|i: int| 0 <= i < entries.len() && (#[trigger] entries[i])@ == op_id
}

/// The identifiers of the operations already applied.
#[derive(Debug)]
pub struct ApplyLog {
    entries: Vec<String>,
}

impl View for ApplyLog {
    type V = Set<Seq<char>>;

    closed spec fn view(&self) -> Set<Seq<char>> {
        Set::new(|op_id: Seq<char>| holds_id(self.entries@, op_id))
    }
}

impl ApplyLog {
    /// A log that records nothing.
    pub fn new() -> (log: Self)
        ensures
            log@ == Set::<Seq<char>>::empty(),
    {
        let log = ApplyLog { entries: Vec::new() };
        assert(log@ =~= Set::<Seq<char>>::empty());
        log
    }

    /// Whether the operation `op_id` has been applied.
    pub fn contains(&self, op_id: &String) -> (found: bool)
        ensures
            found == self@.contains(op_id@),
    {
        let mut i: usize = 0;
        while i < self.entries.len()
            invariant
                i <= self.entries.len(),
                forall|k: int| 0 <= k < i ==> (#[trigger] self.entries[k])@ != op_id@,
            decreases self.entries.len() - i,
        {
            if self.entries[i] == *op_id {
                return true;
            }
            i += 1;
        }
        false
    }

    /// Records that the operation `op_id` has been applied. Recording an
    /// identifier again changes nothing.
    pub fn record(&mut self, op_id: String)
        ensures
            final(self)@ == old(self)@.insert(op_id@),
    {
        let ghost before = self.entries@;
        if self.contains(&op_id) {
            assert(self@ =~= self@.insert(op_id@));
        } else {
            self.entries.push(op_id);
            assert forall|id: Seq<char>| holds_id(self.entries@, id) <==> holds_id(before, id)
                || id == op_id@ by {
                if holds_id(self.entries@, id) {
                    let k = choose|k: int|
                        0 <= k < self.entries@.len() && (#[trigger] self.entries@[k])@ == id;
                    if k < before.len() {
                        assert(before[k]@ == id);
                    }
                }
                if holds_id(before, id) {
                    let k = choose|k: int| 0 <= k < before.len() && (#[trigger] before[k])@ == id;
                    assert(self.entries@[k]@ == id);
                }
                assert(self.entries@[before.len() as int]@ == op_id@);
            }
            assert(self@ =~= old(self)@.insert(op_id@));
        }
    }
}

} // verus!
