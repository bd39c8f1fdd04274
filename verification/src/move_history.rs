use vstd::prelude::*;

verus! {

/// The keys of the positions played so far: 256 slots, of which the first `length` hold
/// the keys pushed since the last clear, at most 255 of them.
#[derive(Clone, Copy)]
pub struct MoveHistory {
    values: [u64; 256],
    length: u8,
}

impl View for MoveHistory {
    type V = Seq<u64>;

    /// The keys pushed since the last clear, oldest first.
    closed spec fn view(&self) -> Seq<u64> {
        self.values@.take(self.length as int)
    }
}

impl MoveHistory {
    /// All 256 slots, those past the keys held included.
    pub closed spec fn slots(&self) -> Seq<u64> {
        self.values@
    }

    /// How many keys are held.
    pub closed spec fn len_of(&self) -> nat {
        self.length as nat
    }

    /// The keys held are the first `len_of` slots, of 256.
    pub proof fn lemma_view_is_prefix(&self)
        ensures
            self.slots().len() == 256,
            self.len_of() <= 255,
            self@ == self.slots().take(self.len_of() as int),
    {
    }

    pub fn new() -> (r: Self)
        ensures
            r@ == Seq::<u64>::empty(),
            r.len_of() == 0,
            r.slots() == Seq::<u64>::new(256, |i: int| 0u64),
    {
        let r = Self { values: [0; 256], length: 0 };
        proof {
            assert(r@ =~= Seq::<u64>::empty());
            assert(r.slots() =~= Seq::<u64>::new(256, |i: int| 0u64));
        }
        r
    }

    /// Appends the key of a position; the history holds at most 255 keys.
    pub fn push(&mut self, key: u64)
        requires
            old(self).len_of() < 255,
        ensures
            final(self)@ == old(self)@.push(key),
            final(self).len_of() == old(self).len_of() + 1,
            final(self).slots() == old(self).slots().update(old(self).len_of() as int, key),
    {
        let last_index = self.length;
        self.values[last_index as usize] = key;
        self.length = self.length + 1;
        proof {
            assert(self@ =~= old(self)@.push(key));
        }
    }

    /// Forgets the keys held; the slots keep their values.
    pub fn clear(&mut self)
        ensures
            final(self)@ == Seq::<u64>::empty(),
            final(self).len_of() == 0,
            final(self).slots() == old(self).slots(),
    {
        self.length = 0;
        proof {
            assert(self@ =~= Seq::<u64>::empty());
        }
    }

    /// The positions of the keys held: `0..len`.
    pub fn range(&self) -> (r: std::ops::Range<u8>)
        ensures
            r.start == 0,
            r.end == self.len_of(),
            r.end == self@.len(),
    {
        0..self.length
    }

    /// The value in slot `index`, a key held or not.
    pub fn get(&self, index: u8) -> (r: u64)
        ensures
            r == self.slots()[index as int],
            index < self.len_of() ==> r == self@[index as int],
    {
        self.values[index as usize]
    }

    /// Writes `key` into slot `index`, a key held or not.
    pub fn set(&mut self, index: u8, key: u64)
        ensures
            final(self).slots() == old(self).slots().update(index as int, key),
            final(self).len_of() == old(self).len_of(),
    {
        self.values[index as usize] = key;
    }
}

} // verus!
