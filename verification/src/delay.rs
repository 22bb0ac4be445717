use vstd::prelude::*;

verus! {

/// The slot of a ring of `cap` slots, written last at `pos - 1`, that holds the value written
/// `age + 1` writes ago.
pub open spec fn age_slot(pos: int, cap: int, age: int) -> int {
    if age < pos {
        pos - 1 - age
    } else {
        pos - 1 - age + cap
    }
}

/// A delay line: a ring buffer of the last `capacity` values written, read back by age.
pub struct DelayLine<T> {
    buffer: Vec<T>,
    pos: usize,
}

impl<T: Copy> View for DelayLine<T> {
    /// The values of the line, youngest first: element `k` was written `k + 1` writes ago.
    type V = Seq<T>;

    closed spec fn view(&self) -> Seq<T> {
        Seq::new(
            self.buffer@.len(),
            |k: int| self.buffer@[age_slot(self.pos as int, self.buffer@.len() as int, k)],
        )
    }
}

impl<T: Copy> DelayLine<T> {
    pub closed spec fn wf(&self) -> bool {
        0 < self.buffer@.len() && self.pos < self.buffer@.len()
    }

    /// A line of `capacity` values, all `fill`.
    pub fn new(capacity: usize, fill: T) -> (d: Self)
        requires
            capacity > 0,
        ensures
            d.wf(),
            d@ == Seq::new(capacity as nat, |k: int| fill),
    {
        let mut buffer: Vec<T> = Vec::new();
        let mut i: usize = 0;
        while i < capacity
            invariant
                0 <= i <= capacity,
                buffer@ == Seq::new(i as nat, |k: int| fill),
            decreases capacity - i,
        {
            buffer.push(fill);
            i = i + 1;
            assert(buffer@ =~= Seq::new(i as nat, |k: int| fill));
        }
        let d = DelayLine { buffer, pos: 0 };
        assert(d@ =~= Seq::new(capacity as nat, |k: int| fill));
        d
    }

    /// The number of values the line holds.
    pub fn capacity(&self) -> (n: usize)
        ensures
            n == self@.len(),
    {
        self.buffer.len()
    }

    /// The value written `delay` writes ago.
    pub fn read(&self, delay: usize) -> (v: T)
        requires
            self.wf(),
            1 <= delay <= self@.len(),
        ensures
            v == self@[delay - 1],
    {
        let cap = self.buffer.len();
        let slot = if self.pos >= delay {
            self.pos - delay
        } else {
            self.pos + (cap - delay)
        };
        assert(slot == age_slot(self.pos as int, cap as int, delay - 1));
        self.buffer[slot]
    }

    /// Writes `v`; it becomes the youngest value and the oldest one is dropped.
    pub fn write(&mut self, v: T)
        requires
            old(self).wf(),
        ensures
            final(self).wf(),
            final(self)@ == seq![v] + old(self)@.take(old(self)@.len() - 1),
    {
        let ghost before = self@;
        let cap = self.buffer.len();
        let p = self.pos;
        self.buffer.set(p, v);
        if p + 1 == cap {
            self.pos = 0;
        } else {
            self.pos = p + 1;
        }
        assert(self@ =~= seq![v] + before.take(before.len() - 1)) by {
            assert forall|k: int| 0 <= k < cap implies #[trigger] self@[k] == (seq![v]
                + before.take(before.len() - 1))[k] by {
                if k > 0 {
                    assert(age_slot(self.pos as int, cap as int, k) == age_slot(
                        p as int,
                        cap as int,
                        k - 1,
                    ));
                }
            }
        }
    }
}

/// The line after writing the values of `ws` in order.
pub open spec fn after_writes<T>(line: Seq<T>, ws: Seq<T>) -> Seq<T>
    decreases ws.len(),
{
    if ws.len() == 0 {
        line
    } else {
        let before = after_writes(line, ws.drop_last());
        seq![ws.last()] + before.take(before.len() - 1)
    }
}

/// Writing keeps the length of a line.
pub proof fn lemma_after_writes_len<T>(line: Seq<T>, ws: Seq<T>)
    requires
        line.len() > 0,
    ensures
        after_writes(line, ws).len() == line.len(),
    decreases ws.len(),
{
    if ws.len() > 0 {
        lemma_after_writes_len(line, ws.drop_last());
    }
}

/// What a read gives back of a write: after the writes `ws`, a read with delay `d` (up to the
/// capacity) gives the value written `d` writes ago; and the older part of the line is what
/// it was before, moved on by the number of writes.
pub proof fn lemma_read_after_writes<T>(line: Seq<T>, ws: Seq<T>, d: int)
    requires
        line.len() > 0,
        1 <= d <= line.len(),
    ensures
        d <= ws.len() ==> after_writes(line, ws)[d - 1] == ws[ws.len() - d],
        d > ws.len() ==> after_writes(line, ws)[d - 1] == line[d - 1 - ws.len()],
    decreases ws.len(),
{
    if ws.len() > 0 {
        let us = ws.drop_last();
        lemma_after_writes_len(line, us);
        if d > 1 {
            lemma_read_after_writes(line, us, d - 1);
        }
    }
}

} // verus!
