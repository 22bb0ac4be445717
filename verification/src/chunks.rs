use vstd::prelude::*;

verus! {

/// The number of samples in a full chunk.
pub const CHUNK_SIZE: usize = 8192;

/// Gathers samples and hands them out in chunks of `CHUNK_SIZE`, counting the samples taken
/// and the chunks handed out.
pub struct SampleChunks {
    pending: Vec<i16>,
    chunk_count: usize,
    total: usize,
    taken: Ghost<Seq<i16>>,
}

/// What is left when the gathering ends: the last, partial chunk if there is one, and the
/// final counts.
#[derive(Debug, PartialEq, Eq)]
pub struct FinishedChunks {
    pub rest: Option<Vec<i16>>,
    pub chunk_count: usize,
    pub total: usize,
}

/// The number of chunks that `total` samples make: full chunks, and one more for a
/// remainder.
pub open spec fn chunks_for(total: nat) -> nat {
    ((total + CHUNK_SIZE - 1) / (CHUNK_SIZE as int)) as nat
}

/// Chunk `i` of a run of samples: the `CHUNK_SIZE` samples from `CHUNK_SIZE * i` on.
pub open spec fn chunk_at(taken: Seq<i16>, i: nat) -> Seq<i16> {
    taken.subrange(CHUNK_SIZE * i, CHUNK_SIZE * (i + 1))
}

/// The first `k` chunks of a run of samples, one after the other.
pub open spec fn joined_chunks(taken: Seq<i16>, k: nat) -> Seq<i16>
    decreases k,
{
    if k == 0 {
        Seq::empty()
    } else {
        joined_chunks(taken, (k - 1) as nat) + chunk_at(taken, (k - 1) as nat)
    }
}

proof fn lemma_joined_is_prefix(taken: Seq<i16>, k: nat)
    requires
        CHUNK_SIZE * k <= taken.len(),
    ensures
        joined_chunks(taken, k) == taken.take(CHUNK_SIZE * k),
    decreases k,
{
    if k > 0 {
        lemma_joined_is_prefix(taken, (k - 1) as nat);
        assert(taken.take(CHUNK_SIZE * (k - 1)) + chunk_at(taken, (k - 1) as nat) =~= taken.take(
            CHUNK_SIZE * k,
        ));
    }
}

impl SampleChunks {
    /// Every sample taken, in order.
    pub closed spec fn taken(&self) -> Seq<i16> {
        self.taken@
    }

    /// The samples taken since the last chunk was handed out.
    pub closed spec fn pending(&self) -> Seq<i16> {
        self.pending@
    }

    /// The number of chunks handed out.
    pub closed spec fn spec_chunk_count(&self) -> nat {
        self.chunk_count as nat
    }

    /// The number of samples taken.
    pub closed spec fn spec_total(&self) -> nat {
        self.total as nat
    }

    /// Every chunk handed out is full: the samples taken are the full chunks followed by the
    /// pending ones.
    pub closed spec fn wf(&self) -> bool {
        &&& self.pending@.len() < CHUNK_SIZE
        &&& self.taken@.len() == self.total
        &&& self.total == CHUNK_SIZE * self.chunk_count + self.pending@.len()
        &&& self.pending@ == self.taken@.skip(CHUNK_SIZE * self.chunk_count)
    }

    /// The count law, as seen from outside: the samples taken are `CHUNK_SIZE` for each chunk
    /// handed out, plus the pending ones, and the pending ones are the last samples taken.
    pub proof fn lemma_count_law(&self)
        requires
            self.wf(),
        ensures
            self.spec_total() == CHUNK_SIZE * self.spec_chunk_count() + self.pending().len(),
            self.pending().len() < CHUNK_SIZE,
            self.taken().len() == self.spec_total(),
            self.pending() == self.taken().skip(CHUNK_SIZE * self.spec_chunk_count()),
    {
    }

    /// The chunks handed out, each the `CHUNK_SIZE` samples at its index, followed by the
    /// pending samples, are every sample taken, in order.
    pub proof fn lemma_chunks_then_pending(&self)
        requires
            self.wf(),
        ensures
            joined_chunks(self.taken(), self.spec_chunk_count()) + self.pending()
                == self.taken(),
    {
        lemma_joined_is_prefix(self.taken@, self.chunk_count as nat);
        assert(self.taken@.take(CHUNK_SIZE * self.chunk_count) + self.taken@.skip(
            CHUNK_SIZE * self.chunk_count,
        ) =~= self.taken@);
    }

    /// Nothing taken, nothing handed out.
    pub fn new() -> (c: Self)
        ensures
            c.wf(),
            c.taken() == Seq::<i16>::empty(),
            c.pending() == Seq::<i16>::empty(),
            c.spec_chunk_count() == 0,
            c.spec_total() == 0,
    {
        let c = SampleChunks {
            pending: Vec::new(),
            chunk_count: 0,
            total: 0,
            taken: Ghost(Seq::empty()),
        };
        assert(c.pending@ =~= c.taken@.skip(0));
        c
    }

    /// The number of chunks handed out.
    pub fn chunk_count(&self) -> (n: usize)
        ensures
            n == self.spec_chunk_count(),
    {
        self.chunk_count
    }

    /// The number of samples taken.
    pub fn total(&self) -> (n: usize)
        ensures
            n == self.spec_total(),
    {
        self.total
    }

    /// Takes one sample. When it completes a chunk, the chunk is handed out: it is the next
    /// `CHUNK_SIZE` samples taken.
    pub fn push(&mut self, sample: i16) -> (full: Option<Vec<i16>>)
        requires
            old(self).wf(),
            old(self).spec_total() < usize::MAX,
        ensures
            final(self).wf(),
            final(self).taken() == old(self).taken().push(sample),
            final(self).spec_total() == old(self).spec_total() + 1,
            match full {
                Some(chunk) => {
                    &&& old(self).pending().len() + 1 == CHUNK_SIZE
                    &&& chunk@ == old(self).pending().push(sample)
                    &&& chunk@ == chunk_at(final(self).taken(), old(self).spec_chunk_count())
                    &&& final(self).pending() == Seq::<i16>::empty()
                    &&& final(self).spec_chunk_count() == old(self).spec_chunk_count() + 1
                },
                None => {
                    &&& old(self).pending().len() + 1 < CHUNK_SIZE
                    &&& final(self).pending() == old(self).pending().push(sample)
                    &&& final(self).spec_chunk_count() == old(self).spec_chunk_count()
                },
            },
    {
        let ghost k = self.chunk_count as int;
        let ghost before = self.taken@;
        self.pending.push(sample);
        self.total = self.total + 1;
        self.taken = Ghost(before.push(sample));
        assert(self.pending@ =~= self.taken@.skip(CHUNK_SIZE * k));
        if self.pending.len() >= CHUNK_SIZE {
            let mut chunk: Vec<i16> = Vec::new();
            std::mem::swap(&mut chunk, &mut self.pending);
            self.chunk_count = self.chunk_count + 1;
            assert(chunk@ =~= self.taken@.subrange(CHUNK_SIZE * k, CHUNK_SIZE * (k + 1)));
            assert(self.pending@ =~= self.taken@.skip(CHUNK_SIZE * (k + 1)));
            Some(chunk)
        } else {
            None
        }
    }

    /// Ends the gathering and hands out the samples that no full chunk has taken, if there
    /// are any. The chunks handed out in all are then `chunks_for(total)`.
    pub fn finish(self) -> (r: FinishedChunks)
        requires
            self.wf(),
        ensures
            r.total == self.spec_total(),
            r.chunk_count == chunks_for(self.spec_total()),
            match r.rest {
                Some(chunk) => {
                    &&& self.pending().len() > 0
                    &&& chunk@ == self.pending()
                    &&& chunk@ == self.taken().subrange(
                        CHUNK_SIZE * self.spec_chunk_count(),
                        self.spec_total() as int,
                    )
                    &&& r.chunk_count == self.spec_chunk_count() + 1
                },
                None => {
                    &&& self.pending().len() == 0
                    &&& r.chunk_count == self.spec_chunk_count()
                },
            },
    {
        let k = self.chunk_count;
        let p = self.pending.len();
        let total = self.total;
        assert(self.pending@ =~= self.taken@.subrange(CHUNK_SIZE * k, total as int));
        if p == 0 {
            assert(chunks_for(total as nat) == k) by (nonlinear_arith)
                requires
                    total == 8192 * k,
                    chunks_for(total as nat) == (total + 8191) / 8192,
            ;
            FinishedChunks { rest: None, chunk_count: k, total }
        } else {
            assert(chunks_for(total as nat) == k + 1) by (nonlinear_arith)
                requires
                    total == 8192 * k + p,
                    0 < p < 8192,
                    chunks_for(total as nat) == (total + 8191) / 8192,
            ;
            FinishedChunks { rest: Some(self.pending), chunk_count: k + 1, total }
        }
    }
}

} // verus!
