//! Range maps of an almanac: a value or a whole range of values is carried
//! through a list of mappings, each of which moves one stretch of numbers.

use vstd::prelude::*;

verus! {

/// The value lies in the range of `i64`.
pub open spec fn in_i64(v: int) -> bool {
    i64::MIN <= v <= i64::MAX
}

/// The greater of two numbers.
pub open spec fn larger(a: int, b: int) -> int {
    if a >= b {
        a
    } else {
        b
    }
}

/// The smaller of two numbers.
pub open spec fn smaller(a: int, b: int) -> int {
    if a <= b {
        a
    } else {
        b
    }
}

/// Moves the `len` numbers from `in_start` on to those from `out_start` on.
#[derive(Copy, Clone, Debug, PartialEq, Eq, Structural)]
pub struct Mapping {
    pub in_start: i64,
    pub out_start: i64,
    pub len: i64,
}

impl Mapping {
    /// The ends of both stretches and the distance between them lie in the
    /// range of `i64`.
    pub open spec fn well_formed(self) -> bool {
        &&& in_i64(self.in_start + self.len)
        &&& in_i64(self.out_start + self.len)
        &&& in_i64(self.out_start - self.in_start)
    }

    /// The number lies in the stretch that the mapping moves.
    pub open spec fn covers(self, v: int) -> bool {
        self.in_start <= v < self.in_start + self.len
    }

    /// Where the mapping takes a number: a number of its stretch to the same
    /// place in the other stretch, any other number to itself.
    pub open spec fn image(self, v: int) -> int {
        if self.covers(v) {
            v + (self.out_start - self.in_start)
        } else {
            v
        }
    }

    /// Where the part of the range from `start` that the mapping moves
    /// begins.
    pub open spec fn overlap_start(self, start: i64) -> int {
        larger(self.in_start as int, start as int)
    }

    /// Where the part of the range of `len` numbers from `start` that the
    /// mapping moves ends.
    pub open spec fn overlap_end(self, start: i64, len: i64) -> int {
        smaller(self.in_start + self.len, start + len)
    }

    /// The end of the range and the lengths of its parts lie in the range of
    /// `i64`.
    pub open spec fn range_fits(self, start: i64, len: i64) -> bool {
        &&& in_i64(start + len)
        &&& self.overlap_end(start, len) >= self.overlap_start(start) ==> {
            &&& in_i64(self.overlap_start(start) - start)
            &&& in_i64(self.overlap_end(start, len) - self.overlap_start(start))
            &&& in_i64(start + len - self.overlap_end(start, len))
        }
    }

    /// The parts into which the mapping cuts the range of `len` numbers from
    /// `start`, each with its start, its length and whether the mapping moved
    /// it: what lies before the stretch, what lies in it, and what lies
    /// behind it. A range that the stretch does not reach stays whole.
    pub open spec fn pieces(self, start: i64, len: i64) -> Seq<(i64, i64, bool)> {
        let os = self.overlap_start(start);
        let oe = self.overlap_end(start, len);
        if oe < os {
            seq![(start, len, false)]
        } else {
            (if start < os {
                seq![(start, (os - start) as i64, false)]
            } else {
                Seq::empty()
            }) + seq![(self.image(os) as i64, (oe - os) as i64, true)] + (if start + len > oe {
                seq![(oe as i64, (start + len - oe) as i64, false)]
            } else {
                Seq::empty()
            })
        }
    }

    /// Where the mapping takes the number, and whether it moved it.
    pub fn map(&self, input: i64) -> (r: (i64, bool))
        requires
            self.well_formed(),
        ensures
            r.0 == self.image(input as int),
            r.1 == self.covers(input as int),
    {
        if input >= self.in_start && input < self.in_start + self.len {
            (input + (self.out_start - self.in_start), true)
        } else {
            (input, false)
        }
    }

    /// The parts into which the mapping cuts a range.
    pub fn map_range(&self, start: i64, len: i64) -> (v: Vec<(i64, i64, bool)>)
        requires
            self.well_formed(),
            self.range_fits(start, len),
        ensures
            v@ == self.pieces(start, len),
    {
        let max = start + len;
        let overlap_start = if self.in_start >= start {
            self.in_start
        } else {
            start
        };
        let overlap_end = if self.in_start + self.len <= max {
            self.in_start + self.len
        } else {
            max
        };
        let mut v: Vec<(i64, i64, bool)> = Vec::new();
        if overlap_end < overlap_start {
            v.push((start, len, false));
            assert(v@ =~= self.pieces(start, len));
            v
        } else {
            if start < overlap_start {
                v.push((start, overlap_start - start, false));
            }
            v.push((self.map(overlap_start).0, overlap_end - overlap_start, true));
            if max > overlap_end {
                v.push((overlap_end, max - overlap_end, false));
            }
            assert(v@ =~= self.pieces(start, len));
            v
        }
    }

    /// The ranges that one part of a range becomes: itself where a mapping
    /// moved it and it holds a number, else what the other mappings make of it.
    pub open spec fn carried(rest: Seq<Mapping>, ps: Seq<(i64, i64, bool)>, i: int) -> Seq<(i64, i64)>
        decreases rest.len(), 2nat,
    {
        if i < 0 || i >= ps.len() {
            Seq::empty()
        } else if ps[i].2 && ps[i].1 > 0 {
            seq![(ps[i].0, ps[i].1)]
        } else {
            Self::chain(rest, ps[i].0, ps[i].1)
        }
    }

    /// The ranges that the range of `len` numbers from `start` becomes under
    /// a list of mappings, of which the first that moves a number decides
    /// where it goes.
    pub open spec fn chain(ms: Seq<Mapping>, start: i64, len: i64) -> Seq<(i64, i64)>
        decreases ms.len(), 1nat,
    {
        if ms.len() == 0 {
            if len > 0 {
                seq![(start, len)]
            } else {
                Seq::empty()
            }
        } else {
            let ps = ms[0].pieces(start, len);
            let rest = ms.drop_first();
            Self::carried(rest, ps, 0) + Self::carried(rest, ps, 1) + Self::carried(rest, ps, 2)
        }
    }

    /// Whether part `i` of a range can be carried through the other
    /// mappings within the range of `i64`.
    pub open spec fn carried_fits(rest: Seq<Mapping>, ps: Seq<(i64, i64, bool)>, i: int) -> bool
        decreases rest.len(), 2nat,
    {
        if i < 0 || i >= ps.len() {
            true
        } else if ps[i].2 && ps[i].1 > 0 {
            true
        } else {
            Self::chain_fits(rest, ps[i].0, ps[i].1)
        }
    }

    /// Whether a range can be carried through a list of mappings within the
    /// range of `i64`.
    pub open spec fn chain_fits(ms: Seq<Mapping>, start: i64, len: i64) -> bool
        decreases ms.len(), 1nat,
    {
        if ms.len() == 0 {
            true
        } else {
            let ps = ms[0].pieces(start, len);
            let rest = ms.drop_first();
            &&& ms[0].well_formed()
            &&& ms[0].range_fits(start, len)
            &&& Self::carried_fits(rest, ps, 0)
            &&& Self::carried_fits(rest, ps, 1)
            &&& Self::carried_fits(rest, ps, 2)
        }
    }

    /// Lets part `k` of a range that met its next mapping wait.
    fn push_part(mappings: &[Mapping], job: Job, pieces: &Vec<(i64, i64, bool)>, k: usize, work: &mut Vec<Job>)
        requires
            job_fits(mappings@, job),
            !job.done,
            job.from < mappings@.len(),
            pieces@ == mappings@[job.from as int].pieces(job.start, job.len),
            k < pieces@.len(),
            k < 3,
            forall|i: int| 0 <= i < old(work)@.len() ==> job_fits(mappings@, #[trigger] old(work)@[i]),
        ensures
            pending(mappings@, final(work)@) == Self::carried(
                mappings@.skip(job.from + 1),
                pieces@,
                k as int,
            ) + pending(mappings@, old(work)@),
            total_weight(mappings@.len() as int, final(work)@) <= total_weight(
                mappings@.len() as int,
                old(work)@,
            ) + weight(mappings@.len() as int, job) / 4,
            forall|i: int| 0 <= i < final(work)@.len() ==> job_fits(mappings@, #[trigger] final(work)@[i]),
    {
        let n: usize = mappings.len();
        let (s, l, m) = pieces[k];
        let part = Job { start: s, len: l, from: job.from + 1, done: m && l > 0 };
        proof {
            assert(part == part_job(mappings@, job, k as int));
            lemma_part(mappings@, n as int, job, k as int);
            lemma_push_job(mappings@, n as int, work@, part);
        }
        work.push(part);
        assert forall|i: int| 0 <= i < work@.len() implies job_fits(mappings@, #[trigger] work@[i]) by {
            if i < old(work)@.len() {
                assert(work@[i] == old(work)@[i]);
            }
        }
    }

    /// Lets the parts wait into which the next mapping cuts a range, the
    /// first of them on top.
    fn push_parts(mappings: &[Mapping], job: Job, work: &mut Vec<Job>)
        requires
            job_fits(mappings@, job),
            !job.done,
            job.from < mappings@.len(),
            forall|i: int| 0 <= i < old(work)@.len() ==> job_fits(mappings@, #[trigger] old(work)@[i]),
        ensures
            pending(mappings@, final(work)@) == item_out(mappings@, job) + pending(mappings@, old(work)@),
            total_weight(mappings@.len() as int, final(work)@) < total_weight(
                mappings@.len() as int,
                old(work)@,
            ) + weight(mappings@.len() as int, job),
            forall|i: int| 0 <= i < final(work)@.len() ==> job_fits(mappings@, #[trigger] final(work)@[i]),
    {
        let ghost ms = mappings@;
        let ghost n = ms.len() as int;
        let ghost below = work@;
        proof {
            lemma_split(ms, job);
            lemma_weight_positive(n, job);
        }
        let pieces = mappings[job.from].map_range(job.start, job.len);
        let ghost ps = pieces@;
        let ghost rest = ms.skip(job.from + 1);
        let count: usize = pieces.len();
        if count > 2 {
            Self::push_part(mappings, job, &pieces, 2, work);
        }
        let ghost third = work@;
        assert(pending(ms, third) =~= Self::carried(rest, ps, 2) + pending(ms, below));
        if count > 1 {
            Self::push_part(mappings, job, &pieces, 1, work);
        }
        let ghost second = work@;
        assert(pending(ms, second) =~= Self::carried(rest, ps, 1) + pending(ms, third));
        if count > 0 {
            Self::push_part(mappings, job, &pieces, 0, work);
        }
        assert(pending(ms, work@) =~= Self::carried(rest, ps, 0) + pending(ms, second));
        assert(pending(ms, work@) =~= item_out(ms, job) + pending(ms, below));
    }

    /// The ranges that the range of `len` numbers from `start` becomes under
    /// the mappings. The ranges still to be carried wait in a worklist, each
    /// with the number of the next mapping to meet.
    pub fn map_all_range(mappings: &[Mapping], start: i64, len: i64) -> (out: Vec<(i64, i64)>)
        requires
            Self::chain_fits(mappings@, start, len),
        ensures
            out@ == Self::chain(mappings@, start, len),
    {
        let ghost ms = mappings@;
        let n: usize = mappings.len();
        let mut out: Vec<(i64, i64)> = Vec::new();
        let mut work: Vec<Job> = Vec::new();
        let first = Job { start, len, from: 0, done: false };
        proof {
            assert(ms.skip(0) =~= ms);
            lemma_push_job(ms, n as int, work@, first);
        }
        work.push(first);
        while work.len() > 0
            invariant
                ms == mappings@,
                n == ms.len(),
                out@ + pending(ms, work@) == Self::chain(ms, start, len),
                forall|i: int| 0 <= i < work@.len() ==> job_fits(ms, #[trigger] work@[i]),
                0 <= total_weight(n as int, work@),
            decreases total_weight(n as int, work@),
        {
            let ghost before = work@;
            let ghost done_before = out@;
            let job = work.pop().unwrap();
            let ghost below = work@;
            proof {
                assert(before =~= below.push(job));
                assert(job_fits(ms, before[before.len() - 1]));
                lemma_total_weight_nonneg(n as int, below);
                lemma_push_job(ms, n as int, below, job);
                assert(total_weight(n as int, before) == weight(n as int, job) + total_weight(n as int, below));
                assert forall|i: int| 0 <= i < below.len() implies job_fits(ms, #[trigger] below[i]) by {
                    assert(below[i] == before[i]);
                }
            }
            if job.done {
                out.push((job.start, job.len));
                assert(out@ + pending(ms, work@) =~= done_before + pending(ms, before));
            } else if job.from == n {
                assert(ms.skip(n as int) =~= Seq::<Mapping>::empty());
                if job.len > 0 {
                    out.push((job.start, job.len));
                }
                assert(out@ + pending(ms, work@) =~= done_before + pending(ms, before));
            } else {
                Self::push_parts(mappings, job, &mut work);
                proof {
                    lemma_total_weight_nonneg(n as int, work@);
                    assert(out@ + pending(ms, work@) =~= done_before + pending(ms, before));
                }
            }
        }
        proof {
            assert(pending(ms, work@) =~= Seq::<(i64, i64)>::empty());
            assert(out@ =~= Self::chain(ms, start, len));
        }
        out
    }
}

/// Part `k` of a range that met its next mapping, as it waits.
pub open spec fn part_job(ms: Seq<Mapping>, job: Job, k: int) -> Job {
    let ps = ms[job.from as int].pieces(job.start, job.len);
    Job { start: ps[k].0, len: ps[k].1, from: (job.from + 1) as usize, done: ps[k].2 && ps[k].1 > 0 }
}

/// A waiting range that meets its next mapping becomes what its parts
/// become.
pub proof fn lemma_split(ms: Seq<Mapping>, job: Job)
    requires
        job_fits(ms, job),
        !job.done,
        job.from < ms.len(),
    ensures
        ms[job.from as int].well_formed(),
        ms[job.from as int].range_fits(job.start, job.len),
        ms[job.from as int].pieces(job.start, job.len).len() <= 3,
        item_out(ms, job) == Mapping::carried(
            ms.skip(job.from + 1),
            ms[job.from as int].pieces(job.start, job.len),
            0,
        ) + Mapping::carried(ms.skip(job.from + 1), ms[job.from as int].pieces(job.start, job.len), 1)
            + Mapping::carried(ms.skip(job.from + 1), ms[job.from as int].pieces(job.start, job.len), 2),
{
    let here = ms.skip(job.from as int);
    assert(here[0] == ms[job.from as int]);
    assert(here.drop_first() =~= ms.skip(job.from + 1));
}

/// Part `k` of a waiting range that met its next mapping can be carried on,
/// becomes what the part is to become, and can cause at most a quarter of
/// the work.
pub proof fn lemma_part(ms: Seq<Mapping>, n: int, job: Job, k: int)
    requires
        n == ms.len(),
        n <= usize::MAX,
        job_fits(ms, job),
        !job.done,
        job.from < ms.len(),
        0 <= k < ms[job.from as int].pieces(job.start, job.len).len(),
        k < 3,
    ensures
        job_fits(ms, part_job(ms, job, k)),
        item_out(ms, part_job(ms, job, k)) == Mapping::carried(
            ms.skip(job.from + 1),
            ms[job.from as int].pieces(job.start, job.len),
            k,
        ),
        4 * weight(n, part_job(ms, job, k)) <= weight(n, job),
{
    let here = ms.skip(job.from as int);
    assert(here[0] == ms[job.from as int]);
    assert(here.drop_first() =~= ms.skip(job.from + 1));
    lemma_weight_step(n, job, part_job(ms, job, k));
}

/// One more waiting range adds what it becomes and the work it can cause.
pub proof fn lemma_push_job(ms: Seq<Mapping>, n: int, work: Seq<Job>, job: Job)
    ensures
        pending(ms, work.push(job)) == item_out(ms, job) + pending(ms, work),
        total_weight(n, work.push(job)) == weight(n, job) + total_weight(n, work),
        weight(n, job) >= 1,
{
    assert(work.push(job).drop_last() =~= work);
    lemma_weight_positive(n, job);
}

/// A range that waits to be carried on: its start and length, the number of
/// the next mapping that it meets, and whether a mapping has moved it
/// already, so that it stays as it is.
#[derive(Copy, Clone, Debug)]
pub struct Job {
    pub start: i64,
    pub len: i64,
    pub from: usize,
    pub done: bool,
}

/// The ranges that a waiting range becomes.
pub open spec fn item_out(ms: Seq<Mapping>, job: Job) -> Seq<(i64, i64)> {
    if job.done {
        seq![(job.start, job.len)]
    } else {
        Mapping::chain(ms.skip(job.from as int), job.start, job.len)
    }
}

/// The ranges that the waiting ranges become, the last of them first.
pub open spec fn pending(ms: Seq<Mapping>, work: Seq<Job>) -> Seq<(i64, i64)>
    decreases work.len(),
{
    if work.len() == 0 {
        Seq::empty()
    } else {
        item_out(ms, work.last()) + pending(ms, work.drop_last())
    }
}

/// The waiting range can be carried on within the range of `i64`.
pub open spec fn job_fits(ms: Seq<Mapping>, job: Job) -> bool {
    &&& job.from <= ms.len()
    &&& !job.done ==> Mapping::chain_fits(ms.skip(job.from as int), job.start, job.len)
}

/// Four to the power `k`.
pub open spec fn pow4(k: int) -> int
    decreases k,
{
    if k <= 0 {
        1
    } else {
        4 * pow4(k - 1)
    }
}

/// How much work a waiting range can still cause among `n` mappings.
pub open spec fn weight(n: int, job: Job) -> int {
    if job.done {
        1
    } else {
        pow4(n - job.from + 1)
    }
}

/// How much work the waiting ranges can still cause.
pub open spec fn total_weight(n: int, work: Seq<Job>) -> int
    decreases work.len(),
{
    if work.len() == 0 {
        0
    } else {
        weight(n, work.last()) + total_weight(n, work.drop_last())
    }
}

/// A power of four is at least one.
pub proof fn lemma_pow4_positive(k: int)
    ensures
        pow4(k) >= 1,
    decreases k,
{
    if k > 0 {
        lemma_pow4_positive(k - 1);
    }
}

/// Every waiting range can cause some work.
pub proof fn lemma_weight_positive(n: int, job: Job)
    ensures
        weight(n, job) >= 1,
{
    lemma_pow4_positive(n - job.from + 1);
}

/// The waiting ranges cannot cause less than no work.
pub proof fn lemma_total_weight_nonneg(n: int, work: Seq<Job>)
    ensures
        total_weight(n, work) >= 0,
    decreases work.len(),
{
    if work.len() > 0 {
        lemma_weight_positive(n, work.last());
        lemma_total_weight_nonneg(n, work.drop_last());
    }
}

/// A part of a range that met a mapping can cause at most a quarter of the
/// work that the range could.
pub proof fn lemma_weight_step(n: int, job: Job, part: Job)
    requires
        !job.done,
        job.from < n,
        part.from == job.from + 1,
    ensures
        4 * weight(n, part) <= weight(n, job),
{
    lemma_pow4_positive(n - part.from + 1);
}

} // verus!
