//! A bounded collection of the oldest times seen so far, from which the
//! newest of them can be read and removed.

use vstd::prelude::*;

verus! {

/// The times come in ascending order.
pub open spec fn sorted(h: Seq<i64>) -> bool {
    forall|i: int, j: int| 0 <= i <= j < h.len() ==> h[i] <= h[j]
}

/// The first index from `i` on that holds a time after `t`, or the length
/// of `h` where there is none.
pub open spec fn place_from(h: Seq<i64>, t: i64, i: int) -> int
    decreases h.len() - i,
{
    if i < 0 || i >= h.len() || h[i] > t {
        i
    } else {
        place_from(h, t, i + 1)
    }
}

/// The times `h` with `t` put behind the times that are not after it.
pub open spec fn put(h: Seq<i64>, t: i64) -> Seq<i64> {
    h.insert(place_from(h, t, 0), t)
}

/// The times kept of `h` and `t` where at most `n` are kept: `t` is taken
/// while there is room, and afterwards only in place of a newest time that
/// is after it.
pub open spec fn offer(h: Seq<i64>, n: nat, t: i64) -> Seq<i64> {
    if h.len() < n {
        put(h, t)
    } else if h.len() > 0 && t < h.last() {
        put(h.drop_last(), t)
    } else {
        h
    }
}

/// The number of times in `h` that are `c` or before.
pub open spec fn count_at_most(h: Seq<i64>, c: i64) -> nat
    decreases h.len(),
{
    if h.len() == 0 {
        0
    } else {
        count_at_most(h.drop_last(), c) + if h.last() <= c {
            1nat
        } else {
            0nat
        }
    }
}

/// The place of `t` lies within the times; those before it are not after `t`,
/// and the time at it is.
pub proof fn lemma_place_from(h: Seq<i64>, t: i64, i: int)
    requires
        0 <= i <= h.len(),
    ensures
        i <= place_from(h, t, i) <= h.len(),
        forall|j: int| i <= j < place_from(h, t, i) ==> h[j] <= t,
        place_from(h, t, i) < h.len() ==> h[place_from(h, t, i)] > t,
    decreases h.len() - i,
{
    if i < h.len() && h[i] <= t {
        lemma_place_from(h, t, i + 1);
    }
}

/// Putting a time into ascending times leaves them ascending.
pub proof fn lemma_put_sorted(h: Seq<i64>, t: i64)
    requires
        sorted(h),
    ensures
        sorted(put(h, t)),
        put(h, t).len() == h.len() + 1,
{
    lemma_place_from(h, t, 0);
    let p = place_from(h, t, 0);
    let r = put(h, t);
    assert forall|i: int, j: int| 0 <= i <= j < r.len() implies r[i] <= r[j] by {
        let i0 = if i < p { i } else { i - 1 };
        let j0 = if j < p { j } else { j - 1 };
        if i != p && j != p {
            assert(h[i0] <= h[j0]);
        } else if i == p && j != p {
            assert(h[p] <= h[j0]);
        }
    }
}

/// Putting a time in adds one to the count where it is `c` or before.
pub proof fn lemma_count_insert(h: Seq<i64>, i: int, t: i64, c: i64)
    requires
        0 <= i <= h.len(),
    ensures
        count_at_most(h.insert(i, t), c) == count_at_most(h, c) + if t <= c {
            1nat
        } else {
            0nat
        },
    decreases h.len() - i,
{
    let r = h.insert(i, t);
    if i == h.len() {
        assert(r.drop_last() =~= h);
    } else {
        assert(r.drop_last() =~= h.drop_last().insert(i, t));
        assert(r.last() == h.last());
        lemma_count_insert(h.drop_last(), i, t, c);
    }
}

/// Where every time is `c` or before, the count is the number of times.
pub proof fn lemma_count_all(h: Seq<i64>, c: i64)
    requires
        forall|i: int| 0 <= i < h.len() ==> h[i] <= c,
    ensures
        count_at_most(h, c) == h.len(),
    decreases h.len(),
{
    if h.len() > 0 {
        lemma_count_all(h.drop_last(), c);
    }
}

/// What one offer does to the times kept: they stay ascending, their number
/// grows by one while there is room and stays otherwise, and up to any time
/// `c` they hold no more than before, but for the offered time.
pub proof fn lemma_offer(h: Seq<i64>, n: nat, t: i64, c: i64)
    requires
        sorted(h),
        h.len() <= n,
    ensures
        sorted(offer(h, n, t)),
        offer(h, n, t).len() == h.len() + if h.len() < n {
            1nat
        } else {
            0nat
        },
        count_at_most(offer(h, n, t), c) <= count_at_most(h, c) + if t <= c {
            1nat
        } else {
            0nat
        },
{
    if h.len() < n {
        lemma_put_sorted(h, t);
        lemma_place_from(h, t, 0);
        lemma_count_insert(h, place_from(h, t, 0), t, c);
    } else if h.len() > 0 && t < h.last() {
        let d = h.drop_last();
        assert forall|i: int, j: int| 0 <= i <= j < d.len() implies d[i] <= d[j] by {
            assert(d[i] == h[i] && d[j] == h[j]);
        }
        lemma_put_sorted(d, t);
        lemma_place_from(d, t, 0);
        lemma_count_insert(d, place_from(d, t, 0), t, c);
    }
}

/// The oldest times seen so far, in ascending order.
#[derive(Debug)]
pub struct TimeHeap {
    times: Vec<i64>,
}

impl View for TimeHeap {
    type V = Seq<i64>;

    closed spec fn view(&self) -> Seq<i64> {
        self.times@
    }
}

impl TimeHeap {
    #[verifier::type_invariant]
    spec fn ordered(&self) -> bool {
        sorted(self.times@)
    }

    /// An empty collection.
    pub fn new() -> (res: TimeHeap)
        ensures
            res@ == Seq::<i64>::empty(),
    {
        TimeHeap { times: Vec::new() }
    }

    /// The number of times held, which are in ascending order.
    pub fn len(&self) -> (res: usize)
        ensures
            res == self@.len(),
            sorted(self@),
    {
        proof {
            use_type_invariant(self);
        }
        self.times.len()
    }

    /// The newest of the times held.
    pub fn peek(&self) -> (res: Option<i64>)
        ensures
            res == if self@.len() == 0 {
                None
            } else {
                Some(self@.last())
            },
            forall|i: int| 0 <= i < self@.len() ==> self@[i] <= res.unwrap(),
    {
        proof {
            use_type_invariant(self);
        }
        if self.times.len() == 0 {
            None
        } else {
            Some(self.times[self.times.len() - 1])
        }
    }

    /// Takes `t` in, behind the times that are not after it.
    pub fn push(&mut self, t: i64)
        ensures
            final(self)@ == put(old(self)@, t),
    {
        proof {
            use_type_invariant(&*self);
            lemma_put_sorted(self@, t);
        }
        let mut times: Vec<i64> = Vec::new();
        std::mem::swap(&mut times, &mut self.times);
        let ghost before = times@;
        let mut i: usize = 0;
        while i < times.len() && times[i] <= t
            invariant
                i <= times.len(),
                times@ == before,
                place_from(before, t, 0) == place_from(before, t, i as int),
            decreases times.len() - i,
        {
            i += 1;
        }
        times.insert(i, t);
        self.times = times;
    }

    /// Removes the newest of the times held and returns it.
    pub fn pop(&mut self) -> (res: Option<i64>)
        ensures
            res == if old(self)@.len() == 0 {
                None
            } else {
                Some(old(self)@.last())
            },
            final(self)@ == if old(self)@.len() == 0 {
                old(self)@
            } else {
                old(self)@.drop_last()
            },
    {
        proof {
            use_type_invariant(&*self);
        }
        let mut times: Vec<i64> = Vec::new();
        std::mem::swap(&mut times, &mut self.times);
        let ghost before = times@;
        let res = times.pop();
        proof {
            if before.len() > 0 {
                assert(times@ =~= before.drop_last());
                assert forall|i: int, j: int| 0 <= i <= j < times@.len() implies times@[i] <= times@[j] by {
                    assert(before[i] <= before[j]);
                }
            }
        }
        self.times = times;
        res
    }

    /// Offers `t` to a collection that keeps at most `n` times.
    pub fn offer(&mut self, n: usize, t: i64)
        ensures
            final(self)@ == offer(old(self)@, n as nat, t),
    {
        if self.len() < n {
            self.push(t);
        } else {
            match self.peek() {
                Some(newest) => {
                    if t < newest {
                        self.pop();
                        self.push(t);
                    }
                },
                None => {},
            }
        }
    }
}

} // verus!
