//! The temperature estimator of one annealing slot: a small collection of
//! observed cost changes, of which the largest is the current temperature.

use vstd::multiset::Multiset;
use vstd::prelude::*;
use vstd::seq_lib::*;

verus! {

/// A collection of readings, held in ascending order.
pub struct TemperatureList {
    pub readings: Vec<u64>,
}

/// The entries of `readings` ascend.
pub open spec fn is_ascending(readings: Seq<u64>) -> bool {
    forall|a: int, b: int| 0 <= a < b < readings.len() ==> readings[a] <= readings[b]
}

impl View for TemperatureList {
    type V = Multiset<u64>;

    /// The readings held, each as often as it is held.
    open spec fn view(&self) -> Multiset<u64> {
        self.readings@.to_multiset()
    }
}

impl TemperatureList {
    /// The readings are in ascending order.
    pub open spec fn wf(&self) -> bool {
        is_ascending(self.readings@)
    }

    /// `reading` is held and no reading held is larger.
    pub open spec fn is_largest(&self, reading: u64) -> bool {
        &&& self@.count(reading) > 0
        &&& forall|other: u64| self@.count(other) > 0 ==> other <= reading
    }

    /// `self` is `before` with its largest reading replaced by `reading`.
    pub open spec fn is_fold_of(&self, before: &Self, reading: u64) -> bool {
        exists|top: u64| #[trigger]
            before.is_largest(top) && self@ == before@.remove(top).insert(reading)
    }

    /// The list holds the middle of the observations: of the observations
    /// in ascending order, the `keep` that follow the `keep / 2` smallest,
    /// or as many of them as there are.
    pub open spec fn is_middle_of(&self, observations: Seq<u64>, keep: int) -> bool {
        exists|ordered: Seq<u64>|
            {
                &&& #[trigger] is_ascending(ordered)
                &&& ordered.to_multiset() == observations.to_multiset()
                &&& self.readings@ == middle_of(ordered, keep)
            }
    }

    /// A list without readings.
    pub fn new() -> (list: Self)
        ensures
            list.wf(),
            list@ == Multiset::<u64>::empty(),
            list.readings@.len() == 0,
    {
        let list = TemperatureList { readings: Vec::new() };
        proof {
            assert(list.readings@.to_multiset() =~= Multiset::<u64>::empty()) by {
                broadcast use vstd::seq_lib::group_to_multiset_ensures;
                to_multiset_len(list.readings@);
                assert(list.readings@.to_multiset().len() == 0);
                vstd::multiset::lemma_multiset_empty_len(list.readings@.to_multiset());
            }
        }
        list
    }

    /// How many readings are held.
    pub fn len(&self) -> (count: usize)
        ensures
            count == self@.len(),
            count == self.readings@.len(),
    {
        proof {
            to_multiset_len(self.readings@);
        }
        self.readings.len()
    }

    /// Adds one reading.
    pub fn push(&mut self, reading: u64)
        requires
            old(self).wf(),
        ensures
            final(self).wf(),
            final(self)@ == old(self)@.insert(reading),
            final(self).readings@.len() == old(self).readings@.len() + 1,
    {
        let mut at: usize = 0;
        while at < self.readings.len() && self.readings[at] <= reading
            invariant
                at <= self.readings@.len(),
                self.readings@ == old(self).readings@,
                forall|k: int| 0 <= k < at ==> self.readings@[k] <= reading,
            decreases self.readings@.len() - at,
        {
            at += 1;
        }
        proof {
            to_multiset_insert(self.readings@, at as int, reading);
        }
        self.readings.insert(at, reading);
    }

    /// The largest reading, the current temperature; `None` where no reading
    /// is held.
    pub fn peek(&self) -> (top: Option<u64>)
        requires
            self.wf(),
        ensures
            top is None <==> self@.len() == 0,
            top is None <==> self.readings@.len() == 0,
            top is Some ==> self.is_largest(top->0),
    {
        proof {
            to_multiset_len(self.readings@);
        }
        let n = self.readings.len();
        if n == 0 {
            None
        } else {
            proof {
                self.lemma_last_is_largest();
            }
            Some(self.readings[n - 1])
        }
    }

    /// In a list that is in order the last reading is the largest.
    pub proof fn lemma_last_is_largest(&self)
        requires
            self.wf(),
            self.readings@.len() > 0,
        ensures
            self.is_largest(self.readings@.last()),
    {
        broadcast use vstd::seq_lib::group_to_multiset_ensures;
        let last = self.readings@.last();
        assert(self.readings@.contains(last));
        assert forall|other: u64| self@.count(other) > 0 implies other <= last by {
            assert(self.readings@.contains(other));
            let k = choose|k: int| 0 <= k < self.readings@.len() && self.readings@[k] == other;
            if k < self.readings@.len() - 1 {
                assert(self.readings@[k] <= self.readings@[self.readings@.len() - 1]);
            }
        }
    }

    /// Takes the largest reading out; `None`, and no change, where no
    /// reading is held.
    pub fn pop(&mut self) -> (top: Option<u64>)
        requires
            old(self).wf(),
        ensures
            final(self).wf(),
            top is None <==> old(self)@.len() == 0,
            top is None <==> old(self).readings@.len() == 0,
            top is None ==> final(self)@ == old(self)@,
            top is Some ==> old(self).is_largest(top->0) && final(self)@ == old(self)@.remove(
                top->0,
            ) && final(self).readings@.len() + 1 == old(self).readings@.len(),
    {
        proof {
            to_multiset_len(self.readings@);
            if self.readings@.len() > 0 {
                self.lemma_last_is_largest();
                to_multiset_remove(self.readings@, self.readings@.len() - 1);
                assert(self.readings@.remove(self.readings@.len() - 1) =~= self.readings@.drop_last());
            }
        }
        self.readings.pop()
    }

    /// The middle of a run of observations: of the observations in
    /// ascending order, the `keep` that follow the `keep / 2` smallest, or
    /// as many of them as there are.
    pub fn from_observations(observations: &Vec<u64>, keep: usize) -> (list: Self)
        ensures
            list.wf(),
            list.readings@.len() == middle_len(observations@.len() as int, keep as int),
            list.is_middle_of(observations@, keep as int),
    {
        let mut all = TemperatureList::new();
        proof {
            assert(observations@.take(0) =~= all.readings@);
        }
        let mut i: usize = 0;
        while i < observations.len()
            invariant
                i <= observations@.len(),
                all.wf(),
                all.readings@.len() == i,
                all@ == observations@.take(i as int).to_multiset(),
            decreases observations@.len() - i,
        {
            all.push(observations[i]);
            proof {
                assert(observations@.take(i + 1) =~= observations@.take(i as int).push(
                    observations@[i as int],
                ));
                to_multiset_build(observations@.take(i as int), observations@[i as int]);
            }
            i += 1;
        }
        proof {
            assert(observations@.take(observations@.len() as int) =~= observations@);
        }
        let total = all.readings.len();
        let skip = if keep / 2 < total {
            keep / 2
        } else {
            total
        };
        let end = if keep < total - skip {
            skip + keep
        } else {
            total
        };
        let mut readings: Vec<u64> = Vec::with_capacity(end - skip);
        let mut k: usize = skip;
        while k < end
            invariant
                skip <= k <= end <= all.readings@.len(),
                readings@ == all.readings@.subrange(skip as int, k as int),
            decreases end - k,
        {
            readings.push(all.readings[k]);
            proof {
                assert(readings@ =~= all.readings@.subrange(skip as int, k + 1));
            }
            k += 1;
        }
        let list = TemperatureList { readings };
        proof {
            assert(list.readings@ == middle_of(all.readings@, keep as int));
            assert(is_ascending(all.readings@));
        }
        list
    }
}

/// How many readings the middle of `count` observations holds.
pub open spec fn middle_len(count: int, keep: int) -> int {
    let skip = if keep / 2 < count {
        keep / 2
    } else {
        count
    };
    if keep < count - skip {
        keep
    } else {
        count - skip
    }
}

/// The `keep` entries of `ordered` that follow its first `keep / 2`, or as
/// many of them as there are.
pub open spec fn middle_of(ordered: Seq<u64>, keep: int) -> Seq<u64> {
    let skip = if keep / 2 < ordered.len() {
        keep / 2
    } else {
        ordered.len() as int
    };
    ordered.subrange(skip, skip + middle_len(ordered.len() as int, keep))
}

} // verus!
