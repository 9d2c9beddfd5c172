use vstd::prelude::*;
use std::collections::HashSet;

verus! {

broadcast use vstd::std_specs::hash::group_hash_axioms;

/// The name of a thread, as its characters.
pub open spec fn name_of(name: Option<String>) -> Option<Seq<char>> {
    match name {
        Some(s) => Some(s@),
        None => None,
    }
}

/// What a counter has recorded: every number in the order it came, and for
/// each thread, by its name, the numbers it counted.
pub struct Counter {
    numbers: Vec<i32>,
    thread_names: Vec<Option<String>>,
    thread_counts: Vec<Vec<i32>>,
}

impl Counter {
    /// Every number counted, in order.
    pub closed spec fn counted(&self) -> Seq<i32> {
        self.numbers@
    }

    /// The names of the threads that counted, each once, in order of their
    /// first number.
    pub closed spec fn names(&self) -> Seq<Option<Seq<char>>> {
        self.thread_names@.map_values(|n: Option<String>| name_of(n))
    }

    /// The numbers that the `i`-th thread counted, in order.
    pub closed spec fn counted_by(&self, i: int) -> Seq<i32> {
        self.thread_counts@[i]@
    }

    pub closed spec fn wf(&self) -> bool {
        &&& self.thread_names.len() == self.thread_counts.len()
        &&& forall|a: int, b: int|
            0 <= a < b < self.thread_names.len() ==> #[trigger] self.names()[a]
                != #[trigger] self.names()[b]
    }

    pub fn new() -> (c: Counter)
        ensures
            c.wf(),
            c.counted() == Seq::<i32>::empty(),
            c.names() == Seq::<Option<Seq<char>>>::empty(),
    {
        Counter { numbers: Vec::new(), thread_names: Vec::new(), thread_counts: Vec::new() }
    }

    /// How many threads have counted.
    pub fn threads(&self) -> (r: usize)
        requires
            self.wf(),
        ensures
            r == self.names().len(),
    {
        self.thread_names.len()
    }

    /// The numbers counted, by any thread.
    pub fn numbers(&self) -> (r: HashSet<i32>)
        ensures
            r@ == self.counted().to_set(),
    {
        let mut r: HashSet<i32> = HashSet::new();
        let mut i: usize = 0;
        while i < self.numbers.len()
            invariant
                i <= self.numbers.len(),
                r@ == self.numbers@.take(i as int).to_set(),
            decreases self.numbers.len() - i,
        {
            proof {
                assert(self.numbers@.take(i + 1) =~= self.numbers@.take(i as int).push(self.numbers@[i as int]));
                self.numbers@.take(i as int).lemma_push_to_set_commute(self.numbers@[i as int]);
            }
            r.insert(self.numbers[i]);
            i = i + 1;
        }
        proof {
            assert(self.numbers@.take(i as int) =~= self.numbers@);
        }
        r
    }

    /// Where the thread named `name` stands among the threads that counted.
    fn find_thread(&self, name: &Option<String>) -> (r: Option<usize>)
        requires
            self.wf(),
        ensures
            match r {
                Some(i) => i < self.names().len() && self.names()[i as int] == name_of(*name),
                None => !self.names().contains(name_of(*name)),
            },
    {
        let mut i: usize = 0;
        while i < self.thread_names.len()
            invariant
                self.wf(),
                i <= self.thread_names.len(),
                forall|k: int| 0 <= k < i ==> self.names()[k] != name_of(*name),
            decreases self.thread_names.len() - i,
        {
            let same = match (&self.thread_names[i], name) {
                (Some(a), Some(b)) => *a == *b,
                (None, None) => true,
                _ => false,
            };
            if same {
                return Some(i);
            }
            i = i + 1;
        }
        None
    }

    /// Whether a thread named `name` has counted.
    pub fn has_thread(&self, name: &str) -> (r: bool)
        requires
            self.wf(),
        ensures
            r == self.names().contains(Some(name@)),
    {
        let key = Some(name.to_owned());
        match self.find_thread(&key) {
            Some(_) => true,
            None => false,
        }
    }

    /// The numbers that the thread named `name` counted.
    pub fn thread_numbers(&self, name: &str) -> (r: HashSet<i32>)
        requires
            self.wf(),
            self.names().contains(Some(name@)),
        ensures
            forall|i: int|
                0 <= i < self.names().len() && self.names()[i] == Some(name@) ==> r@
                    == #[trigger] self.counted_by(i).to_set(),
    {
        let key = Some(name.to_owned());
        let i = match self.find_thread(&key) {
            Some(i) => i,
            None => {
                return HashSet::new();
            },
        };
        let nums = &self.thread_counts[i];
        let mut r: HashSet<i32> = HashSet::new();
        let mut k: usize = 0;
        while k < nums.len()
            invariant
                k <= nums.len(),
                r@ == nums@.take(k as int).to_set(),
            decreases nums.len() - k,
        {
            proof {
                assert(nums@.take(k + 1) =~= nums@.take(k as int).push(nums@[k as int]));
                nums@.take(k as int).lemma_push_to_set_commute(nums@[k as int]);
            }
            r.insert(nums[k]);
            k = k + 1;
        }
        proof {
            assert(nums@.take(k as int) =~= nums@);
        }
        r
    }

    /// Records that the thread named `thread` counted `n`.
    pub fn count(&mut self, thread: Option<String>, n: i32)
        requires
            old(self).wf(),
        ensures
            final(self).wf(),
            final(self).counted() == old(self).counted().push(n),
            old(self).names().contains(name_of(thread)) ==> final(self).names() == old(self).names(),
            !old(self).names().contains(name_of(thread)) ==> final(self).names() == old(self).names().push(
                name_of(thread),
            ) && final(self).counted_by(old(self).names().len() as int) == seq![n],
            forall|k: int|
                0 <= k < old(self).names().len() ==> #[trigger] final(self).counted_by(k) == if old(
                    self,
                ).names()[k] == name_of(thread) {
                    old(self).counted_by(k).push(n)
                } else {
                    old(self).counted_by(k)
                },
    {
        match self.find_thread(&thread) {
            Some(i) => {
                self.thread_counts[i].push(n);
                proof {
                    assert(self.names() =~= old(self).names());
                }
            },
            None => {
                self.thread_names.push(thread);
                self.thread_counts.push(vec![n]);
                proof {
                    assert(self.names() =~= old(self).names().push(name_of(thread)));
                }
            },
        }
        self.numbers.push(n);
    }
}

/// Counts from 1 to a limit in a number of threads that take turns: thread
/// `i` (from 1) counts `i`, `i + n`, `i + 2n`, ... where `n` is the number of
/// threads, and waits for thread `i - 1` before each number.
pub struct ThreadCounter {
    number_of_threads: usize,
    limit: usize,
}

impl ThreadCounter {
    pub closed spec fn spec_number_of_threads(&self) -> nat {
        self.number_of_threads as nat
    }

    pub closed spec fn spec_limit(&self) -> nat {
        self.limit as nat
    }

    pub fn new(number_of_threads: usize, limit: usize) -> (r: ThreadCounter)
        ensures
            r.spec_number_of_threads() == number_of_threads,
            r.spec_limit() == limit,
    {
        ThreadCounter { number_of_threads, limit }
    }

    pub fn number_of_threads(&self) -> (r: usize)
        ensures
            r == self.spec_number_of_threads(),
    {
        self.number_of_threads
    }

    pub fn limit(&self) -> (r: usize)
        ensures
            r == self.spec_limit(),
    {
        self.limit
    }

    /// The turn flags of thread `i`: the one it waits for, and the one it
    /// raises for the next thread once it has counted.
    pub fn flags_of(&self, i: usize) -> (r: (usize, usize))
        requires
            1 <= i <= self.spec_number_of_threads(),
        ensures
            r.0 == (i - 1) as nat % self.spec_number_of_threads(),
            r.1 == i as nat % self.spec_number_of_threads(),
    {
        ((i - 1) % self.number_of_threads, i % self.number_of_threads)
    }

    /// The numbers that thread `i` counts, in order: `i`, `i + n`, `i + 2n`,
    /// ..., up to the limit.
    pub fn numbers_of_thread(&self, i: usize) -> (r: Vec<i32>)
        requires
            1 <= i <= self.spec_number_of_threads(),
            self.spec_number_of_threads() <= i32::MAX,
            self.spec_limit() <= i32::MAX,
        ensures
            forall|k: int| 0 <= k < r.len() ==> r@[k] == i + k * self.spec_number_of_threads(),
            forall|k: int| 0 <= k < r.len() ==> r@[k] <= self.spec_limit(),
            i + r.len() * self.spec_number_of_threads() > self.spec_limit(),
    {
        let n = self.number_of_threads as u64;
        let limit = self.limit as u64;
        let mut r: Vec<i32> = Vec::new();
        let mut current = i as u64;
        proof {
            assert(r.len() * n == 0) by (nonlinear_arith)
                requires
                    r.len() == 0,
            ;
        }
        while current <= limit
            invariant
                n == self.spec_number_of_threads(),
                limit == self.spec_limit(),
                1 <= n <= i32::MAX,
                limit <= i32::MAX,
                current == i + r.len() * n,
                current <= limit + n,
                forall|k: int| 0 <= k < r.len() ==> r@[k] == i + k * n,
                forall|k: int| 0 <= k < r.len() ==> r@[k] <= limit,
            decreases limit + n - current,
        {
            r.push(current as i32);
            proof {
                assert(current + n == i + (r.len() - 1) * n + n);
                assert((r.len() - 1) * n + n == r.len() * n) by (nonlinear_arith);
            }
            current = current + n;
        }
        r
    }
}

} // verus!
