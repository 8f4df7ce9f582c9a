use vstd::prelude::*;

verus! {

/// Levels whose table counts are recorded.
pub const METRIC_LEVELS: usize = 6;

/// Table counts per level, as last recorded.
pub struct DBMetric {
    level_0_file_number: Vec<u64>,
}

impl View for DBMetric {
    type V = Seq<u64>;

    closed spec fn view(&self) -> Seq<u64> {
        self.level_0_file_number@
    }
}

impl DBMetric {
    pub fn new() -> (r: DBMetric)
        ensures
            r@ == Seq::new(METRIC_LEVELS as nat, |i: int| 0u64),
    {
        let mut v: Vec<u64> = Vec::new();
        let mut i: usize = 0;
        while i < METRIC_LEVELS
            invariant
                i <= METRIC_LEVELS,
                v@ == Seq::new(i as nat, |j: int| 0u64),
            decreases METRIC_LEVELS - i,
        {
            v.push(0);
            proof {
                assert(v@ =~= Seq::new((i + 1) as nat, |j: int| 0u64));
            }
            i = i + 1;
        }
        DBMetric { level_0_file_number: v }
    }

    /// Records the table count of `level`; levels past the last recorded one are ignored.
    pub fn set_level_n_file_number(&mut self, size: u64, level: usize)
        ensures
            level < old(self)@.len() ==> final(self)@ == old(self)@.update(level as int, size),
            level >= old(self)@.len() ==> final(self)@ == old(self)@,
    {
        if level < self.level_0_file_number.len() {
            self.level_0_file_number.set(level, size);
        }
    }

    /// The recorded table count of `level`, 0 for levels not recorded.
    pub fn get_level_n_file_number(&self, level: usize) -> (r: u64)
        ensures
            level < self@.len() ==> r == self@[level as int],
            level >= self@.len() ==> r == 0,
    {
        if level < self.level_0_file_number.len() {
            self.level_0_file_number[level]
        } else {
            0
        }
    }
}

} // verus!
