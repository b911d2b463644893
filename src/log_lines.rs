//! The latest log lines, kept in a ring of fixed size: appending to a full
//! ring drops the oldest line.
use vstd::prelude::*;

verus! {

/// How many log lines are kept
pub const LOG_LENGTH: usize = 30;

pub struct LogLines {
    lines: Vec<String>,
    start: usize,
    end: usize,
    capacity: usize,
}

impl LogLines {
    /// The ring is in shape: `LOG_LENGTH` slots, the used ones run from
    /// `start` to `end` (wrapping), `capacity` slots are free.
    pub closed spec fn wf(&self) -> bool {
        &&& self.lines@.len() == LOG_LENGTH
        &&& self.start < LOG_LENGTH
        &&& self.end < LOG_LENGTH
        &&& self.capacity <= LOG_LENGTH
        &&& self.end == (self.start + (LOG_LENGTH - self.capacity)) % (LOG_LENGTH as int)
    }

    /// The kept lines, oldest first.
    pub closed spec fn view(&self) -> Seq<Seq<char>> {
        Seq::new(
            (LOG_LENGTH - self.capacity) as nat,
            |i: int| self.lines@[(self.start + i) % (LOG_LENGTH as int)]@,
        )
    }

    /// An empty log
    pub fn new() -> (r: Self)
        ensures
            r.wf(),
            r@ == Seq::<Seq<char>>::empty(),
    {
        let mut lines: Vec<String> = Vec::new();
        let mut i: usize = 0;
        while i < LOG_LENGTH
            invariant
                i <= LOG_LENGTH,
                lines@.len() == i,
            decreases LOG_LENGTH - i,
        {
            lines.push(String::new());
            i += 1;
        }
        let r = LogLines { lines, start: 0, end: 0, capacity: LOG_LENGTH };
        assert(r@ =~= Seq::<Seq<char>>::empty());
        r
    }

    /// Number of lines kept
    pub fn count(&self) -> (r: usize)
        requires
            self.wf(),
        ensures
            r == self@.len(),
    {
        LOG_LENGTH - self.capacity
    }

    /// The line at `index`, zero being the oldest
    pub fn line_at(&self, index: usize) -> (r: &str)
        requires
            self.wf(),
            index < self@.len(),
        ensures
            r@ == self@[index as int],
    {
        self.lines[(self.start + index) % LOG_LENGTH].as_str()
    }

    fn next(index: usize) -> (r: usize)
        requires
            index < LOG_LENGTH,
        ensures
            r == (index + 1) % (LOG_LENGTH as int),
    {
        (index + 1) % LOG_LENGTH
    }

    /// Appends a line; when the log is full, the oldest line goes.
    pub fn append(&mut self, line: &str)
        requires
            old(self).wf(),
        ensures
            final(self).wf(),
            final(self)@ == if old(self)@.len() < LOG_LENGTH {
                old(self)@.push(line@)
            } else {
                old(self)@.drop_first().push(line@)
            },
    {
        let ghost before = self@;
        let ghost old_start = self.start as int;
        if self.capacity == 0 {
            self.start = Self::next(self.start);
            self.capacity += 1;
        }
        let ghost mid = self@;
        assert(mid =~= if before.len() < LOG_LENGTH { before } else { before.drop_first() }) by {
            if before.len() == LOG_LENGTH {
                assert forall|i: int| 0 <= i < mid.len() implies mid[i] == before.drop_first()[i] by {
                    let st = self.start as int;
                    assert((st + i) % (LOG_LENGTH as int) == (old_start + (i + 1)) % (
                    LOG_LENGTH as int)) by (nonlinear_arith)
                        requires
                            st == (old_start + 1) % (LOG_LENGTH as int),
                            0 <= i,
                            0 <= old_start,
                    ;
                }
            }
        }
        let end = self.end;
        proof {
            assert(end == (self.start + (LOG_LENGTH - self.capacity)) % (LOG_LENGTH as int));
        }
        self.lines.set(end, line.to_owned());
        self.end = Self::next(end);
        self.capacity -= 1;
        assert(self@ =~= mid.push(line@)) by {
            assert forall|i: int| 0 <= i < self@.len() implies self@[i] == mid.push(line@)[i] by {
                let k = (self.start + i) % (LOG_LENGTH as int);
                if i < mid.len() {
                    assert(k != end) by (nonlinear_arith)
                        requires
                            end == (self.start + mid.len()) % (LOG_LENGTH as int),
                            0 <= i < mid.len(),
                            mid.len() < LOG_LENGTH,
                            k == (self.start + i) % (LOG_LENGTH as int),
                            self.start >= 0,
                    ;
                }
            }
        }
        assert(self.end == (self.start + (LOG_LENGTH - self.capacity)) % (LOG_LENGTH as int)) by (nonlinear_arith)
            requires
                end == (self.start + (LOG_LENGTH - (self.capacity + 1))) % (LOG_LENGTH as int),
                self.end == (end + 1) % (LOG_LENGTH as int),
                self.start >= 0,
                self.capacity + 1 <= LOG_LENGTH,
        ;
    }
}

} // verus!
