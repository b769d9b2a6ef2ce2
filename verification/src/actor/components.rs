//! Small stages of general use.

use crate::actor::Listener;
use crate::text::{digits, push_str, push_u64};
use vstd::prelude::*;
use vstd::string::*;

verus! {

/// What a `CountLogger` holds: its name, the number of inputs seen, the
/// count at which the next report is due, and the reports not yet
/// collected.
pub struct CountModel {
    pub name: Seq<u8>,
    pub counter: u64,
    pub report_count: u64,
    pub reports: Seq<Seq<u8>>,
}

/// The line that reports that the stage `name` has seen `counter` inputs.
pub open spec fn report_text(name: Seq<u8>, counter: u64) -> Seq<u8> {
    name + seq![32u8, 115u8, 97u8, 119u8, 32u8] + digits(counter as nat) + seq![
        32u8,
        112u8,
        97u8,
        99u8,
        107u8,
        101u8,
        116u8,
        115u8,
    ]
}

/// Twice `n`, or the largest number if that does not fit.
pub open spec fn doubled(n: u64) -> u64 {
    if n > u64::MAX / 2 {
        u64::MAX
    } else {
        (2 * n) as u64
    }
}

/// The logger after one more input: the count goes up by one; when it
/// reaches the count at which a report is due, a report is made and the next
/// is due at twice that count.
pub open spec fn count_next(m: CountModel) -> CountModel {
    let counter = (m.counter + 1) as u64;
    if counter >= m.report_count {
        CountModel {
            name: m.name,
            counter,
            report_count: doubled(m.report_count),
            reports: m.reports.push(report_text(m.name, counter)),
        }
    } else {
        CountModel { counter, ..m }
    }
}

/// Consumer that counts its inputs and reports the count at the first
/// input, the second, the fourth, and so on at each power of two.
pub struct CountLogger {
    name: &'static str,
    counter: u64,
    report_count: u64,
    reports: Vec<Vec<u8>>,
}

impl View for CountLogger {
    type V = CountModel;

    closed spec fn view(&self) -> CountModel {
        CountModel {
            name: self.name.spec_bytes(),
            counter: self.counter,
            report_count: self.report_count,
            reports: Seq::new(self.reports@.len(), |i: int| self.reports@[i]@),
        }
    }
}

impl CountLogger {
    /// A logger named `name` that has seen nothing.
    pub fn new(name: &'static str) -> (l: Self)
        ensures
            l@ == (CountModel {
                name: name.spec_bytes(),
                counter: 0,
                report_count: 1,
                reports: Seq::empty(),
            }),
    {
        let l = CountLogger { name, counter: 0, report_count: 1, reports: Vec::new() };
        assert(l@.reports =~= Seq::empty());
        l
    }

    /// The line that reports the count so far.
    pub fn report(&self) -> (line: Vec<u8>)
        ensures
            line@ == report_text(self@.name, self@.counter),
    {
        let mut line: Vec<u8> = Vec::new();
        push_str(&mut line, self.name);
        line.push(32u8);
        line.push(115u8);
        line.push(97u8);
        line.push(119u8);
        line.push(32u8);
        push_u64(&mut line, self.counter);
        line.push(32u8);
        line.push(112u8);
        line.push(97u8);
        line.push(99u8);
        line.push(107u8);
        line.push(101u8);
        line.push(116u8);
        line.push(115u8);
        assert(line@ =~= report_text(self@.name, self@.counter));
        line
    }

    /// Hands over the reports made since the last call.
    pub fn take_reports(&mut self) -> (r: Vec<Vec<u8>>)
        ensures
            Seq::new(r@.len(), |i: int| r@[i]@) == old(self)@.reports,
            final(self)@ == (CountModel { reports: Seq::empty(), ..old(self)@ }),
    {
        let mut r: Vec<Vec<u8>> = Vec::new();
        std::mem::swap(&mut r, &mut self.reports);
        assert(self@.reports =~= Seq::empty());
        r
    }
}

impl<I> Listener<I> for CountLogger {
    type Model = CountModel;

    open spec fn listener_inv(&self) -> bool {
        true
    }

    open spec fn model(&self) -> CountModel {
        self@
    }

    open spec fn ready(m: CountModel, input: I) -> bool {
        m.counter < u64::MAX
    }

    open spec fn next(m: CountModel, input: I) -> CountModel {
        count_next(m)
    }

    open spec fn acts(m: CountModel, input: I) -> bool {
        true
    }

    /// Counts the input.
    fn process(&mut self, _input: &I) -> (acted: bool) {
        let ghost before = self@;
        self.counter = self.counter + 1;
        if self.counter >= self.report_count {
            self.report_count = if self.report_count > u64::MAX / 2 {
                u64::MAX
            } else {
                self.report_count * 2
            };
            let line = self.report();
            self.reports.push(line);
            assert(self@.reports =~= before.reports.push(report_text(before.name, self.counter)));
        } else {
            assert(self@.reports =~= before.reports);
        }
        true
    }
}

} // verus!
