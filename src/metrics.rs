//! What the published metrics hold after a stream of lines: three counters
//! that add up the samples' byte and request numbers, and two gauges that
//! hold the latest sample's queue length and busy percent.
use crate::line::{extract, extract_result, line_fields, ExtractError, ParsedSample};
use vstd::prelude::*;

verus! {

/// The metrics' values, as mathematical numbers.
pub struct Readings {
    pub written: nat,
    pub read: nat,
    pub requests: nat,
    pub queue_length: nat,
    pub busy_percent: nat,
    /// How many samples have been forwarded.
    pub samples: nat,
}

/// All metrics at zero, as they are registered.
pub open spec fn zero_readings() -> Readings {
    Readings { written: 0, read: 0, requests: 0, queue_length: 0, busy_percent: 0, samples: 0 }
}

/// The readings after one sample `f` (five numbers) is forwarded.
pub open spec fn record_spec(t: Readings, f: Seq<nat>) -> Readings {
    Readings {
        written: t.written + f[0],
        read: t.read + f[1],
        requests: t.requests + f[2],
        queue_length: f[3],
        busy_percent: f[4],
        samples: t.samples + 1,
    }
}

/// The readings after one line: changed only where the line holds a sample.
pub open spec fn feed_spec(t: Readings, line: Seq<char>) -> Readings {
    match line_fields(line) {
        Some(f) => record_spec(t, f),
        None => t,
    }
}

/// The readings after the lines, in order.
pub open spec fn feed_all(t: Readings, lines: Seq<Seq<char>>) -> Readings
    decreases lines.len(),
{
    if lines.len() == 0 {
        t
    } else {
        feed_spec(feed_all(t, lines.drop_last()), lines.last())
    }
}

/// The samples that the lines hold, in order.
pub open spec fn matched_fields(lines: Seq<Seq<char>>) -> Seq<Seq<nat>>
    decreases lines.len(),
{
    if lines.len() == 0 {
        Seq::empty()
    } else {
        let rest = matched_fields(lines.drop_last());
        match line_fields(lines.last()) {
            Some(f) => rest.push(f),
            None => rest,
        }
    }
}

/// The sum of the `i`-th number over the samples.
pub open spec fn column_sum(samples: Seq<Seq<nat>>, i: int) -> nat
    decreases samples.len(),
{
    if samples.len() == 0 {
        0
    } else {
        column_sum(samples.drop_last(), i) + samples.last()[i]
    }
}

/// Feeding lines forwards exactly the samples they hold: each counter grows
/// by the sum of its number over those samples, each gauge ends at the last
/// sample's number (or stays where none is held), and the count of forwarded
/// samples grows by how many there are. The outcome depends on the lines
/// alone, so feeding the same lines again from zero gives the same totals.
pub proof fn lemma_feed_totals(t: Readings, lines: Seq<Seq<char>>)
    ensures
        ({
            let r = feed_all(t, lines);
            let m = matched_fields(lines);
            &&& r.samples == t.samples + m.len()
            &&& r.written == t.written + column_sum(m, 0)
            &&& r.read == t.read + column_sum(m, 1)
            &&& r.requests == t.requests + column_sum(m, 2)
            &&& m.len() > 0 ==> r.queue_length == m.last()[3] && r.busy_percent == m.last()[4]
            &&& m.len() == 0 ==> r.queue_length == t.queue_length && r.busy_percent
                == t.busy_percent
        }),
    decreases lines.len(),
{
    if lines.len() > 0 {
        lemma_feed_totals(t, lines.drop_last());
        let m = matched_fields(lines);
        let rest = matched_fields(lines.drop_last());
        if line_fields(lines.last()) is Some {
            assert(m.drop_last() =~= rest);
        }
    }
}

/// Why a line could not be forwarded.
#[derive(Clone, Copy, Debug, PartialEq, Eq, Structural)]
pub enum FeedError {
    /// The line holds a sample with a number beyond 64 bits.
    FieldOutOfRange,
    /// A counter would pass its largest value.
    CounterOverflow,
}

/// The values that the published metrics hold.
pub struct MetricTotals {
    written: u128,
    read: u128,
    requests: u128,
    queue_length: u64,
    busy_percent: u64,
    samples: u64,
}

impl View for MetricTotals {
    type V = Readings;

    closed spec fn view(&self) -> Readings {
        Readings {
            written: self.written as nat,
            read: self.read as nat,
            requests: self.requests as nat,
            queue_length: self.queue_length as nat,
            busy_percent: self.busy_percent as nat,
            samples: self.samples as nat,
        }
    }
}

/// The sample `f` can be added to the readings `t` within the counters' range.
pub open spec fn room_for(t: Readings, f: Seq<nat>) -> bool {
    &&& t.written + f[0] <= u128::MAX
    &&& t.read + f[1] <= u128::MAX
    &&& t.requests + f[2] <= u128::MAX
    &&& t.samples + 1 <= u64::MAX
}

/// The line can be fed to the readings `t` without an error.
pub open spec fn feeds(t: Readings, line: Seq<char>) -> bool {
    match extract_result(line) {
        Ok(Some(smp)) => room_for(t, smp.fields()),
        Ok(None) => true,
        Err(_) => false,
    }
}

/// The texts of a list of lines.
pub open spec fn line_texts(lines: Seq<String>) -> Seq<Seq<char>> {
    lines.map_values(|l: String| l@)
}

/// Each of the lines can be fed in turn, from the readings `t` on.
pub open spec fn all_feed(t: Readings, lines: Seq<Seq<char>>, n: int) -> bool {
    forall|j: int| 0 <= j < n ==> #[trigger] feeds(feed_all(t, lines.take(j)), lines[j])
}

impl MetricTotals {
    /// All metrics at zero.
    pub fn new() -> (r: MetricTotals)
        ensures
            r@ == zero_readings(),
    {
        MetricTotals {
            written: 0,
            read: 0,
            requests: 0,
            queue_length: 0,
            busy_percent: 0,
            samples: 0,
        }
    }

    /// Forwards one sample: the counters grow by its byte and request
    /// numbers, the gauges take its queue length and busy percent. Where a
    /// counter would overflow, nothing changes and `CounterOverflow` is
    /// returned.
    pub fn record(&mut self, s: ParsedSample) -> (r: Result<(), FeedError>)
        ensures
            r is Ok <==> room_for(old(self)@, s.fields()),
            r is Ok ==> final(self)@ == record_spec(old(self)@, s.fields()),
            r is Err ==> r == Err::<(), FeedError>(FeedError::CounterOverflow) && final(self)@
                == old(self)@,
    {
        if self.written > u128::MAX - s.bytes_written as u128 || self.read > u128::MAX
            - s.bytes_read as u128 || self.requests > u128::MAX - s.request_count as u128
            || self.samples == u64::MAX {
            return Err(FeedError::CounterOverflow);
        }
        self.written = self.written + s.bytes_written as u128;
        self.read = self.read + s.bytes_read as u128;
        self.requests = self.requests + s.request_count as u128;
        self.queue_length = s.queue_length;
        self.busy_percent = s.busy_percent;
        self.samples = self.samples + 1;
        Ok(())
    }

    /// Reads one line and forwards the sample it holds, if any. A line
    /// without a sample changes nothing and gives `Ok(None)`.
    pub fn feed_line(&mut self, line: &str) -> (r: Result<Option<ParsedSample>, FeedError>)
        ensures
            match extract_result(line@) {
                Ok(None) => r == Ok::<Option<ParsedSample>, FeedError>(None) && final(self)@
                    == old(self)@,
                Ok(Some(smp)) => if room_for(old(self)@, smp.fields()) {
                    r == Ok::<Option<ParsedSample>, FeedError>(Some(smp)) && final(self)@
                        == feed_spec(old(self)@, line@)
                } else {
                    r == Err::<Option<ParsedSample>, FeedError>(FeedError::CounterOverflow)
                        && final(self)@ == old(self)@
                },
                Err(_) => r == Err::<Option<ParsedSample>, FeedError>(
                    FeedError::FieldOutOfRange,
                ) && final(self)@ == old(self)@,
            },
    {
        match extract(line) {
            Ok(Some(smp)) => match self.record(smp) {
                Ok(()) => Ok(Some(smp)),
                Err(e) => Err(e),
            },
            Ok(None) => Ok(None),
            Err(ExtractError::FieldOutOfRange) => Err(FeedError::FieldOutOfRange),
        }
    }

    /// Feeds the lines in order and returns how many samples were forwarded:
    /// as many as the lines hold. At the first line that cannot be fed, stops
    /// and returns its index and why; the lines before it have been fed.
    pub fn feed_lines(&mut self, lines: &Vec<String>) -> (r: Result<u64, (usize, FeedError)>)
        ensures
            r is Ok ==> {
                &&& all_feed(old(self)@, line_texts(lines@), lines.len() as int)
                &&& final(self)@ == feed_all(old(self)@, line_texts(lines@))
                &&& r->Ok_0 == matched_fields(line_texts(lines@)).len()
            },
            r is Err ==> {
                let i = (r->Err_0).0 as int;
                let ls = line_texts(lines@);
                let before = feed_all(old(self)@, ls.take(i));
                &&& i < lines.len()
                &&& all_feed(old(self)@, ls, i)
                &&& !feeds(before, ls[i])
                &&& final(self)@ == before
                &&& (r->Err_0).1 == if extract_result(ls[i]) is Err {
                    FeedError::FieldOutOfRange
                } else {
                    FeedError::CounterOverflow
                }
            },
    {
        let ghost t0 = self@;
        let ghost ls = line_texts(lines@);
        let start = self.samples;
        let mut i: usize = 0;
        while i < lines.len()
            invariant
                i <= lines.len(),
                t0 == old(self)@,
                ls == line_texts(lines@),
                self@ == feed_all(t0, ls.take(i as int)),
                all_feed(t0, ls, i as int),
            decreases lines.len() - i,
        {
            let ghost before = self@;
            assert(ls[i as int] == lines@[i as int]@);
            match self.feed_line(lines[i].as_str()) {
                Ok(_) => {
                    proof {
                        assert(ls.take(i + 1).drop_last() =~= ls.take(i as int));
                        assert(feeds(before, ls[i as int]));
                        assert(all_feed(t0, ls, i + 1)) by {
                            assert forall|j: int| 0 <= j < i + 1 implies #[trigger] feeds(
                                feed_all(t0, ls.take(j)),
                                ls[j],
                            ) by {
                                if j < i {
                                    assert(feeds(feed_all(t0, ls.take(j)), ls[j]));
                                }
                            }
                        }
                    }
                    i = i + 1;
                },
                Err(e) => {
                    return Err((i, e));
                },
            }
        }
        proof {
            assert(ls.take(lines.len() as int) =~= ls);
            lemma_feed_totals(t0, ls);
        }
        Ok(self.samples - start)
    }

    /// The total of bytes written over the forwarded samples.
    pub fn written(&self) -> (r: u128)
        ensures
            r == self@.written,
    {
        self.written
    }

    /// The total of bytes read over the forwarded samples.
    pub fn read(&self) -> (r: u128)
        ensures
            r == self@.read,
    {
        self.read
    }

    /// The total of requests over the forwarded samples.
    pub fn requests(&self) -> (r: u128)
        ensures
            r == self@.requests,
    {
        self.requests
    }

    /// The latest sample's queue length (0 before any).
    pub fn queue_length(&self) -> (r: u64)
        ensures
            r == self@.queue_length,
    {
        self.queue_length
    }

    /// The latest sample's busy percent (0 before any).
    pub fn busy_percent(&self) -> (r: u64)
        ensures
            r == self@.busy_percent,
    {
        self.busy_percent
    }

    /// How many samples have been forwarded.
    pub fn samples(&self) -> (r: u64)
        ensures
            r == self@.samples,
    {
        self.samples
    }
}

} // verus!
