//! Support for the benchmark harness: the measurement record book and the
//! quoting rule of its CSV output.  Reading the script, timing, and
//! printing stay with the driver; recording a measurement and choosing the
//! baseline are the rules kept here.

use vstd::prelude::*;

use crate::types::MoltInt;
use crate::util::string_push;

verus! {

/// One benchmark measurement.
pub struct Measurement {
    /// The measurement's symbolic name.
    pub name: String,

    /// The measurement's human-readable description.
    pub description: String,

    /// The average number of nanoseconds per measured iteration.
    pub nanos: MoltInt,
}

/// The record book of a benchmark run.
pub struct Context {
    // The baseline, in nanoseconds: the first recorded measurement.
    baseline: Option<MoltInt>,

    // The list of measurements.
    measurements: Vec<Measurement>,
}

impl Context {
    /// The baseline measurement, if one has been recorded.
    pub closed spec fn baseline_view(&self) -> Option<MoltInt> {
        self.baseline
    }

    /// The measurements recorded so far.
    pub closed spec fn records(&self) -> Seq<Measurement> {
        self.measurements@
    }

    /// Creates an empty record book.
    pub fn new() -> (r: Self)
        ensures
            r.baseline_view() is None,
            r.records().len() == 0,
    {
        Self { baseline: None, measurements: Vec::new() }
    }

    /// The baseline: the first recorded time, or one if nothing has been
    /// recorded, so that normalization never divides by nothing.
    pub fn baseline(&self) -> (r: MoltInt)
        ensures
            r == (match self.baseline_view() {
                Some(b) => b,
                None => 1 as MoltInt,
            }),
    {
        match self.baseline {
            Some(b) => b,
            None => 1,
        }
    }

    /// The measurements, for the driver to format.
    pub fn measurements(&self) -> (r: &Vec<Measurement>)
        ensures
            r@ == self.records(),
    {
        &self.measurements
    }

    /// Records one measurement.  The first recorded time becomes the
    /// baseline; later ones leave it alone.
    pub fn record(&mut self, name: String, description: String, nanos: MoltInt)
        ensures
            final(self).baseline_view() == (match old(self).baseline_view() {
                Some(b) => Some(b),
                None => Some(nanos),
            }),
            final(self).records() == old(self).records().push(
                (Measurement { name, description, nanos }),
            ),
    {
        if self.baseline.is_none() {
            self.baseline = Some(nanos);
        }
        self.measurements.push(Measurement { name, description, nanos });
    }
}

/// The quoting rule of the CSV output: every double quote becomes a
/// single quote.
pub open spec fn quote_stripped(s: Seq<char>) -> Seq<char> {
    s.map_values(
        |c: char|
            if c == '"' {
                '\''
            } else {
                c
            },
    )
}

/// Replaces every double quote with a single quote, for CSV output.
pub fn strip_quotes(string: &str) -> (r: String)
    ensures
        r@ == quote_stripped(string@),
{
    let chars: Vec<char> = crate::util::str_chars(string);
    let n: usize = chars.len();
    let mut out: String = String::new();
    let mut i: usize = 0;
    while i < n
        invariant
            n == chars@.len(),
            chars@ == string@,
            i <= n,
            out@.len() == i,
            forall|j: int|
                0 <= j < i ==> out@[j] == (if string@[j] == '"' {
                    '\''
                } else {
                    string@[j]
                }),
        decreases n - i,
    {
        let c = chars[i];
        if c == '"' {
            string_push(&mut out, '\'');
        } else {
            string_push(&mut out, c);
        }
        i = i + 1;
    }
    proof {
        assert(out@ =~= quote_stripped(string@));
    }
    out
}

} // verus!
