//! The aggregator: running statistics per station, fed line by line, and the
//! report in order of station names.

use crate::arraystring128::ArrayString128;
use crate::lexical::lemma_lex_irreflexive;
use crate::lexical::lemma_lex_total;
use crate::lexical::lemma_lex_transitive;
use crate::lexical::lex_lt;
use crate::lexical::slice_lex_lt;
use crate::reading::push_rounded;
use crate::reading::rounded_text;
use crate::reading::UNITS_PER_HUNDREDTH;
use crate::record::classify;
use crate::record::lemma_records_in_prefix;
use crate::record::lines_of;
use crate::record::parse_line;
use crate::record::records_in;
use crate::record::split_first_line;
use crate::record::Skipped;
use crate::summary::lemma_sorted_entries_unique;
use crate::summary::lemma_table_of_contains;
use crate::summary::lemma_table_of_insert;
use crate::summary::lemma_table_of_len;
use crate::summary::lemma_table_of_lookup;
use crate::summary::lemma_table_of_update;
use crate::summary::lemma_with_well_formed;
use crate::summary::observe;
use crate::summary::observe_all;
use crate::summary::strictly_sorted;
use crate::summary::table_of;
use crate::summary::Summary;
use vstd::prelude::*;
use vstd::string::StringExecFns;
use vstd::string::StringSliceAdditionalSpecFns;
use vstd::utf8::decode_utf8;

verus! {

/// The statistics of one station, written as `min/mean/max` with two
/// fraction digits each. The mean is the sum by the count; each of the three
/// is rounded to the nearest hundredth, ties to the even one, and bears the
/// sign of the value before rounding: `-0.00` for a value just below zero.
pub open spec fn stats_text(s: Summary) -> Seq<char> {
    rounded_text(s.min, UNITS_PER_HUNDREDTH as int) + seq!['/'] + rounded_text(
        s.sum,
        s.count * UNITS_PER_HUNDREDTH,
    ) + seq!['/'] + rounded_text(s.max, UNITS_PER_HUNDREDTH as int)
}

/// Running statistics of one station: the least and the greatest reading,
/// their sum and their number, which is at least one.
#[derive(Copy, Clone, Debug, PartialEq, Eq)]
pub struct TemperatureStats {
    min: i64,
    max: i64,
    sum: i128,
    count: u64,
}

impl View for TemperatureStats {
    type V = Summary;

    closed spec fn view(&self) -> Summary {
        Summary {
            min: self.min as int,
            max: self.max as int,
            sum: self.sum as int,
            count: self.count as nat,
        }
    }
}

impl TemperatureStats {
    #[verifier::type_invariant]
    spec fn well_formed(&self) -> bool {
        self@.well_formed()
    }

    /// The statistics of a station of which `temp` is the first reading.
    pub fn new(temp: i64) -> (r: TemperatureStats)
        ensures
            r@ == Summary::single(temp as int),
    {
        TemperatureStats { min: temp, max: temp, sum: temp as i128, count: 1 }
    }

    /// The statistics after one more reading.
    pub fn with(self, temp: i64) -> (r: TemperatureStats)
        requires
            self@.count < u64::MAX,
        ensures
            r@ == self@.with(temp as int),
    {
        proof {
            use_type_invariant(&self);
            lemma_with_well_formed(self@, temp as int);
            let c = self.count as int;
            assert(c * (self.min as int) >= c * (-0x8000_0000_0000_0000)) by (nonlinear_arith)
                requires
                    c >= 0,
                    self.min as int >= -0x8000_0000_0000_0000,
            ;
            assert(c * (self.max as int) <= c * 0x7fff_ffff_ffff_ffff) by (nonlinear_arith)
                requires
                    c >= 0,
                    self.max as int <= 0x7fff_ffff_ffff_ffff,
            ;
        }
        TemperatureStats {
            min: if temp < self.min {
                temp
            } else {
                self.min
            },
            max: if temp > self.max {
                temp
            } else {
                self.max
            },
            sum: self.sum + temp as i128,
            count: self.count + 1,
        }
    }

    /// The least reading.
    pub fn min(&self) -> (r: i64)
        ensures
            r == self@.min,
    {
        self.min
    }

    /// The greatest reading.
    pub fn max(&self) -> (r: i64)
        ensures
            r == self@.max,
    {
        self.max
    }

    /// The sum of the readings.
    pub fn sum(&self) -> (r: i128)
        ensures
            r == self@.sum,
    {
        self.sum
    }

    /// The number of readings.
    pub fn count(&self) -> (r: u64)
        ensures
            r == self@.count,
            self@.well_formed(),
    {
        proof {
            use_type_invariant(self);
        }
        self.count
    }

    /// Appends the statistics to `out`, as [`stats_text`] writes them.
    pub fn push_text(&self, out: &mut String)
        ensures
            final(out)@ == old(out)@ + stats_text(self@),
    {
        proof {
            use_type_invariant(self);
            let c = self.count as int;
            assert(c * (self.min as int) >= c * (-0x8000_0000_0000_0000)) by (nonlinear_arith)
                requires
                    c >= 0,
                    self.min as int >= -0x8000_0000_0000_0000,
            ;
        }
        let scale: u128 = UNITS_PER_HUNDREDTH as u128;
        proof {
            reveal_strlit("/");
        }
        push_rounded(out, self.min as i128, scale);
        out.append("/");
        push_rounded(out, self.sum, self.count as u128 * scale);
        out.append("/");
        push_rounded(out, self.max as i128, scale);
    }

    /// The statistics as text, such as `12.00/29.28/42.55`.
    pub fn to_string(&self) -> (r: String)
        ensures
            r@ == stats_text(self@),
    {
        let mut out = String::new();
        self.push_text(&mut out);
        out
    }
}

/// The table of stations: for each station name seen, its running statistics.
///
/// Its view is the map from the bytes of a name to the statistics. The
/// stations are kept in order of their names, so each is found by bisection
/// and the report needs no sorting.
#[derive(Debug)]
pub struct StationMeasurements {
    lines: Vec<(ArrayString128, TemperatureStats)>,
    recorded: u64,
}

impl View for StationMeasurements {
    type V = Map<Seq<u8>, Summary>;

    closed spec fn view(&self) -> Map<Seq<u8>, Summary> {
        table_of(self.entries())
    }
}

impl StationMeasurements {
    /// The stations with their statistics, in the order in which they are kept.
    pub closed spec fn entries(&self) -> Seq<(Seq<u8>, Summary)> {
        self.lines@.map_values(|e: (ArrayString128, TemperatureStats)| (e.0@, e.1@))
    }

    /// The number of readings recorded so far.
    pub closed spec fn recorded(&self) -> nat {
        self.recorded as nat
    }

    #[verifier::type_invariant]
    spec fn well_formed(&self) -> bool {
        &&& strictly_sorted(self.entries())
        &&& forall|i: int|
            0 <= i < self.lines@.len() ==> (#[trigger] self.lines@[i]).1@.count <= self.recorded
    }

    /// A table without stations.
    pub fn new() -> (r: StationMeasurements)
        ensures
            r@ == Map::<Seq<u8>, Summary>::empty(),
            r.recorded() == 0,
    {
        let r = StationMeasurements { lines: Vec::new(), recorded: 0 };
        r
    }

    /// Finds the place of `key` by bisection: the index of the first station
    /// that does not come before `key`, and whether that station is `key`.
    fn locate(&self, key: &[u8]) -> (r: (usize, bool))
        ensures
            r.0 <= self.entries().len(),
            forall|j: int| 0 <= j < r.0 ==> lex_lt((#[trigger] self.entries()[j]).0, key@),
            r.1 ==> r.0 < self.entries().len() && self.entries()[r.0 as int].0 == key@,
            !r.1 ==> forall|j: int|
                r.0 <= j < self.entries().len() ==> lex_lt(key@, (#[trigger] self.entries()[j]).0),
    {
        proof {
            use_type_invariant(self);
        }
        let ghost entries = self.entries();
        let mut lo: usize = 0;
        let mut hi: usize = self.lines.len();
        while lo < hi
            invariant
                0 <= lo <= hi <= self.lines@.len(),
                entries == self.entries(),
                entries.len() == self.lines@.len(),
                strictly_sorted(entries),
                forall|j: int| 0 <= j < lo ==> lex_lt((#[trigger] entries[j]).0, key@),
                forall|j: int| hi <= j < entries.len() ==> !lex_lt((#[trigger] entries[j]).0, key@),
            decreases hi - lo,
        {
            let mid: usize = lo + (hi - lo) / 2;
            if slice_lex_lt(self.lines[mid].0.as_bytes(), key) {
                assert forall|j: int| 0 <= j < mid + 1 implies lex_lt(
                    (#[trigger] entries[j]).0,
                    key@,
                ) by {
                    if j < mid {
                        lemma_lex_transitive(entries[j].0, entries[mid as int].0, key@);
                    }
                }
                lo = mid + 1;
            } else {
                assert forall|j: int| mid <= j < entries.len() implies !lex_lt(
                    (#[trigger] entries[j]).0,
                    key@,
                ) by {
                    if mid < j && lex_lt(entries[j].0, key@) {
                        lemma_lex_transitive(entries[mid as int].0, entries[j].0, key@);
                    }
                }
                hi = mid;
            }
        }
        if lo < self.lines.len() {
            let after: bool = slice_lex_lt(key, self.lines[lo].0.as_bytes());
            proof {
                lemma_lex_total(key@, entries[lo as int].0);
                if after {
                    assert forall|j: int| lo <= j < entries.len() implies lex_lt(
                        key@,
                        (#[trigger] entries[j]).0,
                    ) by {
                        if lo < j {
                            lemma_lex_transitive(key@, entries[lo as int].0, entries[j].0);
                        }
                    }
                }
            }
            (lo, !after)
        } else {
            (lo, false)
        }
    }

    /// Records one reading of the station `city`.
    ///
    /// A station seen for the first time gets the statistics of this one
    /// reading; a known one has the reading added to its statistics.
    pub fn observe(&mut self, city: ArrayString128, temp: i64)
        requires
            old(self).recorded() < u64::MAX,
        ensures
            final(self)@ == observe(old(self)@, city@, temp as int),
            final(self).recorded() == old(self).recorded() + 1,
    {
        proof {
            use_type_invariant(&*self);
        }
        let ghost before = self.entries();
        let (at, found) = self.locate(city.as_bytes());
        self.recorded = self.recorded + 1;
        // The stations are taken out while they change and put back sorted.
        let mut lines: Vec<(ArrayString128, TemperatureStats)> = Vec::new();
        std::mem::swap(&mut self.lines, &mut lines);
        if found {
            let updated: TemperatureStats = lines[at].1.with(temp);
            proof {
                lemma_table_of_lookup(before, at as int);
                lemma_table_of_update(before, at as int, updated@);
            }
            lines[at] = (city, updated);
            assert(lines@.map_values(|e: (ArrayString128, TemperatureStats)| (e.0@, e.1@))
                =~= before.update(at as int, (before[at as int].0, updated@)));
        } else {
            proof {
                lemma_table_of_insert(before, at as int, city@, Summary::single(temp as int));
            }
            lines.insert(at, (city, TemperatureStats::new(temp)));
            assert(lines@.map_values(|e: (ArrayString128, TemperatureStats)| (e.0@, e.1@))
                =~= before.insert(at as int, (city@, Summary::single(temp as int))));
        }
        self.lines = lines;
    }

    /// Reads one line, with or without the newline that ends it, and records
    /// the reading that it holds. A line that holds none is skipped: the table
    /// stays as it is, and the reason is returned.
    pub fn observe_line(&mut self, line: &str) -> (r: Result<(), Skipped>)
        requires
            classify(line.spec_bytes()) is Ok ==> old(self).recorded() < u64::MAX,
        ensures
            match classify(line.spec_bytes()) {
                Ok((key, value)) => {
                    &&& r is Ok
                    &&& final(self)@ == observe(old(self)@, key, value)
                    &&& final(self).recorded() == old(self).recorded() + 1
                },
                Err(e) => {
                    &&& r == Err::<(), Skipped>(e)
                    &&& final(self)@ == old(self)@
                    &&& final(self).recorded() == old(self).recorded()
                },
            },
    {
        match parse_line(line) {
            Ok((city, temp)) => {
                self.observe(city, temp);
                Ok(())
            },
            Err(e) => Err(e),
        }
    }

    /// Reads a text line by line and records every reading in it. Lines that
    /// hold no record are skipped.
    pub fn read_lines(&mut self, text: &str)
        requires
            old(self).recorded() + records_in(lines_of(text.spec_bytes())).len() <= u64::MAX,
        ensures
            final(self)@ == observe_all(old(self)@, records_in(lines_of(text.spec_bytes()))),
            final(self).recorded() == old(self).recorded() + records_in(
                lines_of(text.spec_bytes()),
            ).len(),
    {
        let ghost all = lines_of(text.spec_bytes());
        let ghost mut done: int = 0;
        let mut rest: &str = text;
        let mut left: usize = text.as_bytes().len();
        while left > 0
            invariant
                left == rest.spec_bytes().len(),
                0 <= done <= all.len(),
                all.skip(done) == lines_of(rest.spec_bytes()),
                self@ == observe_all(old(self)@, records_in(all.take(done))),
                self.recorded() == old(self).recorded() + records_in(all.take(done)).len(),
                old(self).recorded() + records_in(all).len() <= u64::MAX,
            decreases left,
        {
            let (line, tail) = split_first_line(rest);
            let ghost seen = records_in(all.take(done));
            proof {
                let next = lines_of(rest.spec_bytes());
                assert(next.skip(1) =~= lines_of(tail.spec_bytes()));
                assert(all[done] == all.skip(done)[0]);
                assert(all.take(done + 1).drop_last() =~= all.take(done));
                lemma_records_in_prefix(all, done + 1);
            }
            let _ = self.observe_line(line);
            proof {
                if let Ok(record) = classify(line.spec_bytes()) {
                    assert(seen.push(record).drop_last() =~= seen);
                }
                done = done + 1;
            }
            rest = tail;
            left = tail.as_bytes().len();
        }
        proof {
            assert(all.take(done) =~= all);
        }
    }

    /// The statistics of the station `city`, or `None` if no reading of it was
    /// recorded.
    pub fn get_stat(&self, city: &ArrayString128) -> (r: Option<TemperatureStats>)
        ensures
            r is Some <==> self@.contains_key(city@),
            r matches Some(stats) ==> stats@ == self@[city@] && stats@.well_formed(),
    {
        proof {
            use_type_invariant(self);
            lemma_table_of_contains(self.entries(), city@);
        }
        let (at, found) = self.locate(city.as_bytes());
        if found {
            let stats: TemperatureStats = self.lines[at].1;
            proof {
                use_type_invariant(&stats);
                lemma_table_of_lookup(self.entries(), at as int);
            }
            Some(stats)
        } else {
            proof {
                if self@.contains_key(city@) {
                    let i = choose|i: int|
                        0 <= i < self.entries().len() && (#[trigger] self.entries()[i]).0 == city@;
                    lemma_lex_irreflexive(city@);
                }
            }
            None
        }
    }

    /// Whether no station is known.
    pub fn is_empty(&self) -> (r: bool)
        ensures
            r == (self@.len() == 0),
            self@.dom().finite(),
    {
        proof {
            use_type_invariant(self);
            lemma_table_of_len(self.entries());
        }
        self.lines.is_empty()
    }

    /// The number of stations.
    pub fn len(&self) -> (r: usize)
        ensures
            r == self@.len(),
            self@.dom().finite(),
    {
        proof {
            use_type_invariant(self);
            lemma_table_of_len(self.entries());
        }
        self.lines.len()
    }

    /// The number of readings recorded so far.
    pub fn readings(&self) -> (r: u64)
        ensures
            r == self.recorded(),
    {
        self.recorded
    }

    /// The report: every station with its statistics, in ascending order of
    /// the names.
    pub fn get_all_stats(&self) -> (r: CityTemperatureStats<'_>)
        ensures
            strictly_sorted(r@),
            table_of(r@) == self@,
            r@.len() == self@.len(),
    {
        proof {
            use_type_invariant(self);
            lemma_table_of_len(self.entries());
        }
        let mut sorted: Vec<(&ArrayString128, &TemperatureStats)> = Vec::new();
        let mut i: usize = 0;
        while i < self.lines.len()
            invariant
                0 <= i <= self.lines@.len(),
                sorted@.len() == i,
                forall|j: int|
                    0 <= j < i ==> (#[trigger] sorted@[j]).0@ == self.lines@[j].0@ && sorted@[j].1@
                        == self.lines@[j].1@,
            decreases self.lines@.len() - i,
        {
            sorted.push((&self.lines[i].0, &self.lines[i].1));
            i += 1;
        }
        assert(sorted@.map_values(|e: (&ArrayString128, &TemperatureStats)| (e.0@, e.1@))
            =~= self.entries());
        CityTemperatureStats { inner: sorted }
    }
}

/// One station of the report, written as its name, `=` and its statistics.
pub open spec fn entry_text(entry: (Seq<u8>, Summary)) -> Seq<char> {
    decode_utf8(entry.0) + seq!['='] + stats_text(entry.1)
}

/// The stations of the report in their order, with `, ` between them.
pub open spec fn entries_text(entries: Seq<(Seq<u8>, Summary)>) -> Seq<char>
    decreases entries.len(),
{
    if entries.len() == 0 {
        Seq::empty()
    } else if entries.len() == 1 {
        entry_text(entries[0])
    } else {
        entries_text(entries.drop_last()) + seq![',', ' '] + entry_text(entries.last())
    }
}

/// The report as text: the stations between `{` and `}`.
pub open spec fn report_text(entries: Seq<(Seq<u8>, Summary)>) -> Seq<char> {
    seq!['{'] + entries_text(entries) + seq!['}']
}

/// The text of a report depends on the table alone: two reports of one table
/// are written the same, in whatever order the stations arrived.
pub proof fn lemma_report_text_of_table(
    a: Seq<(Seq<u8>, Summary)>,
    b: Seq<(Seq<u8>, Summary)>,
)
    requires
        strictly_sorted(a),
        strictly_sorted(b),
        table_of(a) == table_of(b),
    ensures
        report_text(a) == report_text(b),
{
    lemma_sorted_entries_unique(a, b);
}

/// The report: stations with their statistics, in ascending order of the
/// names. It borrows from the table that it was taken from.
#[derive(Debug)]
pub struct CityTemperatureStats<'a> {
    inner: Vec<(&'a ArrayString128, &'a TemperatureStats)>,
}

impl<'a> View for CityTemperatureStats<'a> {
    type V = Seq<(Seq<u8>, Summary)>;

    closed spec fn view(&self) -> Seq<(Seq<u8>, Summary)> {
        self.inner@.map_values(|e: (&ArrayString128, &TemperatureStats)| (e.0@, e.1@))
    }
}

impl<'a> CityTemperatureStats<'a> {
    #[verifier::type_invariant]
    spec fn well_formed(&self) -> bool {
        strictly_sorted(self@)
    }

    /// A report without stations.
    pub fn new() -> (r: CityTemperatureStats<'a>)
        ensures
            r@.len() == 0,
    {
        let r = CityTemperatureStats { inner: Vec::new() };
        r
    }

    /// Whether the report holds no station.
    pub fn is_empty(&self) -> (r: bool)
        ensures
            r == (self@.len() == 0),
    {
        self.inner.is_empty()
    }

    /// The number of stations in the report.
    pub fn len(&self) -> (r: usize)
        ensures
            r == self@.len(),
            strictly_sorted(self@),
    {
        proof {
            use_type_invariant(self);
        }
        self.inner.len()
    }

    /// The report as text, such as `{Aachen=5.00/5.00/5.00, Berlin=10.00/10.00/10.00}`.
    pub fn to_string(&self) -> (r: String)
        ensures
            r@ == report_text(self@),
    {
        proof {
            reveal_strlit("{");
            reveal_strlit("}");
        }
        let mut out = String::new();
        out.append("{");
        let mut i: usize = 0;
        while i < self.inner.len()
            invariant
                0 <= i <= self.inner@.len(),
                self@.len() == self.inner@.len(),
                out@ == seq!['{'] + entries_text(self@.take(i as int)),
            decreases self.inner@.len() - i,
        {
            if i > 0 {
                out.append(", ");
            }
            let (city, stats) = self.inner[i];
            out.append(city.as_str());
            out.append("=");
            stats.push_text(&mut out);
            proof {
                reveal_strlit(", ");
                reveal_strlit("=");
                assert(self@.take(i + 1).drop_last() =~= self@.take(i as int));
            }
            i += 1;
        }
        assert(self@.take(i as int) =~= self@);
        out.append("}");
        out
    }
}

} // verus!
