//! The log engine: the ordered samples, their running extrema, and the
//! append-only CSV persistence contract.
//!
//! The engine never touches the filesystem itself: the caller reads the
//! backing file into bytes before opening, and writes back the single line
//! that `add_weight` returns. Everything in between is verified.

use vstd::prelude::*;
use crate::codec::{
    NL, parse_log, parse_log_spec, render_date, render_line, render_tenths, render_time,
    render_date_x, render_time_x, render_entry_line, spec_split, lemma_parse_lines_wf,
    lemma_log_round_trip, lemma_malformed_line_empties, render_log, strip_cr, COMMA,
};
use crate::clock;
use crate::timestamp::Timestamp;
use crate::valid_weight;
use crate::weight::{WeightT, MAX_AGE_HOURS, MAX_RAW_TENTHS};

verus! {

/// How many entries the table shows when the caller asks for no count.
pub const DEFAULT_DISPLAY_NO: usize = 5;

/// Smallest weight of a sequence of samples; `None` exactly when empty.
pub open spec fn min_of(s: Seq<WeightT>) -> Option<u32>
    decreases s.len(),
{
    if s.len() == 0 {
        None
    } else {
        match min_of(s.drop_last()) {
            None => Some(s.last().kilo),
            Some(m) => Some(
                if s.last().kilo < m {
                    s.last().kilo
                } else {
                    m
                },
            ),
        }
    }
}

/// Largest weight of a sequence of samples; `None` exactly when empty.
pub open spec fn max_of(s: Seq<WeightT>) -> Option<u32>
    decreases s.len(),
{
    if s.len() == 0 {
        None
    } else {
        match max_of(s.drop_last()) {
            None => Some(s.last().kilo),
            Some(m) => Some(
                if s.last().kilo > m {
                    s.last().kilo
                } else {
                    m
                },
            ),
        }
    }
}

pub open spec fn view_contents(c: Option<Vec<u8>>) -> Option<Seq<u8>> {
    match c {
        Some(v) => Some(v@),
        None => None,
    }
}

/// The samples an opened log holds for the given file contents: the parsed
/// records, or nothing at all when the file was missing or any line was
/// malformed.
pub open spec fn open_samples(contents: Option<Seq<u8>>) -> Seq<WeightT> {
    match contents {
        None => Seq::<WeightT>::empty(),
        Some(c) => match parse_log_spec(c) {
            Some(ws) => ws,
            None => Seq::<WeightT>::empty(),
        },
    }
}

/// How many trailing samples a windowed listing selects.
pub open spec fn window_len(len: nat, number: Option<usize>) -> nat {
    match number {
        None => len,
        Some(n) => if (n as nat) < len {
            n as nat
        } else {
            len
        },
    }
}

/// The trailing window itself, in original order.
pub open spec fn window_spec(s: Seq<WeightT>, number: Option<usize>) -> Seq<WeightT> {
    s.skip(s.len() - window_len(s.len(), number))
}

/// One row of the rendered table: date, time, age in whole hours, and the
/// weight with one decimal. Styling is the caller's concern.
pub struct TableRow {
    pub date: Vec<u8>,
    pub time: Vec<u8>,
    pub age_hours: i64,
    pub weight: Vec<u8>,
}

/// The body-weight log: ordered samples, their running extrema, and the
/// backing file path.
pub struct WeightlogT {
    pub weight_list: Vec<WeightT>,
    pub min: Option<u32>,
    pub max: Option<u32>,
    pub path: String,
}

impl WeightlogT {
    /// The extrema always equal the fold over all weights, and every held
    /// sample is well formed.
    pub open spec fn wf(self) -> bool {
        &&& self.min == min_of(self.weight_list@)
        &&& self.max == max_of(self.weight_list@)
        &&& forall|i: int|
            0 <= i < self.weight_list@.len() ==> (#[trigger] self.weight_list@[i]).wf()
    }

    /// Open a log over the backing file's contents: `None` stands for a
    /// missing or unreadable file. A file with any malformed line loads as
    /// an empty log, never a partial one.
    pub fn new(path: String, contents: Option<Vec<u8>>) -> (log: WeightlogT)
        ensures
            log.wf(),
            log.weight_list@ == open_samples(view_contents(contents)),
            log.path@ == path@,
    {
        let samples: Vec<WeightT> = match contents {
            None => Vec::new(),
            Some(bytes) => {
                match parse_log(&bytes) {
                    None => Vec::new(),
                    Some(ws) => {
                        proof {
                            assert(crate::codec::view_samples(Some(ws)) == parse_log_spec(bytes@));
                            assert(crate::codec::parse_lines(spec_split(bytes@, NL)) == Some(ws@));
                            lemma_parse_lines_wf(spec_split(bytes@, NL), ws@);
                        }
                        ws
                    },
                }
            },
        };
        let mut mn: Option<u32> = None;
        let mut mx: Option<u32> = None;
        let mut i: usize = 0;
        proof {
            assert(samples@.take(0) =~= Seq::<WeightT>::empty());
            assert(forall|k: int| 0 <= k < samples@.len() ==> (#[trigger] samples@[k]).wf());
        }
        while i < samples.len()
            invariant
                i <= samples.len(),
                mn == min_of(samples@.take(i as int)),
                mx == max_of(samples@.take(i as int)),
                forall|k: int| 0 <= k < samples@.len() ==> (#[trigger] samples@[k]).wf(),
            decreases samples.len() - i,
        {
            proof {
                assert(samples@.take(i + 1).drop_last() =~= samples@.take(i as int));
                assert(samples@.take(i + 1).last() == samples@[i as int]);
            }
            let k = samples[i].kilo;
            mn = match mn {
                None => Some(k),
                Some(m) => Some(
                    if k < m {
                        k
                    } else {
                        m
                    },
                ),
            };
            mx = match mx {
                None => Some(k),
                Some(m) => Some(
                    if k > m {
                        k
                    } else {
                        m
                    },
                ),
            };
            i += 1;
        }
        proof {
            assert(samples@.take(samples@.len() as int) =~= samples@);
        }
        WeightlogT { weight_list: samples, min: mn, max: mx, path }
    }

    /// Append one validated sample taken at the given time. Returns the
    /// exact line the caller must append to the backing file; the in-memory
    /// state and the returned line always agree.
    pub fn append_at(&mut self, tenths: u32, ts: Timestamp) -> (line: Vec<u8>)
        requires
            old(self).wf(),
            valid_weight(tenths),
            ts.wf(),
        ensures
            final(self).wf(),
            final(self).weight_list@ == old(self).weight_list@.push(
                WeightT { kilo: tenths, time: ts },
            ),
            final(self).min == (match old(self).min {
                None => Some(tenths),
                Some(m) => Some(
                    if tenths < m {
                        tenths
                    } else {
                        m
                    },
                ),
            }),
            final(self).max == (match old(self).max {
                None => Some(tenths),
                Some(m) => Some(
                    if tenths > m {
                        tenths
                    } else {
                        m
                    },
                ),
            }),
            final(self).path == old(self).path,
            line@ == render_line(WeightT { kilo: tenths, time: ts }),
    {
        let w = WeightT { kilo: tenths, time: ts };
        let line = render_entry_line(&w);
        self.weight_list.push(w);
        self.min = match self.min {
            None => Some(tenths),
            Some(m) => Some(
                if tenths < m {
                    tenths
                } else {
                    m
                },
            ),
        };
        self.max = match self.max {
            None => Some(tenths),
            Some(m) => Some(
                if tenths > m {
                    tenths
                } else {
                    m
                },
            ),
        };
        proof {
            assert(self.weight_list@.drop_last() =~= old(self).weight_list@);
            assert(self.weight_list@.last() == w);
        }
        line
    }

    /// Append one validated sample taken now. Returns the line to persist.
    pub fn add_weight(&mut self, tenths: u32) -> (line: Vec<u8>)
        requires
            old(self).wf(),
            valid_weight(tenths),
        ensures
            final(self).wf(),
            final(self).weight_list@.len() == old(self).weight_list@.len() + 1,
            final(self).weight_list@.last().kilo == tenths,
            final(self).weight_list@.last().time.wf(),
            final(self).weight_list@.take(old(self).weight_list@.len() as int) == old(
                self,
            ).weight_list@,
            final(self).min == (match old(self).min {
                None => Some(tenths),
                Some(m) => Some(
                    if tenths < m {
                        tenths
                    } else {
                        m
                    },
                ),
            }),
            final(self).max == (match old(self).max {
                None => Some(tenths),
                Some(m) => Some(
                    if tenths > m {
                        tenths
                    } else {
                        m
                    },
                ),
            }),
            final(self).path == old(self).path,
            line@ == render_line(final(self).weight_list@.last()),
    {
        let ts = clock::now_local();
        let line = self.append_at(tenths, ts);
        proof {
            assert(self.weight_list@.take(old(self).weight_list@.len() as int) =~= old(
                self,
            ).weight_list@);
        }
        line
    }

    pub fn len(&self) -> (r: usize)
        ensures
            r == self.weight_list@.len(),
    {
        self.weight_list.len()
    }

    pub fn is_empty(&self) -> (r: bool)
        ensures
            r == (self.weight_list@.len() == 0),
    {
        self.weight_list.len() == 0
    }

    /// Days since the first sample, 0 for an empty log.
    pub fn log_age(&self) -> (r: i64)
        ensures
            0 <= r <= MAX_AGE_HOURS,
            self.weight_list@.len() == 0 ==> r == 0,
    {
        if self.weight_list.len() == 0 {
            0
        } else {
            let h = self.weight_list[0].age();
            ((h as u64) / 24) as i64
        }
    }

    /// The last `min(n, len)` samples in original order; all of them when
    /// no count is given.
    pub fn window(&self, number: Option<usize>) -> (r: Vec<WeightT>)
        ensures
            r@ == window_spec(self.weight_list@, number),
    {
        let len = self.weight_list.len();
        let count = match number {
            None => len,
            Some(n) => if n < len {
                n
            } else {
                len
            },
        };
        let start = len - count;
        let mut r: Vec<WeightT> = Vec::new();
        let mut i: usize = start;
        proof {
            assert(r@ =~= self.weight_list@.subrange(start as int, start as int));
        }
        while i < len
            invariant
                start <= i <= len,
                len == self.weight_list@.len(),
                r@ == self.weight_list@.subrange(start as int, i as int),
            decreases len - i,
        {
            r.push(self.weight_list[i]);
            proof {
                assert(r@ =~= self.weight_list@.subrange(start as int, i + 1));
            }
            i += 1;
        }
        proof {
            assert(self.weight_list@.subrange(start as int, len as int) =~= window_spec(
                self.weight_list@,
                number,
            ));
        }
        r
    }

    /// The rows of the windowed table: date, time, age in hours and the
    /// weight with one decimal, one row per selected sample, oldest first.
    pub fn print_table(&self, number: Option<usize>) -> (rows: Vec<TableRow>)
        requires
            self.wf(),
        ensures
            rows@.len() == window_spec(self.weight_list@, number).len(),
            forall|i: int|
                0 <= i < rows@.len() ==> {
                    let win = window_spec(self.weight_list@, number);
                    &&& (#[trigger] rows@[i]).date@ == render_date(win[i].time)
                    &&& rows@[i].time@ == render_time(win[i].time)
                    &&& rows@[i].weight@ == render_tenths(win[i].kilo as nat)
                    &&& 0 <= rows@[i].age_hours <= MAX_AGE_HOURS
                },
    {
        let win = self.window(number);
        let ghost ws = window_spec(self.weight_list@, number);
        proof {
            assert(forall|i: int| 0 <= i < ws.len() ==> (#[trigger] ws[i]).wf());
        }
        let mut rows: Vec<TableRow> = Vec::new();
        let mut i: usize = 0;
        while i < win.len()
            invariant
                i <= win.len(),
                win@ == ws,
                forall|k: int| 0 <= k < ws.len() ==> (#[trigger] ws[k]).wf(),
                rows@.len() == i,
                forall|k: int|
                    0 <= k < i ==> {
                        &&& (#[trigger] rows@[k]).date@ == render_date(ws[k].time)
                        &&& rows@[k].time@ == render_time(ws[k].time)
                        &&& rows@[k].weight@ == render_tenths(ws[k].kilo as nat)
                        &&& 0 <= rows@[k].age_hours <= MAX_AGE_HOURS
                    },
            decreases win.len() - i,
        {
            let w = win[i];
            let date = render_date_x(&w.time);
            let time = render_time_x(&w.time);
            let age_hours = w.age();
            let mut weight: Vec<u8> = Vec::new();
            crate::codec::push_tenths(&mut weight, w.kilo);
            proof {
                assert(weight@ =~= render_tenths(w.kilo as nat));
            }
            rows.push(TableRow { date, time, age_hours, weight });
            i += 1;
        }
        rows
    }

    /// Every sample's display line, oldest first, given each sample's age
    /// in hours (as `ages` returns them).
    pub fn print_human(&self, ages: &Vec<i64>) -> (r: Vec<Vec<u8>>)
        requires
            self.wf(),
            ages@.len() == self.weight_list@.len(),
            forall|i: int| 0 <= i < ages@.len() ==> 0 <= #[trigger] ages@[i] <= MAX_AGE_HOURS,
        ensures
            r@.len() == self.weight_list@.len(),
            forall|i: int|
                0 <= i < r@.len() ==> (#[trigger] r@[i])@ == crate::codec::render_human_line(
                    self.weight_list@[i],
                    ages@[i] as int,
                ),
    {
        let mut r: Vec<Vec<u8>> = Vec::new();
        let mut i: usize = 0;
        while i < self.weight_list.len()
            invariant
                i <= self.weight_list@.len(),
                self.wf(),
                ages@.len() == self.weight_list@.len(),
                forall|k: int| 0 <= k < ages@.len() ==> 0 <= #[trigger] ages@[k] <= MAX_AGE_HOURS,
                r@.len() == i,
                forall|k: int|
                    0 <= k < i ==> (#[trigger] r@[k])@ == crate::codec::render_human_line(
                        self.weight_list@[k],
                        ages@[k] as int,
                    ),
            decreases self.weight_list@.len() - i,
        {
            let line = crate::codec::human_line(&self.weight_list[i], ages[i]);
            r.push(line);
            i += 1;
        }
        r
    }

    /// The age in hours of every sample, oldest first.
    pub fn ages(&self) -> (r: Vec<i64>)
        ensures
            r@.len() == self.weight_list@.len(),
            forall|i: int| 0 <= i < r@.len() ==> 0 <= #[trigger] r@[i] <= MAX_AGE_HOURS,
    {
        let mut r: Vec<i64> = Vec::new();
        let mut i: usize = 0;
        while i < self.weight_list.len()
            invariant
                i <= self.weight_list@.len(),
                r@.len() == i,
                forall|k: int| 0 <= k < i ==> 0 <= #[trigger] r@[k] <= MAX_AGE_HOURS,
            decreases self.weight_list@.len() - i,
        {
            let h = self.weight_list[i].age();
            r.push(h);
            i += 1;
        }
        r
    }
}

// ---------------------------------------------------------------------------
// The laws of the log.
// ---------------------------------------------------------------------------
/// Round trip: a file written as a sequence of well-formed records opens
/// to exactly those records, in order.
pub proof fn lemma_open_round_trip(ws: Seq<WeightT>)
    requires
        forall|i: int| 0 <= i < ws.len() ==> (#[trigger] ws[i]).wf(),
    ensures
        open_samples(Some(render_log(ws))) == ws,
{
    lemma_log_round_trip(ws);
}

/// Idempotence: two logs opened over the same contents hold the same
/// samples and the same extrema.
pub proof fn lemma_open_idempotent(l1: WeightlogT, l2: WeightlogT, contents: Option<Seq<u8>>)
    requires
        l1.wf(),
        l2.wf(),
        l1.weight_list@ == open_samples(contents),
        l2.weight_list@ == open_samples(contents),
    ensures
        l1.weight_list@ == l2.weight_list@,
        l1.min == l2.min,
        l1.max == l2.max,
{
}

/// Malformed-line policy: contents with any non-empty line of fewer than
/// three comma-separated fields open as the empty log.
pub proof fn lemma_open_malformed_empty(c: Seq<u8>, j: int)
    requires
        0 <= j < spec_split(c, NL).len(),
        strip_cr(spec_split(c, NL)[j]).len() > 0,
        spec_split(strip_cr(spec_split(c, NL)[j]), COMMA).len() < 3,
    ensures
        open_samples(Some(c)) == Seq::<WeightT>::empty(),
        min_of(open_samples(Some(c))) is None,
        max_of(open_samples(Some(c))) is None,
{
    lemma_malformed_line_empties(c, j);
}

/// The extrema invariant: `min` and `max` are absent exactly when there
/// are no samples, and otherwise bound every weight of the log.
pub proof fn lemma_extrema_bound(s: Seq<WeightT>)
    ensures
        (min_of(s) is None) == (s.len() == 0),
        (max_of(s) is None) == (s.len() == 0),
        forall|i: int|
            0 <= i < s.len() ==> min_of(s).unwrap() <= (#[trigger] s[i]).kilo <= max_of(
                s,
            ).unwrap(),
    decreases s.len(),
{
    if s.len() > 0 {
        lemma_extrema_bound(s.drop_last());
        assert forall|i: int|
            0 <= i < s.len() implies min_of(s).unwrap() <= (#[trigger] s[i]).kilo <= max_of(
            s,
        ).unwrap() by {
            if i < s.len() - 1 {
                assert(s.drop_last()[i] == s[i]);
            } else {
                assert(s[i] == s.last());
            }
        }
    }
}

/// Windowing: the selection is exactly the last `min(n, len)` samples, in
/// their original order, and everything when no count is given.
pub proof fn lemma_window_selects(s: Seq<WeightT>, number: Option<usize>)
    ensures
        window_spec(s, number).len() == window_len(s.len(), number),
        forall|i: int|
            0 <= i < window_len(s.len(), number) ==> #[trigger] window_spec(s, number)[i] == s[
                s.len() - window_len(s.len(), number) + i
            ],
        number is None ==> window_spec(s, number) == s,
{
    if number is None {
        assert(window_spec(s, number) =~= s);
    }
}

} // verus!
