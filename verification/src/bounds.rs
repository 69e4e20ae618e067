//! The query window: an upper calendar day and an optional signed
//! day-count that reaches its other end, resolved from the program's
//! positional parameters; and the client-side filtering of raw log lines
//! into in-window calendar days.

use vstd::prelude::*;

use crate::date::Date;
use crate::date::date_chars;
use crate::date::date_of_index;
use crate::date::from_day_number;
use crate::date::lemma_days_before_year_bounds;
use crate::date::max_day_index;
use crate::date::max_day_number;
use crate::date::parse_date;
use crate::date::parse_date_spec;
use crate::digits::parse_i64;
use crate::digits::parse_i64_spec;
use vstd::math::abs;

verus! {

/// A fatal configuration error: a positional parameter that does not
/// parse. It carries the offending value.
#[derive(Debug, Clone, PartialEq, Eq)]
pub enum ArgError {
    InvalidDate(Vec<u8>),
    InvalidNumber(Vec<u8>),
}

/// The resolved window: the most recent day considered, and an optional
/// signed day count reaching the window's other end.
#[derive(Debug, Clone, Copy)]
pub struct Bounds {
    pub upper: Date,
    pub lower_relative: Option<i64>,
}

/// The off-by-one compensation applied to the day-count parameter: one
/// step toward zero, turning an inclusive day count into the exact number
/// of days to add to reach the opposite bound.
pub open spec fn adjusted_days(n: i64) -> i64 {
    if n < 0 {
        (n + 1) as i64
    } else {
        (n - 1) as i64
    }
}

impl Bounds {
    pub open spec fn wf(self) -> bool {
        self.upper.wf()
    }

    /// Both window ends lie on supported days.
    pub open spec fn usable(self) -> bool {
        self.wf() && match self.lower_relative {
            Some(rel) => 0 <= self.upper.index() + rel <= max_day_index(),
            None => true,
        }
    }

    /// A date lies in the window when its whole-day distance from the
    /// upper bound, in either direction, is at most the magnitude of the
    /// relative lower bound; an absent lower bound keeps everything.
    pub open spec fn in_window(self, d: Date) -> bool {
        match self.lower_relative {
            None => true,
            Some(rel) => -abs(rel as int) <= d.index() - self.upper.index() <= abs(rel as int),
        }
    }
}

/// Resolves the window from the positional parameters. Exactly two
/// parameters request a bounded window; any other count keeps the
/// defaults: `today` on top, no lower bound.
pub fn get_bounds(args: &Vec<Vec<u8>>, today: Date) -> (r: Result<Bounds, ArgError>)
    requires
        today.wf(),
    ensures
        args@.len() != 2 ==> (r matches Ok(b) && b.upper == today && b.lower_relative is None),
        args@.len() == 2 ==> match parse_date_spec(args@[0]@) {
            None => r matches Err(ArgError::InvalidDate(v)) && v@ == args@[0]@,
            Some(u) => match parse_i64_spec(args@[1]@) {
                None => r matches Err(ArgError::InvalidNumber(v)) && v@ == args@[1]@,
                Some(n) => r matches Ok(b) && b.upper == u && b.lower_relative == Some(
                    adjusted_days(n),
                ),
            },
        },
        r matches Ok(b) ==> b.wf(),
{
    if args.len() == 2 {
        let upper = match parse_date(&args[0]) {
            Some(u) => u,
            None => {
                return Err(ArgError::InvalidDate(args[0].clone()));
            },
        };
        let days = match parse_i64(&args[1]) {
            Some(n) => n,
            None => {
                return Err(ArgError::InvalidNumber(args[1].clone()));
            },
        };
        let adjusted = if days < 0 {
            days + 1
        } else {
            days - 1
        };
        Ok(Bounds { upper, lower_relative: Some(adjusted) })
    } else {
        Ok(Bounds { upper: today, lower_relative: None })
    }
}

/// The `YYYY-MM-DD` rendering of the date with the given day index.
pub open spec fn date_chars_of_index(n: int) -> Seq<char> {
    let d = date_of_index(n);
    date_chars(d.year as int, d.month as int, d.day as int)
}

impl Bounds {
    /// Whether the window is usable: the exec mirror of `usable`.
    pub fn is_usable(&self) -> (b: bool)
        ensures
            b == self.usable(),
    {
        if !self.upper.is_valid() {
            return false;
        }
        match self.lower_relative {
            None => true,
            Some(rel) => {
                let u = self.upper.day_number();
                let s: i128 = u as i128 + rel as i128;
                0 <= s && s <= max_day_number() as i128
            },
        }
    }

    /// The inclusive `after`/`before` date filters the external query
    /// takes: nothing when the window is unbounded, else the two window
    /// ends in chronological order, rendered `YYYY-MM-DD`.
    pub fn query_filters(&self) -> (r: Option<(String, String)>)
        requires
            self.usable(),
        ensures
            match self.lower_relative {
                None => r is None,
                Some(rel) => {
                    let u = self.upper.index();
                    r matches Some(p) && p.0@ == date_chars_of_index(
                        if rel < 0 {
                            u + rel
                        } else {
                            u
                        },
                    ) && p.1@ == date_chars_of_index(
                        if rel < 0 {
                            u
                        } else {
                            u + rel
                        },
                    )
                },
            },
    {
        match self.lower_relative {
            None => None,
            Some(rel) => {
                let u = self.upper.day_number();
                proof {
                    lemma_days_before_year_bounds(10000);
                }
                let o = u + rel;
                let (lo, hi) = if o < u {
                    (o, u)
                } else {
                    (u, o)
                };
                let after = from_day_number(lo).format_ymd();
                let before = from_day_number(hi).format_ymd();
                Some((after, before))
            },
        }
    }
}

/// The views of a sequence of byte vectors.
pub open spec fn views_of(v: Seq<Vec<u8>>) -> Seq<Seq<u8>> {
    Seq::new(v.len(), |i: int| v[i]@)
}

/// The lines of a byte text, split on the newline byte; a text with `k`
/// newline bytes has `k + 1` lines, so an empty text has one empty line.
pub open spec fn split_lines_spec(raw: Seq<u8>) -> Seq<Seq<u8>>
    decreases raw.len(),
{
    if raw.len() == 0 {
        seq![Seq::<u8>::empty()]
    } else {
        let r = split_lines_spec(raw.drop_last());
        if raw.last() == 10 {
            r + seq![Seq::<u8>::empty()]
        } else {
            r.update(r.len() - 1, r.last().push(raw.last()))
        }
    }
}

pub proof fn lemma_split_lines_nonempty(raw: Seq<u8>)
    ensures
        split_lines_spec(raw).len() >= 1,
    decreases raw.len(),
{
    if raw.len() > 0 {
        lemma_split_lines_nonempty(raw.drop_last());
    }
}

/// Splits a byte text into its lines.
pub fn split_lines(raw: &Vec<u8>) -> (r: Vec<Vec<u8>>)
    ensures
        views_of(r@) == split_lines_spec(raw@),
{
    let mut out: Vec<Vec<u8>> = Vec::new();
    let mut cur: Vec<u8> = Vec::new();
    let mut i: usize = 0;
    while i < raw.len()
        invariant
            i <= raw@.len(),
            views_of(out@).push(cur@) =~= split_lines_spec(raw@.take(i as int)),
        decreases raw@.len() - i,
    {
        let ghost pre = raw@.take(i as int);
        let ghost post = raw@.take(i as int + 1);
        proof {
            assert(post.drop_last() =~= pre);
            assert(post.last() == raw@[i as int]);
            lemma_split_lines_nonempty(pre);
        }
        let b = raw[i];
        if b == 10 {
            out.push(cur);
            cur = Vec::new();
            proof {
                assert(views_of(out@).push(cur@) =~= split_lines_spec(post));
            }
        } else {
            cur.push(b);
            proof {
                assert(views_of(out@).push(cur@) =~= split_lines_spec(post));
            }
        }
        i = i + 1;
    }
    proof {
        assert(raw@.take(raw@.len() as int) =~= raw@);
    }
    out.push(cur);
    proof {
        assert(views_of(out@) =~= split_lines_spec(raw@));
    }
    out
}

/// Length of a line's leading space-delimited token.
pub open spec fn token_len_spec(line: Seq<u8>) -> int
    decreases line.len(),
{
    if line.len() == 0 {
        0
    } else if line[0] == 32 {
        0
    } else {
        1 + token_len_spec(line.skip(1))
    }
}

/// A line's leading space-delimited token.
pub open spec fn first_token(line: Seq<u8>) -> Seq<u8> {
    line.take(token_len_spec(line))
}

/// The calendar day a log line names: the fixed-format date its leading
/// token spells, if any; an empty line names none.
pub open spec fn line_date(line: Seq<u8>) -> Option<Date> {
    if line.len() == 0 {
        None
    } else {
        parse_date_spec(first_token(line))
    }
}

proof fn lemma_token_len_at(line: Seq<u8>, i: int)
    requires
        0 <= i <= line.len(),
        forall|j: int| 0 <= j < i ==> line[j] != 32,
        i == line.len() || line[i] == 32,
    ensures
        token_len_spec(line) == i,
    decreases i,
{
    if i == 0 {
    } else {
        assert(line[0] != 32);
        let rest = line.skip(1);
        assert forall|j: int| 0 <= j < i - 1 implies rest[j] != 32 by {
            assert(rest[j] == line[j + 1]);
        }
        if i - 1 < rest.len() {
            assert(rest[i - 1] == line[i]);
        }
        lemma_token_len_at(rest, i - 1);
    }
}

/// The day named by one log line, if any.
fn date_of_line(line: &Vec<u8>) -> (r: Option<Date>)
    ensures
        r == line_date(line@),
        r matches Some(d) ==> d.wf(),
{
    if line.len() == 0 {
        return None;
    }
    let mut k: usize = 0;
    while k < line.len() && line[k] != 32
        invariant
            k <= line@.len(),
            forall|j: int| 0 <= j < k ==> line@[j] != 32,
        decreases line@.len() - k,
    {
        k = k + 1;
    }
    proof {
        lemma_token_len_at(line@, k as int);
    }
    let mut tok: Vec<u8> = Vec::new();
    let mut j: usize = 0;
    while j < k
        invariant
            j <= k <= line@.len(),
            tok@ == line@.subrange(0, j as int),
        decreases k - j,
    {
        tok.push(line[j]);
        proof {
            assert(tok@ =~= line@.subrange(0, j as int + 1));
        }
        j = j + 1;
    }
    proof {
        assert(tok@ =~= first_token(line@));
    }
    parse_date(&tok)
}

/// The in-window days named by a text's lines, in text order; lines that
/// name no day contribute nothing.
pub open spec fn filtered_days(b: Bounds, lines: Seq<Seq<u8>>) -> Seq<Date>
    decreases lines.len(),
{
    if lines.len() == 0 {
        Seq::empty()
    } else {
        let rest = filtered_days(b, lines.drop_last());
        match line_date(lines.last()) {
            Some(d) => if b.in_window(d) {
                rest.push(d)
            } else {
                rest
            },
            None => rest,
        }
    }
}

impl Bounds {
    /// Exec mirror of `in_window`.
    fn date_in_window(&self, d: &Date) -> (r: bool)
        requires
            self.wf(),
            d.wf(),
        ensures
            r == self.in_window(*d),
    {
        match self.lower_relative {
            None => true,
            Some(rel) => {
                let di = d.day_number();
                let u = self.upper.day_number();
                proof {
                    lemma_days_before_year_bounds(10000);
                }
                let diff = di - u;
                if rel == i64::MIN {
                    // The distance of two supported days is far below this magnitude.
                    true
                } else {
                    let a = if rel < 0 {
                        -rel
                    } else {
                        rel
                    };
                    -a <= diff && diff <= a
                }
            },
        }
    }

    /// Splits the raw log text into lines, keeps each line whose leading
    /// token spells a calendar date inside the window, and returns those
    /// days in text order. Malformed or empty lines are dropped silently.
    pub fn filter_dates(&self, raw: &Vec<u8>) -> (r: Vec<Date>)
        requires
            self.wf(),
        ensures
            r@ == filtered_days(*self, split_lines_spec(raw@)),
            forall|i: int| 0 <= i < r@.len() ==> (#[trigger] r@[i]).wf() && self.in_window(r@[i]),
    {
        let lines = split_lines(raw);
        let ghost lviews = views_of(lines@);
        let mut out: Vec<Date> = Vec::new();
        let mut i: usize = 0;
        while i < lines.len()
            invariant
                i <= lines@.len(),
                lviews == views_of(lines@),
                self.wf(),
                out@ == filtered_days(*self, lviews.take(i as int)),
                forall|j: int|
                    0 <= j < out@.len() ==> (#[trigger] out@[j]).wf() && self.in_window(out@[j]),
            decreases lines@.len() - i,
        {
            let ghost pre = lviews.take(i as int);
            let ghost post = lviews.take(i as int + 1);
            proof {
                assert(post.drop_last() =~= pre);
                assert(post.last() == lines@[i as int]@);
            }
            match date_of_line(&lines[i]) {
                Some(d) => {
                    if self.date_in_window(&d) {
                        out.push(d);
                    }
                },
                None => {},
            }
            i = i + 1;
        }
        proof {
            assert(lviews.take(lines@.len() as int) =~= lviews);
        }
        out
    }
}

} // verus!
