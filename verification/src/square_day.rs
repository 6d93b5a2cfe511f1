//! Dates whose `YYYYMMDD` number is a perfect square.
use vstd::prelude::*;
use std::collections::HashMap;
use crate::calendar::{
    datenum, datenum_of, is_last_date, is_valid_ymd, lemma_datenum_strictly_monotone,
    lemma_successor_is_next_date, next_day, successor, ymd_le, ymd_lt, Date, Ymd,
};

verus! {

broadcast use vstd::std_specs::hash::group_hash_axioms;

/// `r` is the integer square root of `n`, rounded down.
pub open spec fn is_floor_sqrt(n: int, r: int) -> bool {
    0 <= r && r * r <= n < (r + 1) * (r + 1)
}

/// `r` is the integer square root of `n`, rounded up.
pub open spec fn is_ceil_sqrt(n: int, r: int) -> bool {
    0 <= r && n <= r * r && (r == 0 || (r - 1) * (r - 1) < n)
}

pub open spec fn square_of(r: int) -> int {
    r * r
}

/// `n` is the square of some integer.
pub open spec fn is_perfect_square(n: int) -> bool {
    exists|r: int| 0 <= r && #[trigger] square_of(r) == n
}

pub open spec fn spec_square(r: u32) -> u32 {
    (r * r) as u32
}

pub(crate) proof fn lemma_square_strictly_monotone(a: int, b: int)
    by (nonlinear_arith)
    requires
        0 <= a < b,
    ensures
        a * a < b * b,
{
}

proof fn lemma_square_monotone(a: int, b: int)
    by (nonlinear_arith)
    requires
        0 <= a <= b,
    ensures
        a * a <= b * b,
{
}

/// `num * num`; the square must fit in a `u32`.
pub fn square(num: u32) -> (sq: u32)
    requires
        num * num <= u32::MAX,
    ensures
        sq == num * num,
{
    num * num
}

/// The square root of `num`, rounded down.
pub fn sqrt_prevint(num: u32) -> (r: u32)
    ensures
        is_floor_sqrt(num as int, r as int),
{
    let n: u64 = num as u64;
    let mut lo: u64 = 0;
    let mut hi: u64 = 65536;
    while hi - lo > 1
        invariant
            lo < hi <= 65536,
            lo * lo <= n,
            n < hi * hi,
            n == num,
        decreases hi - lo,
    {
        let mid: u64 = lo + (hi - lo) / 2;
        assert(mid * mid <= 65536 * 65536) by {
            lemma_square_monotone(mid as int, 65536);
        }
        if mid * mid <= n {
            lo = mid;
        } else {
            hi = mid;
        }
    }
    lo as u32
}

/// The square root of `num`, rounded up.
pub fn sqrt_nextint(num: u32) -> (r: u32)
    ensures
        is_ceil_sqrt(num as int, r as int),
{
    let r = sqrt_prevint(num);
    assert(r < 65536) by {
        if r >= 65536 {
            lemma_square_monotone(65536, r as int);
        }
    }
    assert((r + 1 - 1) * (r + 1 - 1) == r * r);
    proof {
        if r > 0 {
            lemma_square_strictly_monotone(r - 1, r as int);
        }
    }
    if (r as u64) * (r as u64) == num as u64 {
        r
    } else {
        r + 1
    }
}

/// `num + 1`; `num` must not be `u32::MAX`.
pub fn next_num(num: u32) -> (n: u32)
    requires
        num < u32::MAX,
    ensures
        n == num + 1,
{
    num + 1
}

/// Yields `(r * r, r)` for `r` from a start number up to an end number.
pub struct FullSquareNumIter {
    end: u32,
    next: u32,
}

impl View for FullSquareNumIter {
    /// (last root, next root)
    type V = (int, int);

    closed spec fn view(&self) -> (int, int) {
        (self.end as int, self.next as int)
    }
}

/// The next step of the iterator does not overflow.
pub open spec fn square_iter_can_step(v: (int, int)) -> bool {
    v.1 <= v.0 ==> v.1 * v.1 <= u32::MAX && v.1 < u32::MAX
}

/// The items that the square iterator yields from the state `v` (last
/// root, next root), in order, before it returns `None`.
pub open spec fn square_iter_items(v: (int, int)) -> Seq<(int, int)>
    decreases v.0 + 1 - v.1,
{
    if v.1 > v.0 {
        Seq::empty()
    } else {
        seq![(v.1 * v.1, v.1)] + square_iter_items((v.0, v.1 + 1))
    }
}

impl FullSquareNumIter {
    pub fn new(start: u32, end: u32) -> (it: FullSquareNumIter)
        ensures
            it@ == (end as int, start as int),
    {
        FullSquareNumIter { end, next: start }
    }

    pub fn next(&mut self) -> (item: Option<(u32, u32)>)
        requires
            square_iter_can_step(old(self)@),
        ensures
            match item {
                None => old(self)@.1 > old(self)@.0 && final(self)@ == old(self)@,
                Some(p) => {
                    &&& old(self)@.1 <= old(self)@.0
                    &&& p.1 == old(self)@.1
                    &&& p.0 == p.1 * p.1
                    &&& final(self)@ == (old(self)@.0, old(self)@.1 + 1)
                },
            },
            match item {
                None => square_iter_items(old(self)@) == Seq::<(int, int)>::empty(),
                Some(p) => square_iter_items(old(self)@) == seq![(p.0 as int, p.1 as int)]
                    + square_iter_items(final(self)@),
            },
    {
        let curr = self.next;
        if curr > self.end {
            None
        } else {
            self.next = next_num(self.next);
            Some((square(curr), curr))
        }
    }
}

/// Yields the `YYYYMMDD` numbers of the days from a start date up to an end date.
pub struct DateNumIter {
    end: Date,
    next: Date,
}

impl View for DateNumIter {
    /// (last date, next date)
    type V = (Ymd, Ymd);

    closed spec fn view(&self) -> (Ymd, Ymd) {
        (self.end@, self.next@)
    }
}

/// The next step of the iterator has a number and a following day.
pub open spec fn date_iter_can_step(v: (Ymd, Ymd)) -> bool {
    !ymd_lt(v.0, v.1) ==> v.1.0 >= 0 && !is_last_date(v.1)
}

/// The day numbers that the date iterator yields from the state `v` (last
/// date, next date), in order, before it returns `None`.
pub open spec fn date_iter_items(v: (Ymd, Ymd)) -> Seq<int>
    decreases (if ymd_le(v.1, v.0) {
        datenum_of(v.0) + 2 - datenum_of(v.1)
    } else {
        0
    }),
{
    if ymd_lt(v.0, v.1) {
        Seq::empty()
    } else if !(is_valid_ymd(v.0) && is_valid_ymd(v.1) && !is_last_date(v.1)) {
        seq![datenum_of(v.1)]
    } else {
        proof {
            lemma_successor_is_next_date(v.1);
            lemma_datenum_strictly_monotone(v.1, successor(v.1));
            lemma_datenum_strictly_monotone(v.1, v.0);
            lemma_datenum_strictly_monotone(successor(v.1), v.0);
        }
        seq![datenum_of(v.1)] + date_iter_items((v.0, successor(v.1)))
    }
}

impl DateNumIter {
    pub fn new(start: Date, end: Date) -> (it: DateNumIter)
        ensures
            it@ == (end@, start@),
            is_valid_ymd(it@.0),
            is_valid_ymd(it@.1),
    {
        proof { use_type_invariant(&start); }
        proof { use_type_invariant(&end); }
        DateNumIter { end, next: start }
    }

    pub fn next(&mut self) -> (item: Option<u32>)
        requires
            date_iter_can_step(old(self)@),
        ensures
            is_valid_ymd(final(self)@.0),
            is_valid_ymd(final(self)@.1),
            match item {
                None => ymd_lt(old(self)@.0, old(self)@.1) && final(self)@ == old(self)@,
                Some(n) => {
                    &&& !ymd_lt(old(self)@.0, old(self)@.1)
                    &&& n == datenum_of(old(self)@.1)
                    &&& final(self)@ == (old(self)@.0, successor(old(self)@.1))
                },
            },
            match item {
                None => date_iter_items(old(self)@) == Seq::<int>::empty(),
                Some(n) => date_iter_items(old(self)@) == seq![n as int] + date_iter_items(final(self)@),
            },
    {
        proof { use_type_invariant(&self.end); }
        proof { use_type_invariant(&self.next); }
        let curr = self.next;
        if curr.is_after(&self.end) {
            None
        } else {
            self.next = next_day(self.next);
            proof { use_type_invariant(&self.next); }
            Some(datenum(curr))
        }
    }
}

/// `d` is a date from `start` to `end`, both included.
pub open spec fn in_date_range(d: Ymd, start: Ymd, end: Ymd) -> bool {
    is_valid_ymd(d) && ymd_le(start, d) && ymd_le(d, end)
}

/// `e` is `(r, r * r)` where `r * r` is the number of a date from `start` to `end`.
pub open spec fn is_square_day_entry(e: (u32, u32), start: Ymd, end: Ymd) -> bool {
    &&& e.1 == e.0 * e.0
    &&& exists|d: Ymd| in_date_range(d, start, end) && datenum_of(d) == e.1
}

/// The table from each square `r * r` to its root `r`, for `r` from
/// `min_root` to `max_root`.
pub fn root_table(min_root: u32, max_root: u32) -> (table: HashMap<u32, u32>)
    requires
        min_root <= max_root ==> max_root < 65536,
    ensures
        forall|k: u32| #[trigger] table@.contains_key(k) ==> table@[k] * table@[k] == k
            && min_root <= table@[k] <= max_root,
        forall|r: u32|
            min_root <= r <= max_root ==> #[trigger] table@.contains_key(spec_square(r))
                && table@[spec_square(r)] == r,
{
    let mut table: HashMap<u32, u32> = HashMap::new();
    let mut squares = FullSquareNumIter::new(min_root, max_root);
    loop
        invariant
            squares@.0 == max_root,
            min_root <= squares@.1,
            min_root <= max_root ==> max_root < 65536,
            forall|k: u32| #[trigger] table@.contains_key(k) ==> table@[k] * table@[k] == k
                && min_root <= table@[k] <= max_root,
            forall|r: u32|
                min_root <= r < squares@.1 && r <= max_root ==> #[trigger] table@.contains_key(
                    spec_square(r),
                ) && table@[spec_square(r)] == r,
        ensures
            squares@.1 > max_root,
        decreases max_root + 1 - squares@.1,
    {
        proof {
            if squares@.1 <= squares@.0 {
                lemma_square_monotone(squares@.1, 65535);
            }
        }
        match squares.next() {
            Some((sq, root)) => {
                table.insert(sq, root);
                assert forall|r: u32|
                    min_root <= r < squares@.1 && r <= max_root implies #[trigger] table@.contains_key(
                    spec_square(r),
                ) && table@[spec_square(r)] == r by {
                    if r < root {
                        lemma_square_strictly_monotone(r as int, root as int);
                    }
                }
            },
            None => {
                break ;
            },
        }
    }
    table
}

/// `e` is `(table[n], n)` where `n` is the number of a date from `start` to
/// `end` and a key of the table.
pub open spec fn is_table_hit(e: (u32, u32), table: Map<u32, u32>, start: Ymd, end: Ymd) -> bool {
    &&& table.contains_key(e.1)
    &&& table[e.1] == e.0
    &&& exists|d: Ymd| in_date_range(d, start, end) && datenum_of(d) == e.1
}

/// The days from `start` to `end` whose numbers are keys of `table`, as
/// `(table value, number)` pairs in calendar order.
pub fn find_square_days(table: &HashMap<u32, u32>, start: Date, end: Date) -> (res: Vec<(u32, u32)>)
    requires
        ymd_le(start@, end@) ==> start@.0 >= 0,
        ymd_le(start@, end@) ==> !is_last_date(end@),
    ensures
        forall|i: int| 0 <= i < res.len() ==> is_table_hit(#[trigger] res[i], table@, start@, end@),
        forall|i: int, j: int| 0 <= i < j < res.len() ==> res[i].1 < res[j].1,
        forall|d: Ymd|
            #![trigger in_date_range(d, start@, end@)]
            in_date_range(d, start@, end@) && table@.contains_key(datenum_of(d) as u32) ==> exists|i: int|
                0 <= i < res.len() && res[i].1 == datenum_of(d),
{
    proof { use_type_invariant(&start); }
    proof { use_type_invariant(&end); }
    let mut result: Vec<(u32, u32)> = Vec::new();
    let mut dates = DateNumIter::new(start, end);
    loop
        invariant
            dates@.0 == end@,
            is_valid_ymd(dates@.1),
            ymd_le(start@, dates@.1),
            ymd_le(start@, end@) ==> start@.0 >= 0,
            is_valid_ymd(start@),
            is_valid_ymd(end@),
            ymd_le(start@, end@) ==> !is_last_date(end@),
            forall|i: int| 0 <= i < result.len() ==> is_table_hit(#[trigger] result[i], table@, start@, end@),
            forall|i: int, j: int| 0 <= i < j < result.len() ==> result[i].1 < result[j].1,
            forall|i: int| 0 <= i < result.len() ==> #[trigger] result[i].1 < datenum_of(dates@.1),
            forall|d: Ymd|
                #![trigger in_date_range(d, start@, end@)]
                in_date_range(d, start@, end@) && ymd_lt(d, dates@.1) && table@.contains_key(
                    datenum_of(d) as u32,
                ) ==> exists|i: int| 0 <= i < result.len() && result[i].1 == datenum_of(d),
        ensures
            ymd_lt(end@, dates@.1),
        decreases
            if ymd_le(dates@.1, end@) {
                datenum_of(end@) + 2 - datenum_of(dates@.1)
            } else {
                0
            },
    {
        let ghost cur = dates@.1;
        match dates.next() {
            Some(n) => {
                proof {
                    lemma_successor_is_next_date(cur);
                    lemma_datenum_strictly_monotone(cur, successor(cur));
                    lemma_datenum_strictly_monotone(cur, end@);
                    lemma_datenum_strictly_monotone(successor(cur), end@);
                }
                let ghost old_result = result@;
                match table.get(&n) {
                    Some(root) => {
                        result.push((*root, n));
                        assert(in_date_range(cur, start@, end@) && datenum_of(cur) == n);
                        assert(is_table_hit(result[result.len() - 1], table@, start@, end@));
                        assert forall|i: int| 0 <= i < result.len() implies is_table_hit(
                            #[trigger] result[i],
                            table@,
                            start@,
                            end@,
                        ) by {
                            if i < old_result.len() {
                                assert(result[i] == old_result[i]);
                            }
                        }
                    },
                    None => {},
                }
                assert forall|d: Ymd|
                    #![trigger in_date_range(d, start@, end@)]
                    in_date_range(d, start@, end@) && ymd_lt(d, dates@.1) && table@.contains_key(
                        datenum_of(d) as u32,
                    ) implies exists|i: int| 0 <= i < result.len() && result[i].1 == datenum_of(d) by {
                    if ymd_lt(d, cur) {
                        let i = choose|i: int| 0 <= i < old_result.len() && old_result[i].1 == datenum_of(d);
                        assert(result[i] == old_result[i]);
                    } else {
                        assert(d == cur);
                        assert(result[result.len() - 1].1 == datenum_of(d));
                    }
                }
            },
            None => {
                break ;
            },
        }
    }
    result
}

/// All days from `start` to `end` whose `YYYYMMDD` number is a perfect
/// square, as `(root, number)` pairs in calendar order: the roots between
/// those of the first and the last day's numbers are tabled, then every day
/// is looked up.
pub fn full_square_days(start: Date, end: Date) -> (res: Vec<(u32, u32)>)
    requires
        start@.0 >= 0,
        end@.0 >= 0,
        ymd_le(start@, end@) ==> !is_last_date(end@),
    ensures
        forall|i: int| 0 <= i < res.len() ==> is_square_day_entry(#[trigger] res[i], start@, end@),
        forall|i: int, j: int| 0 <= i < j < res.len() ==> res[i].1 < res[j].1,
        forall|d: Ymd|
            #![trigger in_date_range(d, start@, end@)]
            in_date_range(d, start@, end@) && is_perfect_square(datenum_of(d)) ==> exists|i: int|
                0 <= i < res.len() && res[i].1 == datenum_of(d),
{
    let start_num = datenum(start);
    let end_num = datenum(end);
    let min_root = sqrt_prevint(start_num);
    let max_root = sqrt_nextint(end_num);
    proof { use_type_invariant(&start); }
    proof { use_type_invariant(&end); }
    proof {
        assert(end_num <= 2621421231);
        if max_root > 51200 {
            lemma_square_monotone(51200, max_root - 1);
        }
    }
    let table = root_table(min_root, max_root);
    let res = find_square_days(&table, start, end);
    assert forall|i: int| 0 <= i < res.len() implies is_square_day_entry(#[trigger] res[i], start@, end@) by {
        assert(is_table_hit(res[i], table@, start@, end@));
    }
    assert forall|d: Ymd|
        #![trigger in_date_range(d, start@, end@)]
        in_date_range(d, start@, end@) && is_perfect_square(datenum_of(d)) implies exists|i: int|
            0 <= i < res.len() && res[i].1 == datenum_of(d) by {
        let r = choose|r: int| 0 <= r && #[trigger] square_of(r) == datenum_of(d);
        lemma_datenum_strictly_monotone(start@, d);
        lemma_datenum_strictly_monotone(d, end@);
        if r < min_root {
            lemma_square_strictly_monotone(r, min_root as int);
        }
        if r > max_root {
            lemma_square_strictly_monotone(max_root as int, r);
        }
        assert(table@.contains_key(spec_square(r as u32)));
        assert(in_date_range(d, start@, end@));
    }
    res
}

/// A whole run of the square iterator from `start` to `end` yields
/// `(k * k, k)` for `k` from `start` up to `end`, in order (nothing when
/// `start > end`), and with `end` at most 65535 no step of it overflows.
pub proof fn lemma_square_iter_run(start: int, end: int)
    requires
        0 <= start,
    ensures
        square_iter_items((end, start)).len() == (if start <= end { end - start + 1 } else { 0 }),
        forall|i: int|
            0 <= i < square_iter_items((end, start)).len() ==> #[trigger] square_iter_items((end, start))[i]
                == ((start + i) * (start + i), start + i),
        end <= 65535 ==> forall|k: int| start <= k ==> #[trigger] square_iter_can_step((end, k)),
    decreases end + 1 - start,
{
    if start <= end {
        lemma_square_iter_run(start + 1, end);
        let rest = square_iter_items((end, start + 1));
        let items = square_iter_items((end, start));
        assert(items == seq![(start * start, start)] + rest);
        assert forall|i: int| 0 <= i < items.len() implies #[trigger] items[i] == ((start + i) * (start + i), start
            + i) by {
            if i > 0 {
                assert(items[i] == rest[i - 1]);
            }
        }
    }
    if end <= 65535 {
        assert forall|k: int| start <= k implies #[trigger] square_iter_can_step((end, k)) by {
            if k <= end {
                lemma_square_monotone(k, 65535);
            }
        }
    }
}

/// Iterating squares from the root of `lo` rounded down to the root of `hi`
/// rounded up (with `hi` at most 65535 squared) never overflows; every item
/// is a square with its root, and every square `r * r` in `lo..=hi` comes
/// out exactly once, as `(r * r, r)`.
pub proof fn lemma_square_iter_covers(lo: int, hi: int, r1: int, r2: int)
    requires
        0 <= lo <= hi <= 65535 * 65535,
        is_floor_sqrt(lo, r1),
        is_ceil_sqrt(hi, r2),
    ensures
        forall|k: int| r1 <= k ==> #[trigger] square_iter_can_step((r2, k)),
        forall|i: int|
            0 <= i < square_iter_items((r2, r1)).len() ==> #[trigger] square_iter_items((r2, r1))[i].0
                == square_iter_items((r2, r1))[i].1 * square_iter_items((r2, r1))[i].1,
        forall|r: int|
            0 <= r && lo <= #[trigger] square_of(r) <= hi ==> exists|i: int|
                0 <= i < square_iter_items((r2, r1)).len() && square_iter_items((r2, r1))[i] == (square_of(r), r)
                    && forall|j: int|
                    0 <= j < square_iter_items((r2, r1)).len() && square_iter_items((r2, r1))[j].0 == square_of(r)
                        ==> j == i,
{
    if r2 > 65535 {
        lemma_square_monotone(65535, r2 - 1);
    }
    lemma_square_iter_run(r1, r2);
    let items = square_iter_items((r2, r1));
    assert forall|r: int| 0 <= r && lo <= #[trigger] square_of(r) <= hi implies exists|i: int|
        0 <= i < items.len() && items[i] == (square_of(r), r) && forall|j: int|
            0 <= j < items.len() && items[j].0 == square_of(r) ==> j == i by {
        if r < r1 {
            lemma_square_strictly_monotone(r, r1);
        }
        if r > r2 {
            lemma_square_strictly_monotone(r2, r);
        }
        let i = r - r1;
        assert(items[i] == (square_of(r), r));
        assert forall|j: int| 0 <= j < items.len() && items[j].0 == square_of(r) implies j == i by {
            assert(items[j] == ((r1 + j) * (r1 + j), r1 + j));
            if r1 + j < r {
                lemma_square_strictly_monotone(r1 + j, r);
            }
            if r1 + j > r {
                lemma_square_strictly_monotone(r, r1 + j);
            }
        }
    }
}

proof fn lemma_date_items(end: Ymd, cur: Ymd)
    requires
        is_valid_ymd(end),
        is_valid_ymd(cur),
        !is_last_date(end),
    ensures
        forall|i: int, j: int|
            0 <= i < j < date_iter_items((end, cur)).len() ==> date_iter_items((end, cur))[i]
                < date_iter_items((end, cur))[j],
        forall|i: int|
            0 <= i < date_iter_items((end, cur)).len() ==> datenum_of(cur) <= #[trigger] date_iter_items(
                (end, cur),
            )[i],
        forall|n: int|
            date_iter_items((end, cur)).contains(n) <==> exists|d: Ymd|
                in_date_range(d, cur, end) && #[trigger] datenum_of(d) == n,
    decreases (if ymd_le(cur, end) {
        datenum_of(end) + 2 - datenum_of(cur)
    } else {
        0
    }),
{
    let items = date_iter_items((end, cur));
    if ymd_lt(end, cur) {
        assert forall|d: Ymd| !#[trigger] in_date_range(d, cur, end) by {}
    } else {
        let next = successor(cur);
        lemma_successor_is_next_date(cur);
        lemma_datenum_strictly_monotone(cur, next);
        lemma_datenum_strictly_monotone(cur, end);
        lemma_datenum_strictly_monotone(next, end);
        lemma_date_items(end, next);
        let rest = date_iter_items((end, next));
        assert(items == seq![datenum_of(cur)] + rest);
        assert forall|i: int| 0 <= i < items.len() implies datenum_of(cur) <= #[trigger] items[i] by {
            if i > 0 {
                assert(items[i] == rest[i - 1]);
            }
        }
        assert forall|i: int, j: int| 0 <= i < j < items.len() implies items[i] < items[j] by {
            assert(items[j] == rest[j - 1]);
            if i > 0 {
                assert(items[i] == rest[i - 1]);
            }
        }
        assert forall|n: int| items.contains(n) <==> exists|d: Ymd|
            in_date_range(d, cur, end) && #[trigger] datenum_of(d) == n by {
            if items.contains(n) {
                let i = choose|i: int| 0 <= i < items.len() && items[i] == n;
                if i == 0 {
                    assert(in_date_range(cur, cur, end) && datenum_of(cur) == n);
                } else {
                    assert(rest[i - 1] == n);
                    assert(rest.contains(n));
                    let d = choose|d: Ymd| in_date_range(d, next, end) && #[trigger] datenum_of(d) == n;
                    assert(in_date_range(d, cur, end));
                }
            }
            if exists|d: Ymd| in_date_range(d, cur, end) && #[trigger] datenum_of(d) == n {
                let d = choose|d: Ymd| in_date_range(d, cur, end) && #[trigger] datenum_of(d) == n;
                if d == cur {
                    assert(items[0] == n);
                } else {
                    assert(in_date_range(d, next, end));
                    assert(rest.contains(n));
                    let i = choose|i: int| 0 <= i < rest.len() && rest[i] == n;
                    assert(items[i + 1] == n);
                }
            }
        }
    }
}

/// A whole run of the date iterator from `start` to `end` (neither before
/// year 0 when `start <= end`, `end` not chrono's last date) yields the
/// number of every date from `start` to `end`, each once, in increasing
/// (so calendar) order, and no step of it fails.
pub proof fn lemma_date_iter_run(start: Ymd, end: Ymd)
    requires
        is_valid_ymd(start),
        is_valid_ymd(end),
        !is_last_date(end),
        ymd_le(start, end) ==> start.0 >= 0,
    ensures
        forall|i: int, j: int|
            0 <= i < j < date_iter_items((end, start)).len() ==> date_iter_items((end, start))[i]
                < date_iter_items((end, start))[j],
        forall|n: int|
            date_iter_items((end, start)).contains(n) <==> exists|d: Ymd|
                in_date_range(d, start, end) && #[trigger] datenum_of(d) == n,
        forall|d: Ymd| is_valid_ymd(d) && ymd_le(start, d) ==> #[trigger] date_iter_can_step((end, d)),
{
    lemma_date_items(end, start);
}

} // verus!
