//! The tables behind the search for days whose `YYYYMMDD` number has an
//! integer square root: every day number of a date range, and every square
//! up to the first one past a bound, keyed to its root.
use vstd::prelude::*;
use std::collections::{HashMap, HashSet};
use crate::calendar::{
    datenum, datenum_of, is_last_date, is_valid_ymd, lemma_datenum_strictly_monotone,
    lemma_successor_is_next_date, next_day, successor, ymd_le, ymd_lt, Date, Ymd,
};
use crate::square_day::{lemma_square_strictly_monotone, spec_square, square};

verus! {

broadcast use vstd::std_specs::hash::group_hash_axioms;

/// `d` is the first day or a day up to `end`: the days whose numbers the
/// table holds (the first day is taken even when it comes after `end`).
pub open spec fn is_listed_day(d: Ymd, start: Ymd, end: Ymd) -> bool {
    is_valid_ymd(d) && (d == start || (ymd_le(start, d) && ymd_le(d, end)))
}

/// The `YYYYMMDD` numbers of `start` and of every following day up to `end`.
pub fn date_num_set(start: Date, end: Date) -> (set: HashSet<u32>)
    requires
        start@.0 >= 0,
        !is_last_date(start@),
        ymd_le(start@, end@) ==> !is_last_date(end@),
    ensures
        forall|n: u32|
            set@.contains(n) <==> exists|d: Ymd| is_listed_day(d, start@, end@) && #[trigger] datenum_of(d) == n,
{
    proof { use_type_invariant(&start); }
    proof { use_type_invariant(&end); }
    let mut date = start;
    let mut set: HashSet<u32> = HashSet::new();
    loop
        invariant_except_break
            date == start || (ymd_lt(start@, date@) && ymd_le(date@, end@)),
        invariant
            is_valid_ymd(start@),
            is_valid_ymd(end@),
            is_valid_ymd(date@),
            start@.0 >= 0,
            !is_last_date(start@),
            ymd_le(start@, end@) ==> !is_last_date(end@),
            forall|n: u32| set@.contains(n) ==> n < datenum_of(date@),
            forall|n: u32|
                set@.contains(n) <==> exists|d: Ymd|
                    is_valid_ymd(d) && ymd_le(start@, d) && ymd_lt(d, date@) && #[trigger] datenum_of(d) == n,
        ensures
            ymd_lt(end@, date@),
            forall|n: u32|
                set@.contains(n) <==> exists|d: Ymd|
                    is_valid_ymd(d) && ymd_le(start@, d) && ymd_lt(d, date@) && #[trigger] datenum_of(d) == n,
            exists|p: Ymd| #![trigger successor(p)] is_listed_day(p, start@, end@) && date@ == successor(p),
        decreases
            if ymd_le(date@, end@) {
                datenum_of(end@) + 2 - datenum_of(date@)
            } else {
                1
            },
    {
        let ghost cur = date@;
        let n = datenum(date);
        let ghost old_set = set@;
        let fresh = set.insert(n);
        assert(fresh);
        date = next_day(date);
        proof { use_type_invariant(&date); }
        proof {
            lemma_successor_is_next_date(cur);
            lemma_datenum_strictly_monotone(cur, successor(cur));
            assert forall|m: u32| set@.contains(m) <==> exists|d: Ymd|
                is_valid_ymd(d) && ymd_le(start@, d) && ymd_lt(d, date@) && #[trigger] datenum_of(d) == m by {
                if set@.contains(m) && m != n {
                    assert(old_set.contains(m));
                    let d = choose|d: Ymd|
                        is_valid_ymd(d) && ymd_le(start@, d) && ymd_lt(d, cur) && #[trigger] datenum_of(d) == m;
                    assert(ymd_lt(d, date@));
                }
                if m == n {
                    assert(datenum_of(cur) == m);
                }
                if exists|d: Ymd|
                    is_valid_ymd(d) && ymd_le(start@, d) && ymd_lt(d, date@) && #[trigger] datenum_of(d) == m {
                    let d = choose|d: Ymd|
                        is_valid_ymd(d) && ymd_le(start@, d) && ymd_lt(d, date@) && #[trigger] datenum_of(d) == m;
                    if d != cur {
                        assert(ymd_lt(d, cur));
                        assert(old_set.contains(m));
                    }
                }
            }
            assert(is_listed_day(cur, start@, end@));
            if ymd_le(date@, end@) {
                lemma_datenum_strictly_monotone(date@, end@);
            }
        }
        if date.is_after(&end) {
            break ;
        }
    }
    proof {
        let p = choose|p: Ymd| #![trigger successor(p)] is_listed_day(p, start@, end@) && date@ == successor(p);
        lemma_successor_is_next_date(p);
        assert forall|n: u32| set@.contains(n) <==> exists|d: Ymd|
            is_listed_day(d, start@, end@) && #[trigger] datenum_of(d) == n by {
            if set@.contains(n) {
                let d = choose|d: Ymd|
                    is_valid_ymd(d) && ymd_le(start@, d) && ymd_lt(d, date@) && #[trigger] datenum_of(d) == n;
                assert(is_listed_day(d, start@, end@));
            }
            if exists|d: Ymd| is_listed_day(d, start@, end@) && #[trigger] datenum_of(d) == n {
                let d = choose|d: Ymd| is_listed_day(d, start@, end@) && #[trigger] datenum_of(d) == n;
                assert(ymd_lt(d, date@));
            }
        }
    }
    set
}

/// `m` maps `r * r` to `r` for every `r` from 1 below `n`.
pub open spec fn roots_below_held(m: Map<u32, u32>, n: int) -> bool {
    forall|r: u32| 1 <= r < n ==> #[trigger] m.contains_key(spec_square(r)) && m[spec_square(r)] == r
}

/// Every square `r * r` for `r` from 1 up to the first root whose square
/// exceeds `end_num`, mapped to its root.
pub fn square_root_map(end_num: u32) -> (map: HashMap<u32, u32>)
    requires
        end_num < 65535 * 65535,
    ensures
        forall|r: u32|
            1 <= r && (r - 1) * (r - 1) <= end_num ==> #[trigger] map@.contains_key(spec_square(r))
                && map@[spec_square(r)] == r,
        forall|k: u32|
            #[trigger] map@.contains_key(k) ==> {
                &&& map@[k] * map@[k] == k
                &&& 1 <= map@[k]
                &&& (map@[k] - 1) * (map@[k] - 1) <= end_num
            },
{
    let mut num: u32 = 1;
    let mut map: HashMap<u32, u32> = HashMap::new();
    loop
        invariant_except_break
            (num - 1) * (num - 1) <= end_num,
        invariant
            1 <= num,
            end_num < 65535 * 65535,
            roots_below_held(map@, num as int),
            forall|k: u32|
                #[trigger] map@.contains_key(k) ==> map@[k] * map@[k] == k && 1 <= map@[k] < num,
        ensures
            (num - 1) * (num - 1) > end_num,
            (num - 2) * (num - 2) <= end_num,
        decreases 65536 - num,
    {
        proof {
            if num >= 65536 {
                lemma_square_strictly_monotone(65535, num - 1);
            }
            lemma_square_strictly_monotone(num as int, 65536);
        }
        let powered = square(num);
        let ghost old_map = map@;
        let prev = map.insert(powered, num);
        proof {
            if prev.is_some() {
                let r = old_map[powered];
                lemma_square_strictly_monotone(r as int, num as int);
            }
            assert forall|r: u32| 1 <= r < num + 1 implies #[trigger] map@.contains_key(spec_square(r))
                && map@[spec_square(r)] == r by {
                if r < num {
                    lemma_square_strictly_monotone(r as int, num as int);
                }
            }
        }
        assert(prev is None);
        num = num + 1;
        assert(roots_below_held(map@, num as int));
        if powered > end_num {
            break ;
        }
    }
    proof {
        assert forall|r: u32| 1 <= r && (r - 1) * (r - 1) <= end_num implies #[trigger] map@.contains_key(
            spec_square(r),
        ) && map@[spec_square(r)] == r by {
            if r >= num {
                lemma_square_strictly_monotone(num - 1, r - 1);
            }
        }
        assert forall|k: u32| #[trigger] map@.contains_key(k) implies (map@[k] - 1) * (map@[k] - 1) <= end_num by {
            if map@[k] < num - 1 {
                lemma_square_strictly_monotone(map@[k] - 1, num - 2);
            }
        }
    }
    map
}

} // verus!
