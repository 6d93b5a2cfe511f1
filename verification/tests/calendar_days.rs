use smalltools::calendar::{datenum, next_day, Date};
use smalltools::sqrt_day::{date_num_set, square_root_map};
use smalltools::square_day::{
    full_square_days, next_num, sqrt_nextint, sqrt_prevint, square, DateNumIter, FullSquareNumIter,
};

fn date(y: i32, m: u32, d: u32) -> Date {
    Date::from_ymd_opt(y, m, d).unwrap()
}

fn ymd(d: Date) -> (i32, u32, u32) {
    (d.year(), d.month(), d.day())
}

#[test]
fn from_ymd_opt_accepts_only_real_days() {
    assert!(Date::from_ymd_opt(2015, 3, 14).is_some());
    assert!(Date::from_ymd_opt(2015, 0, 14).is_none());
    assert!(Date::from_ymd_opt(2015, 2, 29).is_none());
    assert!(Date::from_ymd_opt(2016, 2, 29).is_some());
    assert!(Date::from_ymd_opt(1900, 2, 29).is_none());
    assert!(Date::from_ymd_opt(2000, 2, 29).is_some());
    assert!(Date::from_ymd_opt(2015, 4, 31).is_none());
    assert!(Date::from_ymd_opt(-4, 2, 29).is_some());
    assert!(Date::from_ymd_opt(262142, 12, 31).is_some());
    assert!(Date::from_ymd_opt(262143, 1, 1).is_none());
    assert!(Date::from_ymd_opt(-262143, 1, 1).is_some());
    assert!(Date::from_ymd_opt(-262144, 12, 31).is_none());
}

#[test]
fn next_day_crosses_months_and_years() {
    assert_eq!(ymd(next_day(date(2015, 6, 3))), (2015, 6, 4));
    assert_eq!(ymd(next_day(date(2015, 6, 30))), (2015, 7, 1));
    assert_eq!(ymd(next_day(date(2015, 2, 28))), (2015, 3, 1));
    assert_eq!(ymd(next_day(date(2016, 2, 28))), (2016, 2, 29));
    assert_eq!(ymd(next_day(date(2016, 2, 29))), (2016, 3, 1));
    assert_eq!(ymd(next_day(date(2099, 12, 31))), (2100, 1, 1));
}

#[test]
fn datenum_writes_the_digits() {
    assert_eq!(datenum(date(2001, 1, 1)), 20010101);
    assert_eq!(datenum(date(2100, 12, 31)), 21001231);
    assert_eq!(datenum(date(0, 1, 1)), 101);
}

#[test]
fn later_dates_have_larger_numbers() {
    let a = date(2019, 12, 31);
    let b = date(2020, 1, 1);
    assert!(b.is_after(&a));
    assert!(!a.is_after(&b));
    assert!(!a.is_after(&a));
    assert!(datenum(a) < datenum(b));
}

#[test]
fn square_and_next_num() {
    assert_eq!(square(12), 144);
    assert_eq!(square(65535), 4294836225);
    assert_eq!(next_num(41), 42);
}

#[test]
fn integer_square_roots() {
    assert_eq!(sqrt_prevint(0), 0);
    assert_eq!(sqrt_nextint(0), 0);
    assert_eq!(sqrt_prevint(1), 1);
    assert_eq!(sqrt_nextint(2), 2);
    assert_eq!(sqrt_prevint(15), 3);
    assert_eq!(sqrt_prevint(16), 4);
    assert_eq!(sqrt_nextint(16), 4);
    assert_eq!(sqrt_nextint(17), 5);
    assert_eq!(sqrt_prevint(20010101), 4473);
    assert_eq!(sqrt_nextint(21001231), 4583);
    assert_eq!(sqrt_prevint(u32::MAX), 65535);
    assert_eq!(sqrt_nextint(u32::MAX), 65536);
    for n in 0u32..2000 {
        let lo = sqrt_prevint(n) as u64;
        let hi = sqrt_nextint(n) as u64;
        assert!(lo * lo <= n as u64 && (n as u64) < (lo + 1) * (lo + 1));
        assert!(n as u64 <= hi * hi && (hi == 0 || (hi - 1) * (hi - 1) < n as u64));
    }
}

#[test]
fn full_square_iterator_yields_squares_in_order() {
    let mut it = FullSquareNumIter::new(3, 5);
    assert_eq!(it.next(), Some((9, 3)));
    assert_eq!(it.next(), Some((16, 4)));
    assert_eq!(it.next(), Some((25, 5)));
    assert_eq!(it.next(), None);
    assert_eq!(it.next(), None);
    let mut empty = FullSquareNumIter::new(5, 3);
    assert_eq!(empty.next(), None);
}

#[test]
fn date_iterator_yields_each_day() {
    let mut it = DateNumIter::new(date(2020, 2, 28), date(2020, 3, 1));
    assert_eq!(it.next(), Some(20200228));
    assert_eq!(it.next(), Some(20200229));
    assert_eq!(it.next(), Some(20200301));
    assert_eq!(it.next(), None);
    let mut empty = DateNumIter::new(date(2020, 3, 2), date(2020, 3, 1));
    assert_eq!(empty.next(), None);
}

#[test]
fn full_square_days_of_the_century() {
    let days = full_square_days(date(2001, 1, 1), date(2100, 12, 31));
    assert_eq!(
        days,
        vec![(4489, 20151121), (4499, 20241001), (4552, 20720704), (4575, 20930625)]
    );
}

#[test]
fn full_square_days_of_a_short_range() {
    assert_eq!(full_square_days(date(2015, 11, 21), date(2015, 11, 21)), vec![(4489, 20151121)]);
    assert_eq!(full_square_days(date(2015, 11, 22), date(2024, 9, 30)), vec![]);
    assert_eq!(full_square_days(date(2024, 10, 2), date(2024, 10, 1)), vec![]);
}

#[test]
fn date_num_set_holds_every_day() {
    let set = date_num_set(date(2020, 2, 27), date(2020, 3, 2));
    let mut nums: Vec<u32> = set.into_iter().collect();
    nums.sort();
    assert_eq!(nums, vec![20200227, 20200228, 20200229, 20200301, 20200302]);
    let century = date_num_set(date(2001, 1, 1), date(2100, 12, 31));
    assert_eq!(century.len(), 36524);
    let single = date_num_set(date(2020, 3, 5), date(2020, 3, 1));
    assert_eq!(single.into_iter().collect::<Vec<u32>>(), vec![20200305]);
}

#[test]
fn square_root_map_goes_one_square_past_the_bound() {
    let map = square_root_map(10);
    let mut keys: Vec<(u32, u32)> = map.into_iter().collect();
    keys.sort();
    assert_eq!(keys, vec![(1, 1), (4, 2), (9, 3), (16, 4)]);
    let exact = square_root_map(16);
    assert_eq!(exact.len(), 5);
    assert_eq!(exact.get(&25), Some(&5));
    let century = square_root_map(21001231);
    assert_eq!(century.len(), 4583);
    assert_eq!(century.get(&20151121), Some(&4489));
}
