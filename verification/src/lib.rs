//! Small verified tools: calendar-number puzzles (dates whose `YYYYMMDD`
//! number is a perfect square), hash-listing comparison, CSV column
//! duplicate marking, file-list renaming plans, DNS-over-HTTPS hosts
//! generation, and password encoding.
pub mod calendar;
pub mod square_day;
pub mod sqrt_day;
pub mod content_compare;
pub mod hosts;
pub mod dedup;
pub mod rename;
pub mod password;
