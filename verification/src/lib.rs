//! Verified solvers for a collection of small puzzles, one module per
//! puzzle day. The largest, `day_twenty`, reconstructs a mosaic of square
//! image tiles from the bit patterns along their edges; the others cover
//! expense sums, password policies, sled collisions, credential checks,
//! boarding passes, customs groups, console programs, number searches,
//! adapter chains, seat maps, ship navigation, timetable inverses, docking
//! bitmasks, the spoken-number game, ticket rules and grammar matching.
//! `file_util` holds the shared line and number readers. File handling
//! itself stays outside: every function here works on values already read.

pub mod day_one;
pub mod day_two;
pub mod day_three;
pub mod day_four;
pub mod day_five;
pub mod day_six;
pub mod day_eight;
pub mod day_nine;
pub mod day_ten;
pub mod day_eleven;
pub mod day_twelve;
pub mod day_thirteen;
pub mod day_fourteen;
pub mod day_fifteen;
pub mod day_sixteen;
pub mod day_seventeen;
pub mod day_eighteen;
pub mod day_nineteen;
pub mod day_twenty;
pub mod file_util;
