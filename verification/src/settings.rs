//! Run-time settings read from the values of environment variables (the caller reads the
//! variables and hands their values over).

use vstd::prelude::*;

use crate::decimal::{parse_usize, spec_parse_usize};
use crate::text::{ascii_lower, chars_of, eq_lit, lower_chars_of};

verus! {

/// A switch is on when its value is `1` or `true` in any ASCII case.
pub open spec fn spec_flag_enabled(value: Option<Seq<char>>) -> bool {
    match value {
        Some(v) => v == "1"@ || ascii_lower(v) == "true"@,
        None => false,
    }
}

/// Whether the switch with value `value` is on.
pub fn flag_enabled(value: Option<&str>) -> (r: bool)
    ensures
        r == spec_flag_enabled(match value {
            Some(v) => Some(v@),
            None => None,
        }),
{
    match value {
        None => false,
        Some(v) => {
            let c = chars_of(v);
            if eq_lit(&c, "1") {
                return true;
            }
            let l = lower_chars_of(v);
            eq_lit(&l, "true")
        },
    }
}

/// A count given as text: a number `usize::from_str` reads, above zero.
pub open spec fn spec_positive_count(value: Option<Seq<char>>) -> Option<nat> {
    match value {
        Some(v) => match spec_parse_usize(v) {
            Some(n) => if n > 0 {
                Some(n)
            } else {
                None
            },
            None => None,
        },
        None => None,
    }
}

/// The count that `value` gives, if it is a number above zero.
pub fn positive_count(value: Option<&str>) -> (r: Option<usize>)
    ensures
        match r {
            Some(n) => spec_positive_count(match value {
                Some(v) => Some(v@),
                None => None,
            }) == Some(n as nat),
            None => spec_positive_count(match value {
                Some(v) => Some(v@),
                None => None,
            }) is None,
        },
{
    match value {
        None => None,
        Some(v) => {
            let c = chars_of(v);
            match parse_usize(&c) {
                Some(n) => if n > 0 {
                    Some(n)
                } else {
                    None
                },
                None => None,
            }
        },
    }
}

pub open spec fn first_given(primary: Option<Seq<char>>, legacy: Option<Seq<char>>) -> Option<Seq<char>> {
    match primary {
        Some(p) => Some(p),
        None => legacy,
    }
}

pub open spec fn opt_view(v: Option<&str>) -> Option<Seq<char>> {
    match v {
        Some(s) => Some(s@),
        None => None,
    }
}

/// How many simulations may run at once: the count the current variable gives (else, when
/// it is not set, the legacy one), when it is a number above zero; 2 otherwise.
pub fn max_concurrent_simulations(primary: Option<&str>, legacy: Option<&str>) -> (r: usize)
    ensures
        r == match spec_positive_count(first_given(opt_view(primary), opt_view(legacy))) {
            Some(n) => n,
            None => 2,
        },
{
    let given = match primary {
        Some(p) => Some(p),
        None => legacy,
    };
    assert(opt_view(given) == first_given(opt_view(primary), opt_view(legacy)));
    match positive_count(given) {
        Some(n) => n,
        None => 2,
    }
}

/// Worker threads for the solver pool: the count the variables give (as for
/// `max_concurrent_simulations`), else the available parallelism (2 when unknown) shared
/// among the concurrent simulations, at least one.
pub fn rayon_threads(primary: Option<&str>, legacy: Option<&str>, available: Option<usize>, max_concurrent_simulations: usize) -> (r: usize)
    ensures
        r == match spec_positive_count(first_given(opt_view(primary), opt_view(legacy))) {
            Some(n) => n as int,
            None => {
                let cpu: int = match available {
                    Some(c) => c as int,
                    None => 2,
                };
                let shared = cpu / (if max_concurrent_simulations > 1 { max_concurrent_simulations as int } else { 1 });
                if shared > 1 { shared } else { 1 }
            },
        },
{
    let given = match primary {
        Some(p) => Some(p),
        None => legacy,
    };
    assert(opt_view(given) == first_given(opt_view(primary), opt_view(legacy)));
    match positive_count(given) {
        Some(n) => n,
        None => {
            let cpu = match available {
                Some(c) => c,
                None => 2,
            };
            let div = if max_concurrent_simulations > 1 { max_concurrent_simulations } else { 1 };
            let shared = cpu / div;
            if shared > 1 { shared } else { 1 }
        },
    }
}

/// A count setting: the number its value gives, else `default`.
pub fn usize_setting(value: Option<&str>, default: usize) -> (r: usize)
    ensures
        r == match opt_view(value) {
            Some(v) => match spec_parse_usize(v) {
                Some(n) => n as int,
                None => default as int,
            },
            None => default as int,
        },
{
    match value {
        None => default,
        Some(v) => {
            let c = chars_of(v);
            match parse_usize(&c) {
                Some(n) => n,
                None => default,
            }
        },
    }
}

} // verus!
