//! Stage configurations of a compressor station.

use vstd::prelude::*;

verus! {

/// One configuration of a station: how many compressor stages run in series.
#[derive(Debug, Clone, Copy, PartialEq, Eq, Structural)]
pub struct CompressorConfiguration {
    pub nr_of_serial_stages: usize,
}

/// Records a configuration; a stage count of zero counts as one stage.
pub fn push_configuration(configurations: &mut Vec<CompressorConfiguration>, nr_of_serial_stages: usize)
    ensures
        final(configurations)@ == old(configurations)@.push(
            CompressorConfiguration { nr_of_serial_stages: if nr_of_serial_stages < 1 { 1 } else { nr_of_serial_stages } },
        ),
{
    let n = if nr_of_serial_stages < 1 { 1 } else { nr_of_serial_stages };
    configurations.push(CompressorConfiguration { nr_of_serial_stages: n });
}

/// Stage count of a configuration, at least one.
pub open spec fn stages(c: CompressorConfiguration) -> int {
    if c.nr_of_serial_stages < 1 { 1 } else { c.nr_of_serial_stages as int }
}

/// The largest number of serial stages among the configurations (each counted as at
/// least one), or one when there is no configuration.
pub fn max_serial_stages(configurations: &Vec<CompressorConfiguration>) -> (r: usize)
    ensures
        r >= 1,
        forall|i: int| 0 <= i < configurations@.len() ==> stages(#[trigger] configurations@[i]) <= r,
        configurations@.len() == 0 ==> r == 1,
        configurations@.len() > 0 ==> exists|i: int| 0 <= i < configurations@.len() && stages(#[trigger] configurations@[i]) == r,
{
    let mut best: usize = 1;
    let mut i: usize = 0;
    let ghost mut at: int = -1;
    while i < configurations.len()
        invariant
            i <= configurations@.len(),
            best >= 1,
            forall|j: int| 0 <= j < i ==> stages(#[trigger] configurations@[j]) <= best,
            i > 0 ==> 0 <= at < i && stages(configurations@[at]) == best,
            i == 0 ==> best == 1,
        decreases configurations@.len() - i,
    {
        let s = if configurations[i].nr_of_serial_stages < 1 { 1 } else { configurations[i].nr_of_serial_stages };
        if i == 0 || s > best {
            best = s;
            proof { at = i as int; }
        }
        i = i + 1;
    }
    best
}

} // verus!
