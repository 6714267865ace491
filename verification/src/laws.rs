//! Pool-wide laws: properties that relate several operations, stated and
//! proved over the same specification functions the operations' contracts
//! use.

use vstd::prelude::*;
use crate::record::ProxyInfoV;
use crate::parse::fresh_records;
use crate::pool::{retag_all, fetched_records, after_fetch};

verus! {

/// Country tagging: every record parsed from a country-tagged source body
/// carries that source's country code, whatever default the parse gave it.
pub proof fn lemma_country_tagging(body: Seq<char>, country: Seq<char>)
    ensures
        forall|i: int| 0 <= i < retag_all(fresh_records(body), country).len() ==> (
        #[trigger] retag_all(fresh_records(body), country)[i]).country == country,
{
}

/// Fetch idempotence: two fetch cycles over identical source bodies append
/// the same records twice.  The unfiltered list grows by twice the records
/// of one cycle, and the two appended segments are identical, record for
/// record.
pub proof fn lemma_fetch_twice(
    pool: Seq<ProxyInfoV>,
    bodies: Seq<Seq<char>>,
    srcs: Seq<(Seq<char>, Seq<char>)>,
)
    ensures
        ({
            let r = fetched_records(bodies, srcs);
            let twice = after_fetch(after_fetch(pool, bodies, srcs), bodies, srcs);
            twice == (pool + r) + r && twice.len() == pool.len() + 2 * r.len()
                && twice.subrange(pool.len() as int, (pool.len() + r.len()) as int) == r
                && twice.subrange((pool.len() + r.len()) as int, twice.len() as int) == r
        }),
{
    let r = fetched_records(bodies, srcs);
    let twice = after_fetch(after_fetch(pool, bodies, srcs), bodies, srcs);
    assert(twice =~= (pool + r) + r);
    assert(twice.subrange(pool.len() as int, (pool.len() + r.len()) as int) =~= r);
    assert(twice.subrange((pool.len() + r.len()) as int, twice.len() as int) =~= r);
}

} // verus!

