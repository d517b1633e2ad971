//! Hand-curated Q4 log-prior boosts for words whose corpus frequency
//! diverges from everyday use, each backed by a user polish-log case.

use vstd::prelude::*;

use crate::text::str_eq;

verus! {

/// The boosts as (word, Q4 boost).
pub open spec fn corrections_spec() -> Seq<(Seq<char>, i32)> {
    seq![("继续"@, 17i32), ("设计"@, 11i32), ("理想"@, 11i32), ("加载"@, 7i32), ("具体"@, 7i32), ("统一"@, 13i32)]
}

/// The boost table, one row per polish-log case.
pub fn prior_corrections() -> (r: Vec<(&'static str, i32)>)
    ensures
        r@.map_values(|x: (&'static str, i32)| (x.0@, x.1)) == corrections_spec(),
{
    let v: Vec<(&'static str, i32)> = vec![("继续", 17), ("设计", 11), ("理想", 11), ("加载", 7), ("具体", 7), ("统一", 13)];
    assert(v@.map_values(|x: (&'static str, i32)| (x.0@, x.1)) =~= corrections_spec());
    v
}

/// The boost of the first row for `w`, 0 when there is none.
pub open spec fn boost_of(rows: Seq<(Seq<char>, i32)>, w: Seq<char>) -> i32
    decreases rows.len(),
{
    if rows.len() == 0 {
        0
    } else if rows[0].0 == w {
        rows[0].1
    } else {
        boost_of(rows.drop_first(), w)
    }
}

/// The Q4 log-prior boost for `word`; 0 when it has no correction.
pub fn correction_for(word: &str) -> (r: i32)
    ensures
        r == boost_of(corrections_spec(), word@),
{
    let t = prior_corrections();
    let ghost rows = t@.map_values(|x: (&'static str, i32)| (x.0@, x.1));
    let mut i: usize = 0;
    assert(rows.skip(0) =~= rows);
    while i < t.len()
        invariant
            i <= t@.len(),
            rows == t@.map_values(|x: (&'static str, i32)| (x.0@, x.1)),
            rows == corrections_spec(),
            boost_of(rows, word@) == boost_of(rows.skip(i as int), word@),
        decreases t@.len() - i,
    {
        assert(rows.skip(i as int)[0] == rows[i as int]);
        assert(rows.skip(i as int).drop_first() =~= rows.skip(i + 1));
        if str_eq(t[i].0, word) {
            return t[i].1;
        }
        i = i + 1;
    }
    0
}

} // verus!
