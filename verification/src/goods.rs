//! The goods that markets are held for.

use vstd::prelude::*;

verus! {

/// Identifies a good: its place in [`GOODS`].
pub type GoodUid = usize;

/// The names of the goods.
pub const GOODS: [&'static str; 2] = ["Grain", "Groceries"];

/// The name of a good.
pub fn get_good_name(gooduid: GoodUid) -> (name: String)
    requires
        gooduid < GOODS@.len(),
    ensures
        name@ == GOODS@[gooduid as int]@,
{
    GOODS[gooduid].to_owned()
}

} // verus!
