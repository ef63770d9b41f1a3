//! Where the FlexExplorer / FlexGrep sibling apps were found, for the
//! result rows' context menu (an item is hidden when its app is absent).

use vstd::prelude::*;

verus! {

/// The executable paths of the sibling apps, where found.
pub struct SiblingAvailability {
    pub flex_explorer: Option<String>,
    pub flex_grep: Option<String>,
}

impl Default for SiblingAvailability {
    fn default() -> (r: Self)
        ensures
            r.flex_explorer is None,
            r.flex_grep is None,
    {
        SiblingAvailability { flex_explorer: None, flex_grep: None }
    }
}

} // verus!
