//! The pure decisions of the tree printer: which connector a child gets and
//! how the indentation prefix grows. The printing itself, and any colouring,
//! stays with the caller.

use vstd::prelude::*;

verus! {

/// The connector drawn before a child: the last child of a directory gets the
/// terminal connector, interior children the tee connector.
pub fn connector(is_last: bool) -> (r: &'static str)
    ensures
        is_last ==> r@ == "└── "@,
        !is_last ==> r@ == "├── "@,
{
    if is_last {
        "└── "
    } else {
        "├── "
    }
}

/// The indentation prefix handed to a child's own children: the parent's
/// prefix, extended with blank space under a terminal connector and with a
/// continuation bar under a tee.
pub fn child_prefix(prefix: &str, is_last: bool) -> (r: String)
    ensures
        is_last ==> r@ == prefix@ + "    "@,
        !is_last ==> r@ == prefix@ + "│   "@,
{
    let mut out = String::new();
    out.append(prefix);
    if is_last {
        out.append("    ");
    } else {
        out.append("│   ");
    }
    proof {
        assert(Seq::<char>::empty() + prefix@ =~= prefix@);
    }
    out
}

} // verus!
