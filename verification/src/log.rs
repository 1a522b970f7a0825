//! Formatting of the builder's leveled progress lines.  The functions
//! here only build the text; printing is the caller's business, so a
//! test can hold a line to its exact expected content.

use vstd::prelude::*;
use vstd::string::StrSliceExecFns;
use vstd::string::StringExecFns;
use crate::file::{get_file_name, spec_file_name};

verus! {

/// Two spaces per level of recursion depth.
pub open spec fn spec_indent(depth: nat) -> Seq<char>
    decreases depth,
{
    if depth == 0 {
        Seq::empty()
    } else {
        seq![' ', ' '] + spec_indent((depth - 1) as nat)
    }
}

proof fn lemma_indent_snoc(depth: nat)
    ensures
        spec_indent(depth) + seq![' ', ' '] == spec_indent(depth + 1),
    decreases depth,
{
    if depth == 0 {
        assert(spec_indent(0) + seq![' ', ' '] =~= seq![' ', ' '] + spec_indent(0));
    } else {
        lemma_indent_snoc((depth - 1) as nat);
        assert(spec_indent(depth) + seq![' ', ' ']
            =~= seq![' ', ' '] + (spec_indent((depth - 1) as nat) + seq![' ', ' ']));
        assert(seq![' ', ' '] + spec_indent(depth) == spec_indent(depth + 1));
    }
}

/// An info-level line.
pub fn log_info(msg: &str) -> (r: String)
    ensures
        r@ == "[INFO] "@ + msg@,
{
    let mut r = String::from_str("[INFO] ");
    r.append(msg);
    r
}

/// An error-level line.
pub fn log_error(msg: &str) -> (r: String)
    ensures
        r@ == "[ERROR] "@ + msg@,
{
    let mut r = String::from_str("[ERROR] ");
    r.append(msg);
    r
}

/// The per-entry progress line: indentation by depth, a marker for
/// changed or unchanged, and the entry's file name.
pub fn log_info_depth_file(modified: bool, depth: usize, path: &str) -> (r: String)
    ensures
        r@ == "[INFO] "@ + spec_indent(depth as nat) + (if modified {
            "🔄"@
        } else {
            "✅"@
        }) + " "@ + spec_file_name(path@),
{
    let mut r = String::from_str("[INFO] ");
    let mut k: usize = 0;
    proof {
        assert(r@ + spec_indent(0) =~= r@);
    }
    while k < depth
        invariant
            k <= depth,
            r@ == "[INFO] "@ + spec_indent(k as nat),
        decreases depth - k,
    {
        r.append("  ");
        proof {
            reveal_strlit("  ");
            assert("  "@ =~= seq![' ', ' ']);
            lemma_indent_snoc(k as nat);
            assert(r@ =~= "[INFO] "@ + spec_indent((k + 1) as nat));
        }
        k = k + 1;
    }
    if modified {
        r.append("🔄");
    } else {
        r.append("✅");
    }
    r.append(" ");
    r.append(get_file_name(path));
    proof {
        assert(r@ =~= "[INFO] "@ + spec_indent(depth as nat) + (if modified {
            "🔄"@
        } else {
            "✅"@
        }) + " "@ + spec_file_name(path@));
    }
    r
}

} // verus!
