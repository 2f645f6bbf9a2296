//! The order in which packages are listed: by name, then by version.
//!
//! Names are ordered as texts are, character by character; versions by
//! their precedence. A report tells of the nodes in the order of the graph;
//! where the graph holds its nodes in the order of listing, so does the
//! report.

use vstd::prelude::*;
use vstd::string::*;
use crate::model::DepGraph;

verus! {

/// Two texts are the same up to position `k`.
pub open spec fn same_until(a: Seq<char>, b: Seq<char>, k: int) -> bool {
    0 <= k <= a.len() && k <= b.len() && forall|i: int| 0 <= i < k ==> a[i] == b[i]
}

/// Text `a` comes before text `b`: at the first position at which they
/// differ, `a` has ended, or has the character of the lower code.
pub open spec fn text_before(a: Seq<char>, b: Seq<char>) -> bool {
    exists|k: int|
        #[trigger] same_until(a, b, k) && k < b.len() && (k == a.len() || (a[k] as u32) < (
        b[k] as u32))
}

/// Whether text `a` comes before text `b`.
pub fn is_text_before(a: &str, b: &str) -> (r: bool)
    ensures
        r == text_before(a@, b@),
{
    let la = a.unicode_len();
    let lb = b.unicode_len();
    let mut i: usize = 0;
    while i < la && i < lb && a.get_char(i) == b.get_char(i)
        invariant
            i <= la,
            i <= lb,
            la == a@.len(),
            lb == b@.len(),
            forall|k: int| 0 <= k < i ==> a@[k] == b@[k],
        decreases la - i,
    {
        i += 1;
    }
    let r = i < lb && (i == la || (a.get_char(i) as u32) < (b.get_char(i) as u32));
    proof {
        assert(same_until(a@, b@, i as int));
        if !r && text_before(a@, b@) {
            let k = choose|k: int|
                #[trigger] same_until(a@, b@, k) && k < b@.len() && (k == a@.len() || (a@[k] as u32)
                    < (b@[k] as u32));
            if k < i {
                assert(a@[k] == b@[k]);
            }
            if i < k {
                assert(a@[i as int] == b@[i as int]);
            }
        }
    }
    r
}

impl DepGraph {
    /// Node `i` is listed before node `j`: by name, then by version.
    pub open spec fn node_before(self, i: int, j: int) -> bool {
        text_before(self.nodes[i].name@, self.nodes[j].name@) || (self.nodes[i].name@
            == self.nodes[j].name@ && self.nodes[i].version.before(self.nodes[j].version))
    }

    /// The graph holds its nodes in the order of listing: no node is listed
    /// before one that stands in front of it.
    pub open spec fn in_order(self) -> bool {
        forall|i: int, j: int| 0 <= i < j < self.nodes.len() ==> !self.node_before(j, i)
    }

    /// Whether node `i` is listed before node `j`.
    pub fn is_node_before(&self, i: usize, j: usize) -> (r: bool)
        requires
            i < self.nodes.len(),
            j < self.nodes.len(),
        ensures
            r == self.node_before(i as int, j as int),
    {
        let a = &self.nodes[i];
        let b = &self.nodes[j];
        if is_text_before(a.name.as_str(), b.name.as_str()) {
            return true;
        }
        a.name == b.name && a.version.is_before(&b.version)
    }

    /// Whether the graph holds its nodes in the order of listing.
    pub fn is_ordered(&self) -> (r: bool)
        ensures
            r == self.in_order(),
    {
        let n = self.nodes.len();
        let mut j: usize = 0;
        while j < n
            invariant
                j <= n,
                n == self.nodes.len(),
                forall|a: int, b: int| 0 <= a < b < j ==> !self.node_before(b, a),
            decreases n - j,
        {
            let mut i: usize = 0;
            while i < j
                invariant
                    i <= j,
                    j < n,
                    n == self.nodes.len(),
                    forall|a: int| 0 <= a < i ==> !self.node_before(j as int, a),
                decreases j - i,
            {
                if self.is_node_before(j, i) {
                    return false;
                }
                i += 1;
            }
            j += 1;
        }
        true
    }
}

} // verus!
