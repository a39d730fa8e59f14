use vstd::prelude::*;

verus! {

/// Following parent links from body `i` reaches a root (a body without a
/// parent) within `fuel` bodies, every link naming a body of the list.
pub open spec fn reaches_root(parents: Seq<Option<usize>>, i: int, fuel: nat) -> bool
    decreases fuel,
{
    if fuel == 0 {
        false
    } else {
        match parents[i] {
            None => true,
            Some(p) => p < parents.len() && reaches_root(parents, p as int, (fuel - 1) as nat),
        }
    }
}

/// The parent links form a forest: from every body, the chain of parents
/// stays inside the list and ends at a root. A chain that never ends would
/// visit more bodies than the list holds, so `len` bodies are enough.
pub open spec fn is_forest(parents: Seq<Option<usize>>) -> bool {
    forall|i: int| 0 <= i < parents.len() ==> #[trigger] reaches_root(parents, i, parents.len())
}

/// Whether the parent links of a body list form a forest, so that resolving
/// a body's position through its parents terminates.
pub fn parents_form_forest(parents: &Vec<Option<usize>>) -> (r: bool)
    ensures
        r == is_forest(parents@),
{
    let n = parents.len();
    let mut i: usize = 0;
    while i < n
        invariant
            n == parents@.len(),
            i <= n,
            forall|k: int| 0 <= k < i ==> #[trigger] reaches_root(parents@, k, n as nat),
        decreases n - i,
    {
        if !root_reachable(parents, i) {
            return false;
        }
        i = i + 1;
    }
    true
}

/// Whether the parent chain of body `i` ends at a root within as many
/// bodies as the list holds.
fn root_reachable(parents: &Vec<Option<usize>>, i: usize) -> (r: bool)
    requires
        i < parents@.len(),
    ensures
        r == reaches_root(parents@, i as int, parents@.len()),
{
    let n = parents.len();
    let mut cur: usize = i;
    let mut fuel: usize = n;
    loop
        invariant
            n == parents@.len(),
            cur < n,
            fuel <= n,
            reaches_root(parents@, i as int, n as nat) == reaches_root(parents@, cur as int, fuel as nat),
        decreases fuel,
    {
        if fuel == 0 {
            return false;
        }
        match parents[cur] {
            None => {
                return true;
            },
            Some(p) => {
                if p >= n {
                    return false;
                }
                cur = p;
                fuel = fuel - 1;
            },
        }
    }
}

} // verus!
