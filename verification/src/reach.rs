//! Reachability along chains of nodes.
//!
//! Nodes are numbered from zero. A chain starts at a node marked as a start,
//! goes from node to node along links, and passes through active nodes only.
//! [`closure`] computes the nodes at which some chain ends.

use vstd::prelude::*;

verus! {

/// The rows of a matrix as sequences.
pub open spec fn rows(m: &Vec<Vec<bool>>) -> Seq<Seq<bool>> {
    Seq::new(m@.len(), |i: int| m@[i]@)
}

/// `link` is a square matrix over the nodes that `start` and `active` mark.
pub open spec fn well_shaped(link: Seq<Seq<bool>>, start: Seq<bool>, active: Seq<bool>) -> bool {
    &&& link.len() == active.len()
    &&& start.len() == active.len()
    &&& forall|i: int| 0 <= i < link.len() ==> (#[trigger] link[i]).len() == active.len()
}

/// `chain` is a non-empty walk over active nodes that begins at a start node
/// and follows a link at every step.
pub open spec fn is_chain(
    link: Seq<Seq<bool>>,
    start: Seq<bool>,
    active: Seq<bool>,
    chain: Seq<int>,
) -> bool {
    &&& chain.len() > 0
    &&& forall|k: int|
        0 <= k < chain.len() ==> 0 <= #[trigger] chain[k] < active.len() && active[chain[k]]
    &&& start[chain[0]]
    &&& forall|k: int| #![trigger chain[k]] 0 < k < chain.len() ==> link[chain[k - 1]][chain[k]]
}

/// Some chain ends at `node`.
pub open spec fn reaches(
    link: Seq<Seq<bool>>,
    start: Seq<bool>,
    active: Seq<bool>,
    node: int,
) -> bool {
    exists|chain: Seq<int>| #[trigger] is_chain(link, start, active, chain) && chain.last() == node
}

/// How many entries of `s` are set.
pub open spec fn count_set(s: Seq<bool>) -> nat
    decreases s.len(),
{
    if s.len() == 0 {
        0
    } else {
        count_set(s.drop_last()) + if s.last() {
            1nat
        } else {
            0nat
        }
    }
}

proof fn lemma_count_bound(s: Seq<bool>)
    ensures
        count_set(s) <= s.len(),
    decreases s.len(),
{
    if s.len() > 0 {
        lemma_count_bound(s.drop_last());
    }
}

proof fn lemma_count_grows(s: Seq<bool>, i: int)
    requires
        0 <= i < s.len(),
        !s[i],
    ensures
        count_set(s.update(i, true)) == count_set(s) + 1,
    decreases s.len(),
{
    let t = s.update(i, true);
    if i == s.len() - 1 {
        assert(t.drop_last() =~= s.drop_last());
    } else {
        lemma_count_grows(s.drop_last(), i);
        assert(t.drop_last() =~= s.drop_last().update(i, true));
    }
}

/// `marks` holds every start node that is active and every active node that a
/// marked node links to.
pub open spec fn closed_under_links(
    link: Seq<Seq<bool>>,
    start: Seq<bool>,
    active: Seq<bool>,
    marks: Seq<bool>,
    upto: int,
) -> bool {
    forall|i: int|
        #![trigger marks[i]]
        0 <= i < upto && active[i] ==> {
            &&& start[i] ==> marks[i]
            &&& forall|j: int|
                #![trigger marks[j]]
                0 <= j < marks.len() && marks[j] && link[j][i] ==> marks[i]
        }
}

/// A set of marks that is closed under links holds the end of every chain.
pub proof fn lemma_closed_holds_chains(
    link: Seq<Seq<bool>>,
    start: Seq<bool>,
    active: Seq<bool>,
    marks: Seq<bool>,
    chain: Seq<int>,
)
    requires
        well_shaped(link, start, active),
        marks.len() == active.len(),
        closed_under_links(link, start, active, marks, active.len() as int),
        is_chain(link, start, active, chain),
    ensures
        marks[chain.last()],
    decreases chain.len(),
{
    if chain.len() == 1 {
        assert(active[chain[0]]);
    } else {
        let before = chain.drop_last();
        assert(is_chain(link, start, active, before)) by {
            assert forall|k: int| 0 <= k < before.len() implies 0 <= #[trigger] before[k]
                < active.len() && active[before[k]] by {
                assert(before[k] == chain[k]);
            }
            assert forall|k: int| #![trigger before[k]] 0 < k < before.len() implies link[before[k
                - 1]][before[k]] by {
                assert(before[k] == chain[k]);
                assert(before[k - 1] == chain[k - 1]);
            }
        }
        lemma_closed_holds_chains(link, start, active, marks, before);
        let last = chain.len() - 1;
        assert(link[chain[last - 1]][chain[last]]);
        assert(before.last() == chain[last - 1]);
        assert(marks[chain[last - 1]]);
        assert(active[chain[last]]);
    }
}

/// A chain that ends at `from` goes on to any active node that `from` links to.
pub proof fn lemma_chain_extends(
    link: Seq<Seq<bool>>,
    start: Seq<bool>,
    active: Seq<bool>,
    from: int,
    to: int,
)
    requires
        reaches(link, start, active, from),
        0 <= to < active.len(),
        active[to],
        0 <= from < link.len(),
        link[from][to],
    ensures
        reaches(link, start, active, to),
{
    let c = choose|c: Seq<int>| #[trigger] is_chain(link, start, active, c) && c.last() == from;
    let d = c.push(to);
    assert forall|k: int| 0 <= k < d.len() implies 0 <= #[trigger] d[k] < active.len()
        && active[d[k]] by {
        if k < c.len() {
            assert(d[k] == c[k]);
        }
    }
    assert forall|k: int| #![trigger d[k]] 0 < k < d.len() implies link[d[k - 1]][d[k]] by {
        if k < c.len() {
            assert(d[k] == c[k]);
            assert(d[k - 1] == c[k - 1]);
        } else {
            assert(d[k - 1] == c.last());
        }
    }
    assert(d[0] == c[0]);
    assert(is_chain(link, start, active, d));
    assert(d.last() == to);
}

/// An active start node is the end of the chain that holds it alone.
pub proof fn lemma_start_reached(
    link: Seq<Seq<bool>>,
    start: Seq<bool>,
    active: Seq<bool>,
    node: int,
)
    requires
        0 <= node < active.len(),
        active[node],
        start[node],
    ensures
        reaches(link, start, active, node),
{
    let c = seq![node];
    assert(is_chain(link, start, active, c));
    assert(c.last() == node);
}

/// A chain stays a chain when its nodes are renamed into a graph that has
/// at least the active nodes, the starts and the links of the first.
pub proof fn lemma_reaches_embedded(
    link: Seq<Seq<bool>>,
    start: Seq<bool>,
    active: Seq<bool>,
    link2: Seq<Seq<bool>>,
    start2: Seq<bool>,
    active2: Seq<bool>,
    embed: Seq<int>,
    node: int,
)
    requires
        well_shaped(link, start, active),
        well_shaped(link2, start2, active2),
        embed.len() == active.len(),
        forall|i: int| 0 <= i < active.len() ==> 0 <= #[trigger] embed[i] < active2.len(),
        forall|i: int| 0 <= i < active.len() && active[i] ==> active2[#[trigger] embed[i]],
        forall|i: int|
            0 <= i < active.len() && active[i] && start[i] ==> start2[#[trigger] embed[i]],
        forall|i: int, j: int|
            #![trigger embed[j], embed[i]]
            0 <= i < active.len() && 0 <= j < active.len() && active[i] && active[j] && link[j][i]
                ==> link2[embed[j]][embed[i]],
        reaches(link, start, active, node),
    ensures
        reaches(link2, start2, active2, embed[node]),
{
    let c = choose|c: Seq<int>| #[trigger] is_chain(link, start, active, c) && c.last() == node;
    let d = Seq::new(c.len(), |k: int| embed[c[k]]);
    assert forall|k: int| 0 <= k < d.len() implies 0 <= #[trigger] d[k] < active2.len()
        && active2[d[k]] by {
        assert(active[c[k]]);
    }
    assert forall|k: int| #![trigger d[k]] 0 < k < d.len() implies link2[d[k - 1]][d[k]] by {
        assert(link[c[k - 1]][c[k]]);
        assert(active[c[k - 1]]);
        assert(active[c[k]]);
        assert(d[k - 1] == embed[c[k - 1]]);
    }
    assert(active[c[0]]);
    assert(is_chain(link2, start2, active2, d));
    assert(d.last() == embed[node]);
}

/// The node at which a chain ends is active.
pub proof fn lemma_reached_is_active(
    link: Seq<Seq<bool>>,
    start: Seq<bool>,
    active: Seq<bool>,
    node: int,
)
    requires
        reaches(link, start, active, node),
    ensures
        0 <= node < active.len(),
        active[node],
{
    let c = choose|c: Seq<int>| #[trigger] is_chain(link, start, active, c) && c.last() == node;
    assert(active[c[c.len() - 1]]);
}

/// The marking of `n` nodes that sets node `a` alone.
pub open spec fn unit(n: nat, a: int) -> Seq<bool> {
    Seq::new(n, |i: int| i == a)
}

/// The marking of `n` nodes that sets every node.
pub open spec fn all_of(n: nat) -> Seq<bool> {
    Seq::new(n, |i: int| true)
}

/// A walk over active nodes that follows links and begins at a node that some
/// chain ends at: a chain ends at each of its nodes.
pub proof fn lemma_walk_reaches(
    link: Seq<Seq<bool>>,
    start: Seq<bool>,
    active: Seq<bool>,
    walk: Seq<int>,
    k: int,
)
    requires
        well_shaped(link, start, active),
        0 <= k < walk.len(),
        forall|j: int|
            0 <= j < walk.len() ==> 0 <= #[trigger] walk[j] < active.len() && active[walk[j]],
        forall|j: int| #![trigger walk[j]] 0 < j < walk.len() ==> link[walk[j - 1]][walk[j]],
        reaches(link, start, active, walk[0]),
    ensures
        reaches(link, start, active, walk[k]),
    decreases k,
{
    if k > 0 {
        lemma_walk_reaches(link, start, active, walk, k - 1);
        assert(link[walk[k - 1]][walk[k]]);
        assert(0 <= walk[k - 1] < active.len());
        lemma_chain_extends(link, start, active, walk[k - 1], walk[k]);
    }
}

/// Chains compose: what a chain from `b` alone ends at, a chain that reaches
/// `b` ends at too.
pub proof fn lemma_reaches_transitive(
    link: Seq<Seq<bool>>,
    start: Seq<bool>,
    active: Seq<bool>,
    b: int,
    c: int,
)
    requires
        well_shaped(link, start, active),
        reaches(link, start, active, b),
        reaches(link, unit(active.len(), b), active, c),
    ensures
        reaches(link, start, active, c),
{
    let d = choose|d: Seq<int>| #[trigger]
        is_chain(link, unit(active.len(), b), active, d) && d.last() == c;
    assert(0 <= d[0] < active.len());
    assert(unit(active.len(), b)[d[0]]);
    assert(d[0] == b);
    lemma_walk_reaches(link, start, active, d, d.len() - 1);
}

/// Marks the nodes at which a chain ends.
pub fn closure(link: &Vec<Vec<bool>>, start: &Vec<bool>, active: &Vec<bool>) -> (marks: Vec<bool>)
    requires
        well_shaped(rows(link), start@, active@),
    ensures
        marks@.len() == active@.len(),
        forall|i: int|
            0 <= i < marks@.len() ==> #[trigger] marks@[i] == reaches(
                rows(link),
                start@,
                active@,
                i,
            ),
{
    let n = active.len();
    let ghost l = rows(link);
    let mut marks: Vec<bool> = Vec::new();
    let mut i: usize = 0;
    while i < n
        invariant
            n == active@.len(),
            start@.len() == n,
            i <= n,
            marks@.len() == i,
            forall|k: int| 0 <= k < i ==> #[trigger] marks@[k] == (active@[k] && start@[k]),
        decreases n - i,
    {
        marks.push(active[i] && start[i]);
        i += 1;
    }
    proof {
        assert forall|k: int| 0 <= k < n && #[trigger] marks@[k] implies reaches(
            l,
            start@,
            active@,
            k,
        ) by {
            lemma_start_reached(l, start@, active@, k);
        }
        lemma_count_bound(marks@);
    }
    loop
        invariant_except_break
            n == active@.len(),
            well_shaped(l, start@, active@),
            l == rows(link),
            marks@.len() == n,
            forall|k: int| 0 <= k < n && #[trigger] marks@[k] ==> reaches(l, start@, active@, k),
            forall|k: int| 0 <= k < n && active@[k] && start@[k] ==> #[trigger] marks@[k],
            count_set(marks@) <= n,
        ensures
            n == active@.len(),
            marks@.len() == n,
            well_shaped(l, start@, active@),
            l == rows(link),
            forall|k: int| 0 <= k < n && #[trigger] marks@[k] ==> reaches(l, start@, active@, k),
            closed_under_links(l, start@, active@, marks@, n as int),
        decreases n - count_set(marks@),
    {
        let ghost before = marks@;
        let mut changed = false;
        let mut i: usize = 0;
        while i < n
            invariant
                n == active@.len(),
                well_shaped(l, start@, active@),
                l == rows(link),
                marks@.len() == n,
                i <= n,
                forall|k: int|
                    0 <= k < n && #[trigger] marks@[k] ==> reaches(l, start@, active@, k),
                forall|k: int| 0 <= k < n && active@[k] && start@[k] ==> #[trigger] marks@[k],
                count_set(marks@) <= n,
                !changed ==> marks@ == before && closed_under_links(
                    l,
                    start@,
                    active@,
                    marks@,
                    i as int,
                ),
                changed ==> count_set(marks@) > count_set(before),
            decreases n - i,
        {
            if active[i] && !marks[i] {
                let mut j: usize = 0;
                let mut found = false;
                while j < n && !found
                    invariant
                        n == active@.len(),
                        well_shaped(l, start@, active@),
                        l == rows(link),
                        marks@.len() == n,
                        i < n,
                        j <= n,
                        found ==> j < n && marks@[j as int] && l[j as int][i as int],
                        !found ==> forall|k: int|
                            #![trigger marks@[k]]
                            0 <= k < j ==> !(marks@[k] && l[k][i as int]),
                    decreases n - j, !found as int,
                {
                    assert(l[j as int] == link@[j as int]@);
                    if marks[j] && link[j][i] {
                        found = true;
                    } else {
                        j += 1;
                    }
                }
                if found {
                    proof {
                        let ghost grown = marks@.update(i as int, true);
                        lemma_chain_extends(l, start@, active@, j as int, i as int);
                        lemma_count_grows(marks@, i as int);
                        lemma_count_bound(grown);
                    }
                    marks.set(i, true);
                    changed = true;
                }
            }
            i += 1;
        }
        if !changed {
            break ;
        }
    }
    proof {
        assert forall|i: int| 0 <= i < marks@.len() implies #[trigger] marks@[i] == reaches(
            l,
            start@,
            active@,
            i,
        ) by {
            if reaches(l, start@, active@, i) {
                let c = choose|c: Seq<int>| #[trigger]
                    is_chain(l, start@, active@, c) && c.last() == i;
                lemma_closed_holds_chains(l, start@, active@, marks@, c);
            }
        }
    }
    marks
}

} // verus!
