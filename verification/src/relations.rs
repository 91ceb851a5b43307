//! The relation index: stored directed edges, read as an undirected graph.

use std::collections::{HashMap, HashSet};
use vstd::prelude::*;

verus! {

/// One stored edge, from the entry that owns it to the entry it names.
pub type Edge = (u128, u128);

/// Whether the edge joins `a` and `b`, in either direction.
pub open spec fn joins(e: Edge, a: u128, b: u128) -> bool {
    (e.0 == a && e.1 == b) || (e.0 == b && e.1 == a)
}

/// Whether `id` is one of the edge's two ends.
pub open spec fn touches(e: Edge, id: u128) -> bool {
    e.0 == id || e.1 == id
}

/// Whether some edge of `edges` joins `a` and `b`.
pub open spec fn linked(edges: Seq<Edge>, a: u128, b: u128) -> bool {
    exists|i: int| 0 <= i < edges.len() && joins(#[trigger] edges[i], a, b)
}

/// Whether `id` is an end of some edge of `edges`.
pub open spec fn related(edges: Seq<Edge>, id: u128) -> bool {
    exists|i: int| 0 <= i < edges.len() && touches(#[trigger] edges[i], id)
}

/// Whether `to` can be reached from `from` by walking at most `hops` edges,
/// each in either direction.
pub open spec fn reach(edges: Seq<Edge>, from: u128, to: u128, hops: nat) -> bool
    decreases hops,
{
    if hops == 0 {
        to == from
    } else {
        reach(edges, from, to, (hops - 1) as nat) || exists|mid: u128|
            #![trigger linked(edges, mid, to)]
            reach(edges, from, mid, (hops - 1) as nat) && linked(edges, mid, to)
    }
}

/// Allowing more hops never loses a reachable id.
pub proof fn lemma_reach_grows(edges: Seq<Edge>, from: u128, to: u128, few: nat, many: nat)
    requires
        few <= many,
        reach(edges, from, to, few),
    ensures
        reach(edges, from, to, many),
    decreases many,
{
    if few < many {
        lemma_reach_grows(edges, from, to, few, (many - 1) as nat);
    }
}

/// Once one more hop adds nothing, no number of further hops adds anything.
pub proof fn lemma_reach_settles(edges: Seq<Edge>, from: u128, to: u128, settled: nat, hops: nat)
    requires
        settled <= hops,
        forall|x: u128|
            reach(edges, from, x, settled + 1) ==> #[trigger] reach(edges, from, x, settled),
        reach(edges, from, to, hops),
    ensures
        reach(edges, from, to, settled),
    decreases hops,
{
    if settled < hops {
        let fewer = (hops - 1) as nat;
        if reach(edges, from, to, fewer) {
            lemma_reach_settles(edges, from, to, settled, fewer);
        } else {
            let mid = choose|mid: u128|
                #![trigger linked(edges, mid, to)]
                reach(edges, from, mid, (hops - 1) as nat) && linked(edges, mid, to);
            lemma_reach_settles(edges, from, mid, settled, fewer);
            lemma_reach_step(edges, from, mid, to, settled);
        }
    }
}

/// One more edge from a reachable id costs one more hop.
pub proof fn lemma_reach_step(edges: Seq<Edge>, from: u128, mid: u128, to: u128, hops: nat)
    requires
        reach(edges, from, mid, hops),
        linked(edges, mid, to),
    ensures
        reach(edges, from, to, hops + 1),
{
    let more = hops + 1;
    assert((more - 1) as nat == hops);
    assert(reach(edges, from, mid, (more - 1) as nat) && linked(edges, mid, to));
}

/// The place of `id` among `ids`, if it is there.
pub fn position(ids: &Vec<u128>, id: u128) -> (place: Option<usize>)
    ensures
        match place {
            Some(i) => i < ids@.len() && ids@[i as int] == id,
            None => !ids@.contains(id),
        },
{
    let mut i: usize = 0;
    while i < ids.len()
        invariant
            i <= ids@.len(),
            forall|k: int| 0 <= k < i ==> ids@[k] != id,
        decreases ids@.len() - i,
    {
        if ids[i] == id {
            return Some(i);
        }
        i += 1;
    }
    None
}

/// Whether `x` is among `ids`.
pub fn holds_id(ids: &Vec<u128>, x: u128) -> (found: bool)
    ensures
        found == ids@.contains(x),
{
    position(ids, x).is_some()
}

/// Adds `x` to `ids` unless it is there already.
fn insert_id(ids: &mut Vec<u128>, x: u128)
    requires
        old(ids)@.no_duplicates(),
    ensures
        final(ids)@.no_duplicates(),
        final(ids)@ == (if old(ids)@.contains(x) {
            old(ids)@
        } else {
            old(ids)@.push(x)
        }),
        forall|y: u128| final(ids)@.contains(y) <==> (old(ids)@.contains(y) || y == x),
{
    let ghost before = ids@;
    if !holds_id(ids, x) {
        ids.push(x);
        assert forall|y: u128| before.contains(y) || y == x implies ids@.contains(y) by {
            if y == x {
                assert(ids@[before.len() as int] == x);
            } else {
                let k = choose|k: int| 0 <= k < before.len() && before[k] == y;
                assert(ids@[k] == y);
            }
        }
    }
}

/// Whether the set holds exactly the ids of the list.
pub open spec fn same_ids(seen: Set<u128>, listed: Seq<u128>) -> bool {
    forall|y: u128| seen.contains(y) <==> listed.contains(y)
}

/// Adds `x` to the list unless the set says that it is there already. The
/// set answers the question; the list keeps the order of arrival.
pub(crate) fn visit(seen: &mut HashSet<u128>, listed: &mut Vec<u128>, x: u128)
    requires
        old(listed)@.no_duplicates(),
        same_ids(old(seen)@, old(listed)@),
    ensures
        final(listed)@.no_duplicates(),
        same_ids(final(seen)@, final(listed)@),
        final(listed)@ == (if old(listed)@.contains(x) {
            old(listed)@
        } else {
            old(listed)@.push(x)
        }),
        forall|y: u128| final(listed)@.contains(y) <==> (old(listed)@.contains(y) || y == x),
{
    broadcast use vstd::std_specs::hash::group_hash_axioms;

    let ghost before = listed@;
    if seen.insert(x) {
        listed.push(x);
        assert forall|y: u128| before.contains(y) || y == x implies listed@.contains(y) by {
            if y == x {
                assert(listed@[before.len() as int] == x);
            } else {
                let k = choose|k: int| 0 <= k < before.len() && before[k] == y;
                assert(listed@[k] == y);
            }
        }
    }
}

/// The set of the ids of `ids`.
pub(crate) fn set_of(ids: &Vec<u128>) -> (seen: HashSet<u128>)
    ensures
        same_ids(seen@, ids@),
{
    broadcast use vstd::std_specs::hash::group_hash_axioms;

    let mut seen: HashSet<u128> = HashSet::new();
    let mut i: usize = 0;
    while i < ids.len()
        invariant
            i <= ids@.len(),
            same_ids(seen@, ids@.subrange(0, i as int)),
        decreases ids@.len() - i,
    {
        let ghost before = ids@.subrange(0, i as int);
        let ghost grown = ids@.subrange(0, i + 1);
        proof {
            assert(grown =~= before.push(ids@[i as int]));
            assert forall|y: u128| grown.contains(y) <==> (before.contains(y) || y == ids@[i as int]) by {
                if before.contains(y) {
                    let k = choose|k: int| 0 <= k < before.len() && before[k] == y;
                    assert(grown[k] == y);
                }
                if y == ids@[i as int] {
                    assert(grown[i as int] == y);
                }
            }
        }
        seen.insert(ids[i]);
        i += 1;
    }
    assert(ids@.subrange(0, ids@.len() as int) =~= ids@);
    seen
}

/// Adding an edge relates its two ends and nothing else.
pub proof fn lemma_related_push(edges: Seq<Edge>, e: Edge, id: u128)
    ensures
        related(edges.push(e), id) <==> (related(edges, id) || touches(e, id)),
{
    let more = edges.push(e);
    if related(edges, id) {
        let i = choose|i: int| 0 <= i < edges.len() && touches(#[trigger] edges[i], id);
        assert(touches(more[i], id));
    }
    if touches(e, id) {
        assert(touches(more[edges.len() as int], id));
    }
    if related(more, id) {
        let i = choose|i: int| 0 <= i < more.len() && touches(#[trigger] more[i], id);
        if i < edges.len() {
            assert(touches(edges[i], id));
        }
    }
}

/// Adding an edge links its two ends, in both directions, and nothing
/// else.
pub proof fn lemma_linked_push(edges: Seq<Edge>, e: Edge, a: u128, b: u128)
    ensures
        linked(edges.push(e), a, b) <==> (linked(edges, a, b) || joins(e, a, b)),
{
    let more = edges.push(e);
    if linked(edges, a, b) {
        let i = choose|i: int| 0 <= i < edges.len() && joins(#[trigger] edges[i], a, b);
        assert(joins(more[i], a, b));
    }
    if joins(e, a, b) {
        assert(joins(more[edges.len() as int], a, b));
    }
    if linked(more, a, b) {
        let i = choose|i: int| 0 <= i < more.len() && joins(#[trigger] more[i], a, b);
        if i < edges.len() {
            assert(joins(edges[i], a, b));
        }
    }
}

/// The row of `p` in the adjacency: the ids that it holds for `p`, none
/// where `p` has no row.
pub open spec fn row_of(adjacency: Map<u128, Vec<u128>>, p: u128) -> Seq<u128> {
    if adjacency.contains_key(p) {
        adjacency[p]@
    } else {
        Seq::empty()
    }
}

/// Whether no row holds an id twice.
pub open spec fn rows_distinct(adjacency: Map<u128, Vec<u128>>) -> bool {
    forall|p: u128| (#[trigger] row_of(adjacency, p)).no_duplicates()
}

/// Whether the set and the map are the index of `edges`: the set holds
/// exactly the ids that an edge touches, and the row of an id holds exactly
/// the ids that an edge joins it to, in either direction, each once.
pub open spec fn indexes(
    edges: Seq<Edge>,
    related_ids: Set<u128>,
    adjacency: Map<u128, Vec<u128>>,
) -> bool {
    &&& forall|p: u128| related_ids.contains(p) <==> related(edges, p)
    &&& rows_distinct(adjacency)
    &&& forall|p: u128, x: u128|
        #![trigger row_of(adjacency, p).contains(x)]
        #![trigger linked(edges, p, x)]
        row_of(adjacency, p).contains(x) <==> linked(edges, p, x)
}

/// A copy of `ids`.
pub fn copy_ids(ids: &Vec<u128>) -> (out: Vec<u128>)
    ensures
        out@ == ids@,
{
    let mut out: Vec<u128> = Vec::new();
    let mut i: usize = 0;
    while i < ids.len()
        invariant
            i <= ids@.len(),
            out@ == ids@.subrange(0, i as int),
        decreases ids@.len() - i,
    {
        out.push(ids[i]);
        assert(out@ =~= ids@.subrange(0, i + 1));
        i += 1;
    }
    assert(ids@.subrange(0, ids@.len() as int) =~= ids@);
    out
}

/// Puts `b` into the row of `a`, with a new row where `a` has none.
fn link(adjacency: &mut HashMap<u128, Vec<u128>>, a: u128, b: u128)
    requires
        rows_distinct(old(adjacency)@),
    ensures
        rows_distinct(final(adjacency)@),
        forall|p: u128, x: u128|
            #![trigger row_of(final(adjacency)@, p).contains(x)]
            row_of(final(adjacency)@, p).contains(x) <==> (row_of(old(adjacency)@, p).contains(x)
                || (p == a && x == b)),
{
    broadcast use vstd::std_specs::hash::group_hash_axioms;

    let ghost before = adjacency@;
    let taken = adjacency.remove(&a);
    let mut row: Vec<u128> = match taken {
        Some(found) => found,
        None => Vec::new(),
    };
    assert(row@ == row_of(before, a));
    assert(row@.no_duplicates());
    insert_id(&mut row, b);
    let ghost grown = row@;
    adjacency.insert(a, row);
    proof {
        assert forall|p: u128| #[trigger] row_of(adjacency@, p) == (if p == a {
            grown
        } else {
            row_of(before, p)
        }) by {}
    }
}

/// An undirected adjacency structure over the stored edges: for each id
/// that an edge touches, the ids that an edge joins it to in either
/// direction, and the set of all ids that appear in an edge. It is built
/// anew from the full edge set each time a relation query runs.
pub struct RelationIndex {
    edges: Ghost<Seq<Edge>>,
    adjacency: HashMap<u128, Vec<u128>>,
    related_ids: HashSet<u128>,
}

impl RelationIndex {
    #[verifier::type_invariant]
    spec fn consistent(&self) -> bool {
        indexes(self.edges@, self.related_ids@, self.adjacency@)
    }

    /// The edges that the index was built from.
    pub closed spec fn edges(&self) -> Seq<Edge> {
        self.edges@
    }

    /// The index over `edges`: every edge is entered in both directions.
    /// An edge may name an id that no entry has.
    pub fn build(edges: Vec<Edge>) -> (index: RelationIndex)
        ensures
            index.edges() == edges@,
    {
        broadcast use vstd::std_specs::hash::group_hash_axioms;

        let mut adjacency: HashMap<u128, Vec<u128>> = HashMap::new();
        let mut related_ids: HashSet<u128> = HashSet::new();
        let mut j: usize = 0;
        proof {
            let none = edges@.subrange(0, 0);
            assert forall|p: u128| !related(none, p) by {}
            assert forall|p: u128, x: u128| !linked(none, p, x) by {}
        }
        while j < edges.len()
            invariant
                j <= edges@.len(),
                indexes(edges@.subrange(0, j as int), related_ids@, adjacency@),
            decreases edges@.len() - j,
        {
            let e = edges[j];
            let ghost before = edges@.subrange(0, j as int);
            let ghost rows0 = adjacency@;
            link(&mut adjacency, e.0, e.1);
            let ghost rows1 = adjacency@;
            link(&mut adjacency, e.1, e.0);
            related_ids.insert(e.0);
            related_ids.insert(e.1);
            proof {
                let after = edges@.subrange(0, j + 1);
                assert(after =~= before.push(e));
                assert forall|p: u128| related_ids@.contains(p) <==> related(after, p) by {
                    lemma_related_push(before, e, p);
                }
                assert forall|p: u128, x: u128|
                    #![trigger row_of(adjacency@, p).contains(x)]
                    #![trigger linked(after, p, x)]
                    row_of(adjacency@, p).contains(x) <==> linked(after, p, x) by {
                    lemma_linked_push(before, e, p, x);
                    assert(row_of(adjacency@, p).contains(x) <==> (row_of(rows1, p).contains(x)
                        || (p == e.1 && x == e.0)));
                    assert(row_of(rows1, p).contains(x) <==> (row_of(rows0, p).contains(x) || (p
                        == e.0 && x == e.1)));
                    assert(row_of(rows0, p).contains(x) <==> linked(before, p, x));
                }
            }
            j += 1;
        }
        assert(edges@.subrange(0, edges@.len() as int) =~= edges@);
        RelationIndex { edges: Ghost(edges@), adjacency, related_ids }
    }

    /// Whether `id` appears in any edge.
    pub fn has_relations(&self, id: u128) -> (found: bool)
        ensures
            found == related(self.edges(), id),
    {
        broadcast use vstd::std_specs::hash::group_hash_axioms;

        proof {
            use_type_invariant(self);
        }
        self.related_ids.contains(&id)
    }

    /// The row of `id`: the ids joined to it by an edge in either direction,
    /// each once; `None` only where there are none.
    fn neighbours(&self, id: u128) -> (row: Option<&Vec<u128>>)
        ensures
            match row {
                Some(ids) => ids@.no_duplicates() && forall|x: u128|
                    ids@.contains(x) <==> linked(self.edges(), id, x),
                None => forall|x: u128| !linked(self.edges(), id, x),
            },
    {
        broadcast use vstd::std_specs::hash::group_hash_axioms;

        proof {
            use_type_invariant(self);
        }
        let row = self.adjacency.get(&id);
        proof {
            assert(row_of(self.adjacency@, id).no_duplicates());
            assert forall|x: u128|
                row_of(self.adjacency@, id).contains(x) <==> linked(self.edges@, id, x) by {}
            match row {
                Some(ids) => {
                    assert(ids@ == row_of(self.adjacency@, id));
                },
                None => {
                    assert(row_of(self.adjacency@, id) =~= Seq::<u128>::empty());
                },
            }
        }
        row
    }

    /// The ids joined to `id` by an edge in either direction, each once;
    /// none where no edge touches `id`.
    pub fn direct(&self, id: u128) -> (out: Vec<u128>)
        ensures
            out@.no_duplicates(),
            forall|x: u128| out@.contains(x) <==> linked(self.edges(), id, x),
    {
        match self.neighbours(id) {
            Some(row) => copy_ids(row),
            None => Vec::new(),
        }
    }

    /// The ids other than `from` that a breadth-first walk from `from`
    /// reaches within `max_hops` edges, each once. With `max_hops` zero
    /// there are none, whatever the graph.
    pub fn within_distance(&self, from: u128, max_hops: usize) -> (out: Vec<u128>)
        ensures
            out@.no_duplicates(),
            forall|x: u128|
                out@.contains(x) <==> (x != from && reach(self.edges(), from, x, max_hops as nat)),
            max_hops == 0 ==> out@.len() == 0,
    {
        let ghost edges = self.edges();
        broadcast use vstd::std_specs::hash::group_hash_axioms;

        let mut visited: Vec<u128> = Vec::new();
        let mut seen: HashSet<u128> = HashSet::new();
        visit(&mut seen, &mut visited, from);
        assert(visited@[0] == from);
        let mut hops: usize = 0;
        let mut frontier: usize = 0;
        let ghost mut depth: nat = 0;
        while hops < max_hops
            invariant
                edges == self.edges(),
                hops <= max_hops,
                depth <= max_hops,
                hops < max_hops ==> depth == hops,
                visited@.len() >= 1,
                frontier <= visited@.len(),
                visited@[0] == from,
                visited@.no_duplicates(),
                same_ids(seen@, visited@),
                forall|x: u128| visited@.contains(x) ==> reach(edges, from, x, depth),
                forall|x: u128|
                    reach(edges, from, x, max_hops as nat) && hops == max_hops ==> visited@.contains(
                        x,
                    ),
                forall|x: u128| reach(edges, from, x, depth) ==> visited@.contains(x),
                forall|t: int, x: u128|
                    0 <= t < frontier && linked(edges, #[trigger] visited@[t], x)
                        ==> #[trigger] visited@.contains(x),
                max_hops == 0 ==> visited@.len() == 1,
            decreases max_hops - hops,
        {
            let known = visited.len();
            let ghost settled = visited@;
            let mut s: usize = frontier;
            while s < known
                invariant
                    edges == self.edges(),
                    frontier <= s <= known,
                    1 <= known <= visited@.len(),
                    known == settled.len(),
                    visited@.subrange(0, known as int) == settled,
                    visited@[0] == from,
                    visited@.no_duplicates(),
                same_ids(seen@, visited@),
                    forall|x: u128| settled.contains(x) <==> reach(edges, from, x, depth),
                    forall|x: u128| visited@.contains(x) ==> reach(edges, from, x, depth + 1),
                    forall|t: int, x: u128|
                        0 <= t < s && linked(edges, #[trigger] settled[t], x)
                            ==> #[trigger] visited@.contains(x),
                decreases known - s,
            {
                let node = visited[s];
                assert(visited@.subrange(0, known as int)[s as int] == node);
                assert(settled.contains(node));
                let ghost before = visited@;
                match self.neighbours(node) {
                    Some(row) => {
                        let mut q: usize = 0;
                        while q < row.len()
                            invariant
                                edges == self.edges(),
                                q <= row@.len(),
                                1 <= known <= visited@.len(),
                                known == settled.len(),
                                visited@.subrange(0, known as int) == settled,
                                visited@[0] == from,
                                visited@.no_duplicates(),
                same_ids(seen@, visited@),
                                reach(edges, from, node, depth),
                                forall|x: u128| row@.contains(x) <==> linked(edges, node, x),
                                forall|x: u128|
                                    visited@.contains(x) ==> reach(edges, from, x, depth + 1),
                                forall|x: u128| before.contains(x) ==> visited@.contains(x),
                                forall|k: int| 0 <= k < q ==> visited@.contains(#[trigger] row@[k]),
                            decreases row@.len() - q,
                        {
                            let next = row[q];
                            proof {
                                assert(row@.contains(next));
                                lemma_reach_step(edges, from, node, next, depth);
                            }
                            visit(&mut seen, &mut visited, next);
                            assert(visited@.subrange(0, known as int) =~= settled);
                            q += 1;
                        }
                        proof {
                            assert forall|x: u128| linked(edges, node, x) implies visited@.contains(
                                x,
                            ) by {
                                let k = choose|k: int| 0 <= k < row@.len() && row@[k] == x;
                                assert(visited@.contains(row@[k]));
                            }
                        }
                    },
                    None => {},
                }
                proof {
                    assert(visited@.subrange(0, known as int) =~= settled);
                    assert forall|t: int, x: u128|
                        0 <= t < s + 1 && linked(edges, #[trigger] settled[t], x) implies #[trigger] visited@.contains(
                        x,
                    ) by {
                        if t < s {
                            assert(before.contains(x));
                        } else {
                            assert(settled[t] == node);
                        }
                    }
                }
                s += 1;
            }
            proof {
                assert forall|x: u128| reach(edges, from, x, depth + 1) implies visited@.contains(
                    x,
                ) by {
                    let more = depth + 1;
                    assert((more - 1) as nat == depth);
                    if reach(edges, from, x, depth) {
                        assert(settled.contains(x));
                        let k = choose|k: int| 0 <= k < settled.len() && settled[k] == x;
                        assert(visited@.subrange(0, known as int)[k] == x);
                        assert(visited@[k] == x);
                    } else {
                        let mid = choose|mid: u128|
                            #![trigger linked(edges, mid, x)]
                            reach(edges, from, mid, (more - 1) as nat) && linked(edges, mid, x);
                        assert(settled.contains(mid));
                        let t = choose|t: int| 0 <= t < settled.len() && settled[t] == mid;
                        assert(linked(edges, settled[t], x));
                    }
                }
                assert forall|t: int, x: u128|
                    0 <= t < known && linked(edges, #[trigger] visited@[t], x) implies #[trigger] visited@.contains(
                    x,
                ) by {
                    assert(visited@.subrange(0, known as int)[t] == visited@[t]);
                    assert(linked(edges, settled[t], x));
                }
            }
            if visited.len() == known {
                proof {
                    assert(visited@ =~= settled);
                    assert forall|x: u128| reach(edges, from, x, depth + 1) implies #[trigger] reach(
                        edges,
                        from,
                        x,
                        depth,
                    ) by {
                        assert(visited@.contains(x));
                    }
                    assert forall|x: u128|
                        reach(edges, from, x, max_hops as nat) implies visited@.contains(x) by {
                        lemma_reach_settles(edges, from, x, depth, max_hops as nat);
                    }
                }
                hops = max_hops;
            } else {
                hops = hops + 1;
                proof {
                    depth = depth + 1;
                }
            }
            frontier = known;
        }
        let mut out: Vec<u128> = Vec::new();
        let mut i: usize = 1;
        while i < visited.len()
            invariant
                1 <= i <= visited@.len(),
                visited@[0] == from,
                visited@.no_duplicates(),
                out@ == visited@.subrange(1, i as int),
                depth <= max_hops,
                max_hops == 0 ==> visited@.len() == 1,
                forall|x: u128| visited@.contains(x) ==> reach(edges, from, x, depth),
                forall|x: u128| reach(edges, from, x, max_hops as nat) ==> visited@.contains(x),
            decreases visited@.len() - i,
        {
            out.push(visited[i]);
            assert(out@ =~= visited@.subrange(1, i + 1));
            i += 1;
        }
        proof {
            assert(out@ =~= visited@.subrange(1, visited@.len() as int));
            assert forall|x: u128| out@.contains(x) <==> (x != from && reach(
                edges,
                from,
                x,
                max_hops as nat,
            )) by {
                if out@.contains(x) {
                    let k = choose|k: int| 0 <= k < out@.len() && out@[k] == x;
                    assert(visited@[k + 1] == x);
                    assert(visited@.contains(x));
                    lemma_reach_grows(edges, from, x, depth, max_hops as nat);
                }
                if x != from && reach(edges, from, x, max_hops as nat) {
                    assert(visited@.contains(x));
                    let k = choose|k: int| 0 <= k < visited@.len() && visited@[k] == x;
                    assert(out@[k - 1] == x);
                }
            }
        }
        out
    }
}

} // verus!
