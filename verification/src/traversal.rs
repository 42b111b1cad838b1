//! The breadth-first order in which recorded dependencies are walked.
//!
//! Everything here is specification and proof. The walk is modelled on the
//! list of computations discovered so far, in the order of their discovery,
//! and a position `head` in that list: the computations before `head` have
//! been expanded, those from `head` on are waiting in the work queue.
use crate::id::{key_space, DatabaseKeyIndex, DependencyIndex};
use vstd::prelude::*;
use vstd::set_lib::{lemma_int_range, lemma_len_subset, lemma_map_size, set_int_range};

verus! {

/// Recorded origins: for each computation that has one, the edges that its
/// last execution read, in the order in which it read them.
pub type Origins = Map<DatabaseKeyIndex, Seq<DependencyIndex>>;

/// The edges recorded for `key`; none where `key` has no origin.
pub open spec fn inputs_of(origins: Origins, key: DatabaseKeyIndex) -> Seq<DependencyIndex> {
    if origins.contains_key(key) {
        origins[key]
    } else {
        Seq::empty()
    }
}

/// `order` after following one edge: the computation that the edge leads to
/// is appended, unless the edge names none or the computation is listed
/// already.
pub open spec fn visit(order: Seq<DatabaseKeyIndex>, edge: DependencyIndex) -> Seq<
    DatabaseKeyIndex,
> {
    match edge.target() {
        Some(key) => if order.contains(key) {
            order
        } else {
            order.push(key)
        },
        None => order,
    }
}

/// `order` after following `edges` one by one, first to last.
pub open spec fn discover(order: Seq<DatabaseKeyIndex>, edges: Seq<DependencyIndex>) -> Seq<
    DatabaseKeyIndex,
>
    decreases edges.len(),
{
    if edges.len() == 0 {
        order
    } else {
        visit(discover(order, edges.drop_last()), edges.last())
    }
}

/// The complete list of discovered computations, given that `order` has been
/// discovered and the entries before `head` have been expanded.
///
/// Every step expands the entry at `head`. The walk ends because a step
/// either discovers a computation that was not listed, of which there are at
/// most [`key_space`], or leaves one entry fewer to expand.
pub open spec fn traverse(origins: Origins, order: Seq<DatabaseKeyIndex>, head: nat) -> Seq<
    DatabaseKeyIndex,
>
    decreases key_space() - order.len(), order.len() - head,
    when order.no_duplicates() && head <= order.len()
    via traverse_decreases
{
    if head >= order.len() {
        order
    } else {
        traverse(origins, discover(order, inputs_of(origins, order[head as int])), head + 1)
    }
}

#[via_fn]
proof fn traverse_decreases(origins: Origins, order: Seq<DatabaseKeyIndex>, head: nat) {
    if head < order.len() {
        let edges = inputs_of(origins, order[head as int]);
        lemma_discover(order, edges);
        lemma_distinct_keys_bounded(discover(order, edges));
    }
}

/// The order in which a breadth-first walk from `start` discovers the
/// computations of the graph.
pub open spec fn bfs_order(origins: Origins, start: DatabaseKeyIndex) -> Seq<DatabaseKeyIndex> {
    traverse(origins, seq![start], 0)
}

/// `from` recorded an edge that leads to `to`.
pub open spec fn has_edge(origins: Origins, from: DatabaseKeyIndex, to: DatabaseKeyIndex) -> bool {
    let edges = inputs_of(origins, from);
    exists|i: int| 0 <= i < edges.len() && (#[trigger] edges[i]).target() == Some(to)
}

/// `path` is not empty and each entry recorded an edge to the next one.
pub open spec fn is_path(origins: Origins, path: Seq<DatabaseKeyIndex>) -> bool {
    &&& path.len() > 0
    &&& forall|i: int|
        0 <= i < path.len() - 1 ==> has_edge(origins, #[trigger] path[i], path[i + 1])
}

/// Recorded edges lead from `start` to `key`, in any number of steps.
pub open spec fn reachable(origins: Origins, start: DatabaseKeyIndex, key: DatabaseKeyIndex) -> bool {
    exists|path: Seq<DatabaseKeyIndex>|
        #[trigger] is_path(origins, path) && path.first() == start && path.last() == key
}

/// What holds of the walk at every step: the list starts with `start` and
/// names no computation twice, all that it names is reachable, and every edge
/// of an expanded entry leads into the list.
pub open spec fn explored(
    origins: Origins,
    start: DatabaseKeyIndex,
    order: Seq<DatabaseKeyIndex>,
    head: nat,
) -> bool {
    &&& 0 < order.len()
    &&& head <= order.len()
    &&& order[0] == start
    &&& order.no_duplicates()
    &&& forall|i: int| 0 <= i < order.len() ==> reachable(origins, start, #[trigger] order[i])
    &&& forall|i: int, to: DatabaseKeyIndex|
        0 <= i < head && has_edge(origins, #[trigger] order[i], to) ==> #[trigger] order.contains(
            to,
        )
}

/// A list without repetition is no longer than there are keys.
pub proof fn lemma_distinct_keys_bounded(keys: Seq<DatabaseKeyIndex>)
    requires
        keys.no_duplicates(),
    ensures
        keys.len() <= key_space(),
{
    let number = |key: DatabaseKeyIndex| key.packed() as int;
    let listed = keys.to_set();
    let numbers = listed.map(number);
    let all = set_int_range(0, key_space() as int);
    keys.unique_seq_to_set();
    vstd::seq_lib::seq_to_set_is_finite(keys);
    assert(vstd::relations::injective_on(number, listed)) by {
        assert forall|a: DatabaseKeyIndex, b: DatabaseKeyIndex|
            listed.contains(a) && listed.contains(b) && number(a) == number(b) implies a == b by {
            a.lemma_packed_injective(b);
        }
    }
    lemma_map_size(listed, numbers, number);
    lemma_int_range(0, key_space() as int);
    assert(numbers.subset_of(all)) by {
        assert forall|n: int| numbers.contains(n) implies all.contains(n) by {
            let key = choose|key: DatabaseKeyIndex| listed.contains(key) && n == number(key);
            assert(n == key.packed() as int);
        }
    }
    lemma_len_subset(numbers, all);
}

/// Following edges keeps what was listed, in place, and adds exactly the
/// computations that the edges lead to and that were not listed, each once.
pub proof fn lemma_discover(order: Seq<DatabaseKeyIndex>, edges: Seq<DependencyIndex>)
    ensures
        order.len() <= discover(order, edges).len(),
        discover(order, edges).take(order.len() as int) == order,
        order.no_duplicates() ==> discover(order, edges).no_duplicates(),
        forall|key: DatabaseKeyIndex| #[trigger]
            discover(order, edges).contains(key) <==> order.contains(key) || exists|i: int|
                0 <= i < edges.len() && (#[trigger] edges[i]).target() == Some(key),
    decreases edges.len(),
{
    let next = discover(order, edges);
    if edges.len() == 0 {
        assert(next.take(order.len() as int) =~= order);
    } else {
        let before = discover(order, edges.drop_last());
        let edge = edges.last();
        lemma_discover(order, edges.drop_last());
        assert(next.take(order.len() as int) =~= before.take(order.len() as int));
        assert forall|key: DatabaseKeyIndex| #[trigger]
            next.contains(key) <==> order.contains(key) || exists|i: int|
                0 <= i < edges.len() && (#[trigger] edges[i]).target() == Some(key) by {
            lemma_visit_contains(before, edge, key);
            if before.contains(key) && !order.contains(key) {
                let i = choose|i: int|
                    0 <= i < edges.drop_last().len() && (#[trigger] edges.drop_last()[i]).target()
                        == Some(key);
                assert(edges[i] == edges.drop_last()[i]);
            }
            if exists|i: int| 0 <= i < edges.len() && (#[trigger] edges[i]).target() == Some(key) {
                let i = choose|i: int|
                    0 <= i < edges.len() && (#[trigger] edges[i]).target() == Some(key);
                if i < edges.len() - 1 {
                    assert(edges.drop_last()[i] == edges[i]);
                }
            }
        }
    }
}

/// What one edge adds to the list.
proof fn lemma_visit_contains(
    order: Seq<DatabaseKeyIndex>,
    edge: DependencyIndex,
    key: DatabaseKeyIndex,
)
    ensures
        visit(order, edge).contains(key) <==> order.contains(key) || edge.target() == Some(key),
{
    let next = visit(order, edge);
    if next.len() != order.len() {
        let added = edge.target().unwrap();
        assert(next == order.push(added));
        assert(next[order.len() as int] == added);
        if next.contains(key) && key != added {
            let i = choose|i: int| 0 <= i < next.len() && next[i] == key;
            assert(order[i] == key);
        }
        if order.contains(key) {
            let i = choose|i: int| 0 <= i < order.len() && order[i] == key;
            assert(next[i] == key);
        }
    }
}

/// A path stays a path when an edge from its end is added.
proof fn lemma_path_extends(
    origins: Origins,
    path: Seq<DatabaseKeyIndex>,
    to: DatabaseKeyIndex,
)
    requires
        is_path(origins, path),
        has_edge(origins, path.last(), to),
    ensures
        is_path(origins, path.push(to)),
        path.push(to).first() == path.first(),
        path.push(to).last() == to,
{
    let longer = path.push(to);
    assert forall|i: int| 0 <= i < longer.len() - 1 implies has_edge(
        origins,
        #[trigger] longer[i],
        longer[i + 1],
    ) by {
        if i < path.len() - 1 {
            assert(has_edge(origins, path[i], path[i + 1]));
        }
    }
}

/// One step of the walk keeps [`explored`].
proof fn lemma_expand_keeps_explored(
    origins: Origins,
    start: DatabaseKeyIndex,
    order: Seq<DatabaseKeyIndex>,
    head: nat,
)
    requires
        explored(origins, start, order, head),
        head < order.len(),
    ensures
        explored(
            origins,
            start,
            discover(order, inputs_of(origins, order[head as int])),
            head + 1,
        ),
{
    let from = order[head as int];
    let edges = inputs_of(origins, from);
    let next = discover(order, edges);
    lemma_discover(order, edges);
    assert forall|i: int| 0 <= i < order.len() implies next[i] == order[i] by {
        assert(next.take(order.len() as int)[i] == next[i]);
    }
    assert forall|i: int| 0 <= i < next.len() implies reachable(
        origins,
        start,
        #[trigger] next[i],
    ) by {
        let key = next[i];
        assert(next.contains(key));
        if order.contains(key) {
            let j = choose|j: int| 0 <= j < order.len() && order[j] == key;
            assert(reachable(origins, start, order[j]));
        } else {
            assert(has_edge(origins, from, key));
            assert(reachable(origins, start, order[head as int]));
            let path = choose|path: Seq<DatabaseKeyIndex>|
                #[trigger] is_path(origins, path) && path.first() == start && path.last() == from;
            lemma_path_extends(origins, path, key);
            assert(is_path(origins, path.push(key)));
        }
    }
    assert forall|i: int, to: DatabaseKeyIndex|
        0 <= i < head + 1 && has_edge(origins, #[trigger] next[i], to) implies #[trigger]
        next.contains(to) by {
        if i < head {
            assert(has_edge(origins, order[i], to));
            assert(order.contains(to));
        } else {
            assert(next[i] == from);
        }
    }
}

/// The finished walk is [`explored`] to its end, and starts with the list it
/// was given.
pub proof fn lemma_traverse_explores(
    origins: Origins,
    start: DatabaseKeyIndex,
    order: Seq<DatabaseKeyIndex>,
    head: nat,
)
    requires
        explored(origins, start, order, head),
    ensures
        explored(
            origins,
            start,
            traverse(origins, order, head),
            traverse(origins, order, head).len(),
        ),
        order.len() <= traverse(origins, order, head).len(),
        traverse(origins, order, head).take(order.len() as int) == order,
    decreases key_space() - order.len(), order.len() - head,
{
    let walked = traverse(origins, order, head);
    if head >= order.len() {
        assert(walked.take(order.len() as int) =~= order);
    } else {
        let next = discover(order, inputs_of(origins, order[head as int]));
        lemma_discover(order, inputs_of(origins, order[head as int]));
        lemma_expand_keeps_explored(origins, start, order, head);
        lemma_distinct_keys_bounded(next);
        lemma_traverse_explores(origins, start, next, head + 1);
        assert(walked.take(order.len() as int) =~= walked.take(next.len() as int).take(
            order.len() as int,
        ));
    }
}

/// A list that is explored to its end names every computation on a path from
/// `start`.
proof fn lemma_explored_holds_path(
    origins: Origins,
    start: DatabaseKeyIndex,
    order: Seq<DatabaseKeyIndex>,
    path: Seq<DatabaseKeyIndex>,
    upto: int,
)
    requires
        explored(origins, start, order, order.len()),
        is_path(origins, path),
        path.first() == start,
        0 <= upto < path.len(),
    ensures
        order.contains(path[upto]),
    decreases upto,
{
    if upto == 0 {
        assert(order[0] == path[0]);
    } else {
        lemma_explored_holds_path(origins, start, order, path, upto - 1);
        let i = choose|i: int| 0 <= i < order.len() && order[i] == path[upto - 1];
        assert(has_edge(origins, path[upto - 1], path[upto - 1 + 1]));
        assert(has_edge(origins, order[i], path[upto]));
    }
}

/// The walk from `start` begins with `start`, names no computation twice, and
/// names exactly the computations that recorded edges lead to from `start`.
pub proof fn lemma_bfs_order_visits_reachable_once(origins: Origins, start: DatabaseKeyIndex)
    ensures
        bfs_order(origins, start).len() > 0,
        bfs_order(origins, start)[0] == start,
        bfs_order(origins, start).no_duplicates(),
        forall|key: DatabaseKeyIndex| #[trigger]
            bfs_order(origins, start).contains(key) <==> reachable(origins, start, key),
{
    let first = seq![start];
    let order = bfs_order(origins, start);
    assert(reachable(origins, start, start)) by {
        assert(is_path(origins, first));
    }
    assert(explored(origins, start, first, 0));
    lemma_traverse_explores(origins, start, first, 0);
    assert(order[0] == start) by {
        assert(order.take(1)[0] == order[0]);
    }
    assert forall|key: DatabaseKeyIndex| #[trigger]
        order.contains(key) <==> reachable(origins, start, key) by {
        if order.contains(key) {
            let i = choose|i: int| 0 <= i < order.len() && order[i] == key;
            assert(reachable(origins, start, order[i]));
        }
        if reachable(origins, start, key) {
            let path = choose|path: Seq<DatabaseKeyIndex>|
                #[trigger] is_path(origins, path) && path.first() == start && path.last() == key;
            lemma_explored_holds_path(origins, start, order, path, path.len() - 1);
        }
    }
}

/// Recorded edges lead from `start` to `key` in exactly `steps` steps.
pub open spec fn reachable_in(
    origins: Origins,
    start: DatabaseKeyIndex,
    key: DatabaseKeyIndex,
    steps: nat,
) -> bool {
    exists|path: Seq<DatabaseKeyIndex>|
        #[trigger] is_path(origins, path) && path.first() == start && path.last() == key
            && path.len() == steps + 1
}

/// `steps` is the least number of steps in which recorded edges lead from
/// `start` to `key`.
pub open spec fn is_distance(
    origins: Origins,
    start: DatabaseKeyIndex,
    key: DatabaseKeyIndex,
    steps: nat,
) -> bool {
    &&& reachable_in(origins, start, key, steps)
    &&& forall|fewer: nat| fewer < steps ==> !#[trigger] reachable_in(origins, start, key, fewer)
}

/// How far `key` is from `start`: the least number of steps in which
/// recorded edges lead there. It means nothing where none do.
pub open spec fn distance(origins: Origins, start: DatabaseKeyIndex, key: DatabaseKeyIndex) -> nat {
    choose|steps: nat| is_distance(origins, start, key, steps)
}

/// What holds of the walk at every step beyond [`explored`]: the list is in
/// the order of the distance from `start`, and nothing listed is more than
/// one step farther than the entry that is expanded next.
pub open spec fn layered(
    origins: Origins,
    start: DatabaseKeyIndex,
    order: Seq<DatabaseKeyIndex>,
    head: nat,
) -> bool {
    &&& explored(origins, start, order, head)
    &&& forall|i: int, j: int|
        0 <= i <= j < order.len() ==> distance(origins, start, #[trigger] order[i]) <= distance(
            origins,
            start,
            #[trigger] order[j],
        )
    &&& head < order.len() ==> forall|j: int|
        0 <= j < order.len() ==> distance(origins, start, #[trigger] order[j]) <= distance(
            origins,
            start,
            order[head as int],
        ) + 1
}

/// Among the numbers of steps that lead to `key`, one is the least.
proof fn lemma_least_steps(
    origins: Origins,
    start: DatabaseKeyIndex,
    key: DatabaseKeyIndex,
    steps: nat,
)
    requires
        reachable_in(origins, start, key, steps),
    ensures
        exists|least: nat| least <= steps && #[trigger] is_distance(origins, start, key, least),
    decreases steps,
{
    if exists|fewer: nat| fewer < steps && reachable_in(origins, start, key, fewer) {
        let fewer = choose|fewer: nat| fewer < steps && reachable_in(origins, start, key, fewer);
        lemma_least_steps(origins, start, key, fewer);
        let least = choose|least: nat|
            least <= fewer && #[trigger] is_distance(origins, start, key, least);
        assert(least <= steps && is_distance(origins, start, key, least));
    } else {
        assert(is_distance(origins, start, key, steps));
    }
}

/// The distance of a reachable computation is the least number of steps that
/// lead to it.
pub proof fn lemma_distance(origins: Origins, start: DatabaseKeyIndex, key: DatabaseKeyIndex)
    requires
        reachable(origins, start, key),
    ensures
        is_distance(origins, start, key, distance(origins, start, key)),
{
    let path = choose|path: Seq<DatabaseKeyIndex>|
        #[trigger] is_path(origins, path) && path.first() == start && path.last() == key;
    assert(reachable_in(origins, start, key, (path.len() - 1) as nat));
    lemma_least_steps(origins, start, key, (path.len() - 1) as nat);
}

/// A computation that `steps` steps lead to is reachable, at a distance of
/// `steps` at most.
proof fn lemma_distance_at_most(
    origins: Origins,
    start: DatabaseKeyIndex,
    key: DatabaseKeyIndex,
    steps: nat,
)
    requires
        reachable_in(origins, start, key, steps),
    ensures
        reachable(origins, start, key),
        distance(origins, start, key) <= steps,
{
    let path = choose|path: Seq<DatabaseKeyIndex>|
        #[trigger] is_path(origins, path) && path.first() == start && path.last() == key
            && path.len() == steps + 1;
    assert(is_path(origins, path) && path.first() == start && path.last() == key);
    lemma_distance(origins, start, key);
}

/// The beginning of a path is a path.
proof fn lemma_path_prefix(origins: Origins, path: Seq<DatabaseKeyIndex>, len: int)
    requires
        is_path(origins, path),
        0 < len <= path.len(),
    ensures
        is_path(origins, path.take(len)),
        path.take(len).first() == path.first(),
        path.take(len).last() == path[len - 1],
{
    let prefix = path.take(len);
    assert forall|i: int| 0 <= i < prefix.len() - 1 implies has_edge(
        origins,
        #[trigger] prefix[i],
        prefix[i + 1],
    ) by {
        assert(has_edge(origins, path[i], path[i + 1]));
    }
}

/// While the walk is under way, every computation that is no farther from
/// `start` than the entry expanded next is listed already.
proof fn lemma_near_keys_are_listed(
    origins: Origins,
    start: DatabaseKeyIndex,
    order: Seq<DatabaseKeyIndex>,
    head: nat,
    key: DatabaseKeyIndex,
)
    requires
        layered(origins, start, order, head),
        head < order.len(),
        reachable(origins, start, key),
        distance(origins, start, key) <= distance(origins, start, order[head as int]),
    ensures
        order.contains(key),
    decreases distance(origins, start, key),
{
    lemma_distance(origins, start, key);
    let steps = distance(origins, start, key);
    let path = choose|path: Seq<DatabaseKeyIndex>|
        #[trigger] is_path(origins, path) && path.first() == start && path.last() == key
            && path.len() == steps + 1;
    if steps == 0 {
        assert(order[0] == key);
    } else {
        let before = path[steps - 1];
        lemma_path_prefix(origins, path, steps as int);
        assert(is_path(origins, path.take(steps as int)));
        assert(reachable_in(origins, start, before, (steps - 1) as nat));
        lemma_distance_at_most(origins, start, before, (steps - 1) as nat);
        lemma_near_keys_are_listed(origins, start, order, head, before);
        let i = choose|i: int| 0 <= i < order.len() && order[i] == before;
        if i >= head {
            assert(distance(origins, start, order[head as int]) <= distance(
                origins,
                start,
                order[i],
            ));
        }
        assert(has_edge(origins, path[steps - 1], path[steps - 1 + 1]));
        assert(has_edge(origins, order[i], key));
    }
}

/// One step of the walk keeps [`layered`]: what it discovers is one step
/// farther from `start` than the entry that it expands.
proof fn lemma_expand_keeps_layered(
    origins: Origins,
    start: DatabaseKeyIndex,
    order: Seq<DatabaseKeyIndex>,
    head: nat,
)
    requires
        layered(origins, start, order, head),
        head < order.len(),
    ensures
        layered(origins, start, discover(order, inputs_of(origins, order[head as int])), head + 1),
{
    let from = order[head as int];
    let far = distance(origins, start, from);
    let edges = inputs_of(origins, from);
    let next = discover(order, edges);
    lemma_discover(order, edges);
    lemma_expand_keeps_explored(origins, start, order, head);
    assert forall|i: int| 0 <= i < order.len() implies next[i] == order[i] by {
        assert(next.take(order.len() as int)[i] == next[i]);
    }
    assert(reachable(origins, start, order[head as int]));
    lemma_distance(origins, start, from);
    let path = choose|path: Seq<DatabaseKeyIndex>|
        #[trigger] is_path(origins, path) && path.first() == start && path.last() == from
            && path.len() == far + 1;
    assert forall|j: int| order.len() <= j < next.len() implies distance(
        origins,
        start,
        #[trigger] next[j],
    ) == far + 1 by {
        let found = next[j];
        assert(next.contains(found));
        if order.contains(found) {
            let i = choose|i: int| 0 <= i < order.len() && order[i] == found;
            assert(next[i] == next[j]);
        }
        assert(has_edge(origins, from, found));
        lemma_path_extends(origins, path, found);
        assert(is_path(origins, path.push(found)));
        assert(reachable_in(origins, start, found, far + 1));
        lemma_distance_at_most(origins, start, found, far + 1);
        if distance(origins, start, found) <= far {
            lemma_near_keys_are_listed(origins, start, order, head, found);
        }
    }
    assert forall|i: int, j: int| 0 <= i <= j < next.len() implies distance(
        origins,
        start,
        #[trigger] next[i],
    ) <= distance(origins, start, #[trigger] next[j]) by {
        if j < order.len() {
            assert(distance(origins, start, order[i]) <= distance(origins, start, order[j]));
        } else if i < order.len() {
            assert(distance(origins, start, order[i]) <= far + 1);
        }
    }
    if head + 1 < next.len() {
        assert forall|j: int| 0 <= j < next.len() implies distance(
            origins,
            start,
            #[trigger] next[j],
        ) <= distance(origins, start, next[head as int + 1]) + 1 by {
            assert(distance(origins, start, next[head as int]) <= distance(
                origins,
                start,
                next[head as int + 1],
            ));
            if j < order.len() {
                assert(distance(origins, start, order[j]) <= far + 1);
            }
        }
    }
}

/// The finished walk is [`layered`] to its end.
proof fn lemma_traverse_layers(
    origins: Origins,
    start: DatabaseKeyIndex,
    order: Seq<DatabaseKeyIndex>,
    head: nat,
)
    requires
        layered(origins, start, order, head),
    ensures
        layered(
            origins,
            start,
            traverse(origins, order, head),
            traverse(origins, order, head).len(),
        ),
    decreases key_space() - order.len(), order.len() - head,
{
    if head < order.len() {
        let next = discover(order, inputs_of(origins, order[head as int]));
        lemma_discover(order, inputs_of(origins, order[head as int]));
        lemma_expand_keeps_layered(origins, start, order, head);
        lemma_distinct_keys_bounded(next);
        lemma_traverse_layers(origins, start, next, head + 1);
    }
}

/// The walk is breadth first: it lists the computations in the order of
/// their distance from `start`, `start` itself first, so that no computation
/// comes before one that fewer steps lead to.
pub proof fn lemma_bfs_order_is_by_distance(origins: Origins, start: DatabaseKeyIndex)
    ensures
        distance(origins, start, start) == 0,
        forall|i: int, j: int|
            0 <= i <= j < bfs_order(origins, start).len() ==> distance(
                origins,
                start,
                #[trigger] bfs_order(origins, start)[i],
            ) <= distance(origins, start, #[trigger] bfs_order(origins, start)[j]),
{
    let first = seq![start];
    assert(is_path(origins, first));
    assert(reachable(origins, start, start));
    assert(reachable_in(origins, start, start, 0));
    lemma_distance_at_most(origins, start, start, 0);
    assert(explored(origins, start, first, 0));
    assert(layered(origins, start, first, 0));
    lemma_traverse_layers(origins, start, first, 0);
}

} // verus!
