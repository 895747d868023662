use vstd::prelude::*;

verus! {

/// Which nodes have a level.
pub open spec fn marked(levels: Seq<usize>) -> Seq<bool> {
    Seq::new(levels.len(), |v: int| levels[v] != usize::MAX)
}

/// Looking at the members of `list` in turn with `seen` marking the nodes already reached:
/// the members not yet reached, in list order and each once, and the marks afterwards.
pub open spec fn scan(list: Seq<usize>, seen: Seq<bool>) -> (Seq<usize>, Seq<bool>)
    decreases list.len(),
{
    if list.len() == 0 {
        (Seq::empty(), seen)
    } else {
        let (added, marks) = scan(list.drop_last(), seen);
        let x = list.last();
        if marks[x as int] {
            (added, marks)
        } else {
            (added.push(x), marks.update(x as int, true))
        }
    }
}

/// The queue of a breadth-first search after at most `fuel` more expansions: expanding the
/// node at `head` appends the members of its list that `seen` does not mark yet, in list order.
pub open spec fn search_queue(adj: Seq<Seq<usize>>, seen: Seq<bool>, queue: Seq<usize>, head: int, fuel: nat) -> Seq<usize>
    decreases fuel,
{
    if fuel == 0 || head < 0 || head >= queue.len() {
        queue
    } else {
        let (added, marks) = scan(adj[queue[head] as int], seen);
        search_queue(adj, marks, queue + added, head + 1, (fuel - 1) as nat)
    }
}

} // verus!
