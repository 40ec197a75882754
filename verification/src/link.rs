//! The mathematical reading of an edge list.

use vstd::prelude::*;

verus! {

/// The edge `edge` as a pair of mathematical integers, tail first.
pub open spec fn link_of(edge: (u32, u32)) -> (int, int) {
    (edge.0 as int, edge.1 as int)
}

/// The edge list `edges` as a sequence of integer pairs, in the same order.
pub open spec fn links_of(edges: Seq<(u32, u32)>) -> Seq<(int, int)> {
    Seq::new(edges.len(), |i: int| link_of(edges[i]))
}

/// The vertex ids `ids` as mathematical integers, in the same order.
pub open spec fn ids_of(ids: Seq<u32>) -> Seq<int> {
    Seq::new(ids.len(), |i: int| ids[i] as int)
}

/// Appending a vertex id appends its integer.
pub proof fn lemma_ids_of_push(ids: Seq<u32>, id: u32)
    ensures
        ids_of(ids.push(id)) == ids_of(ids).push(id as int),
{
    assert(ids_of(ids.push(id)) =~= ids_of(ids).push(id as int));
}

/// Appending an edge appends its link.
pub proof fn lemma_links_of_push(edges: Seq<(u32, u32)>, edge: (u32, u32))
    ensures
        links_of(edges.push(edge)) == links_of(edges).push(link_of(edge)),
{
    assert(links_of(edges.push(edge)) =~= links_of(edges).push(link_of(edge)));
}

/// The empty edge list has no links.
pub proof fn lemma_links_of_empty()
    ensures
        links_of(Seq::<(u32, u32)>::empty()) == Seq::<(int, int)>::empty(),
{
    assert(links_of(Seq::<(u32, u32)>::empty()) =~= Seq::<(int, int)>::empty());
}

/// Two edge lists with the same links are the same list: the links of an edge
/// list determine it.
pub proof fn lemma_links_of_injective(a: Seq<(u32, u32)>, b: Seq<(u32, u32)>)
    requires
        links_of(a) == links_of(b),
    ensures
        a == b,
{
    assert(a.len() == links_of(a).len());
    assert(b.len() == links_of(b).len());
    assert forall|i: int| 0 <= i < a.len() implies a[i] == b[i] by {
        assert(links_of(a)[i] == link_of(a[i]));
        assert(links_of(b)[i] == link_of(b[i]));
    }
    assert(a =~= b);
}

/// Something is in a concatenation when it is in one of the two parts.
pub proof fn lemma_concat_contains<A>(first: Seq<A>, second: Seq<A>, item: A)
    ensures
        (first + second).contains(item) <==> first.contains(item) || second.contains(item),
{
    let both = first + second;
    if both.contains(item) {
        let i = choose|i: int| 0 <= i < both.len() && both[i] == item;
        if i < first.len() {
            assert(first[i] == item);
        } else {
            assert(second[i - first.len()] == item);
        }
    }
    if first.contains(item) {
        let i = choose|i: int| 0 <= i < first.len() && first[i] == item;
        assert(both[i] == item);
    }
    if second.contains(item) {
        let i = choose|i: int| 0 <= i < second.len() && second[i] == item;
        assert(both[first.len() + i] == item);
    }
}

/// Something is in a sequence with one more item when it is in the sequence
/// or is that item.
pub proof fn lemma_push_contains<A>(items: Seq<A>, last: A, item: A)
    ensures
        items.push(last).contains(item) <==> items.contains(item) || item == last,
{
    let longer = items.push(last);
    if longer.contains(item) {
        let i = choose|i: int| 0 <= i < longer.len() && longer[i] == item;
        if i < items.len() {
            assert(items[i] == item);
        }
    }
    if items.contains(item) {
        let i = choose|i: int| 0 <= i < items.len() && items[i] == item;
        assert(longer[i] == item);
    }
    if item == last {
        assert(longer[items.len() as int] == item);
    }
}

/// An edge list repeats no edge when its links repeat none.
pub proof fn lemma_links_of_no_duplicates(edges: Seq<(u32, u32)>)
    requires
        links_of(edges).no_duplicates(),
    ensures
        edges.no_duplicates(),
{
    assert forall|i: int, j: int| 0 <= i < edges.len() && 0 <= j < edges.len() && i != j implies edges[i]
        != edges[j] by {
        assert(links_of(edges)[i] != links_of(edges)[j]);
    }
}

} // verus!
