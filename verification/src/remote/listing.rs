//! The order in which the folder browser shows a directory: folders first, then by
//! name without regard to case; nodes that tie stay in the order they came in.
use vstd::prelude::*;
use vstd::string::*;

use super::{to_lowercase, NodeView, RemoteNode};
use crate::text;

verus! {

/// `a` stands before `b` in a dictionary of Unicode code points.
pub open spec fn precedes(a: Seq<char>, b: Seq<char>) -> bool
    decreases a.len(),
{
    if b.len() == 0 {
        false
    } else if a.len() == 0 {
        true
    } else if a[0] != b[0] {
        a[0] < b[0]
    } else {
        precedes(a.skip(1), b.skip(1))
    }
}

proof fn lemma_precedes_total(a: Seq<char>, b: Seq<char>)
    ensures
        precedes(a, b) || precedes(b, a) || a == b,
        !(precedes(a, b) && precedes(b, a)),
        a == b ==> !precedes(a, b),
    decreases a.len(),
{
    if a.len() > 0 && b.len() > 0 && a[0] == b[0] {
        lemma_precedes_total(a.skip(1), b.skip(1));
        if a.skip(1) == b.skip(1) {
            assert(a =~= seq![a[0]] + a.skip(1));
            assert(b =~= seq![b[0]] + b.skip(1));
        }
    }
    if a.len() == 0 && b.len() == 0 {
        assert(a =~= b);
    }
}

proof fn lemma_precedes_transitive(a: Seq<char>, b: Seq<char>, c: Seq<char>)
    requires
        precedes(a, b),
        precedes(b, c),
    ensures
        precedes(a, c),
    decreases a.len(),
{
    if a.len() > 0 && a[0] == b[0] && b[0] == c[0] {
        lemma_precedes_transitive(a.skip(1), b.skip(1), c.skip(1));
    }
}

/// The node at `i` is shown before the one at `j`; `folded` holds the names without
/// regard to case.
pub open spec fn shown_first(
    nodes: Seq<NodeView>,
    folded: Seq<Seq<char>>,
    i: int,
    j: int,
) -> bool {
    if nodes[i].is_dir != nodes[j].is_dir {
        nodes[i].is_dir
    } else if folded[i] != folded[j] {
        precedes(folded[i], folded[j])
    } else {
        i < j
    }
}

/// `order` lists every position once, each before those that are shown after it.
pub open spec fn is_listing_order(
    nodes: Seq<NodeView>,
    folded: Seq<Seq<char>>,
    order: Seq<int>,
) -> bool {
    &&& order.len() == nodes.len()
    &&& forall|p: int| 0 <= p < order.len() ==> 0 <= #[trigger] order[p] < nodes.len()
    &&& forall|i: int| 0 <= i < nodes.len() ==> #[trigger] order.contains(i)
    &&& forall|p: int, q: int|
        0 <= p < q < order.len() ==> shown_first(
            nodes,
            folded,
            #[trigger] order[p],
            #[trigger] order[q],
        )
}

proof fn lemma_shown_first(
    nodes: Seq<NodeView>,
    folded: Seq<Seq<char>>,
    i: int,
    j: int,
    k: int,
)
    ensures
        i != j ==> shown_first(nodes, folded, i, j) || shown_first(nodes, folded, j, i),
        !(shown_first(nodes, folded, i, j) && shown_first(nodes, folded, j, i)),
        shown_first(nodes, folded, i, j) && shown_first(nodes, folded, j, k) ==> shown_first(
            nodes,
            folded,
            i,
            k,
        ),
{
    lemma_precedes_total(folded[i], folded[j]);
    lemma_precedes_total(folded[j], folded[k]);
    lemma_precedes_total(folded[i], folded[k]);
    if precedes(folded[i], folded[j]) && precedes(folded[j], folded[k]) {
        lemma_precedes_transitive(folded[i], folded[j], folded[k]);
    }
}

/// There is only one order in which a directory can be shown.
pub proof fn law_listing_order_is_unique(
    nodes: Seq<NodeView>,
    folded: Seq<Seq<char>>,
    one: Seq<int>,
    other: Seq<int>,
)
    requires
        is_listing_order(nodes, folded, one),
        is_listing_order(nodes, folded, other),
    ensures
        one == other,
{
    lemma_same_start(nodes, folded, one, other, nodes.len() as int);
}

proof fn lemma_same_start(
    nodes: Seq<NodeView>,
    folded: Seq<Seq<char>>,
    one: Seq<int>,
    other: Seq<int>,
    k: int,
)
    requires
        is_listing_order(nodes, folded, one),
        is_listing_order(nodes, folded, other),
        0 <= k <= nodes.len(),
    ensures
        forall|p: int| 0 <= p < k ==> one[p] == other[p],
    decreases k,
{
    if k > 0 {
        lemma_same_start(nodes, folded, one, other, k - 1);
        let a = one[k - 1];
        let b = other[k - 1];
        assert(other.contains(a));
        assert(one.contains(b));
        let q = choose|q: int| 0 <= q < other.len() && other[q] == a;
        let p = choose|p: int| 0 <= p < one.len() && one[p] == b;
        lemma_shown_first(nodes, folded, a, b, a);
        lemma_shown_first(nodes, folded, a, a, a);
        lemma_shown_first(nodes, folded, b, b, b);
        if q < k - 1 {
            assert(one[q] == a);
        }
        if p < k - 1 {
            assert(other[p] == b);
        }
    }
}

/// Whether `a` stands before `b` in a dictionary of Unicode code points.
fn comes_before(a: &Vec<char>, b: &Vec<char>) -> (r: bool)
    ensures
        r == precedes(a@, b@),
{
    let mut i: usize = 0;
    assert(a@.skip(0) =~= a@);
    assert(b@.skip(0) =~= b@);
    while i < a.len() && i < b.len() && a[i] == b[i]
        invariant
            i <= a@.len(),
            i <= b@.len(),
            precedes(a@, b@) == precedes(a@.skip(i as int), b@.skip(i as int)),
        decreases a@.len() - i,
    {
        assert(a@.skip(i as int).skip(1) =~= a@.skip(i + 1));
        assert(b@.skip(i as int).skip(1) =~= b@.skip(i + 1));
        i = i + 1;
    }
    if i == b.len() {
        false
    } else if i == a.len() {
        true
    } else {
        a[i] < b[i]
    }
}

/// The order in which to show `nodes`, whose names without regard to case are
/// `folded`.
pub fn listing_order(nodes: &Vec<RemoteNode>, folded: &Vec<String>) -> (order: Vec<usize>)
    requires
        nodes@.len() == folded@.len(),
    ensures
        is_listing_order(
            super::node_views(nodes@),
            text::views(folded@),
            order@.map_values(|i: usize| i as int),
        ),
{
    let n: usize = nodes.len();
    let ghost views = super::node_views(nodes@);
    let ghost names = text::views(folded@);
    let mut keys: Vec<Vec<char>> = Vec::new();
    while keys.len() < n
        invariant
            n == folded@.len(),
            names == text::views(folded@),
            keys@.len() <= n,
            forall|i: int| 0 <= i < keys@.len() ==> (#[trigger] keys@[i])@ == names[i],
        decreases n - keys@.len(),
    {
        let key = text::chars_of(folded[keys.len()].as_str());
        keys.push(key);
    }
    let mut order: Vec<usize> = Vec::new();
    let mut k: usize = 0;
    while k < n
        invariant
            0 <= k <= n,
            n == nodes@.len(),
            n == names.len(),
            n == keys@.len(),
            views == super::node_views(nodes@),
            forall|i: int| 0 <= i < keys@.len() ==> (#[trigger] keys@[i])@ == names[i],
            order@.len() == k,
            forall|p: int| 0 <= p < k ==> #[trigger] order@[p] < k,
            forall|i: usize| 0 <= i < k ==> #[trigger] order@.contains(i),
            forall|p: int, q: int|
                0 <= p < q < k ==> shown_first(
                    views,
                    names,
                    (#[trigger] order@[p]) as int,
                    (#[trigger] order@[q]) as int,
                ),
        decreases n - k,
    {
        let mut low: usize = 0;
        let mut high: usize = k;
        while low < high
            invariant
                0 <= low <= high <= k < n,
                n == nodes@.len(),
                n == names.len(),
                n == keys@.len(),
                views == super::node_views(nodes@),
                forall|i: int| 0 <= i < keys@.len() ==> (#[trigger] keys@[i])@ == names[i],
                order@.len() == k,
                forall|p: int| 0 <= p < k ==> #[trigger] order@[p] < k,
                forall|p: int, q: int|
                    0 <= p < q < k ==> shown_first(
                        views,
                        names,
                        (#[trigger] order@[p]) as int,
                        (#[trigger] order@[q]) as int,
                    ),
                forall|p: int|
                    0 <= p < low ==> shown_first(
                        views,
                        names,
                        (#[trigger] order@[p]) as int,
                        k as int,
                    ),
                forall|p: int|
                    high <= p < k ==> shown_first(
                        views,
                        names,
                        k as int,
                        (#[trigger] order@[p]) as int,
                    ),
            decreases high - low,
        {
            let mid: usize = low + (high - low) / 2;
            let i: usize = order[mid];
            let later = if nodes[k].is_dir != nodes[i].is_dir {
                nodes[k].is_dir
            } else {
                comes_before(&keys[k], &keys[i])
            };
            proof {
                lemma_precedes_total(names[k as int], names[i as int]);
                lemma_shown_first(views, names, i as int, k as int, k as int);
            }
            if later {
                assert(shown_first(views, names, k as int, i as int));
                assert forall|p: int| mid <= p < k implies shown_first(
                    views,
                    names,
                    k as int,
                    (#[trigger] order@[p]) as int,
                ) by {
                    lemma_shown_first(views, names, k as int, i as int, order@[p] as int);
                }
                high = mid;
            } else {
                assert(shown_first(views, names, i as int, k as int));
                assert forall|p: int| 0 <= p < mid + 1 implies shown_first(
                    views,
                    names,
                    (#[trigger] order@[p]) as int,
                    k as int,
                ) by {
                    lemma_shown_first(views, names, order@[p] as int, i as int, k as int);
                }
                low = mid + 1;
            }
        }
        let ghost was = order@;
        order.insert(low, k);
        proof {
            assert(order@[low as int] == k);
            assert forall|i: usize| 0 <= i < k + 1 implies #[trigger] order@.contains(i) by {
                if i < k {
                    assert(was.contains(i));
                    let p = choose|p: int| 0 <= p < was.len() && was[p] == i;
                    assert(order@[if p < low {
                        p
                    } else {
                        p + 1
                    }] == i);
                }
            }
        }
        k = k + 1;
    }
    proof {
        let ints = order@.map_values(|i: usize| i as int);
        assert forall|i: int| 0 <= i < views.len() implies #[trigger] ints.contains(i) by {
            assert(order@.contains(i as usize));
            let p = choose|p: int| 0 <= p < order@.len() && order@[p] == i as usize;
            assert(ints[p] == i);
        }
    }
    order
}

/// `shown` holds the nodes of `nodes` in the order in which a directory is shown,
/// names being told apart by `folded`.
pub open spec fn is_listing(
    nodes: Seq<NodeView>,
    folded: Seq<Seq<char>>,
    shown: Seq<NodeView>,
) -> bool {
    exists|order: Seq<int>|
        #![trigger is_listing_order(nodes, folded, order)]
        is_listing_order(nodes, folded, order) && shown == order.map_values(|i: int| nodes[i])
}

/// Folders are shown before files.
pub proof fn law_folders_first(
    nodes: Seq<NodeView>,
    folded: Seq<Seq<char>>,
    shown: Seq<NodeView>,
    p: int,
    q: int,
)
    requires
        is_listing(nodes, folded, shown),
        0 <= p < q < shown.len(),
        shown[q].is_dir,
    ensures
        shown[p].is_dir,
{
    let order = choose|order: Seq<int>|
        #![trigger is_listing_order(nodes, folded, order)]
        is_listing_order(nodes, folded, order) && shown == order.map_values(|i: int| nodes[i]);
    assert(shown_first(nodes, folded, order[p], order[q]));
}

/// The names of `nodes` in lower case.
pub open spec fn folded_names(nodes: Seq<NodeView>) -> Seq<Seq<char>> {
    nodes.map_values(|node: NodeView| super::lowercase(node.name))
}

/// One level of a directory listing, as the folder browser shows it.
pub fn sort_nodes(nodes: Vec<RemoteNode>) -> (shown: Vec<RemoteNode>)
    ensures
        is_listing(super::node_views(nodes@), folded_names(super::node_views(nodes@)), super::node_views(shown@)),
{
    let n: usize = nodes.len();
    let ghost views = super::node_views(nodes@);
    let mut folded: Vec<String> = Vec::new();
    while folded.len() < n
        invariant
            n == nodes@.len(),
            views == super::node_views(nodes@),
            folded@.len() <= n,
            forall|i: int|
                0 <= i < folded@.len() ==> (#[trigger] folded@[i])@ == super::lowercase(views[i].name),
        decreases n - folded@.len(),
    {
        let name = to_lowercase(nodes[folded.len()].name.as_str());
        folded.push(name);
    }
    let order = listing_order(&nodes, &folded);
    let ghost ints = order@.map_values(|i: usize| i as int);
    proof {
        assert forall|p: int| 0 <= p < n implies 0 <= #[trigger] order@[p] < n by {
            assert(ints[p] == order@[p]);
        }
    }
    let mut shown: Vec<RemoteNode> = Vec::new();
    while shown.len() < n
        invariant
            n == nodes@.len(),
            n == order@.len(),
            views == super::node_views(nodes@),
            forall|p: int| 0 <= p < n ==> 0 <= #[trigger] order@[p] < n,
            shown@.len() <= n,
            forall|p: int|
                0 <= p < shown@.len() ==> (#[trigger] shown@[p])@ == views[order@[p] as int],
        decreases n - shown@.len(),
    {
        let node = nodes[order[shown.len()]].clone();
        shown.push(node);
    }
    proof {
        assert(text::views(folded@) =~= folded_names(views));
        assert(super::node_views(shown@) =~= ints.map_values(|i: int| views[i]));
    }
    shown
}

/// The order of names is that of a dictionary: the first characters that differ decide, and a name
/// stands before every longer one that begins with it.
pub proof fn law_dictionary_order(
    same: Seq<char>,
    x: char,
    a: Seq<char>,
    y: char,
    b: Seq<char>,
)
    ensures
        x != y ==> (precedes(same + seq![x] + a, same + seq![y] + b) <==> (x as int) < y as int),
        precedes(same, same + seq![x] + a),
        !precedes(same + seq![x] + a, same),
        !precedes(same, same),
    decreases same.len(),
{
    let p = same + seq![x] + a;
    let q = same + seq![y] + b;
    if same.len() > 0 {
        let less = same.skip(1);
        law_dictionary_order(less, x, a, y, b);
        assert(p.skip(1) =~= less + seq![x] + a);
        assert(q.skip(1) =~= less + seq![y] + b);
        assert(p[0] == same[0] && q[0] == same[0]);
    } else {
        assert(p[0] == x && q[0] == y);
    }
}

/// What is shown of a directory are its nodes, each once: folders before files, and among either
/// by their names in lower case, in the order of a dictionary, where nodes whose names are then
/// the same stay in the order they came in.
pub proof fn law_directory_is_shown(nodes: Seq<NodeView>, shown: Seq<NodeView>) -> (order: Seq<
    int,
>)
    requires
        is_listing(nodes, folded_names(nodes), shown),
    ensures
        shown.len() == nodes.len(),
        order.len() == nodes.len(),
        order.no_duplicates(),
        forall|i: int| 0 <= i < nodes.len() ==> #[trigger] order.contains(i),
        forall|p: int|
            0 <= p < shown.len() ==> 0 <= #[trigger] order[p] < nodes.len() && shown[p]
                == nodes[order[p]],
        forall|p: int, q: int|
            #![trigger shown[p], shown[q]]
            0 <= p < q < shown.len() ==> {
                &&& shown[q].is_dir ==> shown[p].is_dir
                &&& shown[p].is_dir == shown[q].is_dir ==> !precedes(
                    super::lowercase(shown[q].name),
                    super::lowercase(shown[p].name),
                )
                &&& shown[p].is_dir == shown[q].is_dir && super::lowercase(shown[p].name)
                    == super::lowercase(shown[q].name) ==> order[p] < order[q]
            },
{
    let folded = folded_names(nodes);
    let order = choose|order: Seq<int>|
        #![trigger is_listing_order(nodes, folded, order)]
        is_listing_order(nodes, folded, order) && shown == order.map_values(|i: int| nodes[i]);
    assert(order.no_duplicates()) by {
        assert forall|p: int, q: int|
            0 <= p < order.len() && 0 <= q < order.len() && p != q implies order[p]
            != order[q] by {
            lemma_shown_first(nodes, folded, order[p], order[p], order[p]);
            if p < q {
                assert(shown_first(nodes, folded, order[p], order[q]));
            } else {
                assert(shown_first(nodes, folded, order[q], order[p]));
            }
        }
    }
    assert forall|p: int, q: int|
        #![trigger shown[p], shown[q]]
        0 <= p < q < shown.len() implies {
        &&& shown[q].is_dir ==> shown[p].is_dir
        &&& shown[p].is_dir == shown[q].is_dir ==> !precedes(
            super::lowercase(shown[q].name),
            super::lowercase(shown[p].name),
        )
        &&& shown[p].is_dir == shown[q].is_dir && super::lowercase(shown[p].name)
            == super::lowercase(shown[q].name) ==> order[p] < order[q]
    } by {
        assert(shown_first(nodes, folded, order[p], order[q]));
        assert(folded[order[p]] == super::lowercase(shown[p].name));
        assert(folded[order[q]] == super::lowercase(shown[q].name));
        lemma_precedes_total(folded[order[p]], folded[order[q]]);
    }
    order
}

} // verus!
