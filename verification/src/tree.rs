//! Dependencies between the objects of a model, held in a directed graph of
//! `petgraph`: an edge runs from an object to each object that uses it as a
//! data type.

use vstd::prelude::*;
use petgraph::graph::{DiGraph, NodeIndex};
use crate::attribute::AttributeView;
use crate::datamodel::DataModel;
use crate::object::{self, Object, ObjectView};
use crate::text;

verus! {

#[verifier::external_type_specification]
#[verifier::external_body]
#[verifier::reject_recursive_types(N)]
#[verifier::reject_recursive_types(E)]
#[verifier::reject_recursive_types(Ty)]
#[verifier::reject_recursive_types(Ix)]
pub struct ExGraph<N, E, Ty, Ix>(petgraph::graph::Graph<N, E, Ty, Ix>);

#[verifier::external_type_specification]
#[verifier::external_body]
#[verifier::reject_recursive_types(Ix)]
pub struct ExNodeIndex<Ix>(petgraph::graph::NodeIndex<Ix>);

#[verifier::external_type_specification]
#[verifier::external_body]
pub struct ExDirected(petgraph::Directed);

/// The objects that the nodes of a graph hold, in the order of their
/// indices.
pub uninterp spec fn graph_nodes(g: DiGraph<Object, ()>) -> Seq<Object>;

/// The edges of a graph, as pairs of node positions, in the order they
/// were added.
pub uninterp spec fn graph_edges(g: DiGraph<Object, ()>) -> Seq<(int, int)>;

/// The position of a node index.
pub uninterp spec fn node_position(n: NodeIndex) -> int;

/// `DiGraph::new`: a graph without nodes or edges.
#[verifier::external_body]
fn new_graph() -> (g: DiGraph<Object, ()>)
    ensures
        graph_nodes(g) == Seq::<Object>::empty(),
        graph_edges(g) == Seq::<(int, int)>::empty(),
{
    DiGraph::new()
}

/// `Graph::add_node`: the object is added as the last node, whose index is
/// returned; the edges are kept. It panics when the node count reaches the
/// largest `u32`, which `requires` leaves out.
#[verifier::external_body]
fn add_node(g: &mut DiGraph<Object, ()>, o: Object) -> (n: NodeIndex)
    requires
        graph_nodes(*old(g)).len() < u32::MAX,
    ensures
        graph_nodes(*final(g)) == graph_nodes(*old(g)).push(o),
        graph_edges(*final(g)) == graph_edges(*old(g)),
        node_position(n) == graph_nodes(*old(g)).len(),
{
    g.add_node(o)
}

/// `Graph::add_edge`: the edge from `a` to `b` is added last; the nodes are
/// kept. It panics for nodes that do not exist and when the edge count
/// reaches the largest `u32`, which `requires` leaves out.
#[verifier::external_body]
fn add_edge(g: &mut DiGraph<Object, ()>, a: NodeIndex, b: NodeIndex)
    requires
        0 <= node_position(a) < graph_nodes(*old(g)).len(),
        0 <= node_position(b) < graph_nodes(*old(g)).len(),
        graph_edges(*old(g)).len() < u32::MAX,
    ensures
        graph_nodes(*final(g)) == graph_nodes(*old(g)),
        graph_edges(*final(g)) == graph_edges(*old(g)).push((node_position(a), node_position(b))),
{
    g.add_edge(a, b, ());
}

/// `NodeIndex::new`: the index of the node at position `i`.
#[verifier::external_body]
fn node_index(i: usize) -> (n: NodeIndex)
    requires
        i < u32::MAX,
    ensures
        node_position(n) == i,
{
    NodeIndex::new(i)
}

/// The node count of a graph (`Graph::node_count`).
#[verifier::external_body]
fn node_count(g: &DiGraph<Object, ()>) -> (r: usize)
    ensures
        r == graph_nodes(*g).len(),
{
    g.node_count()
}

/// The object held by the node `n` (indexing a graph by a node index).
#[verifier::external_body]
fn node_object(g: &DiGraph<Object, ()>, n: NodeIndex) -> (r: &Object)
    requires
        0 <= node_position(n) < graph_nodes(*g).len(),
    ensures
        *r == graph_nodes(*g)[node_position(n)],
{
    &g[n]
}

/// The targets of the edges from position `a`, in the order the edges were
/// added.
pub open spec fn targets(edges: Seq<(int, int)>, a: int) -> Seq<int>
    decreases edges.len(),
{
    if edges.len() == 0 {
        Seq::empty()
    } else if edges.last().0 == a {
        targets(edges.drop_last(), a).push(edges.last().1)
    } else {
        targets(edges.drop_last(), a)
    }
}

/// `Graph::neighbors_directed` with `Outgoing`: the targets of the edges
/// from `n`, the most recently added edge's target first, as petgraph
/// documents for directed graphs; each is a node of the graph, since
/// `add_edge` refuses nodes that do not exist.
#[verifier::external_body]
fn outgoing(g: &DiGraph<Object, ()>, n: NodeIndex) -> (r: Vec<NodeIndex>)
    ensures
        r@.map_values(|m: NodeIndex| node_position(m)) == targets(graph_edges(*g), node_position(n)).reverse(),
        forall|i: int| 0 <= i < r@.len() ==> 0 <= #[trigger] node_position(r@[i]) < graph_nodes(*g).len(),
{
    g.neighbors_directed(n, petgraph::Direction::Outgoing).collect()
}

// ---------------------------------------------------------------------------
// The dependency graph
// ---------------------------------------------------------------------------

/// The names of the objects, in order.
pub open spec fn names_of(objs: Seq<ObjectView>) -> Seq<Seq<char>> {
    objs.map_values(|o: ObjectView| o.name)
}

/// The position of the last object named `name`, if any.
pub open spec fn last_named(objs: Seq<ObjectView>, name: Seq<char>) -> Option<int>
    decreases objs.len(),
{
    if objs.len() == 0 {
        None
    } else if objs.last().name == name {
        Some(objs.len() - 1)
    } else {
        last_named(objs.drop_last(), name)
    }
}

/// The data types among `ds` that name objects, in order.
pub open spec fn object_types(ds: Seq<Seq<char>>, names: Seq<Seq<char>>) -> Seq<Seq<char>>
    decreases ds.len(),
{
    if ds.len() == 0 {
        Seq::empty()
    } else if names.contains(ds.last()) {
        object_types(ds.drop_last(), names).push(ds.last())
    } else {
        object_types(ds.drop_last(), names)
    }
}

/// The data types of the attributes that name objects, attribute by
/// attribute.
pub open spec fn attribute_deps(attrs: Seq<AttributeView>, names: Seq<Seq<char>>) -> Seq<Seq<char>>
    decreases attrs.len(),
{
    if attrs.len() == 0 {
        Seq::empty()
    } else {
        attribute_deps(attrs.drop_last(), names) + object_types(attrs.last().dtypes, names)
    }
}

/// The edges into object `k`: one from the last object of each name among
/// its dependencies.
pub open spec fn edges_into(objs: Seq<ObjectView>, deps: Seq<Seq<char>>, k: int) -> Seq<(int, int)> {
    deps.map_values(|d: Seq<char>| (last_named(objs, d)->Some_0, k))
}

/// The model is small enough for its dependency graph: its objects and
/// their dependencies can be numbered with `u32`s.
pub open spec fn graph_fits(model: DataModel) -> bool {
    &&& model.objects@.len() < u32::MAX
    &&& dependency_edges(object::objects_view(model.objects@), model.objects@.len() as int).len() < u32::MAX
}

/// The edges of the dependency graph, for the first `k` objects: each
/// object that is the last of its name gets an edge from (the last object
/// of) every object it uses.
pub open spec fn dependency_edges(objs: Seq<ObjectView>, k: int) -> Seq<(int, int)>
    decreases k,
{
    if k <= 0 {
        Seq::empty()
    } else if last_named(objs, objs[k - 1].name) == Some(k - 1) {
        dependency_edges(objs, k - 1) + edges_into(
            objs,
            attribute_deps(objs[k - 1].attributes, names_of(objs)),
            k - 1,
        )
    } else {
        dependency_edges(objs, k - 1)
    }
}

/// The objects have distinct names, and none reaches itself through the
/// objects it uses.
pub open spec fn plain_model(objs: Seq<ObjectView>) -> bool {
    names_of(objs).no_duplicates() && acyclic(dependency_edges(objs, objs.len() as int))
}

/// No object uses the name `r`.
pub open spec fn used_by_none(objs: Seq<ObjectView>, r: Seq<char>) -> bool {
    forall|k: int| 0 <= k < objs.len() ==> !#[trigger] attribute_deps(objs[k].attributes, names_of(objs)).contains(r)
}

/// `last_named` gives the last object of the name.
pub(crate) proof fn lemma_last_named(objs: Seq<ObjectView>, name: Seq<char>)
    ensures
        match last_named(objs, name) {
            Some(i) => 0 <= i < objs.len() && objs[i].name == name && forall|k: int|
                i < k < objs.len() ==> (#[trigger] objs[k]).name != name,
            None => forall|k: int| 0 <= k < objs.len() ==> (#[trigger] objs[k]).name != name,
        },
    decreases objs.len(),
{
    if objs.len() > 0 && objs.last().name != name {
        lemma_last_named(objs.drop_last(), name);
        assert forall|k: int| 0 <= k < objs.len() - 1 implies objs[k] == objs.drop_last()[k] by {}
    }
}

/// The position of the last object named `name`.
fn last_index_named(objects: &Vec<Object>, name: &str) -> (r: Option<usize>)
    ensures
        match r {
            Some(i) => last_named(object::objects_view(objects@), name@) == Some(i as int),
            None => last_named(object::objects_view(objects@), name@) is None,
        },
{
    let ghost objs = object::objects_view(objects@);
    proof {
        lemma_last_named(objs, name@);
    }
    let mut j: usize = objects.len();
    while j > 0
        invariant
            j <= objects@.len(),
            objs == object::objects_view(objects@),
            forall|k: int| j <= k < objs.len() ==> (#[trigger] objs[k]).name != name@,
        decreases j,
    {
        if text::str_eq(objects[j - 1].name.as_str(), name) {
            assert(objs[j - 1].name == name@);
            proof {
                lemma_last_named(objs, name@);
            }
            return Some(j - 1);
        }
        j = j - 1;
    }
    proof {
        lemma_last_named(objs, name@);
    }
    None
}

/// The names of the objects.
fn object_names(objects: &Vec<Object>) -> (r: Vec<String>)
    ensures
        text::strings_view(r@) == names_of(object::objects_view(objects@)),
{
    let mut r: Vec<String> = Vec::new();
    let mut i: usize = 0;
    while i < objects.len()
        invariant
            i <= objects@.len(),
            text::strings_view(r@) == names_of(object::objects_view(objects@)).take(i as int),
        decreases objects.len() - i,
    {
        let ghost before = text::strings_view(r@);
        let nm = objects[i].name.clone();
        r.push(nm);
        assert(text::strings_view(r@) =~= before.push(nm@));
        assert(object::objects_view(objects@)[i as int].name == nm@);
        assert(names_of(object::objects_view(objects@)).take(i + 1) =~= names_of(
            object::objects_view(objects@),
        ).take(i as int).push(nm@));
        i = i + 1;
    }
    assert(names_of(object::objects_view(objects@)).take(i as int) =~= names_of(
        object::objects_view(objects@),
    ));
    r
}

/// The dependency graph of a model: a node for each object, in order, and
/// an edge from an object to each object that uses it (see
/// [`dependency_edges`]).
pub fn dependency_graph(model: &DataModel) -> (g: DiGraph<Object, ()>)
    requires
        model.objects@.len() < u32::MAX,
        dependency_edges(object::objects_view(model.objects@), model.objects@.len() as int).len()
            < u32::MAX,
    ensures
        object::objects_view(graph_nodes(g)) == object::objects_view(model.objects@),
        graph_edges(g) == dependency_edges(
            object::objects_view(model.objects@),
            model.objects@.len() as int,
        ),
{
    let ghost objs = object::objects_view(model.objects@);
    let n = model.objects.len();
    let mut g = new_graph();
    let mut i: usize = 0;
    while i < n
        invariant
            n == model.objects@.len(),
            i <= n,
            n < u32::MAX,
            objs == object::objects_view(model.objects@),
            object::objects_view(graph_nodes(g)) == objs.take(i as int),
            graph_nodes(g).len() == i,
            graph_edges(g) == Seq::<(int, int)>::empty(),
        decreases n - i,
    {
        let o = crate::markdown::parser::copy_object(&model.objects[i]);
        let ghost before = graph_nodes(g);
        add_node(&mut g, o);
        assert(object::objects_view(graph_nodes(g)) =~= objs.take(i + 1)) by {
            assert(object::objects_view(graph_nodes(g)) =~= object::objects_view(before).push(o@));
        }
        i = i + 1;
    }
    assert(objs.take(n as int) =~= objs);
    let names = object_names(&model.objects);
    let mut k: usize = 0;
    while k < n
        invariant
            n == model.objects@.len(),
            k <= n,
            n < u32::MAX,
            objs == object::objects_view(model.objects@),
            text::strings_view(names@) == names_of(objs),
            object::objects_view(graph_nodes(g)) == objs,
            graph_nodes(g).len() == n,
            graph_edges(g) == dependency_edges(objs, k as int),
            dependency_edges(objs, n as int).len() < u32::MAX,
        decreases n - k,
    {
        proof {
            lemma_edges_grow(objs, k as int + 1, n as int);
        }
        let obj = &model.objects[k];
        assert(objs[k as int] == obj@);
        let last = last_index_named(&model.objects, obj.name.as_str());
        if last == Some(k) {
            let ghost full = attribute_deps(obj@.attributes, names_of(objs));
            let mut a: usize = 0;
            assert(obj@.attributes.take(0) =~= Seq::<AttributeView>::empty());
            while a < obj.attributes.len()
                invariant
                    n == model.objects@.len(),
                    k < n,
                    n < u32::MAX,
                    objs == object::objects_view(model.objects@),
                    objs[k as int] == obj@,
                    text::strings_view(names@) == names_of(objs),
                    object::objects_view(graph_nodes(g)) == objs,
                    graph_nodes(g).len() == n,
                    a <= obj.attributes@.len(),
                    full == attribute_deps(obj@.attributes, names_of(objs)),
                    graph_edges(g) == dependency_edges(objs, k as int) + edges_into(
                        objs,
                        attribute_deps(obj@.attributes.take(a as int), names_of(objs)),
                        k as int,
                    ),
                    (dependency_edges(objs, k as int) + edges_into(objs, full, k as int)).len() < u32::MAX,
                decreases obj.attributes.len() - a,
            {
                let attr = &obj.attributes[a];
                assert(obj@.attributes[a as int] == attr@);
                let ghost base = attribute_deps(obj@.attributes.take(a as int), names_of(objs));
                proof {
                    lemma_deps_prefix(obj@.attributes, names_of(objs), a as int + 1);
                    assert(obj@.attributes.take(a + 1).drop_last() =~= obj@.attributes.take(a as int));
                    assert(obj@.attributes.take(a + 1).last() == attr@);
                }
                let mut t: usize = 0;
                assert(attr@.dtypes.take(0) =~= Seq::<Seq<char>>::empty());
                assert(base + object_types(attr@.dtypes.take(0), names_of(objs)) =~= base);
                while t < attr.dtypes.len()
                    invariant
                        n == model.objects@.len(),
                        k < n,
                        n < u32::MAX,
                        objs == object::objects_view(model.objects@),
                        text::strings_view(names@) == names_of(objs),
                        object::objects_view(graph_nodes(g)) == objs,
                        graph_nodes(g).len() == n,
                        t <= attr.dtypes@.len(),
                        attr@.dtypes.len() == attr.dtypes@.len(),
                        graph_edges(g) == dependency_edges(objs, k as int) + edges_into(
                            objs,
                            base + object_types(attr@.dtypes.take(t as int), names_of(objs)),
                            k as int,
                        ),
                        (base + object_types(attr@.dtypes, names_of(objs))).len() <= full.len(),
                        (dependency_edges(objs, k as int) + edges_into(objs, full, k as int)).len() < u32::MAX,
                    decreases attr.dtypes.len() - t,
                {
                    let d = &attr.dtypes[t];
                    assert(attr@.dtypes[t as int] == d@);
                    assert(attr@.dtypes.take(t + 1).drop_last() =~= attr@.dtypes.take(t as int));
                    assert(attr@.dtypes.take(t + 1).last() == d@);
                    proof {
                        lemma_types_prefix(attr@.dtypes, names_of(objs), t as int + 1);
                    }
                    if crate::validation::contains_string(&names, d) {
                        let src = last_index_named(&model.objects, d.as_str());
                        match src {
                            Some(s) => {
                                proof {
                                    lemma_last_named(objs, d@);
                                }
                                let ghost before = graph_edges(g);
                                let ghost deps = base + object_types(attr@.dtypes.take(t as int), names_of(objs));
                                add_edge(&mut g, node_index(s), node_index(k));
                                assert(object_types(attr@.dtypes.take(t + 1), names_of(objs)) == object_types(attr@.dtypes.take(t as int), names_of(objs)).push(d@));
                                assert(edges_into(objs, deps.push(d@), k as int) =~= edges_into(objs, deps, k as int).push((s as int, k as int)));
                                assert(base + object_types(attr@.dtypes.take(t + 1), names_of(objs)) =~= deps.push(d@));
                            },
                            None => {
                                proof {
                                    lemma_last_named(objs, d@);
                                    let x = choose|x: int| 0 <= x < names_of(objs).len() && names_of(objs)[x] == d@;
                                    assert(objs[x].name == d@);
                                }
                            },
                        }
                    } else {
                        assert(object_types(attr@.dtypes.take(t + 1), names_of(objs)) == object_types(attr@.dtypes.take(t as int), names_of(objs)));
                    }
                    t = t + 1;
                }
                assert(attr@.dtypes.take(t as int) =~= attr@.dtypes);
                assert(obj@.attributes.take(a + 1).drop_last() =~= obj@.attributes.take(a as int));
                assert(obj@.attributes.take(a + 1).last() == attr@);
                assert(attribute_deps(obj@.attributes.take(a + 1), names_of(objs)) == base + object_types(attr@.dtypes, names_of(objs)));
                a = a + 1;
            }
            assert(obj@.attributes.take(a as int) =~= obj@.attributes);
        }
        k = k + 1;
    }
    g
}

/// The edges of a prefix of objects are no more than those of a longer one.
proof fn lemma_edges_grow(objs: Seq<ObjectView>, k: int, n: int)
    requires
        0 <= k <= n,
    ensures
        dependency_edges(objs, k).len() <= dependency_edges(objs, n).len(),
    decreases n - k,
{
    if k < n {
        lemma_edges_grow(objs, k + 1, n);
    }
}

/// The dependencies of a prefix of attributes are no more than those of all.
proof fn lemma_deps_prefix(attrs: Seq<AttributeView>, names: Seq<Seq<char>>, a: int)
    requires
        0 <= a <= attrs.len(),
    ensures
        attribute_deps(attrs.take(a), names).len() <= attribute_deps(attrs, names).len(),
    decreases attrs.len() - a,
{
    if a < attrs.len() {
        lemma_deps_prefix(attrs, names, a + 1);
        assert(attrs.take(a + 1).drop_last() =~= attrs.take(a));
    } else {
        assert(attrs.take(a) =~= attrs);
    }
}

/// The object types of a prefix are no more than those of all.
proof fn lemma_types_prefix(ds: Seq<Seq<char>>, names: Seq<Seq<char>>, t: int)
    requires
        0 <= t <= ds.len(),
    ensures
        object_types(ds.take(t), names).len() <= object_types(ds, names).len(),
    decreases ds.len() - t,
{
    if t < ds.len() {
        lemma_types_prefix(ds, names, t + 1);
        assert(ds.take(t + 1).drop_last() =~= ds.take(t));
    } else {
        assert(ds.take(t) =~= ds);
    }
}

// ---------------------------------------------------------------------------
// Topological order
// ---------------------------------------------------------------------------

/// The names of the objects of the nodes, in order.
pub open spec fn node_names(g: DiGraph<Object, ()>) -> Seq<Seq<char>> {
    graph_nodes(g).map_values(|o: Object| o.name@)
}

/// The state of a depth-first walk: names visited and names finished, each
/// once; every visited name is a node's and every finished one was visited.
pub open spec fn walk_ok(names: Seq<Seq<char>>, visited: Seq<Seq<char>>, stack: Seq<Seq<char>>) -> bool {
    &&& visited.no_duplicates()
    &&& stack.no_duplicates()
    &&& forall|x: Seq<char>| #[trigger] visited.contains(x) ==> names.contains(x)
    &&& forall|x: Seq<char>| #[trigger] stack.contains(x) ==> visited.contains(x)
}

/// `b` starts with `a`.
pub open spec fn extends(a: Seq<Seq<char>>, b: Seq<Seq<char>>) -> bool {
    a.len() <= b.len() && forall|i: int| 0 <= i < a.len() ==> #[trigger] b[i] == a[i]
}

proof fn lemma_extends_contains(a: Seq<Seq<char>>, b: Seq<Seq<char>>, x: Seq<char>)
    requires
        extends(a, b),
        a.contains(x),
    ensures
        b.contains(x),
{
    let i = choose|i: int| 0 <= i < a.len() && a[i] == x;
    assert(b[i] == x);
}

/// Distinct names that are all among `names` are no more than `names`.
proof fn lemma_distinct_bound(names: Seq<Seq<char>>, visited: Seq<Seq<char>>)
    requires
        visited.no_duplicates(),
        forall|x: Seq<char>| #[trigger] visited.contains(x) ==> names.contains(x),
    ensures
        visited.len() <= names.len(),
{
    broadcast use vstd::seq_lib::seq_to_set_is_finite;

    assert(visited.to_set().subset_of(names.to_set())) by {
        assert forall|x: Seq<char>| visited.to_set().contains(x) implies names.to_set().contains(x) by {
            assert(visited.contains(x));
        }
    }
    visited.unique_seq_to_set();
    vstd::set_lib::lemma_len_subset(visited.to_set(), names.to_set());
    names.lemma_cardinality_of_set();
}

/// There is an edge from position `a` to position `b`.
pub open spec fn has_edge(edges: Seq<(int, int)>, a: int, b: int) -> bool {
    edges.contains((a, b))
}

/// `p` is a path along the edges: each position is followed by one it has
/// an edge to.
pub open spec fn is_path(edges: Seq<(int, int)>, p: Seq<int>) -> bool {
    forall|i: int| 0 <= i < p.len() - 1 ==> #[trigger] has_edge(edges, p[i], p[i + 1])
}

/// Position `a` reaches position `b` along one edge or more.
pub open spec fn reaches(edges: Seq<(int, int)>, a: int, b: int) -> bool {
    exists|p: Seq<int>| p.len() >= 2 && p[0] == a && p.last() == b && #[trigger] is_path(edges, p)
}

/// No position reaches itself.
pub open spec fn acyclic(edges: Seq<(int, int)>) -> bool {
    forall|a: int| !#[trigger] reaches(edges, a, a)
}

/// The graph has no cycle and no two nodes share a name.
pub open spec fn plain_graph(g: DiGraph<Object, ()>) -> bool {
    node_names(g).no_duplicates() && acyclic(graph_edges(g))
}

/// The position of the node named `x`.
pub open spec fn name_position(g: DiGraph<Object, ()>, x: Seq<char>) -> int {
    choose|i: int| 0 <= i < node_names(g).len() && node_names(g)[i] == x
}

/// The edge joins two nodes of the graph.
pub open spec fn edge_in_graph(g: DiGraph<Object, ()>, e: (int, int)) -> bool {
    0 <= e.0 < graph_nodes(g).len() && 0 <= e.1 < graph_nodes(g).len()
}

/// Each finished name comes after the names of the nodes that its node has
/// edges to.
pub open spec fn finished_after_targets(g: DiGraph<Object, ()>, stack: Seq<Seq<char>>) -> bool {
    forall|i: int, k: int|
        0 <= i < stack.len() && 0 <= k < graph_edges(g).len() && edge_in_graph(g, graph_edges(g)[k])
            && node_names(g)[graph_edges(g)[k].0] == #[trigger] stack[i] ==> stack.take(i).contains(
            node_names(g)[#[trigger] graph_edges(g)[k].1],
        )
}

/// Every name visited but not finished is that of a node that reaches `n`.
pub open spec fn open_names_reach(
    g: DiGraph<Object, ()>,
    visited: Seq<Seq<char>>,
    stack: Seq<Seq<char>>,
    n: int,
) -> bool {
    forall|x: Seq<char>|
        #[trigger] visited.contains(x) && !stack.contains(x) ==> reaches(graph_edges(g), name_position(g, x), n)
}

/// With distinct names, the node named as the node at `i` is at `i`.
proof fn lemma_name_position(g: DiGraph<Object, ()>, i: int)
    requires
        node_names(g).no_duplicates(),
        0 <= i < node_names(g).len(),
    ensures
        name_position(g, node_names(g)[i]) == i,
{
    let x = node_names(g)[i];
    assert(node_names(g)[i] == x);
    let j = name_position(g, x);
    assert(0 <= j < node_names(g).len() && node_names(g)[j] == x);
}

/// The targets of the edges from `a` are the positions it has an edge to.
proof fn lemma_targets(edges: Seq<(int, int)>, a: int)
    ensures
        forall|t: int| #[trigger] targets(edges, a).contains(t) <==> edges.contains((a, t)),
    decreases edges.len(),
{
    if edges.len() > 0 {
        let p = edges.drop_last();
        let tp = targets(p, a);
        let te = targets(edges, a);
        lemma_targets(p, a);
        assert forall|t: int| #[trigger] te.contains(t) implies edges.contains((a, t)) by {
            let j = choose|j: int| 0 <= j < te.len() && te[j] == t;
            if edges.last().0 == a && j == tp.len() {
                assert(edges[edges.len() - 1] == (a, t));
            } else {
                assert(tp[j] == t);
                assert(tp.contains(t));
                let k = choose|k: int| 0 <= k < p.len() && p[k] == (a, t);
                assert(edges[k] == (a, t));
            }
        }
        assert forall|t: int| edges.contains((a, t)) implies #[trigger] te.contains(t) by {
            let k = choose|k: int| 0 <= k < edges.len() && edges[k] == (a, t);
            if k < p.len() {
                assert(p[k] == (a, t));
                assert(p.contains((a, t)));
                assert(tp.contains(t));
                let j = choose|j: int| 0 <= j < tp.len() && tp[j] == t;
                if edges.last().0 == a {
                    assert(te[j] == t);
                } else {
                    assert(te == tp);
                }
            } else {
                assert(edges.last() == (a, t));
                assert(te[tp.len() as int] == t);
            }
        }
    }
}

/// A path to `b` followed by an edge from `b` to `c` reaches `c`.
proof fn lemma_reaches_step(edges: Seq<(int, int)>, a: int, b: int, c: int)
    requires
        reaches(edges, a, b),
        has_edge(edges, b, c),
    ensures
        reaches(edges, a, c),
{
    let p = choose|p: Seq<int>| p.len() >= 2 && p[0] == a && p.last() == b && #[trigger] is_path(edges, p);
    let q = p.push(c);
    assert forall|i: int| 0 <= i < q.len() - 1 implies #[trigger] has_edge(edges, q[i], q[i + 1]) by {
        if i < p.len() - 1 {
            assert(q[i] == p[i] && q[i + 1] == p[i + 1]);
            assert(has_edge(edges, p[i], p[i + 1]));
        } else {
            assert(q[i] == b && q[i + 1] == c);
        }
    }
    assert(is_path(edges, q));
}

/// An edge is a path of one step.
proof fn lemma_reaches_edge(edges: Seq<(int, int)>, a: int, b: int)
    requires
        has_edge(edges, a, b),
    ensures
        reaches(edges, a, b),
{
    let q = seq![a, b];
    assert forall|i: int| 0 <= i < q.len() - 1 implies #[trigger] has_edge(edges, q[i], q[i + 1]) by {
        assert(i == 0);
    }
    assert(is_path(edges, q));
}

/// Visits the node `n` depth first: unless its name was visited already,
/// its name is marked visited, the nodes its edges lead to are visited,
/// most recent edge first, and then its name is finished. The names
/// finished in the call are those visited in it.
fn visit(g: &DiGraph<Object, ()>, n: NodeIndex, visited: &mut Vec<String>, stack: &mut Vec<String>)
    requires
        0 <= node_position(n) < graph_nodes(*g).len(),
        walk_ok(node_names(*g), text::strings_view(old(visited)@), text::strings_view(old(stack)@)),
        plain_graph(*g) ==> open_names_reach(
            *g,
            text::strings_view(old(visited)@),
            text::strings_view(old(stack)@),
            node_position(n),
        ),
        plain_graph(*g) ==> finished_after_targets(*g, text::strings_view(old(stack)@)),
    ensures
        walk_ok(node_names(*g), text::strings_view(final(visited)@), text::strings_view(final(stack)@)),
        plain_graph(*g) ==> text::strings_view(final(stack)@).contains(node_names(*g)[node_position(n)]),
        plain_graph(*g) ==> finished_after_targets(*g, text::strings_view(final(stack)@)),
        extends(text::strings_view(old(visited)@), text::strings_view(final(visited)@)),
        extends(text::strings_view(old(stack)@), text::strings_view(final(stack)@)),
        text::strings_view(final(visited)@).contains(node_names(*g)[node_position(n)]),
        forall|x: Seq<char>|
            (#[trigger] text::strings_view(final(stack)@).contains(x) && !text::strings_view(old(stack)@).contains(x))
                <==> (text::strings_view(final(visited)@).contains(x) && !text::strings_view(old(visited)@).contains(x)),
    decreases node_names(*g).len() - old(visited)@.len(),
{
    let ghost names = node_names(*g);
    let ghost v0 = text::strings_view(visited@);
    let ghost s0 = text::strings_view(stack@);
    let name = node_object(g, n).name.clone();
    assert(names[node_position(n)] == name@);
    if crate::validation::contains_string(visited, &name) {
        proof {
            if plain_graph(*g) && !s0.contains(name@) {
                lemma_name_position(*g, node_position(n));
                assert(reaches(graph_edges(*g), node_position(n), node_position(n)));
            }
        }
        return;
    }
    visited.push(name.clone());
    let ghost v1 = text::strings_view(visited@);
    assert(v1 =~= v0.push(name@));
    assert(walk_ok(names, v1, s0)) by {
        assert(names.len() == graph_nodes(*g).len());
        assert forall|x: Seq<char>| #[trigger] v1.contains(x) implies names.contains(x) by {
            if x != name@ {
                let i = choose|i: int| 0 <= i < v1.len() && v1[i] == x;
                assert(v0[i] == x);
                assert(v0.contains(x));
            } else {
                assert(names[node_position(n)] == x);
            }
        }
        assert forall|x: Seq<char>| #[trigger] s0.contains(x) implies v1.contains(x) by {
            assert(v0.contains(x));
            lemma_extends_contains(v0, v1, x);
        }
        assert(v1.no_duplicates()) by {
            assert forall|i: int, j: int| 0 <= i < j < v1.len() implies v1[i] != v1[j] by {
                if j == v0.len() {
                    assert(v0[i] == v1[i]);
                    assert(!v0.contains(name@));
                }
            }
        }
    }
    proof {
        lemma_distinct_bound(names, v1);
    }
    let next = outgoing(g, n);
    let mut i: usize = 0;
    while i < next.len()
        invariant
            0 <= node_position(n) < graph_nodes(*g).len(),
            names == node_names(*g),
            i <= next@.len(),
            forall|k: int| 0 <= k < next@.len() ==> 0 <= #[trigger] node_position(next@[k]) < graph_nodes(*g).len(),
            walk_ok(names, text::strings_view(visited@), text::strings_view(stack@)),
            extends(v1, text::strings_view(visited@)),
            extends(s0, text::strings_view(stack@)),
            v1 == v0.push(name@),
            names[node_position(n)] == name@,
            !v0.contains(name@),
            forall|x: Seq<char>| #[trigger] s0.contains(x) ==> v0.contains(x),
            forall|x: Seq<char>|
                (#[trigger] text::strings_view(stack@).contains(x) && !s0.contains(x)) <==> (
                text::strings_view(visited@).contains(x) && !v0.contains(x) && x != name@),
            visited@.len() <= names.len(),
            v0.len() == old(visited)@.len(),
            next@.map_values(|m: NodeIndex| node_position(m)) == targets(graph_edges(*g), node_position(n)).reverse(),
            plain_graph(*g) ==> open_names_reach(*g, v0, s0, node_position(n)),
            plain_graph(*g) ==> finished_after_targets(*g, text::strings_view(stack@)),
            plain_graph(*g) ==> forall|t: int|
                0 <= t < i ==> text::strings_view(stack@).contains(#[trigger] names[node_position(next@[t])]),
        decreases next.len() - i,
    {
        let ghost vb = text::strings_view(visited@);
        let ghost sb = text::strings_view(stack@);
        proof {
            if plain_graph(*g) {
                let edges = graph_edges(*g);
                let m = node_position(next@[i as int]);
                lemma_targets(edges, node_position(n));
                let ts = targets(edges, node_position(n));
                assert(next@.map_values(|q: NodeIndex| node_position(q)).len() == next@.len());
                assert(ts.reverse().len() == ts.len());
                assert(next@.map_values(|q: NodeIndex| node_position(q))[i as int] == m);
                assert(ts.reverse()[i as int] == m);
                assert(ts[ts.len() - 1 - i] == m);
                assert(ts.contains(m));
                assert(has_edge(edges, node_position(n), m));
                assert forall|x: Seq<char>| #[trigger] vb.contains(x) && !sb.contains(x) implies reaches(
                    edges,
                    name_position(*g, x),
                    m,
                ) by {
                    if x == name@ {
                        assert(node_names(*g)[node_position(n)] == x);
                        lemma_name_position(*g, node_position(n));
                        assert(name_position(*g, x) == node_position(n));
                        lemma_reaches_edge(edges, node_position(n), m);
                    } else {
                        assert(v0.contains(x));
                        if s0.contains(x) {
                            lemma_extends_contains(s0, sb, x);
                        }
                        assert(!s0.contains(x));
                        assert(open_names_reach(*g, v0, s0, node_position(n)));
                        assert(v0.contains(x) && !s0.contains(x));
                        assert(reaches(edges, name_position(*g, x), node_position(n)));
                        lemma_reaches_step(edges, name_position(*g, x), node_position(n), m);
                    }
                }
            }
        }
        visit(g, next[i], visited, stack);
        let ghost va = text::strings_view(visited@);
        let ghost sa = text::strings_view(stack@);
        proof {
            assert forall|k: int| 0 <= k < v1.len() implies #[trigger] va[k] == v1[k] by {
                assert(vb[k] == v1[k]);
            }
            assert forall|k: int| 0 <= k < s0.len() implies #[trigger] sa[k] == s0[k] by {
                assert(sb[k] == s0[k]);
            }
            assert(vb.contains(name@)) by {
                assert(v1[v0.len() as int] == name@);
                assert(vb[v0.len() as int] == name@);
            }
            assert forall|x: Seq<char>|
                (#[trigger] sa.contains(x) && !s0.contains(x)) <==> (va.contains(x) && !v0.contains(x) && x != name@) by {
                if v0.contains(x) {
                    assert(v0.push(name@).contains(x)) by {
                        let j = choose|j: int| 0 <= j < v0.len() && v0[j] == x;
                        assert(v0.push(name@)[j] == x);
                    }
                    lemma_extends_contains(v1, vb, x);
                }
                if sb.contains(x) {
                    lemma_extends_contains(sb, sa, x);
                }
                if vb.contains(x) {
                    lemma_extends_contains(vb, va, x);
                }
                if sa.contains(x) && !s0.contains(x) {
                    if sb.contains(x) {
                        assert(vb.contains(x) && !v0.contains(x) && x != name@);
                    } else {
                        assert(va.contains(x) && !vb.contains(x));
                    }
                }
                if va.contains(x) && !v0.contains(x) && x != name@ {
                    if vb.contains(x) {
                        assert(sb.contains(x) && !s0.contains(x));
                    } else {
                        assert(sa.contains(x) && !sb.contains(x));
                        if s0.contains(x) {
                            assert(v0.contains(x));
                        }
                    }
                }
            }
            lemma_distinct_bound(names, va);
            if plain_graph(*g) {
                assert forall|t: int| 0 <= t < i + 1 implies sa.contains(#[trigger] names[node_position(next@[t])]) by {
                    if t < i {
                        lemma_extends_contains(sb, sa, names[node_position(next@[t])]);
                    }
                }
            }
        }
        i = i + 1;
    }
    let ghost sb = text::strings_view(stack@);
    let ghost vb = text::strings_view(visited@);
    assert(!sb.contains(name@)) by {
        if sb.contains(name@) {
            if !s0.contains(name@) {
            } else {
                assert(v0.contains(name@));
            }
        }
    }
    stack.push(name);
    let ghost sa = text::strings_view(stack@);
    assert(sa =~= sb.push(name@));
    proof {
        if plain_graph(*g) {
            let edges = graph_edges(*g);
            lemma_targets(edges, node_position(n));
            let ts = targets(edges, node_position(n));
            assert(next@.map_values(|q: NodeIndex| node_position(q)).len() == next@.len());
            assert(ts.reverse().len() == ts.len());
            assert forall|p: int, k: int|
                0 <= p < sa.len() && 0 <= k < edges.len() && edge_in_graph(*g, edges[k])
                    && names[edges[k].0] == #[trigger] sa[p] implies sa.take(p).contains(
                names[#[trigger] edges[k].1],
            ) by {
                if p < sb.len() {
                    assert(sa.take(p) =~= sb.take(p));
                    assert(sb[p] == sa[p]);
                } else {
                    assert(sa.take(p) =~= sb);
                    lemma_name_position(*g, edges[k].0);
                    lemma_name_position(*g, node_position(n));
                    assert(edges[k].0 == node_position(n));
                    assert(edges.contains((node_position(n), edges[k].1)));
                    assert(ts.contains(edges[k].1));
                    let j = choose|j: int| 0 <= j < ts.len() && ts[j] == edges[k].1;
                    let t = ts.len() - 1 - j;
                    assert(ts.reverse()[t] == edges[k].1);
                    assert(next@.map_values(|q: NodeIndex| node_position(q))[t] == edges[k].1);
                    assert(node_position(next@[t]) == edges[k].1);
                    assert(sb.contains(names[node_position(next@[t])]));
                }
            }
        }
        assert(vb.contains(name@)) by {
            assert(v1[v0.len() as int] == name@);
            assert(vb[v0.len() as int] == name@);
        }
        assert(sa.no_duplicates()) by {
            assert forall|i: int, j: int| 0 <= i < j < sa.len() implies sa[i] != sa[j] by {
                if j == sb.len() {
                    assert(sb[i] == sa[i]);
                }
            }
        }
        assert forall|x: Seq<char>| #[trigger] sa.contains(x) implies vb.contains(x) by {
            if x != name@ {
                let i = choose|i: int| 0 <= i < sa.len() && sa[i] == x;
                assert(sb[i] == x);
                assert(sb.contains(x));
            }
        }
        assert forall|x: Seq<char>|
            (#[trigger] sa.contains(x) && !s0.contains(x)) <==> (vb.contains(x) && !v0.contains(x)) by {
            if sa.contains(x) && x != name@ {
                let i = choose|i: int| 0 <= i < sa.len() && sa[i] == x;
                assert(sb[i] == x);
            }
            if sb.contains(x) {
                lemma_extends_contains(sb, sa, x);
            }
            if x == name@ {
                assert(sa[sb.len() as int] == x);
            }
        }
        assert forall|k: int| 0 <= k < v0.len() implies #[trigger] vb[k] == v0[k] by {
            assert(v1[k] == v0[k]);
        }
        assert forall|k: int| 0 <= k < s0.len() implies #[trigger] sa[k] == s0[k] by {
            assert(sb[k] == s0[k]);
        }
    }
}

/// The name `x` comes before the name `y`.
pub open spec fn comes_before(s: Seq<Seq<char>>, x: Seq<char>, y: Seq<char>) -> bool {
    exists|i: int, j: int| 0 <= i < j < s.len() && #[trigger] s[i] == x && #[trigger] s[j] == y
}

/// The strings in reverse order.
fn reversed_strings(v: &Vec<String>) -> (r: Vec<String>)
    ensures
        text::strings_view(r@) == text::strings_view(v@).reverse(),
{
    let ghost sv = text::strings_view(v@);
    let mut r: Vec<String> = Vec::new();
    let mut i: usize = 0;
    while i < v.len()
        invariant
            i <= v@.len(),
            sv == text::strings_view(v@),
            text::strings_view(r@) == sv.reverse().take(i as int),
        decreases v.len() - i,
    {
        let ghost rb = text::strings_view(r@);
        let k = v.len() - 1 - i;
        assert(sv.reverse()[i as int] == sv[k as int]);
        let item = v[k].clone();
        assert(item@ == sv[k as int]);
        r.push(item);
        assert(text::strings_view(r@) =~= rb.push(sv[k as int]));
        assert(sv.reverse().take(i + 1) =~= sv.reverse().take(i as int).push(sv.reverse()[i as int]));
        i = i + 1;
    }
    assert(sv.reverse().take(i as int) =~= sv.reverse());
    r
}

/// The names of the objects of a graph, every name once: the reverse of
/// the order in which a depth-first walk, starting from each node in turn,
/// finishes them. Where the graph has no cycle and no two nodes share a
/// name, the name at the start of each edge comes before the name at its
/// end.
pub fn get_topological_order(g: &DiGraph<Object, ()>) -> (r: Vec<String>)
    requires
        graph_nodes(*g).len() < u32::MAX,
    ensures
        text::strings_view(r@).no_duplicates(),
        forall|x: Seq<char>| #[trigger] text::strings_view(r@).contains(x) <==> node_names(*g).contains(x),
        plain_graph(*g) ==> forall|k: int|
            0 <= k < graph_edges(*g).len() && edge_in_graph(*g, #[trigger] graph_edges(*g)[k]) ==> comes_before(
                text::strings_view(r@),
                node_names(*g)[graph_edges(*g)[k].0],
                node_names(*g)[graph_edges(*g)[k].1],
            ),
{
    let ghost names = node_names(*g);
    let mut visited: Vec<String> = Vec::new();
    let mut stack: Vec<String> = Vec::new();
    let count = node_count(g);
    let mut i: usize = 0;
    assert(text::strings_view(visited@) =~= Seq::<Seq<char>>::empty());
    assert(text::strings_view(stack@) =~= Seq::<Seq<char>>::empty());
    while i < count
        invariant
            count == graph_nodes(*g).len(),
            count < u32::MAX,
            names == node_names(*g),
            i <= count,
            walk_ok(names, text::strings_view(visited@), text::strings_view(stack@)),
            forall|x: Seq<char>| #[trigger] text::strings_view(stack@).contains(x) <==> text::strings_view(visited@).contains(x),
            forall|j: int| 0 <= j < i ==> text::strings_view(visited@).contains(#[trigger] names[j]),
            plain_graph(*g) ==> finished_after_targets(*g, text::strings_view(stack@)),
        decreases count - i,
    {
        let ghost vb = text::strings_view(visited@);
        let ghost sb = text::strings_view(stack@);
        let ni = node_index(i);
        assert(open_names_reach(*g, vb, sb, node_position(ni)));
        visit(g, ni, &mut visited, &mut stack);
        let ghost va = text::strings_view(visited@);
        let ghost sa = text::strings_view(stack@);
        proof {
            assert forall|j: int| 0 <= j < i + 1 implies va.contains(#[trigger] names[j]) by {
                if j < i {
                    lemma_extends_contains(vb, va, names[j]);
                }
            }
            assert forall|x: Seq<char>| #[trigger] sa.contains(x) <==> va.contains(x) by {
                if sb.contains(x) {
                    lemma_extends_contains(sb, sa, x);
                }
                if vb.contains(x) {
                    lemma_extends_contains(vb, va, x);
                }
            }
        }
        i = i + 1;
    }
    proof {
        assert forall|x: Seq<char>| names.contains(x) implies #[trigger] text::strings_view(stack@).contains(x) by {
            let j = choose|j: int| 0 <= j < names.len() && names[j] == x;
            assert(text::strings_view(visited@).contains(names[j]));
        }
        if plain_graph(*g) {
            let st = text::strings_view(stack@);
            let edges = graph_edges(*g);
            assert forall|k: int|
                0 <= k < edges.len() && edge_in_graph(*g, #[trigger] edges[k]) implies comes_before(
                st,
                names[edges[k].1],
                names[edges[k].0],
            ) by {
                assert(names.contains(names[edges[k].0]));
                assert(st.contains(names[edges[k].0]));
                let p = choose|p: int| 0 <= p < st.len() && st[p] == names[edges[k].0];
                assert(st.take(p).contains(names[edges[k].1]));
                let q = choose|q: int| 0 <= q < st.take(p).len() && st.take(p)[q] == names[edges[k].1];
                assert(st[q] == names[edges[k].1]);
            }
        }
    }
    let r = reversed_strings(&stack);
    proof {
        let st = text::strings_view(stack@);
        let rv = text::strings_view(r@);
        assert(rv.len() == st.len());
        assert forall|a: int, b: int| 0 <= a < rv.len() && 0 <= b < rv.len() && a != b implies rv[a] != rv[b] by {
            assert(rv[a] == st[st.len() - 1 - a]);
            assert(rv[b] == st[st.len() - 1 - b]);
        }
        assert forall|x: Seq<char>| #[trigger] rv.contains(x) <==> st.contains(x) by {
            if rv.contains(x) {
                let a = choose|a: int| 0 <= a < rv.len() && rv[a] == x;
                assert(st[st.len() - 1 - a] == x);
            }
            if st.contains(x) {
                let a = choose|a: int| 0 <= a < st.len() && st[a] == x;
                assert(rv[st.len() - 1 - a] == x);
            }
        }
        if plain_graph(*g) {
            let edges = graph_edges(*g);
            assert forall|k: int|
                0 <= k < edges.len() && edge_in_graph(*g, #[trigger] edges[k]) implies comes_before(
                rv,
                names[edges[k].0],
                names[edges[k].1],
            ) by {
                assert(comes_before(st, names[edges[k].1], names[edges[k].0]));
                let (a, b) = choose|a: int, b: int|
                    0 <= a < b < st.len() && #[trigger] st[a] == names[edges[k].1] && #[trigger] st[b]
                        == names[edges[k].0];
                assert(rv[st.len() - 1 - b] == names[edges[k].0]);
                assert(rv[st.len() - 1 - a] == names[edges[k].1]);
            }
        }
    }
    r
}

// ---------------------------------------------------------------------------
// The graph of the objects reachable from a root
// ---------------------------------------------------------------------------

/// The names used by the last object named `a`; none where no object has
/// the name.
pub open spec fn deps_of(objs: Seq<ObjectView>, a: Seq<char>) -> Seq<Seq<char>> {
    match last_named(objs, a) {
        Some(k) => attribute_deps(objs[k].attributes, names_of(objs)),
        None => Seq::empty(),
    }
}

/// The edges from (the last object named) `a` to (the last object of) each
/// name it uses, in order.
pub open spec fn edges_from(objs: Seq<ObjectView>, a: Seq<char>) -> Seq<(int, int)> {
    deps_of(objs, a).map_values(
        |d: Seq<char>| (last_named(objs, a)->Some_0, last_named(objs, d)->Some_0),
    )
}

/// The edges from each of the names, in order.
pub open spec fn edges_of(objs: Seq<ObjectView>, walk: Seq<Seq<char>>) -> Seq<(int, int)>
    decreases walk.len(),
{
    if walk.len() == 0 {
        Seq::empty()
    } else {
        edges_of(objs, walk.drop_last()) + edges_from(objs, walk.last())
    }
}

/// The name at `k` is used by a name before it.
pub open spec fn used_before(objs: Seq<ObjectView>, walk: Seq<Seq<char>>, k: int) -> bool {
    exists|j: int| 0 <= j < k && #[trigger] deps_of(objs, walk[j]).contains(walk[k])
}

/// A walk from `root`: names of objects, each once, the first (if any)
/// `root`, each other used by a name before it.
pub open spec fn root_walk(objs: Seq<ObjectView>, root: Seq<char>, walk: Seq<Seq<char>>) -> bool {
    &&& walk.no_duplicates()
    &&& forall|k: int| 0 <= k < walk.len() ==> names_of(objs).contains(#[trigger] walk[k])
    &&& walk.len() > 0 ==> walk[0] == root
    &&& forall|k: int| 1 <= k < walk.len() ==> #[trigger] used_before(objs, walk, k)
}

/// Every name that a name of the walk uses is in the walk.
pub open spec fn walk_closed(objs: Seq<ObjectView>, walk: Seq<Seq<char>>) -> bool {
    forall|k: int, d: Seq<char>|
        0 <= k < walk.len() && #[trigger] deps_of(objs, walk[k]).contains(d) ==> walk.contains(d)
}

/// The number of names the first `n` objects use, all told.
pub open spec fn total_deps(objs: Seq<ObjectView>, n: int) -> nat
    decreases n,
{
    if n <= 0 {
        0
    } else {
        total_deps(objs, n - 1) + attribute_deps(objs[n - 1].attributes, names_of(objs)).len()
    }
}

/// The message for a root that no object has as name.
pub open spec fn missing_root_message(root: Seq<char>) -> Seq<char> {
    "Object '"@ + root + "' not found in model"@
}

/// The edges of two walks one after the other are those of each.
proof fn lemma_edges_of_concat(objs: Seq<ObjectView>, s: Seq<Seq<char>>, t: Seq<Seq<char>>)
    ensures
        edges_of(objs, s + t) == edges_of(objs, s) + edges_of(objs, t),
    decreases t.len(),
{
    if t.len() == 0 {
        assert(s + t =~= s);
        assert(edges_of(objs, s) + edges_of(objs, t) =~= edges_of(objs, s));
    } else {
        lemma_edges_of_concat(objs, s, t.drop_last());
        assert((s + t).drop_last() =~= s + t.drop_last());
        assert((s + t).last() == t.last());
        assert(edges_of(objs, s + t) =~= edges_of(objs, s) + edges_of(objs, t));
    }
}

/// The data types the attributes use are names of objects.
proof fn lemma_deps_are_names(attrs: Seq<AttributeView>, names: Seq<Seq<char>>)
    ensures
        forall|x: Seq<char>| #[trigger] attribute_deps(attrs, names).contains(x) ==> names.contains(x),
    decreases attrs.len(),
{
    if attrs.len() > 0 {
        lemma_deps_are_names(attrs.drop_last(), names);
        lemma_types_are_names(attrs.last().dtypes, names);
        assert forall|x: Seq<char>| #[trigger] attribute_deps(attrs, names).contains(x) implies names.contains(x) by {
            let a = attribute_deps(attrs.drop_last(), names);
            let b = object_types(attrs.last().dtypes, names);
            let i = choose|i: int| 0 <= i < (a + b).len() && (a + b)[i] == x;
            if i < a.len() {
                assert(a[i] == x);
                assert(a.contains(x));
            } else {
                assert(b[i - a.len()] == x);
                assert(b.contains(x));
            }
        }
    }
}

/// The object types among data types are names of objects.
proof fn lemma_types_are_names(ds: Seq<Seq<char>>, names: Seq<Seq<char>>)
    ensures
        forall|x: Seq<char>| #[trigger] object_types(ds, names).contains(x) ==> names.contains(x),
    decreases ds.len(),
{
    if ds.len() > 0 {
        lemma_types_are_names(ds.drop_last(), names);
        assert forall|x: Seq<char>| #[trigger] object_types(ds, names).contains(x) implies names.contains(x) by {
            let p = object_types(ds.drop_last(), names);
            if names.contains(ds.last()) {
                let i = choose|i: int| 0 <= i < p.push(ds.last()).len() && p.push(ds.last())[i] == x;
                if i < p.len() {
                    assert(p[i] == x);
                    assert(p.contains(x));
                }
            }
        }
    }
}

/// The last object named `x` is among the first `n`.
pub open spec fn last_below(objs: Seq<ObjectView>, x: Seq<char>, n: int) -> bool {
    match last_named(objs, x) {
        Some(i) => i < n,
        None => false,
    }
}

/// Distinct names of objects, each the name of one of the first `n`
/// objects that is the last of its name, use no more names, all told, than
/// the first `n` objects.
proof fn lemma_edges_bound(objs: Seq<ObjectView>, walk: Seq<Seq<char>>, n: int)
    requires
        0 <= n <= objs.len(),
        walk.no_duplicates(),
        forall|k: int| 0 <= k < walk.len() ==> #[trigger] last_below(objs, walk[k], n),
    ensures
        edges_of(objs, walk).len() <= total_deps(objs, n),
    decreases n,
{
    if n == 0 {
        if walk.len() > 0 {
            assert(last_below(objs, walk[0], 0));
            lemma_last_named(objs, walk[0]);
            assert(false);
        }
        assert(walk =~= Seq::<Seq<char>>::empty());
    } else if exists|i: int| 0 <= i < walk.len() && #[trigger] last_named(objs, walk[i]) == Some(n - 1) {
        let i = choose|i: int| 0 <= i < walk.len() && #[trigger] last_named(objs, walk[i]) == Some(n - 1);
        let rest = walk.remove(i);
        lemma_last_named(objs, walk[i]);
        assert forall|k: int| 0 <= k < rest.len() implies #[trigger] last_below(objs, rest[k], n - 1) by {
            let w = if k < i { k } else { k + 1 };
            assert(rest[k] == walk[w]);
            assert(last_below(objs, walk[w], n));
            lemma_last_named(objs, walk[w]);
            if last_named(objs, walk[w]) == Some(n - 1) {
                assert(walk[w] == objs[n - 1].name);
                assert(walk[i] == objs[n - 1].name);
            }
        }
        assert(rest.no_duplicates()) by {
            assert forall|a: int, b: int| 0 <= a < rest.len() && 0 <= b < rest.len() && a != b implies rest[a] != rest[b] by {
                let wa = if a < i { a } else { a + 1 };
                let wb = if b < i { b } else { b + 1 };
                assert(rest[a] == walk[wa] && rest[b] == walk[wb]);
            }
        }
        lemma_edges_bound(objs, rest, n - 1);
        assert(walk =~= walk.take(i) + seq![walk[i]] + walk.skip(i + 1));
        assert(rest =~= walk.take(i) + walk.skip(i + 1));
        lemma_edges_of_concat(objs, walk.take(i) + seq![walk[i]], walk.skip(i + 1));
        lemma_edges_of_concat(objs, walk.take(i), seq![walk[i]]);
        lemma_edges_of_concat(objs, walk.take(i), walk.skip(i + 1));
        let one = seq![walk[i]];
        assert(one.drop_last() =~= Seq::<Seq<char>>::empty());
        assert(one.last() == walk[i]);
        assert(edges_of(objs, one) == edges_of(objs, one.drop_last()) + edges_from(objs, one.last()));
        assert(edges_of(objs, one) =~= edges_from(objs, walk[i]));
    } else {
        assert forall|k: int| 0 <= k < walk.len() implies #[trigger] last_below(objs, walk[k], n - 1) by {
            assert(last_below(objs, walk[k], n));
        }
        lemma_edges_bound(objs, walk, n - 1);
    }
}

/// The multisets of edges after a step of the walk: `added` and the edges
/// still to add, `pending`, make up the walk's edges `x`; the call adds `b`,
/// whose multiset is that of `y`, then the edge `e`.
proof fn lemma_walk_step(
    added: Seq<(int, int)>,
    b: Seq<(int, int)>,
    e: (int, int),
    pending: Seq<(int, int)>,
    x: Seq<(int, int)>,
    y: Seq<(int, int)>,
)
    requires
        added.to_multiset().add((seq![e] + pending).to_multiset()) == x.to_multiset(),
        b.to_multiset() == y.to_multiset(),
    ensures
        (added + b).push(e).to_multiset().add(pending.to_multiset()) == (x + y).to_multiset(),
{
    broadcast use vstd::seq_lib::group_to_multiset_ensures;

    vstd::seq_lib::lemma_multiset_commutative(seq![e], pending);
    vstd::seq_lib::lemma_multiset_commutative(added, b);
    vstd::seq_lib::lemma_multiset_commutative(x, y);
    assert(seq![e] =~= Seq::<(int, int)>::empty().push(e));
    assert(Seq::<(int, int)>::empty().to_multiset() =~= vstd::multiset::Multiset::empty());
    assert((added + b).push(e).to_multiset().add(pending.to_multiset()) =~= (x + y).to_multiset());
}

/// The names used by the object at `k`: the data types of its attributes
/// that name objects, attribute by attribute.
fn object_deps(objects: &Vec<Object>, names: &Vec<String>, k: usize) -> (r: Vec<String>)
    requires
        k < objects@.len(),
        text::strings_view(names@) == names_of(object::objects_view(objects@)),
    ensures
        text::strings_view(r@) == attribute_deps(objects@[k as int]@.attributes, names_of(object::objects_view(objects@))),
{
    let ghost nm = names_of(object::objects_view(objects@));
    let obj = &objects[k];
    let ghost attrs = obj@.attributes;
    let mut r: Vec<String> = Vec::new();
    let mut a: usize = 0;
    assert(attrs.take(0) =~= Seq::<AttributeView>::empty());
    assert(text::strings_view(r@) =~= Seq::<Seq<char>>::empty());
    while a < obj.attributes.len()
        invariant
            a <= obj.attributes@.len(),
            attrs == obj@.attributes,
            nm == text::strings_view(names@),
            text::strings_view(r@) == attribute_deps(attrs.take(a as int), nm),
        decreases obj.attributes.len() - a,
    {
        let attr = &obj.attributes[a];
        assert(attrs[a as int] == attr@);
        let ghost base = text::strings_view(r@);
        let mut t: usize = 0;
        assert(attr@.dtypes.take(0) =~= Seq::<Seq<char>>::empty());
        assert(base + object_types(attr@.dtypes.take(0), nm) =~= base);
        while t < attr.dtypes.len()
            invariant
                t <= attr.dtypes@.len(),
                attr@.dtypes.len() == attr.dtypes@.len(),
                nm == text::strings_view(names@),
                text::strings_view(r@) == base + object_types(attr@.dtypes.take(t as int), nm),
            decreases attr.dtypes.len() - t,
        {
            let d = &attr.dtypes[t];
            assert(attr@.dtypes[t as int] == d@);
            assert(attr@.dtypes.take(t + 1).drop_last() =~= attr@.dtypes.take(t as int));
            assert(attr@.dtypes.take(t + 1).last() == d@);
            let ghost before = text::strings_view(r@);
            if crate::validation::contains_string(names, d) {
                r.push(d.clone());
                assert(text::strings_view(r@) =~= before.push(d@));
                assert(base + object_types(attr@.dtypes.take(t + 1), nm) =~= (base + object_types(attr@.dtypes.take(t as int), nm)).push(d@));
            }
            t = t + 1;
        }
        assert(attr@.dtypes.take(t as int) =~= attr@.dtypes);
        assert(attrs.take(a + 1).drop_last() =~= attrs.take(a as int));
        assert(attrs.take(a + 1).last() == attr@);
        a = a + 1;
    }
    assert(attrs.take(a as int) =~= attrs);
    r
}

/// Walks from `name` through the objects it uses, depth first: unless the
/// name was visited already, it is marked visited, each name its object
/// uses is walked in turn, and after each an edge is added from the
/// object to the used one. The names visited in the call use only visited
/// names, and the edges added are, as a multiset, those of the names
/// visited in the call.
fn walk_uses(
    objects: &Vec<Object>,
    names: &Vec<String>,
    g: &mut DiGraph<Object, ()>,
    name: &String,
    visited: &mut Vec<String>,
    Ghost(root): Ghost<Seq<char>>,
    Ghost(pending): Ghost<nat>,
)
    requires
        text::strings_view(names@) == names_of(object::objects_view(objects@)),
        objects@.len() < u32::MAX,
        total_deps(object::objects_view(objects@), objects@.len() as int) < u32::MAX,
        object::objects_view(graph_nodes(*old(g))) == object::objects_view(objects@),
        names_of(object::objects_view(objects@)).contains(name@),
        root_walk(object::objects_view(objects@), root, text::strings_view(old(visited)@)),
        (old(visited)@.len() == 0 && name@ == root) || exists|j: int|
            0 <= j < old(visited)@.len() && #[trigger] deps_of(
                object::objects_view(objects@),
                text::strings_view(old(visited)@)[j],
            ).contains(name@),
        graph_edges(*old(g)).len() + pending <= edges_of(
            object::objects_view(objects@),
            text::strings_view(old(visited)@),
        ).len(),
    ensures
        ({
            let objs = object::objects_view(objects@);
            let v0 = text::strings_view(old(visited)@);
            let v1 = text::strings_view(final(visited)@);
            let e0 = graph_edges(*old(g));
            let e1 = graph_edges(*final(g));
            &&& extends(v0, v1)
            &&& root_walk(objs, root, v1)
            &&& v1.contains(name@)
            &&& object::objects_view(graph_nodes(*final(g))) == objs
            &&& e0.len() <= e1.len()
            &&& e1.take(e0.len() as int) == e0
            &&& e1.skip(e0.len() as int).to_multiset() == edges_of(objs, v1.skip(v0.len() as int)).to_multiset()
            &&& forall|k: int, d: Seq<char>|
                v0.len() <= k < v1.len() && #[trigger] deps_of(objs, v1[k]).contains(d) ==> v1.contains(d)
            &&& e1.len() + pending <= edges_of(objs, v1).len()
        }),
    decreases names_of(object::objects_view(objects@)).len() - old(visited)@.len(),
{
    let ghost objs = object::objects_view(objects@);
    let ghost v0 = text::strings_view(visited@);
    let ghost e0 = graph_edges(*g);
    if crate::validation::contains_string(visited, name) {
        proof {
            assert(v0.skip(v0.len() as int) =~= Seq::<Seq<char>>::empty());
            assert(e0.skip(e0.len() as int) =~= Seq::<(int, int)>::empty());
            assert(e0.take(e0.len() as int) =~= e0);
            assert(edges_of(objs, Seq::<Seq<char>>::empty()) =~= Seq::<(int, int)>::empty());
        }
        return;
    }
    proof {
        lemma_last_named(objs, name@);
        if last_named(objs, name@) is None {
            let x = choose|x: int| 0 <= x < names_of(objs).len() && names_of(objs)[x] == name@;
            assert(objs[x].name == name@);
        }
    }
    let k = match last_index_named(objects, name.as_str()) {
        Some(k) => k,
        None => {
            return;
        },
    };
    visited.push(name.clone());
    let ghost v1 = text::strings_view(visited@);
    assert(v1 =~= v0.push(name@));
    proof {
        assert(root_walk(objs, root, v1)) by {
            assert forall|i: int, j: int| 0 <= i < v1.len() && 0 <= j < v1.len() && i != j implies v1[i] != v1[j] by {
                if i < v0.len() && j < v0.len() {
                    assert(v0[i] != v0[j]);
                } else if i < v0.len() {
                    assert(v0.contains(v1[i]));
                } else if j < v0.len() {
                    assert(v0.contains(v1[j]));
                }
            }
            assert forall|q: int| 0 <= q < v1.len() implies names_of(objs).contains(#[trigger] v1[q]) by {
                if q < v0.len() {
                    assert(v1[q] == v0[q]);
                }
            }
            assert forall|q: int| 1 <= q < v1.len() implies #[trigger] used_before(objs, v1, q) by {
                if q < v0.len() {
                    assert(used_before(objs, v0, q));
                    let j = choose|j: int| 0 <= j < q && #[trigger] deps_of(objs, v0[j]).contains(v0[q]);
                    assert(v1[j] == v0[j]);
                    assert(deps_of(objs, v1[j]).contains(v1[q]));
                } else {
                    let j = choose|j: int| 0 <= j < v0.len() && #[trigger] deps_of(objs, v0[j]).contains(name@);
                    assert(v1[j] == v0[j]);
                    assert(deps_of(objs, v1[j]).contains(v1[q]));
                }
            }
        }
        assert(v1.drop_last() =~= v0);
        assert(edges_of(objs, v1) == edges_of(objs, v0) + edges_from(objs, name@));
    }
    let deps = object_deps(objects, names, k);
    let ghost ds = text::strings_view(deps@);
    let ghost ef = edges_from(objs, name@);
    assert(ds == deps_of(objs, name@));
    proof {
        lemma_deps_are_names(objs[k as int].attributes, names_of(objs));
    }
    let src = node_index(k);
    let mut i: usize = 0;
    assert(ef.skip(0) =~= ef);
    assert(v1.skip(v0.len() as int) =~= seq![name@]);
    assert(e0.skip(e0.len() as int) =~= Seq::<(int, int)>::empty());
    proof {
        let one = seq![name@];
        assert(one.drop_last() =~= Seq::<Seq<char>>::empty());
        assert(edges_of(objs, Seq::<Seq<char>>::empty()) =~= Seq::<(int, int)>::empty());
        assert(edges_of(objs, one) =~= ef);
        assert(Seq::<(int, int)>::empty().to_multiset().add(ef.to_multiset()) =~= ef.to_multiset()) by {
            broadcast use vstd::seq_lib::group_to_multiset_ensures;
            assert(Seq::<(int, int)>::empty().to_multiset() =~= vstd::multiset::Multiset::empty());
        }
    }
    while i < deps.len()
        invariant
            text::strings_view(names@) == names_of(objs),
            objs == object::objects_view(objects@),
            objects@.len() < u32::MAX,
            total_deps(objs, objs.len() as int) < u32::MAX,
            k < objects@.len(),
            last_named(objs, name@) == Some(k as int),
            node_position(src) == k,
            ds == text::strings_view(deps@),
            ds == deps_of(objs, name@),
            ef == edges_from(objs, name@),
            forall|x: Seq<char>| #[trigger] ds.contains(x) ==> names_of(objs).contains(x),
            i <= deps@.len(),
            v0 == text::strings_view(old(visited)@),
            v1 == v0.push(name@),
            extends(v1, text::strings_view(visited@)),
            root_walk(objs, root, text::strings_view(visited@)),
            object::objects_view(graph_nodes(*g)) == objs,
            e0.len() <= graph_edges(*g).len(),
            graph_edges(*g).take(e0.len() as int) == e0,
            graph_edges(*g).skip(e0.len() as int).to_multiset().add(ef.skip(i as int).to_multiset())
                == edges_of(objs, text::strings_view(visited@).skip(v0.len() as int)).to_multiset(),
            forall|q: int, d: Seq<char>|
                v1.len() <= q < text::strings_view(visited@).len() && #[trigger] deps_of(
                    objs,
                    text::strings_view(visited@)[q],
                ).contains(d) ==> text::strings_view(visited@).contains(d),
            forall|t: int| 0 <= t < i ==> text::strings_view(visited@).contains(#[trigger] ds[t]),
            graph_edges(*g).len() + pending + (ef.len() - i) <= edges_of(objs, text::strings_view(visited@)).len(),
        decreases deps.len() - i,
    {
        let ghost vb = text::strings_view(visited@);
        let ghost eb = graph_edges(*g);
        assert(ds[i as int] == deps@[i as int]@);
        assert(ds.contains(ds[i as int]));
        assert(vb[v0.len() as int] == name@) by {
            assert(v1[v0.len() as int] == name@);
        }
        assert(deps_of(objs, vb[v0.len() as int]).contains(deps@[i as int]@));
        proof {
            assert forall|x: Seq<char>| #[trigger] vb.contains(x) implies names_of(objs).contains(x) by {
                let q = choose|q: int| 0 <= q < vb.len() && vb[q] == x;
                assert(names_of(objs).contains(vb[q]));
            }
            lemma_distinct_bound(names_of(objs), vb);
            assert(vb.len() >= v1.len());
            assert(visited@.len() == vb.len());
        }
        walk_uses(objects, names, g, &deps[i], visited, Ghost(root), Ghost((pending + (ef.len() - i)) as nat));
        let ghost va = text::strings_view(visited@);
        let ghost ea = graph_edges(*g);
        proof {
            lemma_last_named(objs, ds[i as int]);
            if last_named(objs, ds[i as int]) is None {
                let x = choose|x: int| 0 <= x < names_of(objs).len() && names_of(objs)[x] == ds[i as int];
                assert(objs[x].name == ds[i as int]);
            }
        }
        let m = match last_index_named(objects, deps[i].as_str()) {
            Some(m) => m,
            None => {
                return;
            },
        };
        proof {
            assert forall|q: int| 0 <= q < va.len() implies #[trigger] last_below(objs, va[q], objs.len() as int) by {
                assert(names_of(objs).contains(va[q]));
                lemma_last_named(objs, va[q]);
                if last_named(objs, va[q]) is None {
                    let x = choose|x: int| 0 <= x < names_of(objs).len() && names_of(objs)[x] == va[q];
                    assert(objs[x].name == va[q]);
                }
            }
            lemma_edges_bound(objs, va, objs.len() as int);
            assert(graph_nodes(*g).len() == objs.len());
        }
        add_edge(g, src, node_index(m));
        let ghost ec = graph_edges(*g);
        proof {
            assert(ef[i as int] == (k as int, m as int));
            assert(ef.skip(i as int) =~= seq![ef[i as int]] + ef.skip(i + 1));
            assert(ea.skip(e0.len() as int) =~= eb.skip(e0.len() as int) + ea.skip(eb.len() as int)) by {
                assert forall|q: int| 0 <= q < ea.len() - e0.len() implies #[trigger] ea.skip(e0.len() as int)[q]
                    == (eb.skip(e0.len() as int) + ea.skip(eb.len() as int))[q] by {
                    if e0.len() + q < eb.len() {
                        assert(ea.take(eb.len() as int)[e0.len() + q] == eb[e0.len() + q]);
                    }
                }
            }
            assert(ec.skip(e0.len() as int) =~= (eb.skip(e0.len() as int) + ea.skip(eb.len() as int)).push(ef[i as int]));
            assert(va.skip(v0.len() as int) =~= vb.skip(v0.len() as int) + va.skip(vb.len() as int)) by {
                assert forall|q: int| 0 <= q < va.len() - v0.len() implies #[trigger] va.skip(v0.len() as int)[q]
                    == (vb.skip(v0.len() as int) + va.skip(vb.len() as int))[q] by {
                    if v0.len() + q < vb.len() {
                        assert(va[v0.len() + q] == vb[v0.len() + q]);
                    }
                }
            }
            lemma_edges_of_concat(objs, vb.skip(v0.len() as int), va.skip(vb.len() as int));
            lemma_walk_step(
                eb.skip(e0.len() as int),
                ea.skip(eb.len() as int),
                ef[i as int],
                ef.skip(i + 1),
                edges_of(objs, vb.skip(v0.len() as int)),
                edges_of(objs, va.skip(vb.len() as int)),
            );
            assert(ec.take(e0.len() as int) =~= e0) by {
                assert forall|q: int| 0 <= q < e0.len() implies #[trigger] ec.take(e0.len() as int)[q] == e0[q] by {
                    assert(ea.take(eb.len() as int)[q] == eb[q]);
                    assert(eb.take(e0.len() as int)[q] == e0[q]);
                }
            }
            assert forall|k2: int| 0 <= k2 < v1.len() implies #[trigger] va[k2] == v1[k2] by {
                assert(vb[k2] == v1[k2]);
            }
            assert forall|t: int| 0 <= t < i + 1 implies va.contains(#[trigger] ds[t]) by {
                if t < i {
                    lemma_extends_contains(vb, va, ds[t]);
                }
            }
            assert forall|q: int, d: Seq<char>|
                v1.len() <= q < va.len() && #[trigger] deps_of(objs, va[q]).contains(d) implies va.contains(d) by {
                if q < vb.len() {
                    assert(va[q] == vb[q]);
                    assert(vb.contains(d));
                    lemma_extends_contains(vb, va, d);
                }
            }
        }
        i = i + 1;
    }
    let ghost vf = text::strings_view(visited@);
    proof {
        assert(ef.skip(i as int) =~= Seq::<(int, int)>::empty());
        assert(graph_edges(*g).skip(e0.len() as int).to_multiset() =~= edges_of(objs, vf.skip(v0.len() as int)).to_multiset()) by {
            broadcast use vstd::seq_lib::group_to_multiset_ensures;
            assert(Seq::<(int, int)>::empty().to_multiset() =~= vstd::multiset::Multiset::empty());
        }
        assert(vf[v0.len() as int] == name@) by {
            assert(v1[v0.len() as int] == name@);
        }
        assert forall|q: int, d: Seq<char>|
            v0.len() <= q < vf.len() && #[trigger] deps_of(objs, vf[q]).contains(d) implies vf.contains(d) by {
            if q == v0.len() {
                let t = choose|t: int| 0 <= t < ds.len() && ds[t] == d;
                assert(vf.contains(ds[t]));
            }
        }
        assert forall|q: int| 0 <= q < v0.len() implies #[trigger] vf[q] == v0[q] by {
            assert(v1[q] == v0[q]);
        }
    }
}

/// The graph of the objects reachable from `root`: a node for each object
/// of the model, in order, and an edge from (the last object of) each name
/// reached from `root` to (the last object of) each name it uses; refused
/// where no object is named `root`.
pub fn object_graph(model: &DataModel, root: &str) -> (r: Result<DiGraph<Object, ()>, String>)
    requires
        model.objects@.len() < u32::MAX,
        total_deps(object::objects_view(model.objects@), model.objects@.len() as int) < u32::MAX,
    ensures
        ({
            let objs = object::objects_view(model.objects@);
            match r {
                Ok(g) => {
                    &&& names_of(objs).contains(root@)
                    &&& object::objects_view(graph_nodes(g)) == objs
                    &&& exists|walk: Seq<Seq<char>>|
                        root_walk(objs, root@, walk) && walk.len() > 0 && walk_closed(objs, walk)
                            && #[trigger] edges_of(objs, walk).to_multiset() == graph_edges(g).to_multiset()
                },
                Err(e) => !names_of(objs).contains(root@) && e@ == missing_root_message(root@),
            }
        }),
{
    let ghost objs = object::objects_view(model.objects@);
    let n = model.objects.len();
    let mut g = new_graph();
    let mut i: usize = 0;
    while i < n
        invariant
            n == model.objects@.len(),
            i <= n,
            n < u32::MAX,
            objs == object::objects_view(model.objects@),
            object::objects_view(graph_nodes(g)) == objs.take(i as int),
            graph_nodes(g).len() == i,
            graph_edges(g) == Seq::<(int, int)>::empty(),
        decreases n - i,
    {
        let o = crate::markdown::parser::copy_object(&model.objects[i]);
        let ghost before = graph_nodes(g);
        add_node(&mut g, o);
        assert(object::objects_view(graph_nodes(g)) =~= objs.take(i + 1)) by {
            assert(object::objects_view(graph_nodes(g)) =~= object::objects_view(before).push(o@));
        }
        i = i + 1;
    }
    assert(objs.take(n as int) =~= objs);
    proof {
        lemma_last_named(objs, root@);
    }
    if last_index_named(&model.objects, root).is_none() {
        let mut msg = String::from_str("Object '");
        msg.append(root);
        msg.append("' not found in model");
        proof {
            reveal_strlit("Object '");
            reveal_strlit("' not found in model");
            if names_of(objs).contains(root@) {
                let x = choose|x: int| 0 <= x < names_of(objs).len() && names_of(objs)[x] == root@;
                assert(objs[x].name == root@);
            }
        }
        return Err(msg);
    }
    let names = object_names(&model.objects);
    let root_name = String::from_str(root);
    let ghost k = last_named(objs, root@)->Some_0;
    assert(names_of(objs)[k] == root@);
    let mut visited: Vec<String> = Vec::new();
    assert(text::strings_view(visited@) =~= Seq::<Seq<char>>::empty());
    assert(edges_of(objs, Seq::<Seq<char>>::empty()) =~= Seq::<(int, int)>::empty());
    walk_uses(&model.objects, &names, &mut g, &root_name, &mut visited, Ghost(root@), Ghost(0));
    let ghost walk = text::strings_view(visited@);
    proof {
        assert(walk.skip(0) =~= walk);
        assert(graph_edges(g).skip(0) =~= graph_edges(g));
        assert(walk_closed(objs, walk));
    }
    Ok(g)
}

/// With distinct names, an object that uses `d` gets an edge from the
/// object named `d` in the dependency graph.
pub(crate) proof fn lemma_dependency_edge(objs: Seq<ObjectView>, u: int, d: Seq<char>, k: int)
    requires
        names_of(objs).no_duplicates(),
        0 <= u < k <= objs.len(),
        attribute_deps(objs[u].attributes, names_of(objs)).contains(d),
    ensures
        last_named(objs, d) matches Some(a) && 0 <= a < objs.len() && dependency_edges(objs, k).contains((a, u)),
    decreases k,
{
    lemma_deps_are_names(objs[u].attributes, names_of(objs));
    lemma_last_named(objs, d);
    if last_named(objs, d) is None {
        let x = choose|x: int| 0 <= x < names_of(objs).len() && names_of(objs)[x] == d;
        assert(objs[x].name == d);
    }
    let a = last_named(objs, d)->Some_0;
    if k == u + 1 {
        lemma_last_named(objs, objs[u].name);
        let l = last_named(objs, objs[u].name)->Some_0;
        if l != u {
            assert(names_of(objs)[l] == names_of(objs)[u]);
        }
        let deps = attribute_deps(objs[u].attributes, names_of(objs));
        let j = choose|j: int| 0 <= j < deps.len() && deps[j] == d;
        let into = edges_into(objs, deps, u);
        assert(into[j] == (a, u));
        let all = dependency_edges(objs, k);
        assert(all == dependency_edges(objs, u) + into);
        assert(all[dependency_edges(objs, u).len() + j] == (a, u));
    } else {
        lemma_dependency_edge(objs, u, d, k - 1);
        let prev = dependency_edges(objs, k - 1);
        let i = choose|i: int| 0 <= i < prev.len() && prev[i] == (a, u);
        let all = dependency_edges(objs, k);
        if last_named(objs, objs[k - 1].name) == Some(k - 1) {
            assert(all[i] == (a, u));
        }
    }
}

} // verus!
