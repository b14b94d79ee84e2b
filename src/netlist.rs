//! The netlist: a registry of uniquely labelled modules and nets, the
//! incidence graph that joins nets to modules, and per-entity attributes.
//!
//! Modules and nets live in separate namespaces: a module and a net may share
//! a label, and each then has a node of its own. Adding a label twice to the
//! same namespace is rejected. Connecting the same net and module twice keeps
//! a single edge. The maximum degrees are maintained eagerly on every new edge.

use crate::graph::{
    graph_add_edge, graph_add_node, graph_contains_edge, graph_edge_count, graph_edges,
    graph_neighbors, graph_new, graph_node_count, graph_node_label, graph_nodes, sources_into,
    targets_from, INDEX_LIMIT,
};
use petgraph::Graph;
use vstd::hash_map::StringHashMap;
use vstd::hash_set::StringHashSet;
use vstd::prelude::*;

verus! {

/// Why an operation on a netlist was refused.
#[derive(Debug, Clone, Copy, PartialEq, Eq, Structural)]
pub enum NetlistError {
    /// The label is already registered in its namespace.
    DuplicateEntity,
    /// The label names no registered module or net.
    MissingEntity,
    /// A configuration scalar is malformed.
    InvalidConfiguration,
}

/// The number of links, as (net, module) label pairs, that touch module `m`.
pub open spec fn module_degree_in(links: Seq<(Seq<char>, Seq<char>)>, m: Seq<char>) -> nat
    decreases links.len(),
{
    if links.len() == 0 {
        0
    } else {
        module_degree_in(links.drop_last(), m) + if links.last().1 == m { 1nat } else { 0nat }
    }
}

/// The number of links, as (net, module) label pairs, that touch net `n`.
pub open spec fn net_degree_in(links: Seq<(Seq<char>, Seq<char>)>, n: Seq<char>) -> nat
    decreases links.len(),
{
    if links.len() == 0 {
        0
    } else {
        net_degree_in(links.drop_last(), n) + if links.last().0 == n { 1nat } else { 0nat }
    }
}

/// The largest module degree over the modules `mods`, or 0 if there are none.
pub open spec fn max_module_degree_in(links: Seq<(Seq<char>, Seq<char>)>, mods: Seq<Seq<char>>) -> nat
    decreases mods.len(),
{
    if mods.len() == 0 {
        0
    } else {
        let rest = max_module_degree_in(links, mods.drop_last());
        let d = module_degree_in(links, mods.last());
        if d > rest { d } else { rest }
    }
}

/// The largest net degree over the nets `nets`, or 0 if there are none.
pub open spec fn max_net_degree_in(links: Seq<(Seq<char>, Seq<char>)>, nets: Seq<Seq<char>>) -> nat
    decreases nets.len(),
{
    if nets.len() == 0 {
        0
    } else {
        let rest = max_net_degree_in(links, nets.drop_last());
        let d = net_degree_in(links, nets.last());
        if d > rest { d } else { rest }
    }
}

/// A module degree never exceeds the number of links.
proof fn lemma_module_degree_bound(links: Seq<(Seq<char>, Seq<char>)>, m: Seq<char>)
    ensures
        module_degree_in(links, m) <= links.len(),
    decreases links.len(),
{
    if links.len() > 0 {
        lemma_module_degree_bound(links.drop_last(), m);
    }
}

/// A net degree never exceeds the number of links.
proof fn lemma_net_degree_bound(links: Seq<(Seq<char>, Seq<char>)>, n: Seq<char>)
    ensures
        net_degree_in(links, n) <= links.len(),
    decreases links.len(),
{
    if links.len() > 0 {
        lemma_net_degree_bound(links.drop_last(), n);
    }
}

/// No link touches `m`, so its degree is 0.
proof fn lemma_module_degree_untouched(links: Seq<(Seq<char>, Seq<char>)>, m: Seq<char>)
    requires
        forall|i: int| 0 <= i < links.len() ==> (#[trigger] links[i]).1 != m,
    ensures
        module_degree_in(links, m) == 0,
    decreases links.len(),
{
    if links.len() > 0 {
        lemma_module_degree_untouched(links.drop_last(), m);
    }
}

/// No link touches `n`, so its degree is 0.
proof fn lemma_net_degree_untouched(links: Seq<(Seq<char>, Seq<char>)>, n: Seq<char>)
    requires
        forall|i: int| 0 <= i < links.len() ==> (#[trigger] links[i]).0 != n,
    ensures
        net_degree_in(links, n) == 0,
    decreases links.len(),
{
    if links.len() > 0 {
        lemma_net_degree_untouched(links.drop_last(), n);
    }
}

/// `s` holds `x` exactly when its prefix without the last element does, or
/// the last element is `x`.
proof fn lemma_contains_split<T>(s: Seq<T>, x: T)
    requires
        s.len() > 0,
    ensures
        s.contains(x) <==> (s.drop_last().contains(x) || s.last() == x),
{
    if s.drop_last().contains(x) {
        let j = choose|j: int| 0 <= j < s.drop_last().len() && s.drop_last()[j] == x;
        assert(s[j] == x);
    }
    if s.contains(x) && s.last() != x {
        let j = choose|j: int| 0 <= j < s.len() && s[j] == x;
        assert(s.drop_last()[j] == x);
    }
}

/// Adding the link `x` changes the largest module degree only through the
/// module that `x` touches.
proof fn lemma_max_module_degree_push(
    links: Seq<(Seq<char>, Seq<char>)>,
    x: (Seq<char>, Seq<char>),
    mods: Seq<Seq<char>>,
)
    ensures
        ({
            let old_max = max_module_degree_in(links, mods);
            let d = module_degree_in(links.push(x), x.1);
            max_module_degree_in(links.push(x), mods) == if mods.contains(x.1) {
                if d > old_max { d } else { old_max }
            } else {
                old_max
            }
        }),
    decreases mods.len(),
{
    assert(links.push(x).drop_last() =~= links);
    if mods.len() > 0 {
        lemma_max_module_degree_push(links, x, mods.drop_last());
        lemma_contains_split(mods, x.1);
    }
}

/// Adding the link `x` changes the largest net degree only through the net
/// that `x` touches.
proof fn lemma_max_net_degree_push(
    links: Seq<(Seq<char>, Seq<char>)>,
    x: (Seq<char>, Seq<char>),
    nets: Seq<Seq<char>>,
)
    ensures
        ({
            let old_max = max_net_degree_in(links, nets);
            let d = net_degree_in(links.push(x), x.0);
            max_net_degree_in(links.push(x), nets) == if nets.contains(x.0) {
                if d > old_max { d } else { old_max }
            } else {
                old_max
            }
        }),
    decreases nets.len(),
{
    assert(links.push(x).drop_last() =~= links);
    if nets.len() > 0 {
        lemma_max_net_degree_push(links, x, nets.drop_last());
        lemma_contains_split(nets, x.0);
    }
}

/// The nets that some link joins to module `m`.
pub open spec fn nets_joined_to(links: Seq<(Seq<char>, Seq<char>)>, m: Seq<char>) -> Set<Seq<char>> {
    Set::new(|n: Seq<char>| links.contains((n, m)))
}

/// The modules that some link joins to net `n`.
pub open spec fn modules_joined_to(links: Seq<(Seq<char>, Seq<char>)>, n: Seq<char>) -> Set<Seq<char>> {
    Set::new(|m: Seq<char>| links.contains((n, m)))
}

/// Dropping the last element keeps a sequence free of duplicates.
proof fn lemma_drop_last_distinct<T>(s: Seq<T>)
    requires
        s.len() > 0,
        s.no_duplicates(),
    ensures
        s.drop_last().no_duplicates(),
        !s.drop_last().contains(s.last()),
{
    if s.drop_last().contains(s.last()) {
        let j = choose|j: int| 0 <= j < s.drop_last().len() && s.drop_last()[j] == s.last();
        assert(s[j] == s[s.len() - 1]);
    }
}

/// Over links without repeats, the degree of module `m` is the number of
/// distinct nets joined to it.
proof fn lemma_degree_counts_distinct_nets(links: Seq<(Seq<char>, Seq<char>)>, m: Seq<char>)
    requires
        links.no_duplicates(),
    ensures
        nets_joined_to(links, m).finite(),
        nets_joined_to(links, m).len() == module_degree_in(links, m),
    decreases links.len(),
{
    if links.len() == 0 {
        assert(nets_joined_to(links, m) =~= Set::<Seq<char>>::empty());
    } else {
        let rest = links.drop_last();
        let x = links.last();
        lemma_drop_last_distinct(links);
        lemma_degree_counts_distinct_nets(rest, m);
        assert forall|n: Seq<char>| links.contains((n, m)) <==> (rest.contains((n, m)) || x == (n, m)) by {
            lemma_contains_split(links, (n, m));
        }
        if x.1 == m {
            assert(nets_joined_to(links, m) =~= nets_joined_to(rest, m).insert(x.0));
        } else {
            assert(nets_joined_to(links, m) =~= nets_joined_to(rest, m));
        }
    }
}

/// Over links without repeats, the degree of net `n` is the number of
/// distinct modules joined to it.
proof fn lemma_net_degree_counts_distinct_modules(links: Seq<(Seq<char>, Seq<char>)>, n: Seq<char>)
    requires
        links.no_duplicates(),
    ensures
        modules_joined_to(links, n).finite(),
        modules_joined_to(links, n).len() == net_degree_in(links, n),
    decreases links.len(),
{
    if links.len() == 0 {
        assert(modules_joined_to(links, n) =~= Set::<Seq<char>>::empty());
    } else {
        let rest = links.drop_last();
        let x = links.last();
        lemma_drop_last_distinct(links);
        lemma_net_degree_counts_distinct_modules(rest, n);
        assert forall|m: Seq<char>| links.contains((n, m)) <==> (rest.contains((n, m)) || x == (n, m)) by {
            lemma_contains_split(links, (n, m));
        }
        if x.0 == n {
            assert(modules_joined_to(links, n) =~= modules_joined_to(rest, n).insert(x.1));
        } else {
            assert(modules_joined_to(links, n) =~= modules_joined_to(rest, n));
        }
    }
}

/// The largest module degree bounds every module's degree and, when there
/// is a module, is the degree of one of them.
proof fn lemma_max_degree_is_maximum(links: Seq<(Seq<char>, Seq<char>)>, mods: Seq<Seq<char>>)
    ensures
        forall|m: Seq<char>| #[trigger] mods.contains(m) ==> module_degree_in(links, m) <= max_module_degree_in(links, mods),
        mods.len() > 0 ==> exists|i: int| 0 <= i < mods.len() && module_degree_in(links, #[trigger] mods[i])
            == max_module_degree_in(links, mods),
    decreases mods.len(),
{
    if mods.len() > 0 {
        let rest = mods.drop_last();
        lemma_max_degree_is_maximum(links, rest);
        assert forall|m: Seq<char>| #[trigger] mods.contains(m) implies module_degree_in(links, m)
            <= max_module_degree_in(links, mods) by {
            lemma_contains_split(mods, m);
        }
        if module_degree_in(links, mods.last()) > max_module_degree_in(links, rest) || rest.len() == 0 {
            assert(mods[mods.len() - 1] == mods.last());
        } else {
            let i = choose|i: int| 0 <= i < rest.len() && module_degree_in(links, #[trigger] rest[i])
                == max_module_degree_in(links, rest);
            assert(mods[i] == rest[i]);
        }
    }
}

/// The largest net degree bounds every net's degree and, when there is a
/// net, is the degree of one of them.
proof fn lemma_max_net_degree_is_maximum(links: Seq<(Seq<char>, Seq<char>)>, nets: Seq<Seq<char>>)
    ensures
        forall|n: Seq<char>| #[trigger] nets.contains(n) ==> net_degree_in(links, n) <= max_net_degree_in(links, nets),
        nets.len() > 0 ==> exists|i: int| 0 <= i < nets.len() && net_degree_in(links, #[trigger] nets[i])
            == max_net_degree_in(links, nets),
    decreases nets.len(),
{
    if nets.len() > 0 {
        let rest = nets.drop_last();
        lemma_max_net_degree_is_maximum(links, rest);
        assert forall|n: Seq<char>| #[trigger] nets.contains(n) implies net_degree_in(links, n)
            <= max_net_degree_in(links, nets) by {
            lemma_contains_split(nets, n);
        }
        if net_degree_in(links, nets.last()) > max_net_degree_in(links, rest) || rest.len() == 0 {
            assert(nets[nets.len() - 1] == nets.last());
        } else {
            let i = choose|i: int| 0 <= i < rest.len() && net_degree_in(links, #[trigger] rest[i])
                == max_net_degree_in(links, rest);
            assert(nets[i] == rest[i]);
        }
    }
}

/// The nets that links join to module `m`, the most recent link first.
pub open spec fn nets_of_module(links: Seq<(Seq<char>, Seq<char>)>, m: Seq<char>) -> Seq<Seq<char>>
    decreases links.len(),
{
    if links.len() == 0 {
        Seq::empty()
    } else {
        let rest = nets_of_module(links.drop_last(), m);
        if links.last().1 == m { seq![links.last().0] + rest } else { rest }
    }
}

/// The modules that links join to net `n`, the most recent link first.
pub open spec fn modules_of_net(links: Seq<(Seq<char>, Seq<char>)>, n: Seq<char>) -> Seq<Seq<char>>
    decreases links.len(),
{
    if links.len() == 0 {
        Seq::empty()
    } else {
        let rest = modules_of_net(links.drop_last(), n);
        if links.last().0 == n { seq![links.last().1] + rest } else { rest }
    }
}

/// One net per link touching `m`, so as many nets as the module's degree.
proof fn lemma_nets_of_module_len(links: Seq<(Seq<char>, Seq<char>)>, m: Seq<char>)
    ensures
        nets_of_module(links, m).len() == module_degree_in(links, m),
    decreases links.len(),
{
    if links.len() > 0 {
        lemma_nets_of_module_len(links.drop_last(), m);
    }
}

/// One module per link touching `n`, so as many modules as the net's degree.
proof fn lemma_modules_of_net_len(links: Seq<(Seq<char>, Seq<char>)>, n: Seq<char>)
    ensures
        modules_of_net(links, n).len() == net_degree_in(links, n),
    decreases links.len(),
{
    if links.len() > 0 {
        lemma_modules_of_net_len(links.drop_last(), n);
    }
}

/// The sources of the graph edges into a module's node are the nodes of the
/// nets linked to that module, in the same order.
proof fn lemma_sources_into_links(
    edges: Seq<(nat, nat)>,
    links: Seq<(Seq<char>, Seq<char>)>,
    net_index: Map<Seq<char>, usize>,
    module_index: Map<Seq<char>, usize>,
    nodes: Seq<Seq<char>>,
    m: Seq<char>,
)
    requires
        edges.len() == links.len(),
        module_index.contains_key(m),
        forall|l: Seq<char>| #[trigger] net_index.contains_key(l) ==> net_index[l] < nodes.len() && nodes[net_index[l] as int] == l,
        forall|l: Seq<char>| #[trigger] module_index.contains_key(l) ==> module_index[l] < nodes.len() && nodes[module_index[l] as int] == l,
        forall|i: int| 0 <= i < links.len() ==> {
            &&& net_index.contains_key((#[trigger] links[i]).0)
            &&& module_index.contains_key(links[i].1)
            &&& edges[i] == (net_index[links[i].0] as nat, module_index[links[i].1] as nat)
        },
    ensures
        ({
            let s = sources_into(edges, module_index[m] as nat);
            let t = nets_of_module(links, m);
            &&& s.len() == t.len()
            &&& forall|j: int| 0 <= j < s.len() ==> #[trigger] s[j] < nodes.len() && nodes[s[j] as int] == t[j]
        }),
    decreases links.len(),
{
    if links.len() > 0 {
        let k = links.len() - 1;
        assert(net_index.contains_key(links[k].0));
        lemma_sources_into_links(edges.drop_last(), links.drop_last(), net_index, module_index, nodes, m);
        let s = sources_into(edges, module_index[m] as nat);
        let s0 = sources_into(edges.drop_last(), module_index[m] as nat);
        if edges.last().1 == module_index[m] as nat {
            assert forall|j: int| 0 <= j < s.len() implies #[trigger] s[j] < nodes.len() && nodes[s[j] as int]
                == nets_of_module(links, m)[j] by {
                if j > 0 {
                    assert(s[j] == s0[j - 1]);
                }
            }
        }
    }
}

/// The targets of the graph edges out of a net's node are the nodes of the
/// modules linked to that net, in the same order.
proof fn lemma_targets_from_links(
    edges: Seq<(nat, nat)>,
    links: Seq<(Seq<char>, Seq<char>)>,
    net_index: Map<Seq<char>, usize>,
    module_index: Map<Seq<char>, usize>,
    nodes: Seq<Seq<char>>,
    n: Seq<char>,
)
    requires
        edges.len() == links.len(),
        net_index.contains_key(n),
        forall|l: Seq<char>| #[trigger] net_index.contains_key(l) ==> net_index[l] < nodes.len() && nodes[net_index[l] as int] == l,
        forall|l: Seq<char>| #[trigger] module_index.contains_key(l) ==> module_index[l] < nodes.len() && nodes[module_index[l] as int] == l,
        forall|i: int| 0 <= i < links.len() ==> {
            &&& net_index.contains_key((#[trigger] links[i]).0)
            &&& module_index.contains_key(links[i].1)
            &&& edges[i] == (net_index[links[i].0] as nat, module_index[links[i].1] as nat)
        },
    ensures
        ({
            let s = targets_from(edges, net_index[n] as nat);
            let t = modules_of_net(links, n);
            &&& s.len() == t.len()
            &&& forall|j: int| 0 <= j < s.len() ==> #[trigger] s[j] < nodes.len() && nodes[s[j] as int] == t[j]
        }),
    decreases links.len(),
{
    if links.len() > 0 {
        let k = links.len() - 1;
        assert(net_index.contains_key(links[k].0));
        lemma_targets_from_links(edges.drop_last(), links.drop_last(), net_index, module_index, nodes, n);
        let s = targets_from(edges, net_index[n] as nat);
        let s0 = targets_from(edges.drop_last(), net_index[n] as nat);
        if edges.last().0 == net_index[n] as nat {
            assert forall|j: int| 0 <= j < s.len() implies #[trigger] s[j] < nodes.len() && nodes[s[j] as int]
                == modules_of_net(links, n)[j] by {
                if j > 0 {
                    assert(s[j] == s0[j - 1]);
                }
            }
        }
    }
}

/// A netlist under construction.
pub struct Netlist {
    num_pads: i32,
    cost_model: i32,
    grph: Graph<String, ()>,
    modules: Vec<String>,
    nets: Vec<String>,
    num_modules: usize,
    num_nets: usize,
    module_index: StringHashMap<usize>,
    net_index: StringHashMap<usize>,
    module_weight: StringHashMap<i32>,
    net_weight: StringHashMap<i32>,
    module_fixed: StringHashSet,
    max_degree: u32,
    max_net_degree: u32,
    links: Ghost<Seq<(Seq<char>, Seq<char>)>>,
}

impl Netlist {
    /// The module labels, in the order they were added.
    pub closed spec fn modules_view(&self) -> Seq<Seq<char>> {
        self.modules@.map_values(|s: String| s@)
    }

    /// The net labels, in the order they were added.
    pub closed spec fn nets_view(&self) -> Seq<Seq<char>> {
        self.nets@.map_values(|s: String| s@)
    }

    /// The incidence edges as (net, module) label pairs, in the order they
    /// were added.
    pub closed spec fn links_view(&self) -> Seq<(Seq<char>, Seq<char>)> {
        self.links@
    }

    /// The weights set on modules.
    pub closed spec fn module_weights(&self) -> Map<Seq<char>, i32> {
        self.module_weight@
    }

    /// The weights set on nets.
    pub closed spec fn net_weights(&self) -> Map<Seq<char>, i32> {
        self.net_weight@
    }

    /// The modules marked fixed.
    pub closed spec fn fixed_modules(&self) -> Set<Seq<char>> {
        self.module_fixed@
    }

    /// The number of pad (I/O) modules, as configured by a builder.
    pub closed spec fn spec_num_pads(&self) -> i32 {
        self.num_pads
    }

    /// The selector of how consumers compute connectivity cost; opaque here.
    pub closed spec fn spec_cost_model(&self) -> i32 {
        self.cost_model
    }

    /// Everything but the incidence edges is the same in `self` and `o`.
    pub open spec fn same_entities(&self, o: &Netlist) -> bool {
        &&& self.modules_view() == o.modules_view()
        &&& self.nets_view() == o.nets_view()
        &&& self.module_weights() == o.module_weights()
        &&& self.net_weights() == o.net_weights()
        &&& self.fixed_modules() == o.fixed_modules()
        &&& self.spec_num_pads() == o.spec_num_pads()
        &&& self.spec_cost_model() == o.spec_cost_model()
    }

    /// Labels and node indices of one namespace agree with the graph.
    closed spec fn index_wf(
        labels: Seq<Seq<char>>,
        index: Map<Seq<char>, usize>,
        nodes: Seq<Seq<char>>,
    ) -> bool {
        &&& labels.no_duplicates()
        &&& forall|l: Seq<char>| #[trigger] index.contains_key(l) <==> labels.contains(l)
        &&& forall|l: Seq<char>| #[trigger] index.contains_key(l) ==> {
            &&& index[l] < nodes.len()
            &&& nodes[index[l] as int] == l
        }
    }

    /// The netlist's invariant.
    pub closed spec fn wf(&self) -> bool {
        let nodes = graph_nodes(self.grph);
        let edges = graph_edges(self.grph);
        let links = self.links@;
        &&& self.num_modules == self.modules.len()
        &&& self.num_nets == self.nets.len()
        &&& nodes.len() == self.modules.len() + self.nets.len()
        &&& nodes.len() <= INDEX_LIMIT
        &&& Self::index_wf(self.modules_view(), self.module_index@, nodes)
        &&& Self::index_wf(self.nets_view(), self.net_index@, nodes)
        &&& edges.len() == links.len()
        &&& links.len() <= INDEX_LIMIT
        &&& links.no_duplicates()
        &&& forall|i: int| 0 <= i < links.len() ==> {
            &&& self.net_index@.contains_key((#[trigger] links[i]).0)
            &&& self.module_index@.contains_key(links[i].1)
            &&& edges[i] == (self.net_index@[links[i].0] as nat, self.module_index@[links[i].1] as nat)
        }
        &&& self.max_degree == max_module_degree_in(links, self.modules_view())
        &&& self.max_net_degree == max_net_degree_in(links, self.nets_view())
        &&& forall|l: Seq<char>| #[trigger] self.module_weight@.contains_key(l) ==> self.modules_view().contains(l)
        &&& forall|l: Seq<char>| #[trigger] self.net_weight@.contains_key(l) ==> self.nets_view().contains(l)
        &&& forall|l: Seq<char>| #[trigger] self.module_fixed@.contains(l) ==> self.modules_view().contains(l)
    }

    /// In a netlist, labels are unique within each namespace, every link
    /// joins a registered net to a registered module, and no link repeats.
    pub proof fn lemma_registry_integrity(&self)
        requires
            self.wf(),
        ensures
            self.modules_view().no_duplicates(),
            self.nets_view().no_duplicates(),
            self.links_view().no_duplicates(),
            forall|i: int| 0 <= i < self.links_view().len() ==> {
                &&& self.nets_view().contains((#[trigger] self.links_view()[i]).0)
                &&& self.modules_view().contains(self.links_view()[i].1)
            },
            forall|m: Seq<char>| #[trigger] self.module_weights().contains_key(m) ==> self.modules_view().contains(m),
            forall|n: Seq<char>| #[trigger] self.net_weights().contains_key(n) ==> self.nets_view().contains(n),
            forall|m: Seq<char>| #[trigger] self.fixed_modules().contains(m) ==> self.modules_view().contains(m),
    {
        assert forall|i: int| 0 <= i < self.links_view().len() implies {
            &&& self.nets_view().contains((#[trigger] self.links_view()[i]).0)
            &&& self.modules_view().contains(self.links_view()[i].1)
        } by {
            assert(self.net_index@.contains_key(self.links@[i].0));
        }
    }

    /// The degree of module `m` is the number of distinct nets connected to
    /// it.
    pub proof fn lemma_degree_is_distinct_nets(&self, m: Seq<char>)
        requires
            self.wf(),
        ensures
            nets_joined_to(self.links_view(), m).finite(),
            nets_joined_to(self.links_view(), m).len() == module_degree_in(self.links_view(), m),
    {
        lemma_degree_counts_distinct_nets(self.links@, m);
    }

    /// The degree of net `n` is the number of distinct modules connected to
    /// it.
    pub proof fn lemma_net_degree_is_distinct_modules(&self, n: Seq<char>)
        requires
            self.wf(),
        ensures
            modules_joined_to(self.links_view(), n).finite(),
            modules_joined_to(self.links_view(), n).len() == net_degree_in(self.links_view(), n),
    {
        lemma_net_degree_counts_distinct_modules(self.links@, n);
    }

    /// The maximum module degree is the degree of the densest module: no
    /// module's degree exceeds it and, when there is a module, one reaches it.
    pub proof fn lemma_max_degree_is_densest(&self)
        requires
            self.wf(),
        ensures
            forall|m: Seq<char>| #[trigger] self.modules_view().contains(m) ==> module_degree_in(self.links_view(), m)
                <= max_module_degree_in(self.links_view(), self.modules_view()),
            self.modules_view().len() > 0 ==> exists|i: int| 0 <= i < self.modules_view().len()
                && module_degree_in(self.links_view(), #[trigger] self.modules_view()[i])
                == max_module_degree_in(self.links_view(), self.modules_view()),
    {
        lemma_max_degree_is_maximum(self.links@, self.modules_view());
    }

    /// The maximum net degree is the degree of the densest net: no net's
    /// degree exceeds it and, when there is a net, one reaches it.
    pub proof fn lemma_max_net_degree_is_densest(&self)
        requires
            self.wf(),
        ensures
            forall|n: Seq<char>| #[trigger] self.nets_view().contains(n) ==> net_degree_in(self.links_view(), n)
                <= max_net_degree_in(self.links_view(), self.nets_view()),
            self.nets_view().len() > 0 ==> exists|i: int| 0 <= i < self.nets_view().len()
                && net_degree_in(self.links_view(), #[trigger] self.nets_view()[i])
                == max_net_degree_in(self.links_view(), self.nets_view()),
    {
        lemma_max_net_degree_is_maximum(self.links@, self.nets_view());
    }

    /// An empty netlist.
    pub fn new() -> (r: Netlist)
        ensures
            r.wf(),
            r.modules_view() == Seq::<Seq<char>>::empty(),
            r.nets_view() == Seq::<Seq<char>>::empty(),
            r.links_view() == Seq::<(Seq<char>, Seq<char>)>::empty(),
            r.module_weights() == Map::<Seq<char>, i32>::empty(),
            r.net_weights() == Map::<Seq<char>, i32>::empty(),
            r.fixed_modules() == Set::<Seq<char>>::empty(),
            r.spec_num_pads() == 0,
            r.spec_cost_model() == 0,
    {
        let r = Netlist {
            num_pads: 0,
            cost_model: 0,
            grph: graph_new(),
            modules: Vec::new(),
            nets: Vec::new(),
            num_modules: 0,
            num_nets: 0,
            module_index: StringHashMap::new(),
            net_index: StringHashMap::new(),
            module_weight: StringHashMap::new(),
            net_weight: StringHashMap::new(),
            module_fixed: StringHashSet::new(),
            max_degree: 0,
            max_net_degree: 0,
            links: Ghost(Seq::empty()),
        };
        assert(r.modules_view() =~= Seq::<Seq<char>>::empty());
        assert(r.nets_view() =~= Seq::<Seq<char>>::empty());
        r
    }

    /// Registers a module labelled `module`, with no weight, not fixed, and no
    /// connections.
    ///
    /// Fails with `DuplicateEntity`, changing nothing, if the label is
    /// already a module label.
    pub fn add_module(&mut self, module: String) -> (r: Result<(), NetlistError>)
        requires
            old(self).wf(),
            old(self).modules_view().len() + old(self).nets_view().len() < INDEX_LIMIT,
        ensures
            final(self).wf(),
            old(self).modules_view().contains(module@) ==> r == Err::<(), NetlistError>(NetlistError::DuplicateEntity)
                && *final(self) == *old(self),
            !old(self).modules_view().contains(module@) ==> {
                &&& r == Ok::<(), NetlistError>(())
                &&& final(self).modules_view() == old(self).modules_view().push(module@)
                &&& final(self).nets_view() == old(self).nets_view()
                &&& final(self).links_view() == old(self).links_view()
                &&& final(self).module_weights() == old(self).module_weights()
                &&& final(self).net_weights() == old(self).net_weights()
                &&& final(self).fixed_modules() == old(self).fixed_modules()
                &&& final(self).spec_num_pads() == old(self).spec_num_pads()
                &&& final(self).spec_cost_model() == old(self).spec_cost_model()
            },
    {
        if self.module_index.contains_key(module.as_str()) {
            return Err(NetlistError::DuplicateEntity);
        }
        let ghost old_view = self.modules_view();
        let ghost old_index = self.module_index@;
        let ghost old_nodes = graph_nodes(self.grph);
        let ghost links = self.links@;
        let i = graph_add_node(&mut self.grph, module.clone());
        self.module_index.insert(module.clone(), i);
        self.modules.push(module);
        self.num_modules = self.modules.len();
        proof {
            let nodes = graph_nodes(self.grph);
            assert(self.modules_view() =~= old_view.push(module@));
            assert forall|l: Seq<char>| #[trigger] old_index.contains_key(l) implies nodes[old_index[l] as int]
                == old_nodes[old_index[l] as int] by {}
            assert forall|l: Seq<char>| #[trigger] self.module_index@.contains_key(l) <==> self.modules_view().contains(l) by {
                lemma_contains_split(self.modules_view(), l);
                assert(self.modules_view().drop_last() =~= old_view);
            }
            assert(self.modules_view().no_duplicates()) by {
                assert forall|a: int, b: int| 0 <= a < b < self.modules_view().len()
                    implies self.modules_view()[a] != self.modules_view()[b] by {
                    if b == old_view.len() {
                        assert(old_view.contains(old_view[a]));
                    }
                }
            }
            assert forall|k: int| 0 <= k < links.len() implies (#[trigger] links[k]).1 != module@ by {
                assert(old_index.contains_key(links[k].1));
            }
            lemma_module_degree_untouched(links, module@);
            assert(self.modules_view().drop_last() =~= old_view);
        }
        Ok(())
    }

    /// Registers a net labelled `net`, with no weight and no
    /// connections.
    ///
    /// Fails with `DuplicateEntity`, changing nothing, if the label is
    /// already a net label.
    pub fn add_net(&mut self, net: String) -> (r: Result<(), NetlistError>)
        requires
            old(self).wf(),
            old(self).modules_view().len() + old(self).nets_view().len() < INDEX_LIMIT,
        ensures
            final(self).wf(),
            old(self).nets_view().contains(net@) ==> r == Err::<(), NetlistError>(NetlistError::DuplicateEntity)
                && *final(self) == *old(self),
            !old(self).nets_view().contains(net@) ==> {
                &&& r == Ok::<(), NetlistError>(())
                &&& final(self).nets_view() == old(self).nets_view().push(net@)
                &&& final(self).modules_view() == old(self).modules_view()
                &&& final(self).links_view() == old(self).links_view()
                &&& final(self).module_weights() == old(self).module_weights()
                &&& final(self).net_weights() == old(self).net_weights()
                &&& final(self).fixed_modules() == old(self).fixed_modules()
                &&& final(self).spec_num_pads() == old(self).spec_num_pads()
                &&& final(self).spec_cost_model() == old(self).spec_cost_model()
            },
    {
        if self.net_index.contains_key(net.as_str()) {
            return Err(NetlistError::DuplicateEntity);
        }
        let ghost old_view = self.nets_view();
        let ghost old_index = self.net_index@;
        let ghost old_nodes = graph_nodes(self.grph);
        let ghost links = self.links@;
        let i = graph_add_node(&mut self.grph, net.clone());
        self.net_index.insert(net.clone(), i);
        self.nets.push(net);
        self.num_nets = self.nets.len();
        proof {
            let nodes = graph_nodes(self.grph);
            assert(self.nets_view() =~= old_view.push(net@));
            assert forall|l: Seq<char>| #[trigger] old_index.contains_key(l) implies nodes[old_index[l] as int]
                == old_nodes[old_index[l] as int] by {}
            assert forall|l: Seq<char>| #[trigger] self.net_index@.contains_key(l) <==> self.nets_view().contains(l) by {
                lemma_contains_split(self.nets_view(), l);
                assert(self.nets_view().drop_last() =~= old_view);
            }
            assert(self.nets_view().no_duplicates()) by {
                assert forall|a: int, b: int| 0 <= a < b < self.nets_view().len()
                    implies self.nets_view()[a] != self.nets_view()[b] by {
                    if b == old_view.len() {
                        assert(old_view.contains(old_view[a]));
                    }
                }
            }
            assert forall|k: int| 0 <= k < links.len() implies (#[trigger] links[k]).0 != net@ by {
                assert(old_index.contains_key(links[k].0));
            }
            lemma_net_degree_untouched(links, net@);
            assert(self.nets_view().drop_last() =~= old_view);
        }
        Ok(())
    }

    /// Connects net `net` to module `module`.
    ///
    /// Fails with `MissingEntity`, changing nothing, unless both labels are
    /// registered. A connection that already exists is kept as it is.
    pub fn add_edge(&mut self, net: &str, module: &str) -> (r: Result<(), NetlistError>)
        requires
            old(self).wf(),
            old(self).links_view().len() < INDEX_LIMIT,
        ensures
            final(self).wf(),
            !(old(self).nets_view().contains(net@) && old(self).modules_view().contains(module@))
                ==> r == Err::<(), NetlistError>(NetlistError::MissingEntity) && *final(self) == *old(self),
            (old(self).nets_view().contains(net@) && old(self).modules_view().contains(module@)) ==> {
                &&& r == Ok::<(), NetlistError>(())
                &&& final(self).same_entities(old(self))
                &&& final(self).links_view() == if old(self).links_view().contains((net@, module@)) {
                    old(self).links_view()
                } else {
                    old(self).links_view().push((net@, module@))
                }
            },
    {
        let ni = match self.net_index.get(net) {
            Some(i) => *i,
            None => {
                return Err(NetlistError::MissingEntity);
            },
        };
        let mi = match self.module_index.get(module) {
            Some(i) => *i,
            None => {
                return Err(NetlistError::MissingEntity);
            },
        };
        let ghost links = self.links@;
        let ghost x = (net@, module@);
        let ghost edges = graph_edges(self.grph);
        proof {
            assert(edges.contains((ni as nat, mi as nat)) <==> links.contains(x)) by {
                if edges.contains((ni as nat, mi as nat)) {
                    let i = choose|i: int| 0 <= i < edges.len() && edges[i] == (ni as nat, mi as nat);
                    assert(self.net_index@.contains_key(links[i].0));
                    assert(links[i] == x);
                }
                if links.contains(x) {
                    let i = choose|i: int| 0 <= i < links.len() && links[i] == x;
                    assert(self.net_index@.contains_key(links[i].0));
                    assert(edges[i] == (ni as nat, mi as nat));
                }
            }
        }
        if graph_contains_edge(&self.grph, ni, mi) {
            return Ok(());
        }
        graph_add_edge(&mut self.grph, ni, mi);
        self.links = Ghost(links.push(x));
        let ghost new_links = self.links@;
        proof {
            assert(new_links.drop_last() =~= links);
            assert forall|i: int| 0 <= i < new_links.len() implies {
                &&& self.net_index@.contains_key((#[trigger] new_links[i]).0)
                &&& self.module_index@.contains_key(new_links[i].1)
                &&& graph_edges(self.grph)[i] == (self.net_index@[new_links[i].0] as nat,
                    self.module_index@[new_links[i].1] as nat)
            } by {
                if i < links.len() {
                    assert(new_links[i] == links[i]);
                    assert(self.net_index@.contains_key(links[i].0));
                }
            }
            assert(new_links.no_duplicates()) by {
                assert forall|i: int, j: int| 0 <= i < j < new_links.len() implies new_links[i] != new_links[j] by {
                    if j == links.len() {
                        assert(links[i] == new_links[i]);
                    } else {
                        assert(links[i] == new_links[i] && links[j] == new_links[j]);
                    }
                }
            }
            lemma_sources_into_links(graph_edges(self.grph), new_links, self.net_index@,
                self.module_index@, graph_nodes(self.grph), module@);
            lemma_targets_from_links(graph_edges(self.grph), new_links, self.net_index@,
                self.module_index@, graph_nodes(self.grph), net@);
            lemma_nets_of_module_len(new_links, module@);
            lemma_modules_of_net_len(new_links, net@);
            lemma_module_degree_bound(new_links, module@);
            lemma_net_degree_bound(new_links, net@);
            lemma_max_module_degree_push(links, x, self.modules_view());
            lemma_max_net_degree_push(links, x, self.nets_view());
        }
        let into = graph_neighbors(&self.grph, mi, true);
        assert(into@.map_values(|j: usize| j as nat).len() == into@.len());
        let d = into.len();
        if d as u32 > self.max_degree {
            self.max_degree = d as u32;
        }
        let from = graph_neighbors(&self.grph, ni, false);
        assert(from@.map_values(|j: usize| j as nat).len() == from@.len());
        let dn = from.len();
        if dn as u32 > self.max_net_degree {
            self.max_net_degree = dn as u32;
        }
        Ok(())
    }

    /// The number of distinct nets connected to module `module`.
    ///
    /// Fails with `MissingEntity` if no module has that label.
    pub fn degree(&self, module: &str) -> (r: Result<usize, NetlistError>)
        requires
            self.wf(),
        ensures
            self.modules_view().contains(module@) ==> r == Ok::<usize, NetlistError>(
                module_degree_in(self.links_view(), module@) as usize,
            ),
            !self.modules_view().contains(module@) ==> r == Err::<usize, NetlistError>(
                NetlistError::MissingEntity,
            ),
    {
        match self.module_index.get(module) {
            Some(i) => {
                let v = graph_neighbors(&self.grph, *i, true);
                proof {
                    lemma_sources_into_links(graph_edges(self.grph), self.links@, self.net_index@,
                        self.module_index@, graph_nodes(self.grph), module@);
                    lemma_nets_of_module_len(self.links@, module@);
                    assert(v@.map_values(|j: usize| j as nat).len() == v@.len());
                }
                Ok(v.len())
            },
            None => Err(NetlistError::MissingEntity),
        }
    }

    /// The number of distinct modules connected to net `net`.
    ///
    /// Fails with `MissingEntity` if no net has that label.
    pub fn net_degree(&self, net: &str) -> (r: Result<usize, NetlistError>)
        requires
            self.wf(),
        ensures
            self.nets_view().contains(net@) ==> r == Ok::<usize, NetlistError>(
                net_degree_in(self.links_view(), net@) as usize,
            ),
            !self.nets_view().contains(net@) ==> r == Err::<usize, NetlistError>(
                NetlistError::MissingEntity,
            ),
    {
        match self.net_index.get(net) {
            Some(i) => {
                let v = graph_neighbors(&self.grph, *i, false);
                proof {
                    lemma_targets_from_links(graph_edges(self.grph), self.links@, self.net_index@,
                        self.module_index@, graph_nodes(self.grph), net@);
                    lemma_modules_of_net_len(self.links@, net@);
                    assert(v@.map_values(|j: usize| j as nat).len() == v@.len());
                }
                Ok(v.len())
            },
            None => Err(NetlistError::MissingEntity),
        }
    }

    /// The nets connected to module `module`, the most recently connected
    /// first.
    ///
    /// Fails with `MissingEntity` if no module has that label.
    pub fn neighbors(&self, module: &str) -> (r: Result<Vec<String>, NetlistError>)
        requires
            self.wf(),
        ensures
            match r {
                Ok(v) => self.modules_view().contains(module@) && v@.map_values(|s: String| s@) == nets_of_module(
                    self.links_view(),
                    module@,
                ),
                Err(e) => !self.modules_view().contains(module@) && e == NetlistError::MissingEntity,
            },
    {
        let a = match self.module_index.get(module) {
            Some(i) => *i,
            None => {
                return Err(NetlistError::MissingEntity);
            },
        };
        let ghost nodes = graph_nodes(self.grph);
        let ghost want = nets_of_module(self.links@, module@);
        let ids = graph_neighbors(&self.grph, a, true);
        proof {
            lemma_sources_into_links(graph_edges(self.grph), self.links@, self.net_index@, self.module_index@, nodes, module@);
            assert forall|j: int| 0 <= j < ids@.len() implies #[trigger] ids@[j] < nodes.len() && nodes[ids@[j] as int]
                == want[j] by {
                assert(ids@.map_values(|i: usize| i as nat)[j] == ids@[j] as nat);
            }
        }
        let mut out: Vec<String> = Vec::new();
        let mut k: usize = 0;
        while k < ids.len()
            invariant
                self.wf(),
                nodes == graph_nodes(self.grph),
                ids@.len() == want.len(),
                forall|j: int| 0 <= j < ids@.len() ==> #[trigger] ids@[j] < nodes.len() && nodes[ids@[j] as int] == want[j],
                k <= ids@.len(),
                out@.len() == k,
                forall|j: int| 0 <= j < k ==> (#[trigger] out@[j])@ == want[j],
            decreases ids@.len() - k,
        {
            let label = graph_node_label(&self.grph, ids[k]);
            out.push(label);
            k = k + 1;
        }
        assert(out@.map_values(|s: String| s@) =~= want);
        Ok(out)
    }

    /// The modules connected to net `net`, the most recently connected
    /// first.
    ///
    /// Fails with `MissingEntity` if no net has that label.
    pub fn net_neighbors(&self, net: &str) -> (r: Result<Vec<String>, NetlistError>)
        requires
            self.wf(),
        ensures
            match r {
                Ok(v) => self.nets_view().contains(net@) && v@.map_values(|s: String| s@) == modules_of_net(
                    self.links_view(),
                    net@,
                ),
                Err(e) => !self.nets_view().contains(net@) && e == NetlistError::MissingEntity,
            },
    {
        let a = match self.net_index.get(net) {
            Some(i) => *i,
            None => {
                return Err(NetlistError::MissingEntity);
            },
        };
        let ghost nodes = graph_nodes(self.grph);
        let ghost want = modules_of_net(self.links@, net@);
        let ids = graph_neighbors(&self.grph, a, false);
        proof {
            lemma_targets_from_links(graph_edges(self.grph), self.links@, self.net_index@, self.module_index@, nodes, net@);
            assert forall|j: int| 0 <= j < ids@.len() implies #[trigger] ids@[j] < nodes.len() && nodes[ids@[j] as int]
                == want[j] by {
                assert(ids@.map_values(|i: usize| i as nat)[j] == ids@[j] as nat);
            }
        }
        let mut out: Vec<String> = Vec::new();
        let mut k: usize = 0;
        while k < ids.len()
            invariant
                self.wf(),
                nodes == graph_nodes(self.grph),
                ids@.len() == want.len(),
                forall|j: int| 0 <= j < ids@.len() ==> #[trigger] ids@[j] < nodes.len() && nodes[ids@[j] as int] == want[j],
                k <= ids@.len(),
                out@.len() == k,
                forall|j: int| 0 <= j < k ==> (#[trigger] out@[j])@ == want[j],
            decreases ids@.len() - k,
        {
            let label = graph_node_label(&self.grph, ids[k]);
            out.push(label);
            k = k + 1;
        }
        assert(out@.map_values(|s: String| s@) =~= want);
        Ok(out)
    }

    /// Sets, or overwrites, the weight of module `module`.
    ///
    /// Fails with `MissingEntity`, changing nothing, if no module has that
    /// label.
    pub fn set_module_weight(&mut self, module: &str, weight: i32) -> (r: Result<(), NetlistError>)
        requires
            old(self).wf(),
        ensures
            final(self).wf(),
            !old(self).modules_view().contains(module@) ==> r == Err::<(), NetlistError>(
                NetlistError::MissingEntity,
            ) && *final(self) == *old(self),
            old(self).modules_view().contains(module@) ==> {
                &&& r == Ok::<(), NetlistError>(())
                &&& final(self).module_weights() == old(self).module_weights().insert(module@, weight)
                &&& final(self).modules_view() == old(self).modules_view()
                &&& final(self).nets_view() == old(self).nets_view()
                &&& final(self).links_view() == old(self).links_view()
                &&& final(self).net_weights() == old(self).net_weights()
                &&& final(self).fixed_modules() == old(self).fixed_modules()
                &&& final(self).spec_num_pads() == old(self).spec_num_pads()
                &&& final(self).spec_cost_model() == old(self).spec_cost_model()
            },
    {
        if !self.module_index.contains_key(module) {
            return Err(NetlistError::MissingEntity);
        }
        self.module_weight.insert(module.to_string(), weight);
        Ok(())
    }

    /// Sets, or overwrites, the weight of net `net`.
    ///
    /// Fails with `MissingEntity`, changing nothing, if no net has that label.
    pub fn set_net_weight(&mut self, net: &str, weight: i32) -> (r: Result<(), NetlistError>)
        requires
            old(self).wf(),
        ensures
            final(self).wf(),
            !old(self).nets_view().contains(net@) ==> r == Err::<(), NetlistError>(
                NetlistError::MissingEntity,
            ) && *final(self) == *old(self),
            old(self).nets_view().contains(net@) ==> {
                &&& r == Ok::<(), NetlistError>(())
                &&& final(self).net_weights() == old(self).net_weights().insert(net@, weight)
                &&& final(self).modules_view() == old(self).modules_view()
                &&& final(self).nets_view() == old(self).nets_view()
                &&& final(self).links_view() == old(self).links_view()
                &&& final(self).module_weights() == old(self).module_weights()
                &&& final(self).fixed_modules() == old(self).fixed_modules()
                &&& final(self).spec_num_pads() == old(self).spec_num_pads()
                &&& final(self).spec_cost_model() == old(self).spec_cost_model()
            },
    {
        if !self.net_index.contains_key(net) {
            return Err(NetlistError::MissingEntity);
        }
        self.net_weight.insert(net.to_string(), weight);
        Ok(())
    }

    /// Marks module `module` as fixed; marking it again changes nothing.
    ///
    /// Fails with `MissingEntity`, changing nothing, if no module has that
    /// label.
    pub fn mark_fixed(&mut self, module: &str) -> (r: Result<(), NetlistError>)
        requires
            old(self).wf(),
        ensures
            final(self).wf(),
            !old(self).modules_view().contains(module@) ==> r == Err::<(), NetlistError>(
                NetlistError::MissingEntity,
            ) && *final(self) == *old(self),
            old(self).modules_view().contains(module@) ==> {
                &&& r == Ok::<(), NetlistError>(())
                &&& final(self).fixed_modules() == old(self).fixed_modules().insert(module@)
                &&& final(self).modules_view() == old(self).modules_view()
                &&& final(self).nets_view() == old(self).nets_view()
                &&& final(self).links_view() == old(self).links_view()
                &&& final(self).module_weights() == old(self).module_weights()
                &&& final(self).net_weights() == old(self).net_weights()
                &&& final(self).spec_num_pads() == old(self).spec_num_pads()
                &&& final(self).spec_cost_model() == old(self).spec_cost_model()
            },
    {
        if !self.module_index.contains_key(module) {
            return Err(NetlistError::MissingEntity);
        }
        self.module_fixed.insert(module.to_string());
        Ok(())
    }

    /// The weight of module `module`, or `None` if it has none, including
    /// when no module has that label.
    pub fn module_weight(&self, module: &str) -> (r: Option<i32>)
        ensures
            self.module_weights().contains_key(module@) ==> r == Some(self.module_weights()[module@]),
            !self.module_weights().contains_key(module@) ==> r == None::<i32>,
    {
        match self.module_weight.get(module) {
            Some(w) => Some(*w),
            None => None,
        }
    }

    /// The weight of net `net`, or `None` if it has none, including when no
    /// net has that label.
    pub fn net_weight(&self, net: &str) -> (r: Option<i32>)
        ensures
            self.net_weights().contains_key(net@) ==> r == Some(self.net_weights()[net@]),
            !self.net_weights().contains_key(net@) ==> r == None::<i32>,
    {
        match self.net_weight.get(net) {
            Some(w) => Some(*w),
            None => None,
        }
    }

    /// Whether module `module` is marked fixed.
    pub fn is_fixed(&self, module: &str) -> (r: bool)
        ensures
            r == self.fixed_modules().contains(module@),
    {
        self.module_fixed.contains(module)
    }

    /// The number of modules.
    pub fn num_modules(&self) -> (r: usize)
        requires
            self.wf(),
        ensures
            r == self.modules_view().len(),
    {
        self.num_modules
    }

    /// The number of nets.
    pub fn num_nets(&self) -> (r: usize)
        requires
            self.wf(),
        ensures
            r == self.nets_view().len(),
    {
        self.num_nets
    }

    /// The module labels, in the order they were added.
    pub fn modules(&self) -> (r: &Vec<String>)
        ensures
            r@.map_values(|s: String| s@) == self.modules_view(),
    {
        &self.modules
    }

    /// The net labels, in the order they were added.
    pub fn nets(&self) -> (r: &Vec<String>)
        ensures
            r@.map_values(|s: String| s@) == self.nets_view(),
    {
        &self.nets
    }

    /// The number of nodes of the incidence graph: one per module and one per
    /// net.
    pub fn node_count(&self) -> (r: usize)
        requires
            self.wf(),
        ensures
            r == self.modules_view().len() + self.nets_view().len(),
    {
        graph_node_count(&self.grph)
    }

    /// The number of edges of the incidence graph: one per connected
    /// (net, module) pair.
    pub fn edge_count(&self) -> (r: usize)
        requires
            self.wf(),
        ensures
            r == self.links_view().len(),
    {
        graph_edge_count(&self.grph)
    }

    /// The largest degree of any module, or 0 if there are no modules.
    pub fn max_degree(&self) -> (r: u32)
        requires
            self.wf(),
        ensures
            r == max_module_degree_in(self.links_view(), self.modules_view()),
    {
        self.max_degree
    }

    /// The largest degree of any net, or 0 if there are no nets.
    pub fn max_net_degree(&self) -> (r: u32)
        requires
            self.wf(),
        ensures
            r == max_net_degree_in(self.links_view(), self.nets_view()),
    {
        self.max_net_degree
    }

    /// The number of pad (I/O) modules.
    pub fn num_pads(&self) -> (r: i32)
        ensures
            r == self.spec_num_pads(),
    {
        self.num_pads
    }

    /// The connectivity cost selector.
    pub fn cost_model(&self) -> (r: i32)
        ensures
            r == self.spec_cost_model(),
    {
        self.cost_model
    }

    /// Sets the number of pad (I/O) modules.
    ///
    /// Fails with `InvalidConfiguration`, changing nothing, on a negative
    /// count.
    pub fn set_num_pads(&mut self, num_pads: i32) -> (r: Result<(), NetlistError>)
        requires
            old(self).wf(),
        ensures
            final(self).wf(),
            num_pads < 0 ==> r == Err::<(), NetlistError>(NetlistError::InvalidConfiguration)
                && *final(self) == *old(self),
            num_pads >= 0 ==> {
                &&& r == Ok::<(), NetlistError>(())
                &&& final(self).spec_num_pads() == num_pads
                &&& final(self).spec_cost_model() == old(self).spec_cost_model()
                &&& final(self).links_view() == old(self).links_view()
                &&& final(self).modules_view() == old(self).modules_view()
                &&& final(self).nets_view() == old(self).nets_view()
                &&& final(self).module_weights() == old(self).module_weights()
                &&& final(self).net_weights() == old(self).net_weights()
                &&& final(self).fixed_modules() == old(self).fixed_modules()
            },
    {
        if num_pads < 0 {
            return Err(NetlistError::InvalidConfiguration);
        }
        self.num_pads = num_pads;
        Ok(())
    }

    /// Sets the connectivity cost selector.
    pub fn set_cost_model(&mut self, cost_model: i32)
        requires
            old(self).wf(),
        ensures
            final(self).wf(),
            final(self).spec_cost_model() == cost_model,
            final(self).spec_num_pads() == old(self).spec_num_pads(),
            final(self).links_view() == old(self).links_view(),
            final(self).modules_view() == old(self).modules_view(),
            final(self).nets_view() == old(self).nets_view(),
            final(self).module_weights() == old(self).module_weights(),
            final(self).net_weights() == old(self).net_weights(),
            final(self).fixed_modules() == old(self).fixed_modules(),
    {
        self.cost_model = cost_model;
    }
}

impl Default for Netlist {
    /// An empty netlist, as `Netlist::new` makes it.
    fn default() -> (r: Netlist)
        ensures
            r.wf(),
            r.modules_view() == Seq::<Seq<char>>::empty(),
            r.nets_view() == Seq::<Seq<char>>::empty(),
            r.links_view() == Seq::<(Seq<char>, Seq<char>)>::empty(),
            r.module_weights() == Map::<Seq<char>, i32>::empty(),
            r.net_weights() == Map::<Seq<char>, i32>::empty(),
            r.fixed_modules() == Set::<Seq<char>>::empty(),
            r.spec_num_pads() == 0,
            r.spec_cost_model() == 0,
    {
        Netlist::new()
    }
}

} // verus!
