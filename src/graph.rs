//! The graph is a set of named vertices and directed edges between them.
use std::collections::hash_map::DefaultHasher;
use std::collections::HashMap;
use std::hash::Hasher;
use vstd::prelude::*;
use vstd::std_specs::hash::group_hash_axioms;
use vstd::std_specs::hash::DefaultHasherAdditionalSpecFns;
use vstd::utf8::encode_utf8;

verus! {

broadcast use group_hash_axioms;

/// A directed edge between two vertices, given by their indices.
#[derive(Debug, Clone, Copy, PartialEq, Eq, Structural)]
pub struct Edge {
    pub src: usize,
    pub trg: usize,
}

impl Edge {
    /// Create an edge from `from` to `to`.
    pub fn new(from: usize, to: usize) -> (r: Edge)
        ensures
            r.src == from,
            r.trg == to,
    {
        Edge { src: from, trg: to }
    }
}

/// The names after registering `name`: unchanged if it is there, else with
/// `name` appended.
pub open spec fn registered(names: Seq<Seq<char>>, name: Seq<char>) -> Seq<Seq<char>> {
    if names.contains(name) {
        names
    } else {
        names.push(name)
    }
}

/// The index that registering `name` gives: its position if it is there,
/// else the next free index.
pub open spec fn vertex_index(names: Seq<Seq<char>>, name: Seq<char>) -> nat {
    if names.contains(name) {
        (choose|i: int| 0 <= i < names.len() && names[i] == name) as nat
    } else {
        names.len()
    }
}

/// The hash of a name: the `DefaultHasher` digest of its UTF-8 bytes.
pub open spec fn name_hash(name: Seq<char>) -> u64 {
    DefaultHasher::spec_finish(seq![encode_utf8(name)])
}

/// Hash a name with a fresh `DefaultHasher`.
fn hash_of(name: &str) -> (h: u64)
    ensures
        h == name_hash(name@),
{
    let mut hasher = DefaultHasher::new();
    hasher.write(name.as_bytes());
    let h = hasher.finish();
    assert(hasher@ =~= seq![encode_utf8(name@)]);
    h
}

/// A graph of `n` named vertices, indexed `0..n`, and a list of directed edges.
///
/// Names are registered in a two-way table: `names` gives the name of each
/// index, and `index` maps the hash of a name to the indices of the names
/// with that hash.
#[derive(Debug, Clone, PartialEq)]
pub struct Graph {
    pub n: usize,
    pub names: Vec<String>,
    pub index: HashMap<u64, Vec<usize>>,
    pub edges: Vec<Edge>,
}

impl Graph {
    /// The name of each vertex, by index.
    pub open spec fn names(&self) -> Seq<Seq<char>> {
        self.names@.map_values(|s: String| s@)
    }

    /// The edges as pairs of vertex indices.
    pub open spec fn edge_pairs(&self) -> Seq<(nat, nat)> {
        self.edges@.map_values(|e: Edge| (e.src as nat, e.trg as nat))
    }

    /// The hash index lists every vertex under the hash of its name, and
    /// only there.
    pub open spec fn index_consistent(&self) -> bool {
        &&& forall|h: u64, k: int|
            #![trigger self.index@[h]@[k]]
            self.index@.contains_key(h) && 0 <= k < self.index@[h]@.len() ==> {
                let v = self.index@[h]@[k];
                v < self.names@.len() && name_hash(self.names@[v as int]@) == h
            }
        &&& forall|v: int|
            #![trigger self.names@[v]]
            0 <= v < self.names@.len() ==> self.index@.contains_key(name_hash(self.names@[v]@))
                && self.index@[name_hash(self.names@[v]@)]@.contains(v as usize)
    }

    /// `n` counts the names, the names are distinct and indexed, and every
    /// edge joins two vertices of the graph.
    pub open spec fn well_formed(&self) -> bool {
        &&& self.n == self.names().len()
        &&& self.names().no_duplicates()
        &&& self.index_consistent()
        &&& forall|k: int|
            0 <= k < self.edges@.len() ==> #[trigger] self.edges@[k].src < self.n
                && self.edges@[k].trg < self.n
    }

    /// Create a new empty graph.
    pub fn new() -> (g: Graph)
        ensures
            g.well_formed(),
            g.n == 0,
            g.names() == Seq::<Seq<char>>::empty(),
            g.edges@ == Seq::<Edge>::empty(),
    {
        let g = Graph { n: 0, names: Vec::new(), index: HashMap::new(), edges: Vec::new() };
        assert(g.names() =~= Seq::<Seq<char>>::empty());
        g
    }

    /// Add a vertex named `name`, or look up the index of the vertex that
    /// already has that name.
    pub fn add_vertex(&mut self, name: &str) -> (r: usize)
        requires
            old(self).well_formed(),
        ensures
            final(self).well_formed(),
            r == vertex_index(old(self).names(), name@),
            final(self).names() == registered(old(self).names(), name@),
            final(self).n == final(self).names().len(),
            final(self).edges == old(self).edges,
    {
        let ghost names = self.names();
        let h = hash_of(name);
        let key = name.to_owned();
        match self.index.get(&h) {
            Some(bucket) => {
                let mut k: usize = 0;
                while k < bucket.len()
                    invariant
                        names == self.names(),
                        self.well_formed(),
                        key@ == name@,
                        h == name_hash(name@),
                        self.index@.contains_key(h),
                        bucket@ == self.index@[h]@,
                        k <= bucket@.len(),
                        forall|q: int| 0 <= q < k ==> names[bucket@[q] as int] != name@,
                    decreases bucket@.len() - k,
                {
                    let i = bucket[k];
                    assert(i < self.names@.len());
                    assert(names[i as int] == self.names@[i as int]@);
                    if self.names[i].eq(&key) {
                        assert(names.contains(name@)) by {
                            assert(names[i as int] == name@);
                        }
                        let ghost j = choose|j: int| 0 <= j < names.len() && names[j] == name@;
                        assert(j == i) by {
                            if j != i {
                                assert(names[j] == names[i as int]);
                            }
                        }
                        return i;
                    }
                    k = k + 1;
                }
            },
            None => {},
        }
        assert(!names.contains(name@)) by {
            if names.contains(name@) {
                let j = choose|j: int| 0 <= j < names.len() && names[j] == name@;
                assert(self.names@[j]@ == name@);
                let bucket = self.index@[h]@;
                assert(bucket.contains(j as usize));
                let q = choose|q: int| 0 <= q < bucket.len() && bucket[q] == j as usize;
                assert(names[bucket[q] as int] == name@);
            }
        }
        let i = self.names.len();
        let ghost old_index = self.index@;
        let mut bucket = match self.index.remove(&h) {
            Some(b) => b,
            None => Vec::new(),
        };
        let ghost old_bucket = bucket@;
        bucket.push(i);
        self.index.insert(h, bucket);
        self.names.push(key);
        self.n = self.names.len();
        assert(self.names() =~= names.push(name@));
        assert(self.index_consistent()) by {
            assert forall|g: u64, k: int|
                #![trigger self.index@[g]@[k]]
                self.index@.contains_key(g) && 0 <= k < self.index@[g]@.len() implies {
                let v = self.index@[g]@[k];
                v < self.names@.len() && name_hash(self.names@[v as int]@) == g
            } by {
                if g == h {
                    if k < old_bucket.len() {
                        assert(old_index[h]@[k] == self.index@[g]@[k]);
                    }
                } else {
                    assert(old_index[g]@[k] == self.index@[g]@[k]);
                }
            }
            assert forall|v: int|
                #![trigger self.names@[v]]
                0 <= v < self.names@.len() implies self.index@.contains_key(
                name_hash(self.names@[v]@),
            ) && self.index@[name_hash(self.names@[v]@)]@.contains(v as usize) by {
                let g = name_hash(self.names@[v]@);
                if v < i {
                    assert(self.names@[v] == old(self).names@[v]);
                    let ob = old_index[g]@;
                    assert(ob.contains(v as usize));
                    let q = choose|q: int| 0 <= q < ob.len() && ob[q] == v as usize;
                    assert(self.index@[g]@[q] == v as usize);
                } else {
                    assert(self.index@[h]@[old_bucket.len() as int] == i);
                }
            }
        }
        self.n - 1
    }
}

/// The index that registering a name gives holds that name afterwards.
pub proof fn lemma_vertex_index_names(names: Seq<Seq<char>>, name: Seq<char>)
    ensures
        vertex_index(names, name) < registered(names, name).len(),
        registered(names, name)[vertex_index(names, name) as int] == name,
        names.no_duplicates() ==> registered(names, name).no_duplicates(),
        registered(names, name).len() == names.len() + if names.contains(name) {
            0int
        } else {
            1int
        },
{
    if names.contains(name) {
        let i = choose|i: int| 0 <= i < names.len() && names[i] == name;
        assert(0 <= i < names.len() && names[i] == name);
    } else {
        let r = names.push(name);
        assert(r[names.len() as int] == name);
        if names.no_duplicates() {
            assert forall|i: int, j: int| 0 <= i < r.len() && 0 <= j < r.len() && i != j implies r[i]
                != r[j] by {
                if i < names.len() && j < names.len() {
                } else if i < names.len() {
                    assert(r[i] == names[i]);
                } else {
                    assert(r[j] == names[j]);
                }
            }
        }
    }
}

/// Registering a name twice gives the same index both times, and the second
/// registration changes nothing: the count of vertices grows by one in all
/// for a new name, and not at all for a known one.
pub proof fn lemma_add_vertex_idempotent(names: Seq<Seq<char>>, name: Seq<char>)
    requires
        names.no_duplicates(),
    ensures
        registered(registered(names, name), name) == registered(names, name),
        vertex_index(registered(names, name), name) == vertex_index(names, name),
        registered(registered(names, name), name).len() == names.len() + if names.contains(
            name,
        ) {
            0int
        } else {
            1int
        },
{
    lemma_vertex_index_names(names, name);
    let once = registered(names, name);
    let k = vertex_index(names, name) as int;
    assert(once.contains(name)) by {
        assert(once[k] == name);
    }
    let j = choose|j: int| 0 <= j < once.len() && once[j] == name;
    assert(j == k) by {
        if j != k {
            assert(once[j] == once[k]);
        }
    }
}

/// A link of a dataset record to another record, by identifier.
#[derive(Debug, Clone, PartialEq)]
pub struct Link {
    pub target: String,
}

/// A dataset record: its identifier and its outbound links, in order.
#[derive(Debug, Clone, PartialEq)]
pub struct Dataset {
    pub identifier: String,
    pub links: Vec<Link>,
}

impl Dataset {
    /// The identifier and the link targets.
    pub open spec fn view(&self) -> (Seq<char>, Seq<Seq<char>>) {
        (self.identifier@, self.links@.map_values(|l: Link| l.target@))
    }
}

/// The names and edges of a graph under construction.
pub type BuildState = (Seq<Seq<char>>, Seq<(nat, nat)>);

/// Register each target in turn, and for each append the edges from `v` to
/// it and back.
pub open spec fn add_links(st: BuildState, v: nat, targets: Seq<Seq<char>>) -> BuildState
    decreases targets.len(),
{
    if targets.len() == 0 {
        st
    } else {
        let (names, edges) = add_links(st, v, targets.drop_last());
        let t = targets.last();
        let w = vertex_index(names, t);
        (registered(names, t), edges.push((v, w)).push((w, v)))
    }
}

/// Add one record: nothing if it has no links, else its identifier and
/// then its links.
pub open spec fn add_record(st: BuildState, rec: (Seq<char>, Seq<Seq<char>>)) -> BuildState {
    if rec.1.len() == 0 {
        st
    } else {
        let v = vertex_index(st.0, rec.0);
        add_links((registered(st.0, rec.0), st.1), v, rec.1)
    }
}

/// The graph built from `records`, taken in order, from an empty graph.
pub open spec fn built(records: Seq<(Seq<char>, Seq<Seq<char>>)>) -> BuildState
    decreases records.len(),
{
    if records.len() == 0 {
        (Seq::empty(), Seq::empty())
    } else {
        add_record(built(records.drop_last()), records.last())
    }
}

/// A record without links adds neither a vertex nor an edge.
pub proof fn lemma_record_without_links(
    records: Seq<(Seq<char>, Seq<Seq<char>>)>,
    id: Seq<char>,
)
    ensures
        built(records.push((id, Seq::empty()))) == built(records),
{
    assert(records.push((id, Seq::empty())).drop_last() =~= records);
}

/// A record `a` with the single link `b` registers `a`, then `b`, and
/// appends exactly the two edges between them: from `a` to `b`, then back.
pub proof fn lemma_record_with_one_link(
    records: Seq<(Seq<char>, Seq<Seq<char>>)>,
    a: Seq<char>,
    b: Seq<char>,
)
    ensures
        ({
            let before = built(records);
            let after = built(records.push((a, seq![b])));
            let with_a = registered(before.0, a);
            let ia = vertex_index(before.0, a);
            let ib = vertex_index(with_a, b);
            &&& after.0 == registered(with_a, b)
            &&& after.1 == before.1.push((ia, ib)).push((ib, ia))
            &&& after.0[ia as int] == a
            &&& after.0[ib as int] == b
        }),
{
    let before = built(records);
    assert(records.push((a, seq![b])).drop_last() =~= records);
    assert(seq![b].drop_last() =~= Seq::<Seq<char>>::empty());
    let with_a = registered(before.0, a);
    lemma_vertex_index_names(before.0, a);
    lemma_vertex_index_names(with_a, b);
    let ia = vertex_index(before.0, a);
    let st = (with_a, before.1);
    assert(add_links(st, ia, Seq::empty()) == st);
    assert(add_links(st, ia, seq![b]) == add_record(before, (a, seq![b])));
    if !with_a.contains(b) {
        assert(with_a.push(b)[ia as int] == with_a[ia as int]);
    }
}

/// The edges come in reciprocal pairs: their count is even, and the edge
/// at `2k + 1` is the edge at `2k` reversed.
pub open spec fn reciprocal(edges: Seq<(nat, nat)>) -> bool {
    &&& edges.len() % 2 == 0
    &&& forall|k: int|
        0 <= k < edges.len() / 2 ==> #[trigger] edges[2 * k + 1] == (edges[2 * k].1, edges[2 * k].0)
}

proof fn lemma_add_links_reciprocal(st: BuildState, v: nat, targets: Seq<Seq<char>>)
    requires
        reciprocal(st.1),
    ensures
        reciprocal(add_links(st, v, targets).1),
    decreases targets.len(),
{
    if targets.len() > 0 {
        lemma_add_links_reciprocal(st, v, targets.drop_last());
        let (names, edges) = add_links(st, v, targets.drop_last());
        let w = vertex_index(names, targets.last());
        let e = edges.push((v, w)).push((w, v));
        assert forall|k: int| 0 <= k < e.len() / 2 implies #[trigger] e[2 * k + 1] == (
            e[2 * k].1,
            e[2 * k].0,
        ) by {
            if k < edges.len() / 2 {
                assert(e[2 * k + 1] == edges[2 * k + 1]);
                assert(e[2 * k] == edges[2 * k]);
            }
        }
    }
}

/// Every link gives an edge and its reverse, side by side: the edges of a
/// built graph come in reciprocal pairs.
pub proof fn lemma_built_edges_reciprocal(records: Seq<(Seq<char>, Seq<Seq<char>>)>)
    ensures
        reciprocal(built(records).1),
    decreases records.len(),
{
    if records.len() > 0 {
        lemma_built_edges_reciprocal(records.drop_last());
        let st = built(records.drop_last());
        let rec = records.last();
        if rec.1.len() > 0 {
            lemma_add_links_reciprocal(
                (registered(st.0, rec.0), st.1),
                vertex_index(st.0, rec.0),
                rec.1,
            );
        }
    }
}

/// Build the graph of the records in `data`, in order: each record with at
/// least one link becomes a vertex, each link target too, and each link
/// gives two edges, one in each direction.
pub fn build_graph(data: &Vec<Dataset>) -> (g: Graph)
    ensures
        g.well_formed(),
        (g.names(), g.edge_pairs()) == built(data@.map_values(|d: Dataset| d@)),
{
    let ghost recs = data@.map_values(|d: Dataset| d@);
    let mut g = Graph::new();
    assert(g.edge_pairs() =~= Seq::<(nat, nat)>::empty());
    let mut i: usize = 0;
    while i < data.len()
        invariant
            recs == data@.map_values(|d: Dataset| d@),
            i <= data@.len(),
            g.well_formed(),
            (g.names(), g.edge_pairs()) == built(recs.take(i as int)),
        decreases data@.len() - i,
    {
        let dataset = &data[i];
        assert(recs.take(i + 1).drop_last() =~= recs.take(i as int));
        assert(recs[i as int] == dataset@);
        if dataset.links.len() > 0 {
            let ghost st0 = (g.names(), g.edge_pairs());
            let v1 = g.add_vertex(dataset.identifier.as_str());
            let ghost targets = dataset@.1;
            let mut j: usize = 0;
            while j < dataset.links.len()
                invariant
                    recs == data@.map_values(|d: Dataset| d@),
                    i < data@.len(),
                    dataset == data@[i as int],
                    targets == dataset@.1,
                    j <= targets.len(),
                    v1 < g.n,
                    v1 == vertex_index(st0.0, dataset@.0),
                    g.well_formed(),
                    (g.names(), g.edge_pairs()) == add_links(
                        (registered(st0.0, dataset@.0), st0.1),
                        v1 as nat,
                        targets.take(j as int),
                    ),
                decreases targets.len() - j,
            {
                assert(targets.take(j + 1).drop_last() =~= targets.take(j as int));
                let target = dataset.links[j].target.as_str();
                assert(target@ == targets[j as int]);
                let ghost before = g.edge_pairs();
                let v2 = g.add_vertex(target);
                g.edges.push(Edge::new(v1, v2));
                g.edges.push(Edge::new(v2, v1));
                assert(g.edge_pairs() =~= before.push((v1 as nat, v2 as nat)).push(
                    (v2 as nat, v1 as nat),
                ));
                j = j + 1;
            }
            assert(targets.take(j as int) =~= targets);
        }
        i = i + 1;
    }
    assert(recs.take(i as int) =~= recs);
    g
}

} // verus!
