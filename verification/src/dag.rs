//! The transformation graph: named SQL queries, how each is kept, and which
//! nodes each one reads.

use vstd::prelude::*;

use crate::text::{contains_text, copy_texts, text_eq, texts, Text};

verus! {

/// How a node's result is kept.
#[derive(Debug, Clone, Copy, PartialEq, Eq, Structural)]
pub enum MaterializeMode {
    View,
    Table,
    TempTable,
}

/// One query of the graph.
#[derive(Debug)]
pub struct TransformNode {
    pub id: String,
    pub query_text: String,
    pub materialize: MaterializeMode,
    /// The ids of the nodes this one reads, in no particular order.
    pub depends_on: Vec<String>,
    /// The names of the result's columns, once they are known.
    pub schema: Option<Vec<String>>,
}

/// A node as the specifications see it: what it reads is a set.
#[verifier::ext_equal]
pub struct NodeModel {
    pub id: Text,
    pub query_text: Text,
    pub materialize: MaterializeMode,
    pub depends_on: Set<Text>,
    pub schema: Option<Seq<Text>>,
}

/// The nodes of a graph by id.
pub type GraphModel = Map<Text, NodeModel>;

impl View for TransformNode {
    type V = NodeModel;

    open spec fn view(&self) -> NodeModel {
        NodeModel {
            id: self.id@,
            query_text: self.query_text@,
            materialize: self.materialize,
            depends_on: texts(self.depends_on@).to_set(),
            schema: match self.schema {
                Some(columns) => Some(texts(columns@)),
                None => None,
            },
        }
    }
}

impl TransformNode {
    /// A copy of the node.
    pub fn copy(&self) -> (r: TransformNode)
        ensures
            r@ == self@,
            r.depends_on@ == self.depends_on@,
    {
        let schema: Option<Vec<String>> = match &self.schema {
            Some(columns) => Some(copy_texts(columns)),
            None => None,
        };
        TransformNode {
            id: self.id.clone(),
            query_text: self.query_text.clone(),
            materialize: self.materialize,
            depends_on: copy_texts(&self.depends_on),
            schema,
        }
    }
}

/// The nodes of a list, as the specifications see them.
pub open spec fn models(nodes: Seq<TransformNode>) -> Seq<NodeModel> {
    nodes.map_values(|n: TransformNode| n@)
}

/// `id` names the node at position `i` of the list.
pub open spec fn names(nodes: Seq<NodeModel>, i: int, id: Text) -> bool {
    0 <= i < nodes.len() && nodes[i].id == id
}

/// The list as a map from ids to nodes.
pub open spec fn by_id(nodes: Seq<NodeModel>) -> GraphModel {
    Map::new(
        |id: Text| exists|i: int| #[trigger] names(nodes, i, id),
        |id: Text| nodes[choose|i: int| #[trigger] names(nodes, i, id)],
    )
}

/// No two nodes of the list share an id.
pub open spec fn distinct_ids(nodes: Seq<NodeModel>) -> bool {
    forall|i: int, j: int| 0 <= i < j < nodes.len() ==> (#[trigger] nodes[i]).id != (#[trigger] nodes[j]).id
}

/// The node that stands in the list under `id` is the one the map holds.
pub proof fn by_id_at(nodes: Seq<NodeModel>, i: int)
    requires
        distinct_ids(nodes),
        0 <= i < nodes.len(),
    ensures
        by_id(nodes).contains_key(nodes[i].id),
        by_id(nodes)[nodes[i].id] == nodes[i],
{
    let id = nodes[i].id;
    assert(names(nodes, i, id));
    let c = choose|j: int| #[trigger] names(nodes, j, id);
    assert(names(nodes, c, id));
    if c < i {
        assert(nodes[c].id != nodes[i].id);
    } else if i < c {
        assert(nodes[i].id != nodes[c].id);
    }
}

/// Every entry of the map stands somewhere in the list.
pub proof fn by_id_position(nodes: Seq<NodeModel>, id: Text) -> (i: int)
    requires
        distinct_ids(nodes),
        by_id(nodes).contains_key(id),
    ensures
        0 <= i < nodes.len(),
        nodes[i].id == id,
        by_id(nodes)[id] == nodes[i],
{
    let c = choose|j: int| #[trigger] names(nodes, j, id);
    by_id_at(nodes, c);
    c
}

/// Every node of the graph stands under its own id.
pub open spec fn keyed(g: GraphModel) -> bool {
    forall|id: Text| g.contains_key(id) ==> (#[trigger] g[id]).id == id
}

/// The graph's nodes, each under an id of its own.
#[derive(Debug)]
pub struct Graph {
    nodes: Vec<TransformNode>,
}

impl View for Graph {
    type V = GraphModel;

    closed spec fn view(&self) -> GraphModel {
        by_id(models(self.nodes@))
    }
}

/// `d` is the first member of `list` that the graph does not hold.
pub open spec fn first_missing(g: GraphModel, list: Seq<Text>, d: Text) -> bool {
    exists|i: int|
        0 <= i < list.len() && #[trigger] list[i] == d && !g.contains_key(d) && forall|k: int|
            0 <= k < i ==> g.contains_key(#[trigger] list[k])
}

/// Why a node cannot be put into a graph.
#[derive(Debug)]
pub enum GraphError {
    /// The node reads a node that the graph does not hold.
    MissingDependency { node: String, dependency: String },
}

impl Graph {
    /// The ids are distinct.
    pub closed spec fn wf(&self) -> bool {
        distinct_ids(models(self.nodes@))
    }

    /// The nodes in the order in which `nodes` lists them.
    pub closed spec fn listed(&self) -> Seq<NodeModel> {
        models(self.nodes@)
    }

    /// The listing and the map hold the same nodes.
    pub proof fn listed_is_view(&self)
        requires
            self.wf(),
        ensures
            distinct_ids(self.listed()),
            self@ == by_id(self.listed()),
            keyed(self@),
    {
        assert forall|id: Text| self@.contains_key(id) implies (#[trigger] self@[id]).id == id by {
            let i = by_id_position(self.listed(), id);
        }
    }

    /// A graph without nodes.
    pub fn new() -> (r: Graph)
        ensures
            r.wf(),
            r@ == Map::<Text, NodeModel>::empty(),
            r.listed() == Seq::<NodeModel>::empty(),
    {
        let r = Graph { nodes: Vec::new() };
        proof {
            assert(models(r.nodes@) =~= Seq::<NodeModel>::empty());
            assert(r@ =~= Map::<Text, NodeModel>::empty()) by {
                assert forall|id: Text| !r@.contains_key(id) by {
                    if r@.contains_key(id) {
                        let i = by_id_position(models(r.nodes@), id);
                    }
                }
            }
        }
        r
    }

    /// How many nodes the graph holds.
    pub fn num_nodes(&self) -> (n: usize)
        ensures
            n == self.listed().len(),
    {
        self.nodes.len()
    }

    /// The graph's nodes, in the order in which they were put in.
    pub fn nodes(&self) -> (r: &Vec<TransformNode>)
        ensures
            models(r@) == self.listed(),
    {
        &self.nodes
    }

    /// Where the node `id` stands in the listing.
    pub fn position(&self, id: &str) -> (r: Option<usize>)
        requires
            self.wf(),
        ensures
            match r {
                Some(i) => i < self.listed().len() && self.listed()[i as int].id == id@ && self@.contains_key(id@)
                    && self@[id@] == self.listed()[i as int],
                None => !self@.contains_key(id@),
            },
    {
        let mut i: usize = 0;
        while i < self.nodes.len()
            invariant
                i <= self.nodes@.len(),
                self.wf(),
                forall|k: int| 0 <= k < i ==> (#[trigger] self.nodes@[k]).id@ != id@,
            decreases self.nodes@.len() - i,
        {
            if text_eq(self.nodes[i].id.as_str(), id) {
                proof {
                    by_id_at(models(self.nodes@), i as int);
                }
                return Some(i);
            }
            i = i + 1;
        }
        proof {
            if self@.contains_key(id@) {
                let k = by_id_position(models(self.nodes@), id@);
                assert(self.nodes@[k].id@ == id@);
            }
        }
        None
    }

    /// The node `id`, where the graph holds it.
    pub fn get(&self, id: &str) -> (r: Option<&TransformNode>)
        requires
            self.wf(),
        ensures
            match r {
                Some(n) => self@.contains_key(id@) && n@ == self@[id@] && n.id@ == id@,
                None => !self@.contains_key(id@),
            },
    {
        match self.position(id) {
            Some(i) => Some(&self.nodes[i]),
            None => None,
        }
    }

    /// Puts `node` into the graph, in place of the node of the same id where
    /// there is one, without asking whether the graph holds what it reads.
    pub fn add_node_unchecked(&mut self, node: TransformNode)
        requires
            old(self).wf(),
        ensures
            final(self).wf(),
            final(self)@ == old(self)@.insert(node.id@, node@),
            old(self)@.contains_key(node.id@) ==> final(self).listed().len() == old(self).listed().len(),
            !old(self)@.contains_key(node.id@) ==> final(self).listed() == old(self).listed().push(node@),
    {
        let ghost before = models(self.nodes@);
        let ghost id = node.id@;
        match self.position(node.id.as_str()) {
            Some(i) => {
                let ghost model = node@;
                self.nodes.set(i, node);
                proof {
                    let after = models(self.nodes@);
                    assert(after =~= before.update(i as int, model));
                    update_by_id(before, i as int, model);
                }
            },
            None => {
                let ghost model = node@;
                self.nodes.push(node);
                proof {
                    let after = models(self.nodes@);
                    assert(after =~= before.push(model));
                    push_by_id(before, model);
                }
            },
        }
    }

    /// Puts `node` into the graph, in place of the node of the same id where
    /// there is one; refused where it reads a node that the graph does not
    /// hold, with the first such dependency.
    pub fn add_node(&mut self, node: TransformNode) -> (r: Result<(), GraphError>)
        requires
            old(self).wf(),
        ensures
            final(self).wf(),
            match r {
                Ok(_) => {
                    &&& node@.depends_on.subset_of(old(self)@.dom())
                    &&& final(self)@ == old(self)@.insert(node.id@, node@)
                    &&& !old(self)@.contains_key(node.id@) ==> final(self).listed() == old(self).listed().push(node@)
                },
                Err(GraphError::MissingDependency { node: who, dependency }) => {
                    &&& who@ == node.id@
                    &&& first_missing(old(self)@, texts(node.depends_on@), dependency@)
                    &&& *final(self) == *old(self)
                },
            },
    {
        let mut i: usize = 0;
        while i < node.depends_on.len()
            invariant
                i <= node.depends_on@.len(),
                self.wf(),
                *self == *old(self),
                forall|k: int| 0 <= k < i ==> self@.contains_key((#[trigger] node.depends_on@[k])@),
            decreases node.depends_on@.len() - i,
        {
            match self.position(node.depends_on[i].as_str()) {
                Some(_) => {},
                None => {
                    proof {
                        let list = texts(node.depends_on@);
                        assert forall|k: int| 0 <= k < i implies self@.contains_key(#[trigger] list[k]) by {
                            assert(list[k] == node.depends_on@[k]@);
                        }
                        assert(list[i as int] == node.depends_on@[i as int]@);
                    }
                    return Err(
                        GraphError::MissingDependency {
                            node: node.id.clone(),
                            dependency: node.depends_on[i].clone(),
                        },
                    );
                },
            }
            i = i + 1;
        }
        proof {
            assert forall|d: Text| node@.depends_on.contains(d) implies old(self)@.contains_key(d) by {
                let k = choose|k: int| 0 <= k < texts(node.depends_on@).len() && texts(node.depends_on@)[k] == d;
                assert(texts(node.depends_on@)[k] == node.depends_on@[k]@);
            }
        }
        self.add_node_unchecked(node);
        Ok(())
    }

    /// Takes the node `id` out of the graph.
    pub fn remove(&mut self, id: &str) -> (r: Option<TransformNode>)
        requires
            old(self).wf(),
        ensures
            final(self).wf(),
            final(self)@ == old(self)@.remove(id@),
            match r {
                Some(n) => old(self)@.contains_key(id@) && n@ == old(self)@[id@],
                None => !old(self)@.contains_key(id@),
            },
    {
        let ghost before = models(self.nodes@);
        match self.position(id) {
            Some(i) => {
                let n = self.nodes.remove(i);
                proof {
                    let after = models(self.nodes@);
                    assert(after =~= before.remove(i as int));
                    remove_by_id(before, i as int);
                }
                Some(n)
            },
            None => {
                proof {
                    assert(self@ =~= self@.remove(id@));
                }
                None
            },
        }
    }

    /// Gives the node `id` another query and other dependencies; the rest of
    /// it, and of the graph, stays.
    pub fn rewrite_node(&mut self, id: &str, query_text: String, depends_on: Vec<String>)
        requires
            old(self).wf(),
            old(self)@.contains_key(id@),
        ensures
            final(self).wf(),
            final(self)@ == old(self)@.insert(
                id@,
                (NodeModel { query_text: query_text@, depends_on: texts(depends_on@).to_set(), ..old(self)@[id@] }),
            ),
            final(self).listed().len() == old(self).listed().len(),
    {
        let ghost before = self@;
        let ghost size = self.listed().len();
        if let Some(i) = self.position(id) {
            let mut node = self.nodes[i].copy();
            node.query_text = query_text;
            node.depends_on = depends_on;
            let ghost model = node@;
            self.add_node_unchecked(node);
            proof {
                assert(model =~= (NodeModel {
                    query_text: query_text@,
                    depends_on: texts(depends_on@).to_set(),
                    ..before[id@]
                }));
            }
        }
    }

    /// A copy of the graph.
    pub fn copy(&self) -> (r: Graph)
        requires
            self.wf(),
        ensures
            r.wf(),
            r@ == self@,
            r.listed() == self.listed(),
    {
        let mut nodes: Vec<TransformNode> = Vec::new();
        let mut i: usize = 0;
        while i < self.nodes.len()
            invariant
                i <= self.nodes@.len(),
                models(nodes@) == models(self.nodes@).take(i as int),
            decreases self.nodes@.len() - i,
        {
            nodes.push(self.nodes[i].copy());
            i = i + 1;
            proof {
                let whole = models(self.nodes@);
                assert(models(nodes@) =~= whole.take(i - 1).push(whole[i - 1]));
                assert(whole.take(i as int) =~= whole.take(i - 1).push(whole[i - 1]));
            }
        }
        proof {
            assert(models(self.nodes@).take(self.nodes@.len() as int) =~= models(self.nodes@));
        }
        Graph { nodes }
    }
}

proof fn update_by_id(nodes: Seq<NodeModel>, i: int, n: NodeModel)
    requires
        distinct_ids(nodes),
        0 <= i < nodes.len(),
        n.id == nodes[i].id,
    ensures
        distinct_ids(nodes.update(i, n)),
        by_id(nodes.update(i, n)) == by_id(nodes).insert(n.id, n),
{
    let after = nodes.update(i, n);
    assert forall|a: int, b: int| 0 <= a < b < after.len() implies (#[trigger] after[a]).id != (#[trigger] after[b]).id by {
        assert(nodes[a].id != nodes[b].id);
    }
    assert forall|id: Text|
        #![trigger by_id(after).contains_key(id)]
        #![trigger by_id(after)[id]]
        by_id(after).contains_key(id) == by_id(nodes).insert(n.id, n).contains_key(id) && (by_id(after).contains_key(id)
            ==> by_id(after)[id] == by_id(nodes).insert(n.id, n)[id]) by {
        if by_id(after).contains_key(id) {
            let k = by_id_position(after, id);
            by_id_at(nodes, k);
        }
        if by_id(nodes).contains_key(id) {
            let k = by_id_position(nodes, id);
            by_id_at(after, k);
        }
        by_id_at(after, i);
        by_id_at(nodes, i);
    }
    assert(by_id(after) =~= by_id(nodes).insert(n.id, n));
}

proof fn push_by_id(nodes: Seq<NodeModel>, n: NodeModel)
    requires
        distinct_ids(nodes),
        !by_id(nodes).contains_key(n.id),
    ensures
        distinct_ids(nodes.push(n)),
        by_id(nodes.push(n)) == by_id(nodes).insert(n.id, n),
{
    let after = nodes.push(n);
    assert forall|a: int, b: int| 0 <= a < b < after.len() implies (#[trigger] after[a]).id != (#[trigger] after[b]).id by {
        if b < nodes.len() {
            assert(nodes[a].id != nodes[b].id);
        } else {
            by_id_at(nodes, a);
        }
    }
    assert forall|id: Text|
        #![trigger by_id(after).contains_key(id)]
        #![trigger by_id(after)[id]]
        by_id(after).contains_key(id) == by_id(nodes).insert(n.id, n).contains_key(id) && (by_id(after).contains_key(id)
            ==> by_id(after)[id] == by_id(nodes).insert(n.id, n)[id]) by {
        if by_id(after).contains_key(id) {
            let k = by_id_position(after, id);
            if k < nodes.len() {
                by_id_at(nodes, k);
            }
        }
        if by_id(nodes).contains_key(id) {
            let k = by_id_position(nodes, id);
            by_id_at(after, k);
        }
        by_id_at(after, nodes.len() as int);
    }
    assert(by_id(after) =~= by_id(nodes).insert(n.id, n));
}

proof fn remove_by_id(nodes: Seq<NodeModel>, i: int)
    requires
        distinct_ids(nodes),
        0 <= i < nodes.len(),
    ensures
        distinct_ids(nodes.remove(i)),
        by_id(nodes.remove(i)) == by_id(nodes).remove(nodes[i].id),
{
    let after = nodes.remove(i);
    assert forall|a: int, b: int| 0 <= a < b < after.len() implies (#[trigger] after[a]).id != (#[trigger] after[b]).id by {
        let oa = if a < i { a } else { a + 1 };
        let ob = if b < i { b } else { b + 1 };
        assert(nodes[oa].id != nodes[ob].id);
    }
    assert forall|id: Text|
        #![trigger by_id(after).contains_key(id)]
        #![trigger by_id(after)[id]]
        by_id(after).contains_key(id) == by_id(nodes).remove(nodes[i].id).contains_key(id) && (by_id(after).contains_key(id)
            ==> by_id(after)[id] == by_id(nodes).remove(nodes[i].id)[id]) by {
        if by_id(after).contains_key(id) {
            let k = by_id_position(after, id);
            let ok = if k < i { k } else { k + 1 };
            by_id_at(nodes, ok);
            if ok < i {
                assert(nodes[ok].id != nodes[i].id);
            } else {
                assert(nodes[i].id != nodes[ok].id);
            }
        }
        if by_id(nodes).contains_key(id) && id != nodes[i].id {
            let k = by_id_position(nodes, id);
            let ak = if k < i { k } else { k - 1 };
            assert(after[ak] == nodes[k]);
            by_id_at(after, ak);
        }
    }
    assert(by_id(after) =~= by_id(nodes).remove(nodes[i].id));
}

/// Appending a member to a list inserts it into the list's set.
pub proof fn pushed_to_set<T>(s: Seq<T>, x: T)
    ensures
        s.push(x).to_set() == s.to_set().insert(x),
{
    assert forall|t: T| #[trigger] s.push(x).contains(t) == (s.contains(t) || t == x) by {
        if s.contains(t) {
            let k = choose|k: int| 0 <= k < s.len() && s[k] == t;
            assert(s.push(x)[k] == t);
        }
        assert(s.push(x)[s.len() as int] == x);
    }
    assert(s.push(x).to_set() =~= s.to_set().insert(x));
}

/// `list` with `s` in it.
pub fn with_text(list: &Vec<String>, s: &str) -> (r: Vec<String>)
    ensures
        texts(r@).to_set() == texts(list@).to_set().insert(s@),
{
    let mut out = copy_texts(list);
    if !contains_text(list, s) {
        out.push(s.to_owned());
        proof {
            assert(texts(out@) =~= texts(list@).push(s@));
            pushed_to_set(texts(list@), s@);
        }
    } else {
        proof {
            assert(texts(out@).to_set() =~= texts(list@).to_set().insert(s@));
        }
    }
    out
}

/// `list` without `s`.
pub fn without_text(list: &Vec<String>, s: &str) -> (r: Vec<String>)
    ensures
        texts(r@).to_set() == texts(list@).to_set().remove(s@),
{
    let mut out: Vec<String> = Vec::new();
    let mut i: usize = 0;
    while i < list.len()
        invariant
            i <= list@.len(),
            forall|t: Text|
                texts(out@).contains(t) <==> t != s@ && exists|k: int| 0 <= k < i && (#[trigger] list@[k])@ == t,
        decreases list@.len() - i,
    {
        let ghost before = texts(out@);
        if !text_eq(list[i].as_str(), s) {
            out.push(list[i].clone());
            proof {
                assert(texts(out@) =~= before.push(list@[i as int]@));
            }
        }
        proof {
            assert forall|t: Text|
                texts(out@).contains(t) <==> t != s@ && exists|k: int| 0 <= k < i + 1 && (#[trigger] list@[k])@ == t by {
                if list@[i as int]@ != s@ {
                    assert(texts(out@).contains(t) == (before.contains(t) || t == list@[i as int]@)) by {
                        if before.contains(t) {
                            let k = choose|k: int| 0 <= k < before.len() && before[k] == t;
                            assert(texts(out@)[k] == t);
                        }
                        assert(texts(out@)[before.len() as int] == list@[i as int]@);
                    }
                }
                if before.contains(t) {
                    let k = choose|k: int| 0 <= k < i && (#[trigger] list@[k])@ == t;
                    assert(0 <= k < i + 1 && list@[k]@ == t);
                }
            }
        }
        i = i + 1;
    }
    proof {
        let l = texts(list@);
        assert forall|t: Text| texts(out@).contains(t) <==> t != s@ && l.contains(t) by {
            if l.contains(t) {
                let k = choose|k: int| 0 <= k < l.len() && l[k] == t;
                assert(list@[k]@ == t);
            }
            if texts(out@).contains(t) {
                let k = choose|k: int| 0 <= k < i && (#[trigger] list@[k])@ == t;
                assert(l[k] == t);
            }
        }
        assert(texts(out@).to_set() =~= l.to_set().remove(s@));
    }
    out
}

/// `list` together with the members of `more`.
pub fn union_texts(list: &Vec<String>, more: &Vec<String>) -> (r: Vec<String>)
    ensures
        texts(r@).to_set() == texts(list@).to_set().union(texts(more@).to_set()),
{
    let mut out = copy_texts(list);
    let mut i: usize = 0;
    proof {
        assert(texts(more@).take(0).to_set() =~= Set::<Text>::empty());
        assert(texts(out@).to_set() =~= texts(list@).to_set().union(texts(more@).take(0).to_set()));
    }
    while i < more.len()
        invariant
            i <= more@.len(),
            texts(out@).to_set() == texts(list@).to_set().union(texts(more@).take(i as int).to_set()),
        decreases more@.len() - i,
    {
        out = with_text(&out, more[i].as_str());
        proof {
            let m = texts(more@);
            assert(m[i as int] == more@[i as int]@);
            assert(m.take(i + 1) =~= m.take(i as int).push(m[i as int]));
            pushed_to_set(m.take(i as int), m[i as int]);
            assert(texts(out@).to_set() =~= texts(list@).to_set().union(m.take(i + 1).to_set()));
        }
        i = i + 1;
    }
    proof {
        assert(texts(more@).take(more@.len() as int) =~= texts(more@));
    }
    out
}

/// The texts of `s`, each at its first place alone.
pub open spec fn firsts(s: Seq<Text>) -> Seq<Text>
    decreases s.len(),
{
    if s.len() == 0 {
        s
    } else {
        let rest = firsts(s.drop_last());
        if s.drop_last().contains(s.last()) {
            rest
        } else {
            rest.push(s.last())
        }
    }
}

/// Nothing is lost, and nothing stands twice.
pub proof fn firsts_hold(s: Seq<Text>)
    ensures
        firsts(s).no_duplicates(),
        forall|t: Text| firsts(s).contains(t) == s.contains(t),
        firsts(s).len() <= s.len(),
    decreases s.len(),
{
    if s.len() > 0 {
        let head = s.drop_last();
        firsts_hold(head);
        assert forall|t: Text| firsts(s).contains(t) == s.contains(t) by {
            pushed_to_set(head, s.last());
            pushed_to_set(firsts(head), s.last());
            assert(s =~= head.push(s.last()));
            assert(head.push(s.last()).to_set().contains(t) == head.to_set().insert(s.last()).contains(t));
            assert(firsts(head).push(s.last()).to_set().contains(t) == firsts(head).to_set().insert(s.last()).contains(t));
        }
    }
}

/// `list` with each text at its first place alone.
pub fn dedup(list: &Vec<String>) -> (r: Vec<String>)
    ensures
        texts(r@) == firsts(texts(list@)),
{
    let ghost all = texts(list@);
    let mut out: Vec<String> = Vec::new();
    let mut i: usize = 0;
    proof {
        assert(texts(out@) =~= firsts(all.take(0)));
    }
    while i < list.len()
        invariant
            i <= list@.len(),
            all == texts(list@),
            texts(out@) == firsts(all.take(i as int)),
        decreases list@.len() - i,
    {
        proof {
            assert(all.take(i + 1).drop_last() =~= all.take(i as int));
            assert(all.take(i + 1).last() == list@[i as int]@);
            firsts_hold(all.take(i as int));
        }
        let ghost had = texts(out@);
        if !contains_text(&out, list[i].as_str()) {
            out.push(list[i].clone());
            proof {
                assert(texts(out@) =~= had.push(list@[i as int]@));
            }
        }
        i = i + 1;
    }
    proof {
        assert(all.take(list@.len() as int) =~= all);
    }
    out
}

/// A relation that the graph reads and does not compute.
#[derive(Debug)]
pub struct SourceNode {
    pub name: String,
    pub schema: Vec<String>,
}

/// A transformation graph and the engine it runs on.
#[derive(Debug)]
pub struct Dag {
    /// The engine's SQL dialect, by name.
    pub db: String,
    pub nodes: Graph,
    pub sources: Vec<SourceNode>,
    /// How many nodes may run at a time, where that is bounded.
    pub max_parallelism: Option<usize>,
}

/// Two graphs are for the same engine, over the same sources and bounded alike.
pub open spec fn same_setting(a: Dag, b: Dag) -> bool {
    &&& b.db@ == a.db@
    &&& b.max_parallelism == a.max_parallelism
    &&& b.sources@.len() == a.sources@.len()
    &&& forall|i: int|
        0 <= i < b.sources@.len() ==> (#[trigger] b.sources@[i]).name@ == a.sources@[i].name@ && b.sources@[i].schema@
            == a.sources@[i].schema@
}

impl Dag {
    /// The graph is well formed.
    pub open spec fn wf(&self) -> bool {
        self.nodes.wf()
    }

    /// A copy of the graph, for the same engine and over the same sources.
    pub fn copy(&self) -> (r: Dag)
        requires
            self.wf(),
        ensures
            r.wf(),
            r.nodes@ == self.nodes@,
            r.nodes.listed() == self.nodes.listed(),
            same_setting(*self, r),
    {
        let mut sources: Vec<SourceNode> = Vec::new();
        let mut i: usize = 0;
        while i < self.sources.len()
            invariant
                i <= self.sources@.len(),
                sources@.len() == i,
                forall|k: int|
                    0 <= k < i ==> (#[trigger] sources@[k]).name@ == self.sources@[k].name@ && sources@[k].schema@
                        == self.sources@[k].schema@,
            decreases self.sources@.len() - i,
        {
            sources.push(
                SourceNode { name: self.sources[i].name.clone(), schema: copy_texts(&self.sources[i].schema) },
            );
            i = i + 1;
        }
        Dag { db: self.db.clone(), nodes: self.nodes.copy(), sources, max_parallelism: self.max_parallelism }
    }
}

} // verus!
