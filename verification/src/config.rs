//! Task graph model: nodes (tasks), typed edges (message channels), and
//! per-node instance configuration.
//!
//! The graph is an append-only arena: nodes live in a dense vector and are
//! addressed by their zero-based insertion index; edges are a dense vector of
//! `(source, destination, message type)` triples. Nodes and edges are never
//! removed once inserted.

use vstd::prelude::*;

use crate::{CuError, CuResult};

verus! {

/// External addressing of nodes: dense, zero-based insertion index.
pub type NodeId = u32;

/// An edge as handed out to callers: source index, destination index,
/// message type name.
pub type Edge = (NodeId, NodeId, String);

/// Spec-level image of a [`Value`].
pub enum ValueView {
    Integer(i64),
    FloatBits(u64),
    Text(Seq<char>),
}

/// A tagged scalar configuration value.
///
/// A floating-point value is carried as its IEEE-754 double bit pattern, so
/// that storage and the serialization round trip are exact; readers convert
/// at the boundary. Accessors are explicit and fallible: asking for the wrong
/// type reports [`CuError::ParamTypeMismatch`], never a coerced value.
#[derive(Debug)]
pub enum Value {
    Integer(i64),
    FloatBits(u64),
    Text(String),
}

impl View for Value {
    type V = ValueView;

    open spec fn view(&self) -> ValueView {
        match *self {
            Value::Integer(i) => ValueView::Integer(i),
            Value::FloatBits(b) => ValueView::FloatBits(b),
            Value::Text(ref s) => ValueView::Text(s@),
        }
    }
}

impl Clone for Value {
    fn clone(&self) -> (res: Self)
        ensures
            res == *self,
    {
        match self {
            Value::Integer(i) => Value::Integer(*i),
            Value::FloatBits(b) => Value::FloatBits(*b),
            Value::Text(s) => Value::Text(s.clone()),
        }
    }
}

impl Value {
    /// Reads the value as an integer; any other tag is a type mismatch.
    pub fn as_integer(&self) -> (r: CuResult<i64>)
        ensures
            match *self {
                Value::Integer(v) => r == Ok::<i64, CuError>(v),
                _ => r == Err::<i64, CuError>(CuError::ParamTypeMismatch),
            },
    {
        match self {
            Value::Integer(v) => Ok(*v),
            _ => Err(CuError::ParamTypeMismatch),
        }
    }

    /// Reads the value as an IEEE-754 double bit pattern; any other tag is a
    /// type mismatch.
    pub fn as_float_bits(&self) -> (r: CuResult<u64>)
        ensures
            match *self {
                Value::FloatBits(b) => r == Ok::<u64, CuError>(b),
                _ => r == Err::<u64, CuError>(CuError::ParamTypeMismatch),
            },
    {
        match self {
            Value::FloatBits(b) => Ok(*b),
            _ => Err(CuError::ParamTypeMismatch),
        }
    }

    /// Reads the value as a string; any other tag is a type mismatch.
    pub fn as_text(&self) -> (r: CuResult<String>)
        ensures
            match *self {
                Value::Text(ref s) => r matches Ok(t) && t@ == s@,
                _ => r == Err::<String, CuError>(CuError::ParamTypeMismatch),
            },
    {
        match self {
            Value::Text(s) => Ok(s.clone()),
            _ => Err(CuError::ParamTypeMismatch),
        }
    }
}

impl From<i64> for Value {
    fn from(value: i64) -> (r: Self) {
        Value::Integer(value)
    }
}

impl vstd::std_specs::convert::FromSpecImpl<i64> for Value {
    open spec fn obeys_from_spec() -> bool {
        true
    }

    open spec fn from_spec(value: i64) -> Self {
        Value::Integer(value)
    }
}

impl From<String> for Value {
    fn from(value: String) -> (r: Self) {
        Value::Text(value)
    }
}

impl vstd::std_specs::convert::FromSpecImpl<String> for Value {
    open spec fn obeys_from_spec() -> bool {
        true
    }

    open spec fn from_spec(value: String) -> Self {
        Value::Text(value)
    }
}

/// First-match lookup among the entries at or after position `i`.
pub open spec fn cfg_lookup_from(
    entries: Seq<(Seq<char>, ValueView)>,
    key: Seq<char>,
    i: int,
) -> Option<ValueView>
    decreases entries.len() - i,
{
    if i < 0 || i >= entries.len() {
        None
    } else if entries[i].0 == key {
        Some(entries[i].1)
    } else {
        cfg_lookup_from(entries, key, i + 1)
    }
}

/// The value stored under `key`, if any.
pub open spec fn cfg_lookup(entries: Seq<(Seq<char>, ValueView)>, key: Seq<char>) -> Option<
    ValueView,
> {
    cfg_lookup_from(entries, key, 0)
}

/// Insertion scanning from position `i`: replaces the first entry whose key
/// matches, else appends.
pub open spec fn cfg_insert_from(
    entries: Seq<(Seq<char>, ValueView)>,
    key: Seq<char>,
    value: ValueView,
    i: int,
) -> Seq<(Seq<char>, ValueView)>
    decreases entries.len() - i,
{
    if i < 0 || i >= entries.len() {
        entries.push((key, value))
    } else if entries[i].0 == key {
        entries.update(i, (key, value))
    } else {
        cfg_insert_from(entries, key, value, i + 1)
    }
}

/// Stores `value` under `key`: replaces in place when the key exists, else
/// appends.
pub open spec fn cfg_insert(
    entries: Seq<(Seq<char>, ValueView)>,
    key: Seq<char>,
    value: ValueView,
) -> Seq<(Seq<char>, ValueView)> {
    cfg_insert_from(entries, key, value, 0)
}

/// Keys are pairwise distinct.
pub open spec fn cfg_wf(entries: Seq<(Seq<char>, ValueView)>) -> bool {
    forall|i: int, j: int|
        0 <= i < j < entries.len() ==> (#[trigger] entries[i]).0 != (#[trigger] entries[j]).0
}

/// Per-node instance configuration: a mapping from string keys to tagged
/// scalar values. Keys are unique; insertion order is kept (it carries no
/// meaning, but makes serialization deterministic).
#[derive(Debug)]
pub struct NodeInstanceConfig {
    pub entries: Vec<(String, Value)>,
}

impl View for NodeInstanceConfig {
    type V = Seq<(Seq<char>, ValueView)>;

    open spec fn view(&self) -> Seq<(Seq<char>, ValueView)> {
        self.entries@.map_values(|p: (String, Value)| (p.0@, p.1@))
    }
}

impl Clone for NodeInstanceConfig {
    fn clone(&self) -> (res: Self)
        ensures
            res@ == self@,
    {
        let mut entries: Vec<(String, Value)> = Vec::new();
        let mut i: usize = 0;
        while i < self.entries.len()
            invariant
                i <= self.entries.len(),
                entries@.map_values(|p: (String, Value)| (p.0@, p.1@)) == self@.take(i as int),
            decreases self.entries.len() - i,
        {
            let (k, v) = (&self.entries[i].0, &self.entries[i].1);
            entries.push((k.clone(), v.clone()));
            proof {
                assert(entries@.map_values(|p: (String, Value)| (p.0@, p.1@)) =~= self@.take(
                    i + 1 as int,
                ));
            }
            i = i + 1;
        }
        proof {
            assert(self@.take(self.entries.len() as int) =~= self@);
        }
        NodeInstanceConfig { entries }
    }
}

impl NodeInstanceConfig {
    /// An empty configuration.
    pub fn new() -> (c: Self)
        ensures
            c@ == Seq::<(Seq<char>, ValueView)>::empty(),
            cfg_wf(c@),
    {
        NodeInstanceConfig { entries: Vec::new() }
    }

    /// The stored value under `key`, if any.
    pub fn get(&self, key: &str) -> (r: Option<&Value>)
        ensures
            match r {
                Some(v) => cfg_lookup(self@, key@) == Some(v@),
                None => cfg_lookup(self@, key@) is None,
            },
    {
        let key_owned: String = key.to_owned();
        let n = self.entries.len();
        let mut i: usize = 0;
        while i < n
            invariant
                n == self.entries.len(),
                i <= n,
                key_owned@ == key@,
                cfg_lookup(self@, key@) == cfg_lookup_from(self@, key@, i as int),
            decreases n - i,
        {
            if self.entries[i].0 == key_owned {
                return Some(&self.entries[i].1);
            }
            i = i + 1;
        }
        None
    }

    /// Stores `value` under `key`, replacing any previous value.
    pub fn set(&mut self, key: &str, value: Value)
        requires
            cfg_wf(old(self)@),
        ensures
            final(self)@ == cfg_insert(old(self)@, key@, value@),
            cfg_wf(final(self)@),
    {
        let ghost old_view = self@;
        let ghost value_view = value@;
        let key_owned: String = key.to_owned();
        let n = self.entries.len();
        let mut i: usize = 0;
        while i < n
            invariant
                n == self.entries.len(),
                i <= n,
                self@ == old_view,
                key_owned@ == key@,
                value@ == value_view,
                forall|j: int| 0 <= j < i ==> (#[trigger] old_view[j]).0 != key@,
                cfg_insert(old_view, key@, value_view) == cfg_insert_from(
                    old_view,
                    key@,
                    value_view,
                    i as int,
                ),
            decreases n - i,
        {
            if self.entries[i].0 == key_owned {
                self.entries[i] = (key_owned, value);
                proof {
                    assert(self@ =~= old_view.update(i as int, (key@, value_view)));
                    lemma_cfg_insert_wf(old_view, key@, value_view, 0);
                }
                return ;
            }
            i = i + 1;
        }
        self.entries.push((key_owned, value));
        proof {
            assert(self@ =~= old_view.push((key@, value_view)));
            lemma_cfg_insert_wf(old_view, key@, value_view, 0);
        }
    }
}

/// Inserting under unique keys keeps the keys unique.
proof fn lemma_cfg_insert_wf(
    entries: Seq<(Seq<char>, ValueView)>,
    key: Seq<char>,
    value: ValueView,
    i: int,
)
    requires
        cfg_wf(entries),
        0 <= i <= entries.len(),
        forall|j: int| 0 <= j < i ==> (#[trigger] entries[j]).0 != key,
    ensures
        cfg_wf(cfg_insert_from(entries, key, value, i)),
    decreases entries.len() - i,
{
    if i < entries.len() {
        if entries[i].0 == key {
            let r = entries.update(i, (key, value));
            assert forall|a: int, b: int| 0 <= a < b < r.len() implies (#[trigger] r[a]).0 != (
            #[trigger] r[b]).0 by {
                assert(entries[a].0 == r[a].0 || (a == i && r[a].0 == key));
                assert(entries[b].0 == r[b].0 || (b == i && r[b].0 == key));
            }
        } else {
            lemma_cfg_insert_wf(entries, key, value, i + 1);
        }
    } else {
        let r = entries.push((key, value));
        assert forall|a: int, b: int| 0 <= a < b < r.len() implies (#[trigger] r[a]).0 != (
        #[trigger] r[b]).0 by {
            if b < entries.len() {
            } else {
                assert(r[b].0 == key);
                assert(entries[a].0 != key);
            }
        }
    }
}

/// Spec-level image of a [`Node`].
pub struct NodeView {
    pub id: Seq<char>,
    pub task_type: Option<Seq<char>>,
    pub base_period_ns: Option<i64>,
    pub config: Option<Seq<(Seq<char>, ValueView)>>,
}

/// A node is well formed when its configuration, if present, has unique keys.
pub open spec fn node_wf(n: NodeView) -> bool {
    match n.config {
        Some(es) => cfg_wf(es),
        None => true,
    }
}

/// The configuration-time representation of a task: a unique human-readable
/// id, the name of the task implementation (opaque to the core), an optional
/// base period (an exact count of nanoseconds), and an optional instance
/// configuration.
#[derive(Debug)]
pub struct Node {
    pub id: String,
    pub type_: Option<String>,
    pub base_period_ns: Option<i64>,
    pub config: Option<NodeInstanceConfig>,
}

impl View for Node {
    type V = NodeView;

    open spec fn view(&self) -> NodeView {
        NodeView {
            id: self.id@,
            task_type: match self.type_ {
                Some(ref s) => Some(s@),
                None => None,
            },
            base_period_ns: self.base_period_ns,
            config: match self.config {
                Some(ref c) => Some(c@),
                None => None,
            },
        }
    }
}

impl Clone for Node {
    fn clone(&self) -> (res: Self)
        ensures
            res@ == self@,
    {
        Node {
            id: self.id.clone(),
            type_: match &self.type_ {
                Some(s) => Some(s.clone()),
                None => None,
            },
            base_period_ns: self.base_period_ns,
            config: match &self.config {
                Some(c) => Some(c.clone()),
                None => None,
            },
        }
    }
}

impl Node {
    /// A new node with the given id and task type, no base period and no
    /// instance configuration.
    pub fn new(id: &str, ptype: &str) -> (n: Self)
        ensures
            n@.id == id@,
            n@.task_type == Some(ptype@),
            n@.base_period_ns is None,
            n@.config is None,
            node_wf(n@),
    {
        Node { id: id.to_owned(), type_: Some(ptype.to_owned()), base_period_ns: None, config: None }
    }

    /// The node's id.
    pub fn get_id(&self) -> (r: String)
        ensures
            r@ == self@.id,
    {
        self.id.clone()
    }

    /// Replaces the task type name.
    pub fn set_type(self, name: Option<String>) -> (n: Self)
        ensures
            n@ == (NodeView {
                task_type: match name {
                    Some(ref s) => Some(s@),
                    None => None,
                },
                ..self@
            }),
    {
        Node { type_: name, ..self }
    }

    /// The task type name; the node must have one.
    pub fn get_type(&self) -> (r: &str)
        requires
            self@.task_type is Some,
        ensures
            Some(r@) == self@.task_type,
    {
        match &self.type_ {
            Some(s) => s.as_str(),
            None => vstd::pervasive::unreached(),
        }
    }

    /// The node's instance configuration, if any.
    pub fn get_instance_config(&self) -> (r: Option<&NodeInstanceConfig>)
        ensures
            match r {
                Some(c) => self@.config == Some(c@),
                None => self@.config is None,
            },
    {
        self.config.as_ref()
    }

    /// The base period as an exact count of nanoseconds, if one is set.
    pub fn base_period(&self) -> (r: Option<i64>)
        ensures
            r == self@.base_period_ns,
    {
        self.base_period_ns
    }

    /// Sets the base period, given as an exact count of nanoseconds.
    pub fn set_base_period(self, period_ns: i64) -> (n: Self)
        ensures
            n@ == (NodeView { base_period_ns: Some(period_ns), ..self@ }),
    {
        Node { base_period_ns: Some(period_ns), ..self }
    }

    /// The configured value under `key`, if any; `None` both when the node
    /// has no configuration and when the key is absent.
    pub fn get_param(&self, key: &str) -> (r: Option<Value>)
        ensures
            match self@.config {
                None => r is None,
                Some(es) => match r {
                    Some(v) => cfg_lookup(es, key@) == Some(v@),
                    None => cfg_lookup(es, key@) is None,
                },
            },
    {
        match &self.config {
            None => None,
            Some(c) => match c.get(key) {
                Some(v) => Some(v.clone()),
                None => None,
            },
        }
    }

    /// Stores `value` under `key` in the node's instance configuration,
    /// creating the configuration when the node has none.
    pub fn set_param(&mut self, key: &str, value: Value)
        requires
            node_wf(old(self)@),
        ensures
            final(self)@.id == old(self)@.id,
            final(self)@.task_type == old(self)@.task_type,
            final(self)@.base_period_ns == old(self)@.base_period_ns,
            final(self)@.config == Some(
                cfg_insert(
                    match old(self)@.config {
                        Some(es) => es,
                        None => Seq::empty(),
                    },
                    key@,
                    value@,
                ),
            ),
            node_wf(final(self)@),
    {
        if self.config.is_none() {
            self.config = Some(NodeInstanceConfig::new());
        }
        match &mut self.config {
            Some(c) => c.set(key, value),
            None => vstd::pervasive::unreached(),
        }
    }
}

/// Spec-level image of a [`Cnx`].
pub struct CnxView {
    pub src: Seq<char>,
    pub dst: Seq<char>,
    pub msg: Seq<char>,
}

/// A connection record as it appears in configuration text: source and
/// destination nodes are named by id, together with the message type name.
/// Deserialization resolves the ids into node indices.
#[derive(Debug)]
pub struct Cnx {
    pub src: String,
    pub dst: String,
    pub msg: String,
}

impl View for Cnx {
    type V = CnxView;

    open spec fn view(&self) -> CnxView {
        CnxView { src: self.src@, dst: self.dst@, msg: self.msg@ }
    }
}

/// Spec-level image of an edge: source and destination node indices and the
/// message type name.
pub struct EdgeView {
    pub src: int,
    pub dst: int,
    pub msg: Seq<char>,
}

/// Spec-level image of a [`CuConfig`].
pub struct CuConfigView {
    pub nodes: Seq<NodeView>,
    pub edges: Seq<EdgeView>,
}

/// Every edge endpoint is a valid node index, and every node is well formed.
pub open spec fn config_wf(c: CuConfigView) -> bool {
    &&& forall|k: int|
        0 <= k < c.edges.len() ==> 0 <= (#[trigger] c.edges[k]).src < c.nodes.len() && 0
            <= c.edges[k].dst < c.nodes.len()
    &&& forall|i: int| 0 <= i < c.nodes.len() ==> node_wf(#[trigger] c.nodes[i])
}

/// Node ids are pairwise distinct. This is not enforced during construction
/// (ids are the caller's choice), but it is what makes connection records,
/// which name nodes by id, unambiguous.
pub open spec fn unique_ids(c: CuConfigView) -> bool {
    forall|i: int, j: int|
        0 <= i < j < c.nodes.len() ==> (#[trigger] c.nodes[i]).id != (#[trigger] c.nodes[j]).id
}

/// The task graph: an append-only arena of nodes plus a dense list of edges.
#[derive(Debug)]
pub struct CuConfig {
    pub nodes: Vec<Node>,
    pub edges: Vec<(NodeId, NodeId, String)>,
}

impl View for CuConfig {
    type V = CuConfigView;

    open spec fn view(&self) -> CuConfigView {
        CuConfigView {
            nodes: self.nodes@.map_values(|n: Node| n@),
            edges: Seq::new(
                self.edges@.len(),
                |k: int|
                    EdgeView {
                        src: self.edges@[k].0 as int,
                        dst: self.edges@[k].1 as int,
                        msg: self.edges@[k].2@,
                    },
            ),
        }
    }
}

impl Default for CuConfig {
    /// An empty graph.
    fn default() -> (c: Self)
        ensures
            c@.nodes.len() == 0,
            c@.edges.len() == 0,
            c.wf(),
    {
        CuConfig { nodes: Vec::new(), edges: Vec::new() }
    }
}

impl CuConfig {
    /// Well-formedness of the arena; see [`config_wf`].
    pub open spec fn wf(&self) -> bool {
        config_wf(self@)
    }

    /// Appends a node and returns its index. Indices are dense and never
    /// reused.
    pub fn add_node(&mut self, node: Node) -> (id: NodeId)
        requires
            old(self).wf(),
            node_wf(node@),
            old(self)@.nodes.len() < NodeId::MAX,
        ensures
            final(self)@.nodes == old(self)@.nodes.push(node@),
            final(self)@.edges == old(self)@.edges,
            id as int == old(self)@.nodes.len(),
            final(self).wf(),
    {
        let id = self.nodes.len() as NodeId;
        self.nodes.push(node);
        proof {
            assert(final(self)@.nodes =~= old(self)@.nodes.push(node@));
            assert(final(self)@.edges =~= old(self)@.edges);
        }
        id
    }

    /// The node at `node_id`, or `None` when the index is out of range.
    pub fn get_node(&self, node_id: NodeId) -> (r: Option<&Node>)
        ensures
            match r {
                Some(n) => node_id < self@.nodes.len() && n@ == self@.nodes[node_id as int],
                None => node_id >= self@.nodes.len(),
            },
    {
        if (node_id as usize) < self.nodes.len() {
            Some(&self.nodes[node_id as usize])
        } else {
            None
        }
    }

    /// Connects `source` to `target` with a channel carrying `msg_type`
    /// messages. Fails with [`CuError::InvalidNodeReference`] when either
    /// index is out of range; parallel edges are permitted.
    pub fn connect(&mut self, source: NodeId, target: NodeId, msg_type: &str) -> (r: CuResult<()>)
        requires
            old(self).wf(),
        ensures
            final(self).wf(),
            final(self)@.nodes == old(self)@.nodes,
            if source as int >= old(self)@.nodes.len() {
                r == Err::<(), CuError>(CuError::InvalidNodeReference(source)) && final(self)@.edges
                    == old(self)@.edges
            } else if target as int >= old(self)@.nodes.len() {
                r == Err::<(), CuError>(CuError::InvalidNodeReference(target)) && final(self)@.edges
                    == old(self)@.edges
            } else {
                r == Ok::<(), CuError>(()) && final(self)@.edges == old(self)@.edges.push(
                    EdgeView { src: source as int, dst: target as int, msg: msg_type@ },
                )
            },
    {
        if source as usize >= self.nodes.len() {
            return Err(CuError::InvalidNodeReference(source));
        }
        if target as usize >= self.nodes.len() {
            return Err(CuError::InvalidNodeReference(target));
        }
        self.edges.push((source, target, msg_type.to_owned()));
        proof {
            assert(final(self)@.nodes =~= old(self)@.nodes);
            assert(final(self)@.edges =~= old(self)@.edges.push(
                EdgeView { src: source as int, dst: target as int, msg: msg_type@ },
            ));
        }
        Ok(())
    }

    /// All nodes, in insertion order.
    pub fn get_all_nodes(&self) -> (r: Vec<&Node>)
        ensures
            r@.len() == self@.nodes.len(),
            forall|i: int| 0 <= i < r@.len() ==> (#[trigger] r@[i])@ == self@.nodes[i],
    {
        let mut r: Vec<&Node> = Vec::new();
        let mut i: usize = 0;
        while i < self.nodes.len()
            invariant
                i <= self.nodes.len(),
                r@.len() == i,
                forall|j: int| 0 <= j < i ==> (#[trigger] r@[j])@ == self@.nodes[j],
            decreases self.nodes.len() - i,
        {
            r.push(&self.nodes[i]);
            i = i + 1;
        }
        r
    }

    /// All edges as `(source, destination, message type)` triples, in
    /// insertion order.
    pub fn get_all_edges(&self) -> (r: Vec<Edge>)
        ensures
            r@.len() == self@.edges.len(),
            forall|k: int|
                0 <= k < r@.len() ==> (#[trigger] r@[k]).0 as int == self@.edges[k].src && r@[k].1
                    as int == self@.edges[k].dst && r@[k].2@ == self@.edges[k].msg,
    {
        let mut r: Vec<Edge> = Vec::new();
        let mut i: usize = 0;
        while i < self.edges.len()
            invariant
                i <= self.edges.len(),
                r@.len() == i,
                forall|k: int|
                    0 <= k < i ==> (#[trigger] r@[k]).0 as int == self@.edges[k].src && r@[k].1
                        as int == self@.edges[k].dst && r@[k].2@ == self@.edges[k].msg,
            decreases self.edges.len() - i,
        {
            let e = &self.edges[i];
            r.push((e.0, e.1, e.2.clone()));
            i = i + 1;
        }
        r
    }

    /// The message type name of the edge at `index`, or `None` when the index
    /// is out of range.
    pub fn get_edge_weight(&self, index: usize) -> (r: Option<String>)
        ensures
            match r {
                Some(s) => index < self@.edges.len() && s@ == self@.edges[index as int].msg,
                None => index >= self@.edges.len(),
            },
    {
        if index < self.edges.len() {
            Some(self.edges[index].2.clone())
        } else {
            None
        }
    }

    /// The indices of the edges leaving `node_id`, in edge insertion order.
    pub fn get_src_edges(&self, node_id: NodeId) -> (r: Vec<usize>)
        ensures
            r@.map_values(|e: usize| e as int) == edge_indices_from(
                self@.edges,
                node_id as int,
                self@.edges.len() as int,
            ),
    {
        let mut r: Vec<usize> = Vec::new();
        let mut i: usize = 0;
        while i < self.edges.len()
            invariant
                i <= self.edges.len(),
                r@.map_values(|e: usize| e as int) == edge_indices_from(
                    self@.edges,
                    node_id as int,
                    i as int,
                ),
            decreases self.edges.len() - i,
        {
            if self.edges[i].0 == node_id {
                r.push(i);
            }
            proof {
                assert(r@.map_values(|e: usize| e as int) =~= edge_indices_from(
                    self@.edges,
                    node_id as int,
                    i + 1 as int,
                ));
            }
            i = i + 1;
        }
        r
    }

    /// The indices of the edges entering `node_id`, in edge insertion order.
    pub fn get_dst_edges(&self, node_id: NodeId) -> (r: Vec<usize>)
        ensures
            r@.map_values(|e: usize| e as int) == edge_indices_into(
                self@.edges,
                node_id as int,
                self@.edges.len() as int,
            ),
    {
        let mut r: Vec<usize> = Vec::new();
        let mut i: usize = 0;
        while i < self.edges.len()
            invariant
                i <= self.edges.len(),
                r@.map_values(|e: usize| e as int) == edge_indices_into(
                    self@.edges,
                    node_id as int,
                    i as int,
                ),
            decreases self.edges.len() - i,
        {
            if self.edges[i].1 == node_id {
                r.push(i);
            }
            proof {
                assert(r@.map_values(|e: usize| e as int) =~= edge_indices_into(
                    self@.edges,
                    node_id as int,
                    i + 1 as int,
                ));
            }
            i = i + 1;
        }
        r
    }

    /// The instance configuration of every node, one entry per node in index
    /// order.
    pub fn get_all_instances_configs(&self) -> (r: Vec<Option<&NodeInstanceConfig>>)
        ensures
            r@.len() == self@.nodes.len(),
            forall|i: int|
                0 <= i < r@.len() ==> match #[trigger] r@[i] {
                    Some(c) => self@.nodes[i].config == Some(c@),
                    None => self@.nodes[i].config is None,
                },
    {
        let mut r: Vec<Option<&NodeInstanceConfig>> = Vec::new();
        let mut i: usize = 0;
        while i < self.nodes.len()
            invariant
                i <= self.nodes.len(),
                r@.len() == i,
                forall|j: int|
                    0 <= j < i ==> match #[trigger] r@[j] {
                        Some(c) => self@.nodes[j].config == Some(c@),
                        None => self@.nodes[j].config is None,
                    },
            decreases self.nodes.len() - i,
        {
            r.push(self.nodes[i].get_instance_config());
            i = i + 1;
        }
        r
    }
}

/// The indices `k < n` of edges whose source is `v`, in order.
pub open spec fn edge_indices_from(edges: Seq<EdgeView>, v: int, n: int) -> Seq<int>
    decreases n,
{
    if n <= 0 {
        Seq::empty()
    } else if edges[n - 1].src == v {
        edge_indices_from(edges, v, n - 1).push(n - 1)
    } else {
        edge_indices_from(edges, v, n - 1)
    }
}

/// The indices `k < n` of edges whose destination is `v`, in order.
pub open spec fn edge_indices_into(edges: Seq<EdgeView>, v: int, n: int) -> Seq<int>
    decreases n,
{
    if n <= 0 {
        Seq::empty()
    } else if edges[n - 1].dst == v {
        edge_indices_into(edges, v, n - 1).push(n - 1)
    } else {
        edge_indices_into(edges, v, n - 1)
    }
}

} // verus!
