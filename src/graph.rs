use vstd::prelude::*;

verus! {

/// The reserved instance id that marks "no connection".
pub const NO_CONNECTION: usize = 255;

/// One slot of an instance: a literal value, or a connection to another
/// instance's output socket (target instance id, target socket index).
#[derive(Clone, Copy, Debug, PartialEq, Eq, Structural)]
pub enum Socket {
    Value,
    Connection(usize, usize),
}

/// A placed occurrence of a node type.
#[derive(Clone, Debug)]
pub struct Instance {
    pub id: usize,
    pub sockets: Vec<Socket>,
    /// Stored vertical position; used only to order instances within a column.
    pub y_hint: i64,
}

/// Why a graph was rejected.
#[derive(Clone, Copy, Debug, PartialEq, Eq, Structural)]
pub enum GraphError {
    /// An instance uses the reserved "no connection" id.
    ReservedId,
    /// Two instances share this id.
    DuplicateId(usize),
    /// A connection refers to this id, which no instance has.
    UnknownTarget(usize),
}

/// The instance id a socket connects to, if it is a real connection.
pub open spec fn socket_target(s: Socket) -> Option<usize> {
    match s {
        Socket::Connection(t, _) => if t != NO_CONNECTION { Some(t) } else { None },
        Socket::Value => None,
    }
}

pub open spec fn has_id(g: Seq<Instance>, id: usize) -> bool {
    exists|k: int| 0 <= k < g.len() && g[k].id == id
}

pub open spec fn ids_unique(g: Seq<Instance>) -> bool {
    forall|a: int, b: int| 0 <= a < g.len() && 0 <= b < g.len() && a != b ==> g[a].id != g[b].id
}

pub open spec fn no_reserved_id(g: Seq<Instance>) -> bool {
    forall|a: int| 0 <= a < g.len() ==> g[a].id != NO_CONNECTION
}

pub open spec fn root_ok(g: Seq<Instance>, r: Seq<(usize, usize)>) -> bool {
    forall|k: int| 0 <= k < r.len() ==> r[k].0 == NO_CONNECTION || has_id(g, r[k].0)
}

pub open spec fn targets_known(g: Seq<Instance>) -> bool {
    forall|a: int, s: int|
        0 <= a < g.len() && 0 <= s < g[a].sockets.len() && socket_target(g[a].sockets[s]) is Some
            ==> has_id(g, socket_target(g[a].sockets[s])->Some_0)
}

/// Well-formed instance table: ids unique, none reserved, every connection resolves.
pub open spec fn table_wf(g: Seq<Instance>) -> bool {
    ids_unique(g) && no_reserved_id(g) && targets_known(g)
}

/// Instance `i` has a socket connected to instance `j`: `j` feeds `i`.
pub open spec fn connects(g: Seq<Instance>, i: int, j: int) -> bool {
    &&& 0 <= i < g.len()
    &&& 0 <= j < g.len()
    &&& exists|s: int| 0 <= s < g[i].sockets.len() && socket_target(g[i].sockets[s]) == Some(g[j].id)
}

/// No instance of a valid table carries the reserved id, so nothing keyed by
/// instance id (depths, columns) ever holds it.
pub proof fn lemma_sentinel_never_an_instance(g: Seq<Instance>)
    requires
        table_wf(g),
    ensures
        !has_id(g, NO_CONNECTION),
{
}

/// The immutable graph: the instance arena and the two boundary roots.
pub struct NodeGraph {
    instances: Vec<Instance>,
    output_connections: Vec<(usize, usize)>,
    input_connections: Vec<(usize, usize)>,
}

/// Position of the instance with id `id`, if any.
pub fn index_of(instances: &Vec<Instance>, id: usize) -> (r: Option<usize>)
    ensures
        r matches Some(k) ==> k < instances@.len() && instances@[k as int].id == id,
        r is None ==> !has_id(instances@, id),
{
    let mut k: usize = 0;
    while k < instances.len()
        invariant
            k <= instances@.len(),
            forall|m: int| 0 <= m < k ==> instances@[m].id != id,
        decreases instances@.len() - k,
    {
        if instances[k].id == id {
            return Some(k);
        }
        k += 1;
    }
    None
}

fn check_root(instances: &Vec<Instance>, root: &Vec<(usize, usize)>) -> (r: Result<(), GraphError>)
    ensures
        r is Ok <==> root_ok(instances@, root@),
        r matches Err(e) ==> (e matches GraphError::UnknownTarget(id) && !has_id(instances@, id)
            && id != NO_CONNECTION),
{
    let mut k: usize = 0;
    while k < root.len()
        invariant
            k <= root@.len(),
            forall|m: int| 0 <= m < k ==> root@[m].0 == NO_CONNECTION || has_id(instances@, root@[m].0),
        decreases root@.len() - k,
    {
        let id = root[k].0;
        if id != NO_CONNECTION {
            if index_of(instances, id).is_none() {
                return Err(GraphError::UnknownTarget(id));
            }
        }
        k += 1;
    }
    Ok(())
}

impl NodeGraph {
    pub closed spec fn instances_view(&self) -> Seq<Instance> {
        self.instances@
    }

    pub closed spec fn outputs_view(&self) -> Seq<(usize, usize)> {
        self.output_connections@
    }

    pub closed spec fn inputs_view(&self) -> Seq<(usize, usize)> {
        self.input_connections@
    }

    /// A graph is well formed when its table is, and both roots resolve.
    pub open spec fn wf(&self) -> bool {
        &&& table_wf(self.instances_view())
        &&& root_ok(self.instances_view(), self.outputs_view())
        &&& root_ok(self.instances_view(), self.inputs_view())
    }

    /// Validates and builds a graph.
    pub fn new(
        instances: Vec<Instance>,
        output_connections: Vec<(usize, usize)>,
        input_connections: Vec<(usize, usize)>,
    ) -> (r: Result<NodeGraph, GraphError>)
        ensures
            r is Ok <==> (table_wf(instances@) && root_ok(instances@, output_connections@)
                && root_ok(instances@, input_connections@)),
            r matches Ok(g) ==> g.instances_view() == instances@ && g.outputs_view()
                == output_connections@ && g.inputs_view() == input_connections@ && g.wf(),
            r matches Err(GraphError::ReservedId) ==> !no_reserved_id(instances@),
            r matches Err(GraphError::DuplicateId(id)) ==> exists|a: int, b: int|
                0 <= a < b < instances@.len() && instances@[a].id == id && instances@[b].id == id,
            r matches Err(GraphError::UnknownTarget(id)) ==> id != NO_CONNECTION && !has_id(instances@, id),
    {
        let n = instances.len();
        let mut a: usize = 0;
        while a < n
            invariant
                n == instances@.len(),
                a <= n,
                forall|x: int| 0 <= x < a ==> instances@[x].id != NO_CONNECTION,
                forall|x: int, y: int| 0 <= x < a && 0 <= y < a && x != y ==> instances@[x].id != instances@[y].id,
            decreases n - a,
        {
            if instances[a].id == NO_CONNECTION {
                return Err(GraphError::ReservedId);
            }
            let mut b: usize = 0;
            while b < a
                invariant
                    n == instances@.len(),
                    b <= a < n,
                    forall|y: int| 0 <= y < b ==> instances@[y].id != instances@[a as int].id,
                decreases a - b,
            {
                if instances[b].id == instances[a].id {
                    return Err(GraphError::DuplicateId(instances[a].id));
                }
                b += 1;
            }
            a += 1;
        }
        let mut a: usize = 0;
        while a < n
            invariant
                n == instances@.len(),
                a <= n,
                forall|x: int, s: int|
                    0 <= x < a && 0 <= s < instances@[x].sockets.len() && socket_target(instances@[x].sockets[s]) is Some
                        ==> has_id(instances@, socket_target(instances@[x].sockets[s])->Some_0),
            decreases n - a,
        {
            let sockets = &instances[a].sockets;
            let mut s: usize = 0;
            while s < sockets.len()
                invariant
                    n == instances@.len(),
                    a < n,
                    sockets@ == instances@[a as int].sockets@,
                    s <= sockets@.len(),
                    forall|x: int, s2: int|
                        0 <= x < a && 0 <= s2 < instances@[x].sockets.len() && socket_target(instances@[x].sockets[s2]) is Some
                            ==> has_id(instances@, socket_target(instances@[x].sockets[s2])->Some_0),
                    forall|s2: int|
                        0 <= s2 < s && socket_target(sockets@[s2]) is Some
                            ==> has_id(instances@, socket_target(sockets@[s2])->Some_0),
                decreases sockets@.len() - s,
            {
                if let Socket::Connection(t, _) = sockets[s] {
                    if t != NO_CONNECTION && index_of(&instances, t).is_none() {
                        return Err(GraphError::UnknownTarget(t));
                    }
                }
                s += 1;
            }
            a += 1;
        }
        check_root(&instances, &output_connections)?;
        check_root(&instances, &input_connections)?;
        Ok(NodeGraph { instances, output_connections, input_connections })
    }

    pub fn instances(&self) -> (r: &Vec<Instance>)
        ensures
            r@ == self.instances_view(),
    {
        &self.instances
    }

    pub fn output_connections(&self) -> (r: &Vec<(usize, usize)>)
        ensures
            r@ == self.outputs_view(),
    {
        &self.output_connections
    }

    pub fn input_connections(&self) -> (r: &Vec<(usize, usize)>)
        ensures
            r@ == self.inputs_view(),
    {
        &self.input_connections
    }
}

} // verus!
