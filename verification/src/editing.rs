//! Step-by-step editing of an imported network: adding and deleting nodes and pipes, and
//! the topology that the incremental check then judges.

use vstd::prelude::*;

use crate::labels::RawNodeRole;
use crate::text::{append, chars_of, str_eq, trim, trim_bounds};
use crate::topology::{incremental_verdict, validate_network_incremental, Topology, TopologyNode, TopologyPipe, ValidationError};

verus! {

/// A node of the network being edited: its identifier, role, imposed pressure (of type
/// `P`) and the rest of its attributes (of type `N`).
pub struct EditNode<P, N> {
    pub id: String,
    pub role: RawNodeRole,
    pub pressure_fixed_bar: Option<P>,
    pub data: N,
}

/// A pipe of the network being edited: its identifier, its two ends and the rest of its
/// attributes (of type `E`).
pub struct EditPipe<E> {
    pub id: String,
    pub from: String,
    pub to: String,
    pub data: E,
}

/// The network being edited.
pub struct EditableNetwork<P, N, E> {
    pub nodes: Vec<EditNode<P, N>>,
    pub pipes: Vec<EditPipe<E>>,
}

/// Why an edit is refused.
#[derive(Debug, PartialEq, Eq)]
pub enum EditError {
    EmptyNodeId,
    NodeExists { id: String },
    NodeNotFound { id: String },
    EmptyPipeId,
    PipeExists { id: String },
    PipeNotFound { id: String },
}

pub type EditNodeView<P, N> = (Seq<char>, RawNodeRole, Option<P>, N);

pub type EditPipeView<E> = (Seq<char>, Seq<char>, Seq<char>, E);

pub open spec fn edit_node_view<P, N>(n: EditNode<P, N>) -> EditNodeView<P, N> {
    (n.id@, n.role, n.pressure_fixed_bar, n.data)
}

pub open spec fn edit_nodes_view<P, N>(v: Seq<EditNode<P, N>>) -> Seq<EditNodeView<P, N>> {
    v.map_values(|n: EditNode<P, N>| edit_node_view(n))
}

pub open spec fn edit_pipe_view<E>(p: EditPipe<E>) -> EditPipeView<E> {
    (p.id@, p.from@, p.to@, p.data)
}

pub open spec fn edit_pipes_view<E>(v: Seq<EditPipe<E>>) -> Seq<EditPipeView<E>> {
    v.map_values(|p: EditPipe<E>| edit_pipe_view(p))
}

/// The role a node takes from its imposed pressure: a source when it has one.
pub open spec fn role_for<P>(pressure: Option<P>) -> RawNodeRole {
    if pressure is Some {
        RawNodeRole::Source
    } else {
        RawNodeRole::Innode
    }
}

pub open spec fn has_node<P, N>(ns: Seq<EditNodeView<P, N>>, x: Seq<char>) -> bool {
    exists|i: int| 0 <= i < ns.len() && (#[trigger] ns[i]).0 == x
}

pub open spec fn has_pipe<E>(ps: Seq<EditPipeView<E>>, x: Seq<char>) -> bool {
    exists|i: int| 0 <= i < ps.len() && (#[trigger] ps[i]).0 == x
}

/// The text of an edit error.
pub open spec fn edit_message(e: EditError) -> Seq<char> {
    match e {
        EditError::EmptyNodeId => "node id must not be empty"@,
        EditError::NodeExists { id } => "node id already exists: "@ + id@,
        EditError::NodeNotFound { id } => "node not found: "@ + id@,
        EditError::EmptyPipeId => "pipe id must not be empty"@,
        EditError::PipeExists { id } => "pipe id already exists: "@ + id@,
        EditError::PipeNotFound { id } => "pipe not found: "@ + id@,
    }
}

impl EditError {
    /// The text of the error, as the editing service reports it.
    pub fn message(&self) -> (m: String)
        ensures
            m@ == edit_message(*self),
    {
        let mut m = String::new();
        match self {
            EditError::EmptyNodeId => append(&mut m, "node id must not be empty"),
            EditError::NodeExists { id } => {
                append(&mut m, "node id already exists: ");
                append(&mut m, id.as_str());
            },
            EditError::NodeNotFound { id } => {
                append(&mut m, "node not found: ");
                append(&mut m, id.as_str());
            },
            EditError::EmptyPipeId => append(&mut m, "pipe id must not be empty"),
            EditError::PipeExists { id } => {
                append(&mut m, "pipe id already exists: ");
                append(&mut m, id.as_str());
            },
            EditError::PipeNotFound { id } => {
                append(&mut m, "pipe not found: ");
                append(&mut m, id.as_str());
            },
        }
        m
    }
}

fn node_index<P, N>(nodes: &Vec<EditNode<P, N>>, id: &str) -> (r: Option<usize>)
    ensures
        match r {
            Some(i) => i < nodes@.len() && nodes@[i as int].id@ == id@ && has_node(edit_nodes_view(nodes@), id@)
                && forall|j: int| 0 <= j < i ==> #[trigger] nodes@[j].id@ != id@,
            None => !has_node(edit_nodes_view(nodes@), id@),
        },
{
    let mut i: usize = 0;
    while i < nodes.len()
        invariant
            i <= nodes@.len(),
            forall|j: int| 0 <= j < i ==> #[trigger] nodes@[j].id@ != id@,
        decreases nodes@.len() - i,
    {
        if str_eq(nodes[i].id.as_str(), id) {
            assert(edit_nodes_view(nodes@)[i as int].0 == id@);
            return Some(i);
        }
        i = i + 1;
    }
    proof {
        assert forall|j: int| 0 <= j < nodes@.len() implies (#[trigger] edit_nodes_view(nodes@)[j]).0 != id@ by {
            assert(nodes@[j].id@ != id@);
        }
    }
    None
}

fn pipe_index<E>(pipes: &Vec<EditPipe<E>>, id: &str) -> (r: Option<usize>)
    ensures
        match r {
            Some(i) => i < pipes@.len() && pipes@[i as int].id@ == id@ && has_pipe(edit_pipes_view(pipes@), id@)
                && forall|j: int| 0 <= j < i ==> #[trigger] pipes@[j].id@ != id@,
            None => !has_pipe(edit_pipes_view(pipes@), id@),
        },
{
    let mut i: usize = 0;
    while i < pipes.len()
        invariant
            i <= pipes@.len(),
            forall|j: int| 0 <= j < i ==> #[trigger] pipes@[j].id@ != id@,
        decreases pipes@.len() - i,
    {
        if str_eq(pipes[i].id.as_str(), id) {
            assert(edit_pipes_view(pipes@)[i as int].0 == id@);
            return Some(i);
        }
        i = i + 1;
    }
    proof {
        assert forall|j: int| 0 <= j < pipes@.len() implies (#[trigger] edit_pipes_view(pipes@)[j]).0 != id@ by {
            assert(pipes@[j].id@ != id@);
        }
    }
    None
}

/// Adds a node. Refused when its identifier is blank or already names a node; a node with
/// an imposed pressure is a source, any other an internal node.
pub fn add_node<P, N, E>(net: &mut EditableNetwork<P, N, E>, id: String, pressure_fixed_bar: Option<P>, data: N) -> (r: Result<(), EditError>)
    ensures
        trim(id@).len() == 0 ==> r == Err::<(), EditError>(EditError::EmptyNodeId),
        trim(id@).len() > 0 && has_node(edit_nodes_view(old(net).nodes@), id@) ==> (r matches Err(EditError::NodeExists { id: i }) && i@ == id@),
        r is Err ==> edit_nodes_view(final(net).nodes@) == edit_nodes_view(old(net).nodes@),
        r is Ok <==> trim(id@).len() > 0 && !has_node(edit_nodes_view(old(net).nodes@), id@),
        r is Ok ==> edit_nodes_view(final(net).nodes@) == edit_nodes_view(old(net).nodes@).push(
            (id@, role_for(pressure_fixed_bar), pressure_fixed_bar, data),
        ),
        edit_pipes_view(final(net).pipes@) == edit_pipes_view(old(net).pipes@),
{
    let v = chars_of(id.as_str());
    let (a, b) = trim_bounds(&v);
    if a == b {
        return Err(EditError::EmptyNodeId);
    }
    if node_index(&net.nodes, id.as_str()).is_some() {
        return Err(EditError::NodeExists { id });
    }
    let role = if pressure_fixed_bar.is_some() { RawNodeRole::Source } else { RawNodeRole::Innode };
    let ghost before = edit_nodes_view(net.nodes@);
    let n = EditNode { id, role, pressure_fixed_bar, data };
    let ghost nv = edit_node_view(n);
    net.nodes.push(n);
    assert(edit_nodes_view(net.nodes@) =~= before.push(nv));
    Ok(())
}

/// Adds a pipe. Refused when its identifier is blank or already names a pipe; its ends
/// are judged by the topology check that follows an edit.
pub fn add_pipe<P, N, E>(net: &mut EditableNetwork<P, N, E>, id: String, from: String, to: String, data: E) -> (r: Result<(), EditError>)
    ensures
        trim(id@).len() == 0 ==> r == Err::<(), EditError>(EditError::EmptyPipeId),
        trim(id@).len() > 0 && has_pipe(edit_pipes_view(old(net).pipes@), id@) ==> (r matches Err(EditError::PipeExists { id: i }) && i@ == id@),
        r is Err ==> edit_pipes_view(final(net).pipes@) == edit_pipes_view(old(net).pipes@),
        r is Ok <==> trim(id@).len() > 0 && !has_pipe(edit_pipes_view(old(net).pipes@), id@),
        r is Ok ==> edit_pipes_view(final(net).pipes@) == edit_pipes_view(old(net).pipes@).push((id@, from@, to@, data)),
        edit_nodes_view(final(net).nodes@) == edit_nodes_view(old(net).nodes@),
{
    let v = chars_of(id.as_str());
    let (a, b) = trim_bounds(&v);
    if a == b {
        return Err(EditError::EmptyPipeId);
    }
    if pipe_index(&net.pipes, id.as_str()).is_some() {
        return Err(EditError::PipeExists { id });
    }
    let ghost before = edit_pipes_view(net.pipes@);
    let p = EditPipe { id, from, to, data };
    let ghost pv = edit_pipe_view(p);
    net.pipes.push(p);
    assert(edit_pipes_view(net.pipes@) =~= before.push(pv));
    Ok(())
}

/// Removes every pipe named `id`; refused when there is none.
pub fn delete_pipe<P, N, E>(net: &mut EditableNetwork<P, N, E>, id: &str) -> (r: Result<(), EditError>)
    ensures
        r is Ok <==> has_pipe(edit_pipes_view(old(net).pipes@), id@),
        r is Err ==> (r matches Err(EditError::PipeNotFound { id: i }) && i@ == id@),
        r is Err ==> edit_pipes_view(final(net).pipes@) == edit_pipes_view(old(net).pipes@),
        r is Ok ==> edit_pipes_view(final(net).pipes@) == edit_pipes_view(old(net).pipes@).filter(|p: EditPipeView<E>| p.0 != id@),
        edit_nodes_view(final(net).nodes@) == edit_nodes_view(old(net).nodes@),
{
    if pipe_index(&net.pipes, id).is_none() {
        return Err(EditError::PipeNotFound { id: id.to_string() });
    }
    remove_pipes_where(&mut net.pipes, id, false);
    Ok(())
}

/// Removes the pipes named `id` (when `by_end` is false) or those that end at node `id`
/// (when it is true), keeping the others in order.
fn remove_pipes_where<E>(pipes: &mut Vec<EditPipe<E>>, id: &str, by_end: bool)
    ensures
        !by_end ==> edit_pipes_view(final(pipes)@) == edit_pipes_view(old(pipes)@).filter(|p: EditPipeView<E>| p.0 != id@),
        by_end ==> edit_pipes_view(final(pipes)@) == edit_pipes_view(old(pipes)@).filter(
            |p: EditPipeView<E>| p.1 != id@ && p.2 != id@,
        ),
{
    let ghost ov = edit_pipes_view(pipes@);
    let ghost keep = if by_end {
        |p: EditPipeView<E>| p.1 != id@ && p.2 != id@
    } else {
        |p: EditPipeView<E>| p.0 != id@
    };
    let mut i: usize = 0;
    let ghost mut j: int = 0;
    assert(ov.take(0).filter(keep) =~= Seq::<EditPipeView<E>>::empty()) by {
        reveal(Seq::filter);
    }
    assert(ov.skip(0) =~= ov);
    while i < pipes.len()
        invariant
            0 <= j <= ov.len(),
            i == ov.take(j).filter(keep).len(),
            edit_pipes_view(pipes@) == ov.take(j).filter(keep) + ov.skip(j),
            keep == (if by_end {
                |p: EditPipeView<E>| p.1 != id@ && p.2 != id@
            } else {
                |p: EditPipeView<E>| p.0 != id@
            }),
        decreases edit_pipes_view(pipes@).len() - i,
    {
        let ghost before = edit_pipes_view(pipes@);
        proof {
            assert(before[i as int] == ov[j]);
            assert(ov.take(j + 1).drop_last() =~= ov.take(j));
            assert(ov.take(j + 1).last() == ov[j]);
            reveal(Seq::filter);
        }
        let p = &pipes[i];
        let drop = if by_end {
            str_eq(p.from.as_str(), id) || str_eq(p.to.as_str(), id)
        } else {
            str_eq(p.id.as_str(), id)
        };
        if drop {
            let _ = pipes.remove(i);
            assert(!keep(ov[j]));
            assert(ov.take(j + 1).filter(keep) == ov.take(j).filter(keep));
            assert(edit_pipes_view(pipes@) =~= before.remove(i as int));
            assert(edit_pipes_view(pipes@) =~= ov.take(j + 1).filter(keep) + ov.skip(j + 1));
        } else {
            assert(ov.take(j + 1).filter(keep) == ov.take(j).filter(keep).push(ov[j]));
            assert(edit_pipes_view(pipes@) =~= ov.take(j + 1).filter(keep) + ov.skip(j + 1));
            i = i + 1;
        }
        proof {
            j = j + 1;
        }
    }
    proof {
        assert(j == ov.len()) by {
            if j < ov.len() {
                assert(edit_pipes_view(pipes@).len() == ov.take(j).filter(keep).len() + ov.skip(j).len());
            }
        }
        assert(ov.take(j) =~= ov);
        assert(ov.skip(j) =~= Seq::<EditPipeView<E>>::empty());
        assert(edit_pipes_view(pipes@) =~= ov.filter(keep));
    }
}

/// Removes the node `id` (every node of that name) and the pipes that end at it; refused
/// when there is no such node. Gives back the identifier removed.
pub fn delete_node<P, N, E>(net: &mut EditableNetwork<P, N, E>, id: &str) -> (r: Result<String, EditError>)
    ensures
        r is Ok <==> has_node(edit_nodes_view(old(net).nodes@), id@),
        r matches Ok(s) ==> s@ == id@,
        r is Err ==> (r matches Err(EditError::NodeNotFound { id: i }) && i@ == id@),
        r is Err ==> edit_nodes_view(final(net).nodes@) == edit_nodes_view(old(net).nodes@)
            && edit_pipes_view(final(net).pipes@) == edit_pipes_view(old(net).pipes@),
        r is Ok ==> edit_nodes_view(final(net).nodes@) == nodes_without(edit_nodes_view(old(net).nodes@), id@),
        r is Ok ==> edit_pipes_view(final(net).pipes@) == pipes_clear_of(edit_pipes_view(old(net).pipes@), id@),
{
    if node_index(&net.nodes, id).is_none() {
        return Err(EditError::NodeNotFound { id: id.to_string() });
    }
    remove_nodes_named(&mut net.nodes, id);
    remove_pipes_where(&mut net.pipes, id, true);
    Ok(id.to_string())
}

fn remove_nodes_named<P, N>(nodes: &mut Vec<EditNode<P, N>>, id: &str)
    ensures
        edit_nodes_view(final(nodes)@) == edit_nodes_view(old(nodes)@).filter(|n: EditNodeView<P, N>| n.0 != id@),
{
    let ghost ov = edit_nodes_view(nodes@);
    let ghost keep = |n: EditNodeView<P, N>| n.0 != id@;
    let mut i: usize = 0;
    let ghost mut j: int = 0;
    assert(ov.take(0).filter(keep) =~= Seq::<EditNodeView<P, N>>::empty()) by {
        reveal(Seq::filter);
    }
    assert(ov.skip(0) =~= ov);
    while i < nodes.len()
        invariant
            0 <= j <= ov.len(),
            i == ov.take(j).filter(keep).len(),
            edit_nodes_view(nodes@) == ov.take(j).filter(keep) + ov.skip(j),
            keep == (|n: EditNodeView<P, N>| n.0 != id@),
        decreases edit_nodes_view(nodes@).len() - i,
    {
        let ghost before = edit_nodes_view(nodes@);
        proof {
            assert(before[i as int] == ov[j]);
            assert(ov.take(j + 1).drop_last() =~= ov.take(j));
            assert(ov.take(j + 1).last() == ov[j]);
            reveal(Seq::filter);
        }
        if str_eq(nodes[i].id.as_str(), id) {
            let _ = nodes.remove(i);
            assert(!keep(ov[j]));
            assert(ov.take(j + 1).filter(keep) == ov.take(j).filter(keep));
            assert(edit_nodes_view(nodes@) =~= before.remove(i as int));
            assert(edit_nodes_view(nodes@) =~= ov.take(j + 1).filter(keep) + ov.skip(j + 1));
        } else {
            assert(ov.take(j + 1).filter(keep) == ov.take(j).filter(keep).push(ov[j]));
            assert(edit_nodes_view(nodes@) =~= ov.take(j + 1).filter(keep) + ov.skip(j + 1));
            i = i + 1;
        }
        proof {
            j = j + 1;
        }
    }
    proof {
        assert(j == ov.len()) by {
            if j < ov.len() {
                assert(edit_nodes_view(nodes@).len() == ov.take(j).filter(keep).len() + ov.skip(j).len());
            }
        }
        assert(ov.take(j) =~= ov);
        assert(ov.skip(j) =~= Seq::<EditNodeView<P, N>>::empty());
        assert(edit_nodes_view(nodes@) =~= ov.filter(keep));
    }
}

/// Changes the imposed pressure of the first node named `id` (when `pressure` holds a new
/// value) and its role with it; refused when there is no such node. The node's other
/// attributes are its own (`N`) and are not touched.
pub fn update_node_pressure<P, N, E>(net: &mut EditableNetwork<P, N, E>, id: &str, pressure: Option<Option<P>>) -> (r: Result<(), EditError>)
    ensures
        r is Ok <==> has_node(edit_nodes_view(old(net).nodes@), id@),
        r is Err ==> (r matches Err(EditError::NodeNotFound { id: i }) && i@ == id@),
        r is Err || pressure is None ==> edit_nodes_view(final(net).nodes@) == edit_nodes_view(old(net).nodes@),
        r is Ok && pressure is Some ==> exists|i: int|
            0 <= i < old(net).nodes@.len() && old(net).nodes@[i].id@ == id@
                && (forall|j: int| 0 <= j < i ==> #[trigger] old(net).nodes@[j].id@ != id@)
                && edit_nodes_view(final(net).nodes@) == edit_nodes_view(old(net).nodes@).update(
                    i,
                    (id@, role_for(pressure->0), pressure->0, old(net).nodes@[i].data),
                ),
        edit_pipes_view(final(net).pipes@) == edit_pipes_view(old(net).pipes@),
{
    let i = match node_index(&net.nodes, id) {
        None => return Err(EditError::NodeNotFound { id: id.to_string() }),
        Some(i) => i,
    };
    match pressure {
        None => {},
        Some(p) => {
            let ghost before = edit_nodes_view(net.nodes@);
            let old_node = net.nodes.remove(i);
            let role = if p.is_some() { RawNodeRole::Source } else { RawNodeRole::Innode };
            let n = EditNode { id: old_node.id, role, pressure_fixed_bar: p, data: old_node.data };
            let ghost nv = edit_node_view(n);
            net.nodes.insert(i, n);
            assert(edit_nodes_view(net.nodes@) =~= before.update(i as int, nv));
        },
    }
    Ok(())
}

/// Moves the ends of the first pipe named `id` (each end that is given); refused when
/// there is no such pipe. The pipe's other attributes are its own (`E`) and are not touched.
pub fn update_pipe_ends<P, N, E>(
    net: &mut EditableNetwork<P, N, E>,
    id: &str,
    from: Option<String>,
    to: Option<String>,
) -> (r: Result<(), EditError>)
    ensures
        r is Ok <==> has_pipe(edit_pipes_view(old(net).pipes@), id@),
        r is Err ==> (r matches Err(EditError::PipeNotFound { id: i }) && i@ == id@),
        r is Err ==> edit_pipes_view(final(net).pipes@) == edit_pipes_view(old(net).pipes@),
        r is Ok ==> exists|i: int|
            0 <= i < old(net).pipes@.len() && old(net).pipes@[i].id@ == id@
                && (forall|j: int| 0 <= j < i ==> #[trigger] old(net).pipes@[j].id@ != id@)
                && edit_pipes_view(final(net).pipes@) == edit_pipes_view(old(net).pipes@).update(
                    i,
                    (
                        id@,
                        match from { Some(f) => f@, None => old(net).pipes@[i].from@ },
                        match to { Some(t) => t@, None => old(net).pipes@[i].to@ },
                        old(net).pipes@[i].data,
                    ),
                ),
        edit_nodes_view(final(net).nodes@) == edit_nodes_view(old(net).nodes@),
{
    let i = match pipe_index(&net.pipes, id) {
        None => return Err(EditError::PipeNotFound { id: id.to_string() }),
        Some(i) => i,
    };
    let ghost before = edit_pipes_view(net.pipes@);
    let old_pipe = net.pipes.remove(i);
    let new_from = match from {
        Some(f) => f,
        None => old_pipe.from,
    };
    let new_to = match to {
        Some(t) => t,
        None => old_pipe.to,
    };
    let p = EditPipe { id: old_pipe.id, from: new_from, to: new_to, data: old_pipe.data };
    let ghost pv = edit_pipe_view(p);
    net.pipes.insert(i, p);
    assert(edit_pipes_view(net.pipes@) =~= before.update(i as int, pv));
    Ok(())
}

/// `t` is the topology of the edited network: the same node identifiers in order, each with
/// an imposed pressure exactly when the node has one, and the same pipes and ends.
pub open spec fn is_topology_of<P, N, E>(t: Topology, net: EditableNetwork<P, N, E>) -> bool {
    &&& t.nodes@.len() == net.nodes@.len()
    &&& forall|i: int| 0 <= i < t.nodes@.len() ==> (#[trigger] t.nodes@[i]).id@ == net.nodes@[i].id@
        && t.nodes@[i].has_fixed_pressure == net.nodes@[i].pressure_fixed_bar is Some
    &&& t.pipes@.len() == net.pipes@.len()
    &&& forall|k: int| 0 <= k < t.pipes@.len() ==> (#[trigger] t.pipes@[k]).id@ == net.pipes@[k].id@
        && t.pipes@[k].from@ == net.pipes@[k].from@ && t.pipes@[k].to@ == net.pipes@[k].to@
}

/// The topology of the edited network (see `is_topology_of`).
pub fn edited_topology<P, N, E>(net: &EditableNetwork<P, N, E>) -> (t: Topology)
    ensures
        is_topology_of(t, *net),
{
    let mut nodes: Vec<TopologyNode> = Vec::new();
    let mut i: usize = 0;
    while i < net.nodes.len()
        invariant
            i <= net.nodes@.len(),
            nodes@.len() == i,
            forall|j: int| 0 <= j < i ==> (#[trigger] nodes@[j]).id@ == net.nodes@[j].id@
                && nodes@[j].has_fixed_pressure == net.nodes@[j].pressure_fixed_bar is Some,
        decreases net.nodes@.len() - i,
    {
        let n = &net.nodes[i];
        nodes.push(TopologyNode { id: n.id.clone(), has_fixed_pressure: n.pressure_fixed_bar.is_some() });
        i = i + 1;
    }
    let mut pipes: Vec<TopologyPipe> = Vec::new();
    let mut k: usize = 0;
    while k < net.pipes.len()
        invariant
            k <= net.pipes@.len(),
            pipes@.len() == k,
            forall|j: int| 0 <= j < k ==> (#[trigger] pipes@[j]).id@ == net.pipes@[j].id@
                && pipes@[j].from@ == net.pipes@[j].from@ && pipes@[j].to@ == net.pipes@[j].to@,
        decreases net.pipes@.len() - k,
    {
        let p = &net.pipes[k];
        pipes.push(TopologyPipe { id: p.id.clone(), from: p.from.clone(), to: p.to.clone() });
        k = k + 1;
    }
    Topology { nodes, pipes }
}

/// The incremental topology check of the edited network: what the editing service asks
/// before it keeps an edit.
pub fn validate_edited_network<P, N, E>(net: &EditableNetwork<P, N, E>) -> (r: Result<(), ValidationError>)
    ensures
        exists|t: Topology| is_topology_of(t, *net) && incremental_verdict(t, r),
{
    let t = edited_topology(net);
    let r = validate_network_incremental(&t);
    assert(is_topology_of(t, *net) && incremental_verdict(t, r));
    r
}

/// The nodes left when those named `x` are deleted.
pub open spec fn nodes_without<P, N>(ns: Seq<EditNodeView<P, N>>, x: Seq<char>) -> Seq<EditNodeView<P, N>> {
    ns.filter(|n: EditNodeView<P, N>| n.0 != x)
}

/// The pipes left when those ending at node `x` are deleted.
pub open spec fn pipes_clear_of<E>(ps: Seq<EditPipeView<E>>, x: Seq<char>) -> Seq<EditPipeView<E>> {
    ps.filter(|p: EditPipeView<E>| p.1 != x && p.2 != x)
}

/// Deleting a node leaves no trace of it: no node of that name and no pipe ending at it
/// remains, while every other node and every pipe not ending at it stays.
pub proof fn lemma_deleted_node_leaves_no_trace<P, N, E>(
    ns: Seq<EditNodeView<P, N>>,
    ps: Seq<EditPipeView<E>>,
    x: Seq<char>,
)
    ensures
        forall|i: int| 0 <= i < nodes_without(ns, x).len() ==> (#[trigger] nodes_without(ns, x)[i]).0 != x,
        forall|k: int| 0 <= k < pipes_clear_of(ps, x).len()
            ==> (#[trigger] pipes_clear_of(ps, x)[k]).1 != x && pipes_clear_of(ps, x)[k].2 != x,
        forall|i: int| 0 <= i < ns.len() && (#[trigger] ns[i]).0 != x ==> nodes_without(ns, x).contains(ns[i]),
        forall|k: int| 0 <= k < ps.len() && (#[trigger] ps[k]).1 != x && ps[k].2 != x ==> pipes_clear_of(ps, x).contains(ps[k]),
{
    broadcast use vstd::seq_lib::group_filter_ensures;
}

} // verus!
