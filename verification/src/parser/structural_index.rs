//! Structural index: a flat table of typed JSON nodes built from a token
//! stream in one left-to-right pass with an explicit stack of open
//! containers, and positional tree-navigation queries over it.
//!
//! Node ids are positions in the table; they are rebuilt wholesale with the
//! table and are never stable across rebuilds. The discovery order is
//! load-bearing: sibling, child and key/value queries scan positionally, they
//! follow no pointer structure.

use vstd::prelude::*;

use crate::parser::node::{NodeId, NodeInfo, NodeKind, ParseStatus};
use crate::parser::token::{Token, TokenKind};

verus! {

/// The shape the index builder relies on: every token is non-empty and
/// consecutive tokens are adjacent. `Tokenizer::tokenize_all` produces
/// exactly such streams (see `lemma_spec_tokens_adjacent`).
pub open spec fn wf_tokens(ts: Seq<Token>) -> bool {
    &&& forall|i: int| 0 <= i < ts.len() ==> #[trigger] ts[i].start < ts[i].end
    &&& forall|i: int| 0 <= i < ts.len() - 1 ==> #[trigger] ts[i].end == ts[i + 1].start
}

pub open spec fn is_open_token(k: TokenKind) -> bool {
    k == TokenKind::BraceOpen || k == TokenKind::BracketOpen
}

pub open spec fn is_close_token(k: TokenKind) -> bool {
    k == TokenKind::BraceClose || k == TokenKind::BracketClose
}

pub open spec fn is_leaf_token(k: TokenKind) -> bool {
    ||| k == TokenKind::String
    ||| k == TokenKind::Number
    ||| k == TokenKind::True
    ||| k == TokenKind::False
    ||| k == TokenKind::Null
}

pub open spec fn open_node_kind(k: TokenKind) -> NodeKind {
    if k == TokenKind::BraceOpen {
        NodeKind::Object
    } else {
        NodeKind::Array
    }
}

pub open spec fn leaf_node_kind(k: TokenKind) -> NodeKind {
    if k == TokenKind::String {
        NodeKind::String
    } else if k == TokenKind::Number {
        NodeKind::Number
    } else if k == TokenKind::True || k == TokenKind::False {
        NodeKind::Boolean
    } else {
        NodeKind::Null
    }
}

/// State of the single-pass builder: the node table so far and the stack of
/// open containers, as node ids, outermost first.
pub ghost struct BuildState {
    pub nodes: Seq<NodeInfo>,
    pub stack: Seq<usize>,
}

/// One builder step. An opening bracket pushes a node whose end is temporary
/// (fixed on close) and whose parent is the innermost open container; a
/// closing bracket fixes the end of the innermost open container and pops it
/// (and is ignored when nothing is open); a leaf token appends a node;
/// punctuation and whitespace carry no node.
pub open spec fn build_step(st: BuildState, t: Token) -> BuildState {
    if is_open_token(t.kind) {
        let parent: Option<NodeId> = if st.stack.len() > 0 {
            Some(st.stack.last())
        } else {
            None
        };
        let node = NodeInfo {
            kind: open_node_kind(t.kind),
            start: t.start,
            end: t.end,
            depth: t.depth,
            parent,
            status: ParseStatus::Parsed,
        };
        BuildState { nodes: st.nodes.push(node), stack: st.stack.push(st.nodes.len() as usize) }
    } else if is_close_token(t.kind) {
        if st.stack.len() > 0 {
            let id = st.stack.last() as int;
            BuildState {
                nodes: st.nodes.update(id, NodeInfo { end: t.end, ..st.nodes[id] }),
                stack: st.stack.drop_last(),
            }
        } else {
            st
        }
    } else if is_leaf_token(t.kind) {
        let parent: Option<NodeId> = if st.stack.len() > 0 {
            Some(st.stack.last())
        } else {
            None
        };
        let node = NodeInfo {
            kind: leaf_node_kind(t.kind),
            start: t.start,
            end: t.end,
            depth: t.depth,
            parent,
            status: ParseStatus::Parsed,
        };
        BuildState { nodes: st.nodes.push(node), stack: st.stack }
    } else {
        st
    }
}

/// The builder state after the whole token stream.
pub open spec fn build_state(ts: Seq<Token>) -> BuildState
    decreases ts.len(),
{
    if ts.len() == 0 {
        BuildState { nodes: Seq::empty(), stack: Seq::empty() }
    } else {
        build_step(build_state(ts.drop_last()), ts.last())
    }
}

/// Structural well-formedness of a node table: ids are ordered by start
/// offset, every node's range is non-empty and contained in its parent's
/// range, parents come before (and contain) their children, and two nodes
/// sharing a parent never overlap.
pub open spec fn wf_index_nodes(nodes: Seq<NodeInfo>) -> bool {
    &&& forall|j1: int, j2: int|
        0 <= j1 < j2 < nodes.len() ==> #[trigger] nodes[j1].start < #[trigger] nodes[j2].start
    &&& forall|j: int| 0 <= j < nodes.len() ==> #[trigger] nodes[j].start < nodes[j].end
    &&& forall|j: int|
        0 <= j < nodes.len() ==> match #[trigger] nodes[j].parent {
            Some(p) => {
                &&& (p as int) < j
                &&& nodes[p as int].spec_is_container()
                &&& nodes[p as int].start <= nodes[j].start
                &&& nodes[j].end <= nodes[p as int].end
            },
            None => true,
        }
    &&& forall|j1: int, j2: int|
        0 <= j1 < j2 < nodes.len() && nodes[j1].parent == nodes[j2].parent
            ==> #[trigger] nodes[j1].end <= #[trigger] nodes[j2].start
}

pub open spec fn in_stack(stack: Seq<usize>, v: int) -> bool {
    exists|k: int| 0 <= k < stack.len() && stack[k] == v
}

/// Scan position after `i` tokens: the end of the last processed token.
pub open spec fn scan_pos(ts: Seq<Token>, i: int) -> int {
    if i <= 0 {
        if ts.len() > 0 {
            ts[0].start as int
        } else {
            0
        }
    } else {
        ts[i - 1].end as int
    }
}

/// Everything the builder keeps true after processing `i` tokens of a
/// well-formed stream.
pub open spec fn build_inv(ts: Seq<Token>, i: int, st: BuildState) -> bool {
    let nodes = st.nodes;
    let stack = st.stack;
    let c = scan_pos(ts, i);
    &&& nodes.len() <= i
    // the stack holds ids of container nodes, strictly increasing
    &&& forall|k: int| 0 <= k < stack.len() ==> (#[trigger] stack[k] as int) < nodes.len()
    &&& forall|k1: int, k2: int|
        0 <= k1 < k2 < stack.len() ==> #[trigger] stack[k1] < #[trigger] stack[k2]
    &&& forall|k: int|
        0 <= k < stack.len() ==> #[trigger] nodes[stack[k] as int].spec_is_container()
    // each stack entry's parent is the entry below it
    &&& forall|k: int|
        1 <= k < stack.len() ==> #[trigger] nodes[stack[k] as int].parent == Some(stack[k - 1])
    &&& stack.len() > 0 ==> nodes[stack[0] as int].parent is None
    // nodes after the bottom of the stack all have parents
    &&& forall|j: int|
        stack.len() > 0 && stack[0] < j < nodes.len() ==> (#[trigger] nodes[j].parent) is Some
    // closed nodes end at or before the scan position
    &&& forall|j: int|
        0 <= j < nodes.len() && !in_stack(stack, j) ==> #[trigger] nodes[j].end <= c
    &&& forall|j: int|
        0 <= j < nodes.len() && !in_stack(stack, j) ==> #[trigger] nodes[j].start
            < nodes[j].end
    // starts are strictly increasing and below the scan position
    &&& forall|j: int| 0 <= j < nodes.len() ==> #[trigger] nodes[j].start < c
    &&& forall|j1: int, j2: int|
        0 <= j1 < j2 < nodes.len() ==> #[trigger] nodes[j1].start < #[trigger] nodes[j2].start
    // parents are earlier containers
    &&& forall|j: int|
        0 <= j < nodes.len() ==> match #[trigger] nodes[j].parent {
            Some(p) => (p as int) < j && nodes[p as int].spec_is_container(),
            None => true,
        }
    // a child of an already-closed parent lies inside it
    &&& forall|j: int|
        0 <= j < nodes.len() ==> match #[trigger] nodes[j].parent {
            Some(p) => !in_stack(stack, p as int) ==> nodes[j].end <= nodes[p as int].end,
            None => true,
        }
    // nodes sharing a parent do not overlap
    &&& forall|j1: int, j2: int|
        0 <= j1 < j2 < nodes.len() && nodes[j1].parent == nodes[j2].parent
            ==> #[trigger] nodes[j1].end <= #[trigger] nodes[j2].start
    // children of a non-top stack entry do not outlive its stacked child
    &&& forall|j: int, k: int|
        #![trigger nodes[j].parent, stack[k]]
        0 <= j < nodes.len() && 0 <= k < stack.len() - 1 && nodes[j].parent == Some(stack[k])
            ==> j <= stack[k + 1]
}

#[verifier::rlimit(100)]
#[verifier::spinoff_prover]
proof fn lemma_step_open(ts: Seq<Token>, i: int)
    requires
        wf_tokens(ts),
        ts.len() <= usize::MAX,
        0 <= i < ts.len(),
        build_inv(ts, i, build_state(ts.take(i))),
        is_open_token(ts[i].kind),
    ensures
        build_inv(ts, i + 1, build_state(ts.take(i + 1))),
{
    let st = build_state(ts.take(i));
    let t = ts[i];
    assert(ts.take(i + 1).drop_last() =~= ts.take(i));
    assert(ts.take(i + 1).last() == t);
    let st2 = build_step(st, t);
    assert(build_state(ts.take(i + 1)) == st2);
    let nodes = st.nodes;
    let stack = st.stack;
    let c = scan_pos(ts, i);
    let c2 = scan_pos(ts, i + 1);
    assert(c2 == t.end as int);
    assert(c == t.start as int);
    assert(c < c2);
    let jn = nodes.len() as int;
    let node = st2.nodes[jn];
    assert(node.start == t.start && node.end == t.end);
    assert(forall|j: int| 0 <= j < jn ==> st2.nodes[j] == nodes[j]);
    // no earlier node with the same parent is still open
    assert forall|j1: int|
        0 <= j1 < jn && st2.nodes[j1].parent == node.parent implies nodes[j1].end
        <= node.start by {
        if in_stack(stack, j1) {
            let k = choose|k: int| 0 <= k < stack.len() && stack[k] == j1;
            if stack.len() > 0 && node.parent == Some(stack.last()) {
                if k == 0 {
                    assert(nodes[j1].parent is None);
                    assert(nodes[stack.last() as int].spec_is_container());
                    assert(false);
                } else {
                    assert(nodes[j1].parent == Some(stack[k - 1]));
                    assert(stack[k - 1] == stack.last());
                    if k - 1 < stack.len() - 1 {
                        assert(stack[k - 1] < stack[stack.len() - 1]);
                    }
                    assert(false);
                }
            } else {
                assert(stack.len() == 0);
                assert(false);
            }
        }
    }
        let stack2 = st2.stack;
        assert(stack2 == stack.push(jn as usize));
        assert forall|k1: int, k2: int| 0 <= k1 < k2 < stack2.len() implies #[trigger] stack2[k1]
            < #[trigger] stack2[k2] by {
            if k2 == stack2.len() - 1 {
                assert((stack[k1] as int) < nodes.len());
            }
        }
        assert forall|j: int| 0 <= j < st2.nodes.len() && !in_stack(stack2, j) implies
            #[trigger] st2.nodes[j].end <= c2 by {
            if j < jn {
                if in_stack(stack, j) {
                    let k = choose|k: int| 0 <= k < stack.len() && stack[k] == j;
                    assert(stack2[k] == j);
                    assert(false);
                }
            } else {
                assert(stack2[stack2.len() - 1] == jn as usize);
                assert(false);
            }
        }
        assert forall|j: int| 0 <= j < st2.nodes.len() && !in_stack(stack2, j) implies
            #[trigger] st2.nodes[j].start < st2.nodes[j].end by {
            if j < jn {
                if in_stack(stack, j) {
                    let k = choose|k: int| 0 <= k < stack.len() && stack[k] == j;
                    assert(stack2[k] == j);
                    assert(false);
                }
            } else {
                assert(stack2[stack2.len() - 1] == jn as usize);
                assert(false);
            }
        }
        assert forall|j: int, k: int|
            #![trigger st2.nodes[j].parent, stack2[k]]
            0 <= j < st2.nodes.len() && 0 <= k < stack2.len() - 1 && st2.nodes[j].parent
                == Some(stack2[k]) implies j <= stack2[k + 1] by {
            if k == stack2.len() - 2 {
                assert(stack2[k + 1] == jn as usize);
                assert(j <= jn);
            } else {
                assert(stack2[k] == stack[k]);
                assert(stack2[k + 1] == stack[k + 1]);
                if j < jn {
                    assert(nodes[j].parent == Some(stack[k]));
                } else {
                    // the new node's parent is the old top, not an inner entry
                    assert(st2.nodes[j].parent == Some(stack.last()));
                    assert(stack[k] < stack.last());
                    assert(false);
                }
            }
        }
        assert(build_inv(ts, i + 1, st2));
    assert(build_inv(ts, i + 1, st2));
}

#[verifier::rlimit(100)]
#[verifier::spinoff_prover]
proof fn lemma_step_leaf(ts: Seq<Token>, i: int)
    requires
        wf_tokens(ts),
        ts.len() <= usize::MAX,
        0 <= i < ts.len(),
        build_inv(ts, i, build_state(ts.take(i))),
        is_leaf_token(ts[i].kind),
        !is_open_token(ts[i].kind),
    ensures
        build_inv(ts, i + 1, build_state(ts.take(i + 1))),
{
    let st = build_state(ts.take(i));
    let t = ts[i];
    assert(ts.take(i + 1).drop_last() =~= ts.take(i));
    assert(ts.take(i + 1).last() == t);
    let st2 = build_step(st, t);
    assert(build_state(ts.take(i + 1)) == st2);
    let nodes = st.nodes;
    let stack = st.stack;
    let c = scan_pos(ts, i);
    let c2 = scan_pos(ts, i + 1);
    assert(c2 == t.end as int);
    assert(c == t.start as int);
    assert(c < c2);
    let jn = nodes.len() as int;
    let node = st2.nodes[jn];
    assert(node.start == t.start && node.end == t.end);
    assert(forall|j: int| 0 <= j < jn ==> st2.nodes[j] == nodes[j]);
    // no earlier node with the same parent is still open
    assert forall|j1: int|
        0 <= j1 < jn && st2.nodes[j1].parent == node.parent implies nodes[j1].end
        <= node.start by {
        if in_stack(stack, j1) {
            let k = choose|k: int| 0 <= k < stack.len() && stack[k] == j1;
            if stack.len() > 0 && node.parent == Some(stack.last()) {
                if k == 0 {
                    assert(nodes[j1].parent is None);
                    assert(nodes[stack.last() as int].spec_is_container());
                    assert(false);
                } else {
                    assert(nodes[j1].parent == Some(stack[k - 1]));
                    assert(stack[k - 1] == stack.last());
                    if k - 1 < stack.len() - 1 {
                        assert(stack[k - 1] < stack[stack.len() - 1]);
                    }
                    assert(false);
                }
            } else {
                assert(stack.len() == 0);
                assert(false);
            }
        }
    }
    assert(st2.stack == stack);
    assert(build_inv(ts, i + 1, st2));
}

#[verifier::rlimit(100)]
#[verifier::spinoff_prover]
proof fn lemma_step_close(ts: Seq<Token>, i: int)
    requires
        wf_tokens(ts),
        ts.len() <= usize::MAX,
        0 <= i < ts.len(),
        build_inv(ts, i, build_state(ts.take(i))),
        is_close_token(ts[i].kind),
        !is_open_token(ts[i].kind),
        !is_leaf_token(ts[i].kind),
    ensures
        build_inv(ts, i + 1, build_state(ts.take(i + 1))),
{
    let st = build_state(ts.take(i));
    let t = ts[i];
    assert(ts.take(i + 1).drop_last() =~= ts.take(i));
    assert(ts.take(i + 1).last() == t);
    let st2 = build_step(st, t);
    assert(build_state(ts.take(i + 1)) == st2);
    let nodes = st.nodes;
    let stack = st.stack;
    let c = scan_pos(ts, i);
    let c2 = scan_pos(ts, i + 1);
    assert(c2 == t.end as int);
    assert(c == t.start as int);
    assert(c < c2);
    if stack.len() > 0 {
        let id = stack.last() as int;
        let stack2 = st2.stack;
        assert(stack2 == stack.drop_last());
        assert(forall|k: int| 0 <= k < stack2.len() ==> stack2[k] == stack[k]);
        assert(st2.nodes[id].end == t.end);
        assert(st2.nodes[id].start == nodes[id].start);
        assert(forall|j: int|
            0 <= j < nodes.len() && j != id ==> st2.nodes[j] == nodes[j]);
        assert(in_stack(stack, id)) by {
            assert(stack[stack.len() - 1] == id as usize);
        }
        // nothing on the stack is a child of the top entry
        assert forall|j: int|
            0 <= j < nodes.len() && #[trigger] nodes[j].parent == Some(id as usize) implies
            !in_stack(stack, j) && nodes[j].end <= t.end by {
            if in_stack(stack, j) {
                let k = choose|k: int| 0 <= k < stack.len() && stack[k] == j;
                if k == 0 {
                    assert(nodes[stack[0] as int].parent is None);
                    assert(false);
                } else {
                    assert(nodes[j].parent == Some(stack[k - 1]));
                    assert(stack[k - 1] == stack.last());
                    if k - 1 < stack.len() - 1 {
                        assert(stack[k - 1] < stack[stack.len() - 1]);
                    }
                    assert(false);
                }
            }
            assert(nodes[j].end <= c);
        }
        assert forall|j: int| 0 <= j < st2.nodes.len() && !in_stack(stack2, j) implies
            #[trigger] st2.nodes[j].end <= c2 by {
            if j == id {
            } else {
                if in_stack(stack, j) {
                    let k = choose|k: int| 0 <= k < stack.len() && stack[k] == j;
                    assert(k < stack.len() - 1);
                    assert(stack2[k] == j);
                    assert(false);
                }
            }
        }
        assert forall|j: int| 0 <= j < st2.nodes.len() && !in_stack(stack2, j) implies
            #[trigger] st2.nodes[j].start < st2.nodes[j].end by {
            if j == id {
                assert(st2.nodes[id].start < c);
            } else {
                if in_stack(stack, j) {
                    let k = choose|k: int| 0 <= k < stack.len() && stack[k] == j;
                    assert(k < stack.len() - 1);
                    assert(stack2[k] == j);
                    assert(false);
                }
            }
        }
        // closed-parent containment survives the pop
        assert forall|j: int|
            0 <= j < st2.nodes.len() && (#[trigger] st2.nodes[j].parent) is Some implies {
            let p = st2.nodes[j].parent->Some_0 as int;
            !in_stack(stack2, p) ==> st2.nodes[j].end <= st2.nodes[p].end
        } by {
            let p = st2.nodes[j].parent->Some_0 as int;
            if !in_stack(stack2, p) {
                if p == id {
                    assert(nodes[j].parent == Some(id as usize));
                    assert(st2.nodes[j].end <= t.end);
                } else {
                    if in_stack(stack, p) {
                        let k = choose|k: int| 0 <= k < stack.len() && stack[k] == p;
                        assert(k < stack.len() - 1);
                        assert(stack2[k] == p);
                        assert(false);
                    }
                    if j == id {
                        // the parent of the popped node is still on the stack or absent
                        if stack.len() >= 2 {
                            assert(nodes[id].parent == Some(stack[stack.len() - 2]));
                            assert(stack2[stack.len() - 2] == stack[stack.len() - 2]);
                            assert(in_stack(stack2, p));
                            assert(false);
                        } else {
                            assert(nodes[id].parent is None);
                            assert(false);
                        }
                    }
                }
            }
        }
        // sibling disjointness: the popped node has no later sibling yet
        assert forall|j1: int, j2: int|
            0 <= j1 < j2 < st2.nodes.len() && st2.nodes[j1].parent == st2.nodes[j2].parent
            implies #[trigger] st2.nodes[j1].end <= #[trigger] st2.nodes[j2].start by {
            if j1 == id {
                if stack.len() >= 2 {
                    assert(nodes[id].parent == Some(stack[stack.len() - 2]));
                    assert(j2 <= stack[stack.len() - 1]);
                    assert(false);
                } else {
                    assert(nodes[id].parent is None);
                    assert(stack[0] == id as usize);
                    assert(nodes[j2].parent is Some);
                    assert(false);
                }
            }
        }
        assert(build_inv(ts, i + 1, st2));
    } else {
        assert(st2 == st);
        assert(build_inv(ts, i + 1, st2));
    }
}

#[verifier::spinoff_prover]
proof fn lemma_build_step_inv(ts: Seq<Token>, i: int)
    requires
        wf_tokens(ts),
        ts.len() <= usize::MAX,
        0 <= i < ts.len(),
        build_inv(ts, i, build_state(ts.take(i))),
    ensures
        build_inv(ts, i + 1, build_state(ts.take(i + 1))),
{
    let t = ts[i];
    if is_open_token(t.kind) {
        lemma_step_open(ts, i);
    } else if is_leaf_token(t.kind) {
        lemma_step_leaf(ts, i);
    } else if is_close_token(t.kind) {
        lemma_step_close(ts, i);
    } else {
        let st = build_state(ts.take(i));
        assert(ts.take(i + 1).drop_last() =~= ts.take(i));
        assert(ts.take(i + 1).last() == t);
        let st2 = build_step(st, t);
        assert(st2 == st);
        assert(build_inv(ts, i + 1, st2));
    }
}

proof fn lemma_build_inv(ts: Seq<Token>, i: int)
    requires
        wf_tokens(ts),
        ts.len() <= usize::MAX,
        0 <= i <= ts.len(),
    ensures
        build_inv(ts, i, build_state(ts.take(i))),
    decreases i,
{
    if i == 0 {
        assert(ts.take(0) =~= Seq::<Token>::empty());
        assert(build_state(ts.take(0)).nodes =~= Seq::<NodeInfo>::empty());
    } else {
        lemma_build_inv(ts, i - 1);
        lemma_build_step_inv(ts, i - 1);
    }
}

/// A fully scanned, balanced stream (the builder's stack is empty at the
/// end) yields a structurally well-formed node table: node containment and
/// sibling disjointness hold.
pub proof fn lemma_build_wf(ts: Seq<Token>)
    requires
        wf_tokens(ts),
        ts.len() <= usize::MAX,
        build_state(ts).stack.len() == 0,
    ensures
        wf_index_nodes(build_state(ts).nodes),
{
    lemma_build_inv(ts, ts.len() as int);
    assert(ts.take(ts.len() as int) =~= ts);
    let st = build_state(ts);
    let nodes = st.nodes;
    assert forall|j: int| 0 <= j < nodes.len() implies match #[trigger] nodes[j].parent {
        Some(p) => {
            &&& (p as int) < j
            &&& nodes[p as int].spec_is_container()
            &&& nodes[p as int].start <= nodes[j].start
            &&& nodes[j].end <= nodes[p as int].end
        },
        None => true,
    } by {
        match nodes[j].parent {
            Some(p) => {
                assert(!in_stack(st.stack, p as int));
                assert(!in_stack(st.stack, j));
            },
            None => {},
        }
    }
    assert forall|j: int| 0 <= j < nodes.len() implies #[trigger] nodes[j].start
        < nodes[j].end by {
        assert(!in_stack(st.stack, j));
    }
}

/// First index at or after `idx` holding a node with this depth and parent;
/// the scan gives up when it meets a node of lesser depth, which signals
/// leaving the enclosing container.
pub open spec fn scan_next_sibling(
    nodes: Seq<NodeInfo>,
    idx: int,
    depth: u32,
    parent: Option<NodeId>,
) -> Option<NodeId>
    decreases nodes.len() - idx,
{
    if !(0 <= idx < nodes.len()) {
        None
    } else if nodes[idx].depth == depth && nodes[idx].parent == parent {
        Some(idx as NodeId)
    } else if nodes[idx].depth < depth {
        None
    } else {
        scan_next_sibling(nodes, idx + 1, depth, parent)
    }
}

/// Mirror image of `scan_next_sibling`, walking toward the front.
pub open spec fn scan_prev_sibling(
    nodes: Seq<NodeInfo>,
    idx: int,
    depth: u32,
    parent: Option<NodeId>,
) -> Option<NodeId>
    decreases idx + 1,
{
    if !(0 <= idx < nodes.len()) {
        None
    } else if nodes[idx].depth == depth && nodes[idx].parent == parent {
        Some(idx as NodeId)
    } else if nodes[idx].depth < depth {
        None
    } else {
        scan_prev_sibling(nodes, idx - 1, depth, parent)
    }
}

/// First index at or after `idx` whose parent is `id` one level deeper; the
/// scan gives up when it leaves the container.
pub open spec fn scan_first_child(nodes: Seq<NodeInfo>, idx: int, id: NodeId, depth: u32) -> Option<
    NodeId,
>
    decreases nodes.len() - idx,
{
    if !(0 <= idx < nodes.len()) {
        None
    } else if nodes[idx].parent == Some(id) && nodes[idx].depth as int == depth + 1 {
        Some(idx as NodeId)
    } else if nodes[idx].depth <= depth {
        None
    } else {
        scan_first_child(nodes, idx + 1, id, depth)
    }
}

/// Ids of the direct children of `id`, scanning from `j` until the first
/// node that starts at or past the container's end: the nodes one level
/// deeper than the container.
pub open spec fn scan_children(nodes: Seq<NodeInfo>, id: int, j: int) -> Seq<NodeId>
    decreases nodes.len() - j,
{
    if !(0 <= j < nodes.len() && 0 <= id < nodes.len()) {
        Seq::empty()
    } else if nodes[j].start >= nodes[id].end {
        Seq::empty()
    } else if nodes[j].depth as int == nodes[id].depth + 1 {
        seq![j as NodeId] + scan_children(nodes, id, j + 1)
    } else {
        scan_children(nodes, id, j + 1)
    }
}

/// The direct children of `id`: empty unless `id` names a container.
pub open spec fn children_of(nodes: Seq<NodeInfo>, id: int) -> Seq<NodeId> {
    if 0 <= id < nodes.len() && nodes[id].spec_is_container() {
        scan_children(nodes, id, id + 1)
    } else {
        Seq::empty()
    }
}

/// Index of the first occurrence of `x`, or the length when absent.
pub open spec fn first_pos(s: Seq<NodeId>, x: NodeId) -> int
    decreases s.len(),
{
    if s.len() == 0 {
        0
    } else if s[0] == x {
        0
    } else {
        1 + first_pos(s.drop_first(), x)
    }
}

pub proof fn lemma_first_pos(s: Seq<NodeId>, x: NodeId)
    ensures
        s.contains(x) ==> 0 <= first_pos(s, x) < s.len() && s[first_pos(s, x)] == x,
        !s.contains(x) ==> first_pos(s, x) == s.len(),
    decreases s.len(),
{
    if s.len() > 0 && s[0] != x {
        lemma_first_pos(s.drop_first(), x);
        assert(s.contains(x) ==> s.drop_first().contains(x)) by {
            if s.contains(x) {
                let i = choose|i: int| 0 <= i < s.len() && s[i] == x;
                assert(s.drop_first()[i - 1] == x);
            }
        }
        assert(s.drop_first().contains(x) ==> s.contains(x)) by {
            if s.drop_first().contains(x) {
                let i = choose|i: int| 0 <= i < s.drop_first().len() && s.drop_first()[i] == x;
                assert(s[i + 1] == x);
            }
        }
    }
}

/// A node is a key when it is a string sitting at an even slot among the
/// children of an object.
pub open spec fn is_key_node_spec(nodes: Seq<NodeInfo>, idx: int) -> bool {
    &&& 0 <= idx < nodes.len()
    &&& nodes[idx].kind == NodeKind::String
    &&& match nodes[idx].parent {
        Some(p) => {
            &&& (p as int) < nodes.len()
            &&& nodes[p as int].kind == NodeKind::Object
            &&& children_of(nodes, p as int).contains(idx as NodeId)
            &&& first_pos(children_of(nodes, p as int), idx as NodeId) % 2 == 0
        },
        None => false,
    }
}

/// A node is a value when it is top-level, a child of an array, or an
/// odd-slot child of an object.
pub open spec fn is_value_node_spec(nodes: Seq<NodeInfo>, idx: int) -> bool {
    &&& 0 <= idx < nodes.len()
    &&& match nodes[idx].parent {
        Some(p) => {
            &&& (p as int) < nodes.len()
            &&& if nodes[p as int].kind == NodeKind::Object {
                children_of(nodes, p as int).contains(idx as NodeId) && first_pos(
                    children_of(nodes, p as int),
                    idx as NodeId,
                ) % 2 == 1
            } else {
                nodes[p as int].kind == NodeKind::Array
            }
        },
        None => true,
    }
}

pub open spec fn scan_next_key(nodes: Seq<NodeInfo>, from: int, idx: int) -> Option<NodeId>
    decreases nodes.len() - idx,
{
    if !(0 <= idx < nodes.len()) {
        None
    } else if nodes[idx].start > from && is_key_node_spec(nodes, idx) {
        Some(idx as NodeId)
    } else {
        scan_next_key(nodes, from, idx + 1)
    }
}

pub open spec fn scan_prev_key(nodes: Seq<NodeInfo>, from: int, idx: int) -> Option<NodeId>
    decreases idx + 1,
{
    if !(0 <= idx < nodes.len()) {
        None
    } else if nodes[idx].start < from && is_key_node_spec(nodes, idx) {
        Some(idx as NodeId)
    } else {
        scan_prev_key(nodes, from, idx - 1)
    }
}

pub open spec fn scan_next_value(nodes: Seq<NodeInfo>, from: int, idx: int) -> Option<NodeId>
    decreases nodes.len() - idx,
{
    if !(0 <= idx < nodes.len()) {
        None
    } else if nodes[idx].start > from && is_value_node_spec(nodes, idx) {
        Some(idx as NodeId)
    } else {
        scan_next_value(nodes, from, idx + 1)
    }
}

pub open spec fn scan_prev_value(nodes: Seq<NodeInfo>, from: int, idx: int) -> Option<NodeId>
    decreases idx + 1,
{
    if !(0 <= idx < nodes.len()) {
        None
    } else if nodes[idx].start < from && is_value_node_spec(nodes, idx) {
        Some(idx as NodeId)
    } else {
        scan_prev_value(nodes, from, idx - 1)
    }
}

#[derive(Debug, Clone)]
pub struct StructuralIndex {
    nodes: Vec<NodeInfo>,
}

impl StructuralIndex {
    pub closed spec fn nodes_seq(&self) -> Seq<NodeInfo> {
        self.nodes@
    }

    /// Structural well-formedness: what `from_tokens` establishes for
    /// well-formed, balanced token streams.
    pub open spec fn wf(&self) -> bool {
        wf_index_nodes(self.nodes_seq())
    }

    pub fn new() -> (r: StructuralIndex)
        ensures
            r.nodes_seq() =~= Seq::<NodeInfo>::empty(),
            r.wf(),
    {
        StructuralIndex { nodes: Vec::new() }
    }

    /// Build the node table from a token stream in one pass.
    ///
    /// The result is exactly `build_state(tokens)`. When the stream is
    /// well-formed and balanced (the builder's stack drains), the table is
    /// structurally well-formed: every node lies inside its parent and nodes
    /// sharing a parent never overlap.
    pub fn from_tokens(tokens: &Vec<Token>) -> (r: StructuralIndex)
        ensures
            r.nodes_seq() == build_state(tokens@).nodes,
            wf_tokens(tokens@) && build_state(tokens@).stack.len() == 0 ==> r.wf(),
    {
        let mut nodes: Vec<NodeInfo> = Vec::new();
        let mut stack: Vec<usize> = Vec::new();
        let mut i: usize = 0;
        proof {
            assert(tokens@.take(0) =~= Seq::<Token>::empty());
        }
        while i < tokens.len()
            invariant
                i <= tokens.len(),
                nodes@ == build_state(tokens@.take(i as int)).nodes,
                stack@ == build_state(tokens@.take(i as int)).stack,
                forall|k: int| 0 <= k < stack@.len() ==> (#[trigger] stack@[k] as int) < nodes@.len(),
            decreases tokens.len() - i,
        {
            let t = tokens[i];
            proof {
                assert(tokens@.take(i + 1).drop_last() =~= tokens@.take(i as int));
                assert(tokens@.take(i + 1).last() == tokens@[i as int]);
            }
            match t.kind {
                TokenKind::BraceOpen | TokenKind::BracketOpen => {
                    let parent = if stack.len() > 0 {
                        Some(stack[stack.len() - 1])
                    } else {
                        None
                    };
                    let kind = match t.kind {
                        TokenKind::BraceOpen => NodeKind::Object,
                        _ => NodeKind::Array,
                    };
                    let id = nodes.len();
                    nodes.push(NodeInfo::new(kind, t.start, t.end, t.depth, parent));
                    stack.push(id);
                },
                TokenKind::BraceClose | TokenKind::BracketClose => {
                    if stack.len() > 0 {
                        let id = stack[stack.len() - 1];
                        stack.pop();
                        let mut n = nodes[id];
                        n.end = t.end;
                        nodes.set(id, n);
                        proof {
                            assert(nodes@ =~= build_state(tokens@.take(i + 1)).nodes);
                            assert(stack@ =~= build_state(tokens@.take(i + 1)).stack);
                        }
                    }
                },
                TokenKind::String | TokenKind::Number | TokenKind::True | TokenKind::False
                    | TokenKind::Null => {
                    let parent = if stack.len() > 0 {
                        Some(stack[stack.len() - 1])
                    } else {
                        None
                    };
                    let kind = match t.kind {
                        TokenKind::String => NodeKind::String,
                        TokenKind::Number => NodeKind::Number,
                        TokenKind::True | TokenKind::False => NodeKind::Boolean,
                        _ => NodeKind::Null,
                    };
                    nodes.push(NodeInfo::new(kind, t.start, t.end, t.depth, parent));
                },
                _ => {},
            }
            i = i + 1;
        }
        proof {
            assert(tokens@.take(tokens@.len() as int) =~= tokens@);
            if wf_tokens(tokens@) && build_state(tokens@).stack.len() == 0 {
                lemma_build_wf(tokens@);
            }
        }
        StructuralIndex { nodes }
    }

    /// Innermost node whose byte range holds `offset`: a returned node
    /// always contains the offset; on a well-formed table the answer is
    /// complete (`None` means no node contains the offset) and innermost
    /// (no containing node starts later).
    #[verifier::rlimit(100)]
    #[verifier::spinoff_prover]
    pub fn node_at(&self, offset: usize) -> (r: Option<&NodeInfo>)
        ensures
            match r {
                Some(n) => {
                    &&& exists|i: int|
                        0 <= i < self.nodes_seq().len() && self.nodes_seq()[i] == *n
                    &&& n.spec_contains(offset as int)
                    &&& self.wf() ==> forall|i: int|
                        0 <= i < self.nodes_seq().len() && #[trigger] self.nodes_seq()[
                            i
                        ].spec_contains(offset as int) ==> self.nodes_seq()[i].start <= n.start
                },
                None => self.wf() ==> forall|i: int|
                    0 <= i < self.nodes_seq().len() ==> !(#[trigger] self.nodes_seq()[
                        i
                    ].spec_contains(offset as int)),
            },
    {
        let ghost nodes = self.nodes@;
        if self.nodes.len() == 0 {
            return None;
        }
        if self.nodes[0].start > offset {
            return None;
        }
        let lo = self.floor_start(offset);
        match self.walk_down(offset, lo) {
            Some(j) => {
                proof {
                    if self.wf() {
                        assert forall|i: int|
                            0 <= i < nodes.len() && #[trigger] nodes[i].spec_contains(
                                offset as int,
                            ) implies nodes[i].start <= nodes[j as int].start by {
                            if i > lo {
                                assert(nodes[lo + 1].start <= nodes[i].start);
                            }
                        }
                    }
                }
                Some(&self.nodes[j])
            },
            None => {
                proof {
                    if self.wf() {
                        assert forall|i: int| 0 <= i < nodes.len() implies !(#[trigger] nodes[
                            i
                        ].spec_contains(offset as int)) by {
                            if i > lo {
                                assert(nodes[lo + 1].start <= nodes[i].start);
                            }
                        }
                    }
                }
                None
            },
        }
    }

    /// Index of the last node whose start is at or before `offset`, by
    /// binary search over the starts.
    fn floor_start(&self, offset: usize) -> (lo: usize)
        requires
            self.nodes_seq().len() > 0,
            self.nodes_seq()[0].start <= offset,
        ensures
            (lo as int) < self.nodes_seq().len(),
            self.wf() ==> self.nodes_seq()[lo as int].start <= offset,
            self.wf() ==> (lo as int == self.nodes_seq().len() - 1 || self.nodes_seq()[lo
                + 1].start > offset),
    {
        let ghost nodes = self.nodes@;
        let mut lo: usize = 0;
        let mut hi: usize = self.nodes.len() - 1;
        while lo < hi
            invariant
                lo <= hi < self.nodes@.len(),
                self.nodes@ == nodes,
                self.wf() ==> nodes[lo as int].start <= offset,
                self.wf() ==> (hi as int == nodes.len() - 1 || nodes[hi + 1].start > offset),
            decreases hi - lo,
        {
            let mid = hi - (hi - lo) / 2;
            if self.nodes[mid].start <= offset {
                lo = mid;
            } else {
                hi = mid - 1;
            }
        }
        lo
    }

    /// Walk from `lo` toward the front for the nearest node containing
    /// `offset`.
    fn walk_down(&self, offset: usize, lo: usize) -> (r: Option<usize>)
        requires
            (lo as int) < self.nodes_seq().len(),
        ensures
            match r {
                Some(j) => j <= lo && self.nodes_seq()[j as int].spec_contains(offset as int)
                    && forall|m: int|
                    j < m <= lo ==> !(#[trigger] self.nodes_seq()[m].spec_contains(offset as int)),
                None => forall|m: int|
                    0 <= m <= lo ==> !(#[trigger] self.nodes_seq()[m].spec_contains(offset as int)),
            },
    {
        let ghost nodes = self.nodes@;
        let mut j: usize = lo;
        loop
            invariant
                j <= lo < self.nodes@.len(),
                self.nodes@ == nodes,
                forall|m: int|
                    j < m <= lo ==> !(#[trigger] nodes[m].spec_contains(offset as int)),
            ensures
                forall|m: int|
                    0 <= m <= lo ==> !(#[trigger] nodes[m].spec_contains(offset as int)),
            decreases j,
        {
            if self.nodes[j].end > offset && self.nodes[j].start <= offset {
                return Some(j);
            }
            if j == 0 {
                break ;
            }
            j = j - 1;
        }
        None
    }

    /// Node record for an id, if the id is in range.
    pub fn get(&self, id: NodeId) -> (r: Option<&NodeInfo>)
        ensures
            r == if (id as int) < self.nodes_seq().len() {
                Some(&self.nodes_seq()[id as int])
            } else {
                Option::<&NodeInfo>::None
            },
    {
        if id < self.nodes.len() {
            Some(&self.nodes[id])
        } else {
            None
        }
    }

    /// Nearest later node sharing this node's depth and parent.
    pub fn next_sibling(&self, node_id: NodeId) -> (r: Option<NodeId>)
        ensures
            r == if (node_id as int) < self.nodes_seq().len() {
                scan_next_sibling(
                    self.nodes_seq(),
                    node_id + 1,
                    self.nodes_seq()[node_id as int].depth,
                    self.nodes_seq()[node_id as int].parent,
                )
            } else {
                Option::<NodeId>::None
            },
    {
        let ghost nodes = self.nodes@;
        if node_id >= self.nodes.len() {
            return None;
        }
        let depth = self.nodes[node_id].depth;
        let parent = self.nodes[node_id].parent;
        let mut idx = node_id + 1;
        while idx < self.nodes.len()
            invariant
                node_id < idx <= self.nodes@.len(),
                self.nodes@ == nodes,
                depth == nodes[node_id as int].depth,
                parent == nodes[node_id as int].parent,
                scan_next_sibling(nodes, node_id + 1, depth, parent) == scan_next_sibling(
                    nodes,
                    idx as int,
                    depth,
                    parent,
                ),
            decreases self.nodes@.len() - idx,
        {
            let n = &self.nodes[idx];
            if n.depth == depth && opt_id_eq(n.parent, parent) {
                return Some(idx);
            }
            if n.depth < depth {
                return None;
            }
            idx = idx + 1;
        }
        None
    }

    /// Nearest earlier node sharing this node's depth and parent.
    pub fn prev_sibling(&self, node_id: NodeId) -> (r: Option<NodeId>)
        ensures
            r == if (node_id as int) < self.nodes_seq().len() {
                scan_prev_sibling(
                    self.nodes_seq(),
                    node_id - 1,
                    self.nodes_seq()[node_id as int].depth,
                    self.nodes_seq()[node_id as int].parent,
                )
            } else {
                Option::<NodeId>::None
            },
    {
        let ghost nodes = self.nodes@;
        if node_id >= self.nodes.len() {
            return None;
        }
        let depth = self.nodes[node_id].depth;
        let parent = self.nodes[node_id].parent;
        let mut idx = node_id;
        while idx > 0
            invariant
                idx <= node_id < self.nodes@.len(),
                self.nodes@ == nodes,
                depth == nodes[node_id as int].depth,
                parent == nodes[node_id as int].parent,
                scan_prev_sibling(nodes, node_id - 1, depth, parent) == scan_prev_sibling(
                    nodes,
                    idx - 1,
                    depth,
                    parent,
                ),
            decreases idx,
        {
            idx = idx - 1;
            let n = &self.nodes[idx];
            if n.depth == depth && opt_id_eq(n.parent, parent) {
                return Some(idx);
            }
            if n.depth < depth {
                return None;
            }
        }
        None
    }

    /// Parent id recorded on the node.
    pub fn parent(&self, node_id: NodeId) -> (r: Option<NodeId>)
        ensures
            r == if (node_id as int) < self.nodes_seq().len() {
                self.nodes_seq()[node_id as int].parent
            } else {
                Option::<NodeId>::None
            },
    {
        if node_id < self.nodes.len() {
            self.nodes[node_id].parent
        } else {
            None
        }
    }

    /// First node after `node_id` whose parent is `node_id`, one level
    /// deeper.
    pub fn first_child(&self, node_id: NodeId) -> (r: Option<NodeId>)
        ensures
            r == if (node_id as int) < self.nodes_seq().len() {
                scan_first_child(
                    self.nodes_seq(),
                    node_id + 1,
                    node_id,
                    self.nodes_seq()[node_id as int].depth,
                )
            } else {
                Option::<NodeId>::None
            },
    {
        let ghost nodes = self.nodes@;
        if node_id >= self.nodes.len() {
            return None;
        }
        let depth = self.nodes[node_id].depth;
        let mut idx = node_id + 1;
        while idx < self.nodes.len()
            invariant
                node_id < idx <= self.nodes@.len(),
                self.nodes@ == nodes,
                depth == nodes[node_id as int].depth,
                scan_first_child(nodes, node_id + 1, node_id, depth) == scan_first_child(
                    nodes,
                    idx as int,
                    node_id,
                    depth,
                ),
            decreases self.nodes@.len() - idx,
        {
            let n = &self.nodes[idx];
            if opt_id_eq(n.parent, Some(node_id)) && n.depth as u64 == depth as u64 + 1 {
                return Some(idx);
            }
            if n.depth <= depth {
                return None;
            }
            idx = idx + 1;
        }
        None
    }

    /// Ids of the direct children of a container node, in discovery order.
    pub fn children(&self, node_id: NodeId) -> (r: Vec<NodeId>)
        ensures
            r@ == children_of(self.nodes_seq(), node_id as int),
    {
        let ghost nodes = self.nodes@;
        if node_id >= self.nodes.len() {
            return Vec::new();
        }
        if !self.nodes[node_id].is_container() {
            return Vec::new();
        }
        let node_end = self.nodes[node_id].end;
        let depth = self.nodes[node_id].depth;
        let mut kids: Vec<NodeId> = Vec::new();
        let mut j = node_id + 1;
        proof {
            assert(kids@ + scan_children(nodes, node_id as int, node_id + 1) =~= scan_children(
                nodes,
                node_id as int,
                node_id + 1,
            ));
        }
        while j < self.nodes.len()
            invariant
                node_id < j,
                (node_id as int) < self.nodes@.len(),
                self.nodes@ == nodes,
                node_end == nodes[node_id as int].end,
                depth == nodes[node_id as int].depth,
                kids@ + scan_children(nodes, node_id as int, j as int) == scan_children(
                    nodes,
                    node_id as int,
                    node_id + 1,
                ),
            ensures
                kids@ == scan_children(nodes, node_id as int, node_id + 1),
            decreases self.nodes@.len() - j,
        {
            let n = &self.nodes[j];
            if n.start >= node_end {
                proof {
                    assert(scan_children(nodes, node_id as int, j as int)
                        =~= Seq::<NodeId>::empty());
                    assert(kids@ + Seq::<NodeId>::empty() =~= kids@);
                }
                break ;
            }
            if n.depth as u64 == depth as u64 + 1 {
                proof {
                    assert((kids@ + seq![j as NodeId]) + scan_children(
                        nodes,
                        node_id as int,
                        j + 1,
                    ) =~= kids@ + scan_children(nodes, node_id as int, j as int));
                }
                kids.push(j);
            }
            j = j + 1;
        }
        proof {
            if j == self.nodes@.len() {
                assert(scan_children(nodes, node_id as int, j as int) =~= Seq::<NodeId>::empty());
                assert(kids@ + Seq::<NodeId>::empty() =~= kids@);
            }
        }
        kids
    }

    pub fn len(&self) -> (r: usize)
        ensures
            r == self.nodes_seq().len(),
    {
        self.nodes.len()
    }

    pub fn is_empty(&self) -> (r: bool)
        ensures
            r == (self.nodes_seq().len() == 0),
    {
        self.nodes.len() == 0
    }

    /// The whole node table, in discovery order.
    pub fn nodes(&self) -> (r: &[NodeInfo])
        ensures
            r@ == self.nodes_seq(),
    {
        self.nodes.as_slice()
    }

    /// Whether `idx` is a key: a string at an even slot among an object's
    /// children.
    fn is_key_node(&self, idx: NodeId) -> (r: bool)
        ensures
            r == is_key_node_spec(self.nodes_seq(), idx as int),
    {
        if idx >= self.nodes.len() {
            return false;
        }
        let n = self.nodes[idx];
        if !matches!(n.kind, NodeKind::String) {
            return false;
        }
        let parent_id = match n.parent {
            Some(p) => p,
            None => {
                return false;
            },
        };
        if parent_id >= self.nodes.len() {
            return false;
        }
        if !matches!(self.nodes[parent_id].kind, NodeKind::Object) {
            return false;
        }
        let sibs = self.children(parent_id);
        match position_of(&sibs, idx) {
            Some(pos) => pos % 2 == 0,
            None => false,
        }
    }

    /// Whether `idx` is a value: top-level, an array child, or an odd-slot
    /// child of an object.
    fn is_value_node(&self, idx: NodeId) -> (r: bool)
        ensures
            r == is_value_node_spec(self.nodes_seq(), idx as int),
    {
        if idx >= self.nodes.len() {
            return false;
        }
        let n = self.nodes[idx];
        let parent_id = match n.parent {
            Some(p) => p,
            None => {
                return true;
            },
        };
        if parent_id >= self.nodes.len() {
            return false;
        }
        if matches!(self.nodes[parent_id].kind, NodeKind::Object) {
            let sibs = self.children(parent_id);
            match position_of(&sibs, idx) {
                Some(pos) => pos % 2 == 1,
                None => false,
            }
        } else {
            matches!(self.nodes[parent_id].kind, NodeKind::Array)
        }
    }

    /// First key node starting after `from_offset`.
    pub fn next_key(&self, from_offset: usize) -> (r: Option<NodeId>)
        ensures
            r == scan_next_key(self.nodes_seq(), from_offset as int, 0),
    {
        let ghost nodes = self.nodes@;
        let mut idx: usize = 0;
        while idx < self.nodes.len()
            invariant
                idx <= self.nodes@.len(),
                self.nodes@ == nodes,
                scan_next_key(nodes, from_offset as int, 0) == scan_next_key(
                    nodes,
                    from_offset as int,
                    idx as int,
                ),
            decreases self.nodes@.len() - idx,
        {
            if self.nodes[idx].start > from_offset && self.is_key_node(idx) {
                return Some(idx);
            }
            idx = idx + 1;
        }
        None
    }

    /// Last key node starting before `from_offset`.
    pub fn prev_key(&self, from_offset: usize) -> (r: Option<NodeId>)
        ensures
            r == scan_prev_key(self.nodes_seq(), from_offset as int, self.nodes_seq().len() - 1),
    {
        let ghost nodes = self.nodes@;
        let mut idx: usize = self.nodes.len();
        while idx > 0
            invariant
                idx <= self.nodes@.len(),
                self.nodes@ == nodes,
                scan_prev_key(nodes, from_offset as int, nodes.len() - 1) == scan_prev_key(
                    nodes,
                    from_offset as int,
                    idx - 1,
                ),
            decreases idx,
        {
            idx = idx - 1;
            if self.nodes[idx].start < from_offset && self.is_key_node(idx) {
                return Some(idx);
            }
        }
        None
    }

    /// First value node starting after `from_offset`.
    pub fn next_value(&self, from_offset: usize) -> (r: Option<NodeId>)
        ensures
            r == scan_next_value(self.nodes_seq(), from_offset as int, 0),
    {
        let ghost nodes = self.nodes@;
        let mut idx: usize = 0;
        while idx < self.nodes.len()
            invariant
                idx <= self.nodes@.len(),
                self.nodes@ == nodes,
                scan_next_value(nodes, from_offset as int, 0) == scan_next_value(
                    nodes,
                    from_offset as int,
                    idx as int,
                ),
            decreases self.nodes@.len() - idx,
        {
            if self.nodes[idx].start > from_offset && self.is_value_node(idx) {
                return Some(idx);
            }
            idx = idx + 1;
        }
        None
    }

    /// Last value node starting before `from_offset`.
    pub fn prev_value(&self, from_offset: usize) -> (r: Option<NodeId>)
        ensures
            r == scan_prev_value(self.nodes_seq(), from_offset as int, self.nodes_seq().len() - 1),
    {
        let ghost nodes = self.nodes@;
        let mut idx: usize = self.nodes.len();
        while idx > 0
            invariant
                idx <= self.nodes@.len(),
                self.nodes@ == nodes,
                scan_prev_value(nodes, from_offset as int, nodes.len() - 1) == scan_prev_value(
                    nodes,
                    from_offset as int,
                    idx - 1,
                ),
            decreases idx,
        {
            idx = idx - 1;
            if self.nodes[idx].start < from_offset && self.is_value_node(idx) {
                return Some(idx);
            }
        }
        None
    }
}

fn opt_id_eq(a: Option<NodeId>, b: Option<NodeId>) -> (r: bool)
    ensures
        r == (a == b),
{
    match (a, b) {
        (None, None) => true,
        (Some(x), Some(y)) => x == y,
        _ => false,
    }
}

/// Index of the first occurrence of `x` in `v`, as `first_pos` gives it.
fn position_of(v: &Vec<NodeId>, x: NodeId) -> (r: Option<usize>)
    ensures
        match r {
            Some(i) => v@.contains(x) && first_pos(v@, x) == i,
            None => !v@.contains(x),
        },
{
    let ghost s = v@;
    proof {
        assert(s.skip(0) =~= s);
    }
    let mut i: usize = 0;
    while i < v.len()
        invariant
            i <= v@.len(),
            v@ == s,
            first_pos(s, x) == i + first_pos(s.skip(i as int), x),
            forall|k: int| 0 <= k < i ==> s[k] != x,
        decreases v@.len() - i,
    {
        let ghost rest = s.skip(i as int);
        proof {
            assert(rest[0] == s[i as int]);
            assert(rest.drop_first() =~= s.skip(i + 1));
        }
        if v[i] == x {
            proof {
                assert(first_pos(rest, x) == 0);
                assert(s.contains(x)) by {
                    assert(s[i as int] == x);
                }
            }
            return Some(i);
        }
        i = i + 1;
    }
    proof {
        assert(s.skip(i as int).len() == 0);
        assert(first_pos(s, x) == s.len());
        if s.contains(x) {
            lemma_first_pos(s, x);
        }
    }
    None
}

proof fn lemma_scan_children_increasing(nodes: Seq<NodeInfo>, id: int, j: int)
    requires
        0 <= j,
        nodes.len() <= usize::MAX,
    ensures
        forall|a: int|
            0 <= a < scan_children(nodes, id, j).len() ==> j <= #[trigger] scan_children(
                nodes,
                id,
                j,
            )[a] < nodes.len(),
        forall|a: int, b: int|
            0 <= a < b < scan_children(nodes, id, j).len() ==> #[trigger] scan_children(
                nodes,
                id,
                j,
            )[a] < #[trigger] scan_children(nodes, id, j)[b],
    decreases nodes.len() - j,
{
    if 0 <= j < nodes.len() && 0 <= id < nodes.len() && nodes[j].start < nodes[id].end {
        lemma_scan_children_increasing(nodes, id, j + 1);
        let rest = scan_children(nodes, id, j + 1);
        if nodes[j].depth as int == nodes[id].depth + 1 {
            let all = scan_children(nodes, id, j);
            assert(all == seq![j as NodeId] + rest);
            assert(forall|a: int| 0 <= a < rest.len() ==> all[a + 1] == rest[a]);
            assert forall|a: int| 0 <= a < all.len() implies j <= #[trigger] all[a]
                < nodes.len() by {
                if a > 0 {
                    assert(all[a] == rest[a - 1]);
                }
            }
            assert forall|a: int, b: int| 0 <= a < b < all.len() implies #[trigger] all[a]
                < #[trigger] all[b] by {
                assert(all[b] == rest[b - 1]);
                if a > 0 {
                    assert(all[a] == rest[a - 1]);
                }
            }
        }
    }
}

proof fn lemma_first_pos_increasing(s: Seq<NodeId>, i: int)
    requires
        0 <= i < s.len(),
        forall|a: int, b: int| 0 <= a < b < s.len() ==> #[trigger] s[a] < #[trigger] s[b],
    ensures
        first_pos(s, s[i]) == i,
    decreases s.len(),
{
    if i == 0 {
    } else {
        assert(s[0] < s[i]);
        let rest = s.drop_first();
        assert(forall|a: int, b: int|
            0 <= a < b < rest.len() ==> #[trigger] rest[a] < #[trigger] rest[b]);
        assert(rest[i - 1] == s[i]);
        lemma_first_pos_increasing(rest, i - 1);
    }
}

/// Key/value parity: among the children of an object node, even slots are
/// exactly the keys (when they are strings) and odd slots are exactly the
/// values.
pub proof fn lemma_key_value_parity(nodes: Seq<NodeInfo>, p: int)
    requires
        nodes.len() <= usize::MAX,
        0 <= p < nodes.len(),
        nodes[p].kind == NodeKind::Object,
        forall|i: int|
            0 <= i < children_of(nodes, p).len() ==> nodes[#[trigger] children_of(nodes, p)[
                i
            ] as int].parent == Some(p as NodeId),
    ensures
        forall|i: int|
            0 <= i < children_of(nodes, p).len() ==> (is_value_node_spec(
                nodes,
                #[trigger] children_of(nodes, p)[i] as int,
            ) <==> i % 2 == 1),
        forall|i: int|
            0 <= i < children_of(nodes, p).len() ==> (is_key_node_spec(
                nodes,
                #[trigger] children_of(nodes, p)[i] as int,
            ) <==> (i % 2 == 0 && nodes[children_of(nodes, p)[i] as int].kind == NodeKind::String)),
{
    let c = children_of(nodes, p);
    lemma_scan_children_increasing(nodes, p, p + 1);
    assert forall|i: int| 0 <= i < c.len() implies first_pos(c, c[i]) == i && c.contains(
        c[i],
    ) by {
        lemma_first_pos_increasing(c, i);
        assert(c[i] == c[i]);
    }
}


impl Default for StructuralIndex {
    /// An empty, well-formed index.
    fn default() -> (r: StructuralIndex)
        ensures
            r.nodes_seq() =~= Seq::<NodeInfo>::empty(),
            r.wf(),
    {
        StructuralIndex::new()
    }
}

} // verus!
