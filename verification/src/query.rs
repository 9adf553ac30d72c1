//! The query tree: a trie of dotted-path segments. Each registered path gets
//! the next path id; the evaluator walks the trie beside the structural
//! index.

use vstd::prelude::*;

use crate::errors::Error;

verus! {

/// The dot and dollar bytes of the path syntax.
pub const DOT: u8 = 0x2e;

pub const DOLLAR: u8 = 0x24;

/// One labelled edge of the trie.
#[derive(Debug, PartialEq)]
pub struct QueryEdge {
    pub name: Vec<u8>,
    pub node: QueryNode,
}

/// A trie node: its level below the root, the id of the path that ends here
/// (if one does), and its labelled children.
#[derive(Debug, PartialEq)]
pub struct QueryNode {
    pub node_id: usize,
    pub query_id: Option<usize>,
    pub level: usize,
    pub children: Vec<QueryEdge>,
}

/// Child labels never repeat.
pub open spec fn keys_unique(children: Seq<QueryEdge>) -> bool {
    forall|i: int, j: int|
        0 <= i < j < children.len() ==> (#[trigger] children[i].name)@ != (
        #[trigger] children[j].name)@
}

/// A well-formed trie: unique labels, and each child one level deeper.
pub open spec fn node_wf(n: QueryNode) -> bool
    decreases n,
{
    &&& keys_unique(n.children@)
    &&& forall|i: int|
        0 <= i < n.children@.len() ==> (#[trigger] n.children@[i].node).level == n.level + 1
    &&& forall|i: int| 0 <= i < n.children@.len() ==> node_wf(#[trigger] n.children@[i].node)
}

/// A valid query path: `$.` followed by nonempty dot-separated segments.
pub open spec fn valid_path(p: Seq<u8>) -> bool {
    &&& p.len() >= 3
    &&& p[0] == DOLLAR
    &&& p[1] == DOT
    &&& p[p.len() - 1] != DOT
    &&& forall|i: int| 2 <= i < p.len() ==> !(p[i] == DOT && #[trigger] p[i - 1] == DOT)
}

/// The end of the segment that starts at `from`: the next dot, or the end of
/// the path.
pub open spec fn seg_end(p: Seq<u8>, from: int) -> int
    decreases p.len() - from,
{
    if 0 <= from < p.len() && p[from] != DOT {
        seg_end(p, from + 1)
    } else {
        from
    }
}

/// How many segments remain from `from`.
pub open spec fn seg_count(p: Seq<u8>, from: int) -> int
    decreases p.len() - from,
{
    let e = seg_end(p, from);
    if e >= p.len() {
        1
    } else if e < from {
        1
    } else {
        1 + seg_count(p, e + 1)
    }
}

/// The trie registers path `p` (from byte `from`) under id `id`: a chain of
/// children labelled with the path's segments ends in a node whose
/// `query_id` is `id`.
pub open spec fn tree_contains(n: QueryNode, p: Seq<u8>, from: int, id: int) -> bool
    decreases p.len() - from,
{
    let e = seg_end(p, from);
    exists|i: int|
        0 <= i < n.children@.len() && (#[trigger] n.children@[i].name)@ == p.subrange(from, e)
            && (if e >= p.len() {
            n.children@[i].node.query_id == Some(id as usize)
        } else {
            e >= from && tree_contains(n.children@[i].node, p, e + 1, id)
        })
}

/// The unique child labelled `name`, when the labels do not repeat.
pub open spec fn find_child_spec(n: QueryNode, name: Seq<u8>) -> Option<QueryNode> {
    if exists|i: int| 0 <= i < n.children@.len() && (#[trigger] n.children@[i].name)@ == name {
        Some(
            n.children@[choose|i: int|
                0 <= i < n.children@.len() && (#[trigger] n.children@[i].name)@ == name].node,
        )
    } else {
        Option::None
    }
}

impl QueryNode {
    /// The node's level below the root.
    pub fn level(&self) -> (r: usize)
        ensures
            r == self.level,
    {
        self.level
    }

    /// The id of the path ending at this node, if one does.
    pub fn path_id(&self) -> (r: Option<usize>)
        ensures
            r == self.query_id,
    {
        self.query_id
    }

    /// A node without children ends every path through it.
    pub fn is_leaf(&self) -> (r: bool)
        ensures
            r == (self.children@.len() == 0),
    {
        self.children.len() == 0
    }

    /// How many children the node has.
    pub fn num_children(&self) -> (r: usize)
        ensures
            r == self.children@.len(),
    {
        self.children.len()
    }

    /// The child whose label is `field`, if any.
    pub fn find_child(&self, field: &[u8]) -> (r: Option<&QueryNode>)
        ensures
            r is Some <==> exists|i: int|
                0 <= i < self.children@.len() && (#[trigger] self.children@[i].name)@ == field@,
            r matches Some(c) ==> exists|i: int|
                0 <= i < self.children@.len() && (#[trigger] self.children@[i].name)@ == field@
                    && *c == self.children@[i].node,
            keys_unique(self.children@) ==> (match r {
                Option::Some(c) => find_child_spec(*self, field@) == Some(*c),
                Option::None => find_child_spec(*self, field@) is None,
            }),
    {
        let n = self.children.len();
        let mut i: usize = 0;
        while i < n
            invariant
                i <= n,
                n == self.children@.len(),
                forall|j: int| 0 <= j < i ==> (#[trigger] self.children@[j].name)@ != field@,
            decreases n - i,
        {
            if crate::query::bytes_eq(self.children[i].name.as_slice(), field) {
                proof {
                    if keys_unique(self.children@) {
                        let j = choose|j: int|
                            0 <= j < self.children@.len() && (#[trigger] self.children@[
                            j].name)@ == field@;
                        assert(j == i) by {
                            if j < i as int {
                            } else if j > i as int {
                                assert((self.children@[i as int].name)@ != (self.children@[
                                j].name)@);
                            }
                        }
                    }
                }
                return Option::Some(&self.children[i].node);
            }
            i = i + 1;
        }
        Option::None
    }
}

/// Two byte slices hold the same bytes.
pub fn bytes_eq(a: &[u8], b: &[u8]) -> (r: bool)
    ensures
        r == (a@ == b@),
{
    if a.len() != b.len() {
        proof {
            assert(a@.len() != b@.len());
        }
        return false;
    }
    let n = a.len();
    let mut i: usize = 0;
    while i < n
        invariant
            i <= n,
            n == a@.len() == b@.len(),
            forall|j: int| 0 <= j < i ==> a@[j] == b@[j],
        decreases n - i,
    {
        if a[i] != b[i] {
            return false;
        }
        i = i + 1;
    }
    proof {
        assert(a@ =~= b@);
    }
    true
}

/// A trie of dotted query paths, each with its insertion-order id.
#[derive(Debug, PartialEq)]
pub struct QueryTree {
    pub root: QueryNode,
    pub paths: Vec<Vec<u8>>,
    pub max_level: usize,
    pub num_nodes: usize,
}

impl Default for QueryTree {
    /// An empty tree: a root at level zero and no paths.
    fn default() -> (r: Self)
        ensures
            r.root.level == 0,
            r.root.query_id is None,
            r.root.children@.len() == 0,
            r.paths@.len() == 0,
            r.max_level == 0,
            node_wf(r.root),
    {
        QueryTree {
            root: QueryNode { node_id: 0, query_id: Option::None, level: 0, children: Vec::new() },
            paths: Vec::new(),
            max_level: 0,
            num_nodes: 1,
        }
    }
}

/// The end of the current segment, executable.
fn seg_end_exec(p: &[u8], from: usize) -> (r: usize)
    requires
        from <= p@.len(),
    ensures
        r == seg_end(p@, from as int),
        from <= r <= p@.len(),
        r < p@.len() ==> p@[r as int] == DOT,
        forall|i: int| from <= i < r ==> p@[i] != DOT,
{
    let n = p.len();
    let mut i = from;
    while i < n && p[i] != DOT
        invariant
            from <= i <= n,
            n == p@.len(),
            seg_end(p@, from as int) == seg_end(p@, i as int),
            forall|j: int| from <= j < i ==> p@[j] != DOT,
        decreases n - i,
    {
        i = i + 1;
    }
    i
}

/// Walk (or grow) the trie along the segments of `path` starting at `from`,
/// and mark the final node with `id`. Returns the final node's level.
fn insert_segments(node: &mut QueryNode, path: &[u8], from: usize, id: usize, num_nodes: &mut usize) -> (d: usize)
    requires
        valid_path(path@),
        2 <= from < path@.len(),
        path@[from as int] != DOT,
        old(node).level + (path@.len() - from) <= usize::MAX,
        node_wf(*old(node)),
    ensures
        node_wf(*final(node)),
        tree_contains(*final(node), path@, from as int, id as int),
        final(node).level == old(node).level,
        final(node).node_id == old(node).node_id,
        final(node).query_id == old(node).query_id,
        old(node).level < d <= old(node).level + (path@.len() - from),
        d as int == old(node).level + seg_count(path@, from as int),
        final(node).children@.len() == old(node).children@.len() || final(node).children@.len()
            == old(node).children@.len() + 1,
        forall|i: int|
            0 <= i < old(node).children@.len() ==> (#[trigger] final(node).children@[i]).name
                == old(node).children@[i].name,
    decreases path@.len() - from,
{
    let e = seg_end_exec(path, from);
    let ghost ee = seg_end(path@, from as int);
    proof {
        assert(ee > from);
        if ee < path@.len() {
            assert(path@[ee] == DOT);
            assert(ee + 1 < path@.len()) by {
                assert(path@[path@.len() - 1] != DOT);
            }
            assert(path@[ee + 1] != DOT) by {
                assert(!(path@[ee + 1] == DOT && path@[ee + 1 - 1] == DOT));
            }
        }
    }
    // find the child labelled with this segment, or create it
    let seg = vstd::slice::slice_subrange(path, from, e);
    let n_children = node.children.len();
    let mut idx: usize = 0;
    let mut found = false;
    while idx < n_children && !found
        invariant
            idx <= n_children,
            n_children == node.children@.len(),
            !found ==> forall|j: int| 0 <= j < idx ==> (#[trigger] node.children@[j].name)@ != seg@,
            found ==> idx < n_children && node.children@[idx as int].name@ == seg@,
        decreases n_children - idx + (if found { 0int } else { 1int }),
    {
        if bytes_eq(node.children[idx].name.as_slice(), seg) {
            found = true;
        } else {
            idx = idx + 1;
        }
    }
    if !found {
        let fresh = QueryNode {
            node_id: *num_nodes,
            query_id: Option::None,
            level: node.level + 1,
            children: Vec::new(),
        };
        if *num_nodes < usize::MAX {
            *num_nodes = *num_nodes + 1;
        }
        let name = vstd::slice::slice_to_vec(seg);
        idx = node.children.len();
        node.children.push(QueryEdge { name, node: fresh });
        proof {
            assert forall|i: int, j: int|
                0 <= i < j < node.children@.len() implies (#[trigger] node.children@[i].name)@
                != (#[trigger] node.children@[j].name)@ by {}
        }
    }
    let ghost before = node.children@;
    let d: usize;
    if e == path.len() {
        // the path ends here: mark the child
        let child = &mut node.children[idx].node;
        child.query_id = Option::Some(id);
        d = child.level;
        proof {
            assert(seg_count(path@, from as int) == 1);
            assert(node.children@[idx as int].name@ == path@.subrange(from as int, ee));
            assert(node.children@[idx as int].node.query_id == Some(id));
            assert forall|i: int|
                0 <= i < node.children@.len() implies node_wf(
                #[trigger] node.children@[i].node,
            ) by {
                if i != idx {
                    assert(node.children@[i] == before[i]);
                } else {
                    let c0 = before[i].node;
                    let c1 = node.children@[i].node;
                    assert(c1.children == c0.children);
                    assert(c1.level == c0.level);
                    assert(node_wf(c0));
                    lemma_node_wf_query_id(c0, c1);
                }
            }
        }
    } else {
        let child = &mut node.children[idx].node;
        proof {
            assert(node_wf(*child)) by {
                if found {
                    assert(*child == before[idx as int].node);
                }
            }
            assert(child.level == node.level + 1);
        }
        d = insert_segments(child, path, e + 1, id, num_nodes);
        proof {
            assert(seg_count(path@, from as int) == 1 + seg_count(path@, ee + 1));
            assert(node.children@[idx as int].name@ == path@.subrange(from as int, ee));
            assert(tree_contains(node.children@[idx as int].node, path@, ee + 1, id as int));
            assert forall|i: int|
                0 <= i < node.children@.len() implies node_wf(
                #[trigger] node.children@[i].node,
            ) by {
                if i != idx {
                    assert(node.children@[i] == before[i]);
                }
            }
            assert forall|i: int, j: int|
                0 <= i < j < node.children@.len() implies (#[trigger] node.children@[i].name)@
                != (#[trigger] node.children@[j].name)@ by {
                assert(node.children@[i].name == before[i].name);
                assert(node.children@[j].name == before[j].name);
            }
        }
    }
    proof {
        assert(tree_contains(*node, path@, from as int, id as int)) by {
            assert(node.children@[idx as int].name@ == path@.subrange(from as int, ee));
        }
    }
    d
}

/// Changing only `query_id` keeps a trie well formed.
proof fn lemma_node_wf_query_id(c0: QueryNode, c1: QueryNode)
    requires
        node_wf(c0),
        c1.children == c0.children,
        c1.level == c0.level,
    ensures
        node_wf(c1),
{
}

impl QueryTree {
    /// Parse a query path and register it in the tree. A path is accepted
    /// exactly when it starts with `$.` and every dot-separated segment is
    /// nonempty; the registered path gets the next id in insertion order.
    pub fn add_path(&mut self, path: &[u8]) -> (res: Result<(), Error>)
        requires
            node_wf(old(self).root),
            old(self).root.level == 0,
        ensures
            res is Ok <==> valid_path(path@),
            res matches Err(e) ==> e == Error::InvalidQuery,
            res is Err ==> *final(self) == *old(self),
            node_wf(final(self).root),
            final(self).root.level == 0,
            res is Ok ==> final(self).paths@.len() == old(self).paths@.len() + 1,
            res is Ok ==> (final(self).paths@[old(self).paths@.len() as int])@ == path@,
            forall|i: int|
                0 <= i < old(self).paths@.len() ==> #[trigger] final(self).paths@[i] == old(
                    self,
                ).paths@[i],
            res is Ok ==> tree_contains(
                final(self).root,
                path@,
                2,
                old(self).paths@.len() as int,
            ),
            res is Ok ==> final(self).max_level as int == (if old(self).max_level as int
                >= seg_count(path@, 2) {
                old(self).max_level as int
            } else {
                seg_count(path@, 2)
            }),
            res is Ok ==> old(self).max_level <= final(self).max_level,
            res is Ok ==> final(self).max_level >= 1,
            res is Ok ==> (final(self).root.children@.len() == old(self).root.children@.len()
                || final(self).root.children@.len() == old(self).root.children@.len() + 1),
            forall|i: int|
                0 <= i < old(self).root.children@.len()
                    ==> (#[trigger] final(self).root.children@[i]).name == old(
                    self,
                ).root.children@[i].name,
    {
        if !is_valid_path(path) {
            return Result::Err(Error::InvalidQuery);
        }
        let id = self.paths.len();
        let n = path.len();
        proof {
            assert(path@.len() == n as int);
            assert(!(path@[2] == DOT && path@[2 - 1] == DOT));
        }
        let mut nn = self.num_nodes;
        let d = insert_segments(&mut self.root, path, 2, id, &mut nn);
        self.num_nodes = nn;
        if d > self.max_level {
            self.max_level = d;
        }
        self.paths.push(vstd::slice::slice_to_vec(path));
        Result::Ok(())
    }

    /// The deepest level any registered path reaches.
    pub fn max_level(&self) -> (r: usize)
        ensures
            r == self.max_level,
    {
        self.max_level
    }

    /// How many paths are registered.
    pub fn num_paths(&self) -> (r: usize)
        ensures
            r == self.paths@.len(),
    {
        self.paths.len()
    }

    /// The root of the trie.
    pub fn as_node(&self) -> (r: &QueryNode)
        ensures
            *r == self.root,
    {
        &self.root
    }
}

/// Check the path syntax: `$.` then nonempty dot-separated segments.
fn is_valid_path(p: &[u8]) -> (r: bool)
    ensures
        r == valid_path(p@),
{
    let n = p.len();
    if n < 3 || p[0] != DOLLAR || p[1] != DOT || p[n - 1] == DOT {
        return false;
    }
    let mut i: usize = 2;
    while i < n
        invariant
            2 <= i <= n,
            n == p@.len(),
            forall|j: int| 2 <= j < i ==> !(p@[j] == DOT && #[trigger] p@[j - 1] == DOT),
        decreases n - i,
    {
        if p[i] == DOT && p[i - 1] == DOT {
            return false;
        }
        i = i + 1;
    }
    true
}

} // verus!
