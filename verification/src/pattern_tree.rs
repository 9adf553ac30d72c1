//! The speculative pattern cache: a weighted trie of observed field
//! orderings. It only accelerates later parses; it never changes what a
//! parse returns.

use vstd::prelude::*;

verus! {

/// One node of the pattern trie: a field name, the colon position index it
/// was seen at, how often this prefix was observed, and what followed.
#[derive(Debug, PartialEq)]
pub struct PatternNode {
    pub field: Vec<u8>,
    pub pos: usize,
    pub weight: usize,
    pub children: Vec<PatternNode>,
}

impl PatternNode {
    /// The field name seen at this step.
    pub fn field(&self) -> (r: &[u8])
        ensures
            r@ == self.field@,
    {
        self.field.as_slice()
    }

    /// The index into the colon positions at which the field was seen.
    pub fn position(&self) -> (r: usize)
        ensures
            r == self.pos,
    {
        self.pos
    }

    /// The continuations recorded after this step.
    pub fn children(&self) -> (r: &[PatternNode])
        ensures
            r@ == self.children@,
    {
        self.children.as_slice()
    }

    /// The root carries the placeholder name `$`.
    pub fn is_root(&self) -> (r: bool)
        ensures
            r == (self.field@ == seq![crate::query::DOLLAR]),
    {
        if self.field.len() != 1 {
            proof {
                assert(self.field@.len() != 1);
            }
            return false;
        }
        let b = self.field[0] == crate::query::DOLLAR;
        proof {
            if b {
                assert(self.field@ =~= seq![crate::query::DOLLAR]);
            }
        }
        b
    }

    /// No continuation was recorded after this step.
    pub fn is_leaf(&self) -> (r: bool)
        ensures
            r == (self.children@.len() == 0),
    {
        self.children.len() == 0
    }
}

/// The weighted trie of observed orderings, rooted at a `$` node.
#[derive(Debug, PartialEq)]
pub struct PatternTree {
    pub root: PatternNode,
}

impl Default for PatternTree {
    /// An empty cache.
    fn default() -> (r: Self)
        ensures
            r.root.field@ == seq![crate::query::DOLLAR],
            r.root.weight == 0,
            r.root.children@.len() == 0,
    {
        let mut field: Vec<u8> = Vec::new();
        field.push(crate::query::DOLLAR);
        proof {
            assert(field@ =~= seq![crate::query::DOLLAR]);
        }
        PatternTree { root: PatternNode { field, pos: usize::MAX, weight: 0, children: Vec::new() } }
    }
}

/// Record one step of a pattern below `node`: bump the weight of the
/// matching child (adding it if new) and recurse on the rest.
fn append_rec(node: &mut PatternNode, pattern: &Vec<(Vec<u8>, usize)>, from: usize)
    requires
        from <= pattern@.len(),
    ensures
        final(node).field == old(node).field,
        final(node).pos == old(node).pos,
        final(node).weight == old(node).weight,
    decreases pattern@.len() - from,
{
    if from == pattern.len() {
        return ;
    }
    let n_children = node.children.len();
    let mut idx: usize = 0;
    let mut found = false;
    while idx < n_children && !found
        invariant
            from < pattern@.len(),
            idx <= n_children,
            n_children == node.children@.len(),
            found ==> idx < n_children,
        decreases n_children - idx + (if found { 0int } else { 1int }),
    {
        if crate::query::bytes_eq(
            node.children[idx].field.as_slice(),
            pattern[from].0.as_slice(),
        ) && node.children[idx].pos == pattern[from].1 {
            found = true;
        } else {
            idx = idx + 1;
        }
    }
    if !found {
        let mut name: Vec<u8> = Vec::new();
        let src = &pattern[from].0;
        let mut j: usize = 0;
        while j < src.len()
            invariant
                j <= src@.len(),
                name@.len() == j,
            decreases src@.len() - j,
        {
            name.push(src[j]);
            j = j + 1;
        }
        idx = node.children.len();
        node.children.push(
            PatternNode { field: name, pos: pattern[from].1, weight: 0, children: Vec::new() },
        );
    }
    let child = &mut node.children[idx];
    child.node_bump();
    append_rec(child, pattern, from + 1);
}

impl PatternNode {
    /// Saturating weight bump.
    fn node_bump(&mut self)
        ensures
            final(self).field == old(self).field,
            final(self).pos == old(self).pos,
            final(self).children == old(self).children,
    {
        if self.weight < usize::MAX {
            self.weight = self.weight + 1;
        }
    }
}

impl PatternTree {
    /// Add a pattern into this pattern tree: a sequence of pairs of field
    /// name and the colon position index it appeared at.
    pub fn append(&mut self, pattern: Vec<(Vec<u8>, usize)>)
        ensures
            final(self).root.field == old(self).root.field,
            final(self).root.pos == old(self).root.pos,
    {
        self.root.node_bump();
        append_rec(&mut self.root, &pattern, 0);
    }

    /// The root of the trie.
    pub fn root_node(&self) -> (r: &PatternNode)
        ensures
            *r == self.root,
    {
        &self.root
    }
}

} // verus!
