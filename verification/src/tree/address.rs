//! Paths that lead to one node among its like.

use crate::text::{cat2, cat4, count_text, decimal, join, joined, same, texts};
use crate::tree::{Instance, NodeId, Tree};
use vstd::prelude::*;

verus! {

impl Tree {
    /// How many of the first `k` nodes of a list have a name.
    pub open spec fn named_among(self, s: Seq<NodeId>, name: Seq<char>, k: int) -> nat
        decreases k,
    {
        if k <= 0 || k > s.len() {
            0
        } else {
            self.named_among(s, name, k - 1) + if self.name(s[k - 1]) == name {
                1nat
            } else {
                0
            }
        }
    }

    /// The name of a node, with its place among the siblings of that name
    /// where it is not the only one.
    pub open spec fn step_text(self, n: NodeId) -> Seq<char> {
        match self.parent(n) {
            None => self.name(n),
            Some(p) => {
                let all = self.children(p);
                let name = self.name(n);
                if self.named_among(all, name, all.len() as int) > 1 {
                    name + "["@ + decimal(
                        self.named_among(all, name, crate::tree::edit::place_after(all, n)),
                    ) + "]"@
                } else {
                    name
                }
            },
        }
    }

    pub open spec fn step_texts(self, s: Seq<NodeId>) -> Seq<Seq<char>> {
        Seq::new(s.len(), |i: int| self.step_text(s[i]))
    }

    /// Absolute path of a node, which tells it from its like: inside a
    /// repeat it counts rows from 1, as XPath counts.
    pub open spec fn address_of(self, n: NodeId) -> Seq<char> {
        "/"@ + join(self.step_texts((seq![n] + self.ancestors(n)).reverse()), "/"@)
    }
}

impl Instance {
    fn count_named(&self, ids: &Vec<NodeId>, name: &str, k: usize) -> (r: usize)
        requires
            self@.all_in(ids@),
            k <= ids@.len(),
        ensures
            r == self@.named_among(ids@, name@, k as int),
            r <= k,
    {
        let mut count: usize = 0;
        for i in 0..k
            invariant
                self@.all_in(ids@),
                k <= ids@.len(),
                count <= i,
                count == self@.named_among(ids@, name@, i as int),
        {
            assert(self@.has(ids@[i as int]));
            if same(self.node(ids[i]).name.as_str(), name) {
                count = count + 1;
            }
        }
        count
    }

    fn step_of(&self, node: NodeId) -> (r: String)
        requires
            self@.wf(),
            self@.has(node),
        ensures
            r@ == self@.step_text(node),
    {
        let name = self.node(node).name.clone();
        match self.parent(node) {
            None => name,
            Some(parent) => {
                let all = self.children(parent);
                if self.count_named(&all, name.as_str(), all.len()) > 1 {
                    let place = crate::tree::edit::place_of(&all, node);
                    let index = self.count_named(&all, name.as_str(), place);
                    cat4(name.as_str(), "[", count_text(index).as_str(), "]")
                } else {
                    name
                }
            },
        }
    }

    /// Absolute path of a node, which tells it from its like.
    pub fn address_of(&self, id: NodeId) -> (r: String)
        requires
            self@.wf(),
            self@.has(id),
        ensures
            r@ == self@.address_of(id),
    {
        let ghost tree = self@;
        let up = self.ancestors(id);
        let ghost line = (seq![id] + up@).reverse();
        let mut parts: Vec<String> = Vec::new();
        let mut i: usize = up.len();
        while i > 0
            invariant
                tree == self@,
                tree.wf(),
                i <= up@.len(),
                tree.all_in(up@),
                line == (seq![id] + up@).reverse(),
                texts(parts@) == tree.step_texts(line).take(up@.len() - i),
            decreases i,
        {
            let ghost was = parts@;
            assert(tree.has(up@[i - 1]));
            parts.push(self.step_of(up[i - 1]));
            proof {
                let k = up@.len() - i;
                assert(line[k] == up@[i - 1]);
                assert(texts(parts@) == texts(was).push(tree.step_text(up@[i - 1])));
                assert(tree.step_texts(line).take(k + 1) == tree.step_texts(line).take(k).push(
                    tree.step_texts(line)[k],
                ));
            }
            i = i - 1;
        }
        let ghost was = parts@;
        parts.push(self.step_of(id));
        proof {
            let k = up@.len() as int;
            assert(line[k] == id);
            assert(texts(parts@) == texts(was).push(tree.step_text(id)));
            assert(texts(parts@) == tree.step_texts(line));
        }
        let rest = joined(&parts, "/");
        cat2("/", rest.as_str())
    }
}

} // verus!
