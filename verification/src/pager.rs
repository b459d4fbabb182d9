use crate::node::{Node, NodeKindView, NodeView};
use vstd::prelude::*;

verus! {

/// The page store: the tree's collaborator for fixed-size page storage,
/// addressed by a dense range of page numbers.  This store keeps decoded
/// nodes in memory; a node fetched from it is an exclusively owned copy,
/// and nothing changes a stored page but `commit_page`.
pub struct Pager {
    pages: Vec<Node>,
}

impl View for Pager {
    type V = Seq<NodeView>;

    closed spec fn view(&self) -> Seq<NodeView> {
        self.pages@.map_values(|n: Node| n@)
    }
}

impl Pager {
    /// An empty store with no pages.
    pub fn new() -> (p: Pager)
        ensures
            p@ == Seq::<NodeView>::empty(),
    {
        let p = Pager { pages: Vec::new() };
        proof {
            assert(p@ =~= Seq::<NodeView>::empty());
        }
        p
    }

    /// How many pages the store holds; valid page numbers are below this.
    pub fn num_pages(&self) -> (n: usize)
        ensures
            n == self@.len(),
    {
        self.pages.len()
    }

    /// Decode the page at `n`.  Reading one past the end materialises a
    /// blank leaf for that page number, without growing the store; it
    /// becomes durable only when committed.
    pub fn get_page(&self, n: usize) -> (node: Node)
        requires
            n <= self@.len(),
        ensures
            n < self@.len() ==> node@ == self@[n as int],
            n == self@.len() ==> node@ == (NodeView {
                is_root: false,
                parent: None,
                num_cells: 0,
                page_num: n,
                kind: (NodeKindView::Leaf { cells: Seq::empty() }),
            }),
    {
        if n < self.pages.len() {
            let node = self.pages[n].clone();
            proof {
                assert(self@[n as int] == self.pages@[n as int]@);
            }
            node
        } else {
            let mut node = Node::leaf();
            node.page_num = n;
            node
        }
    }

    /// Encode and write a node at its own page number: overwrite an existing
    /// page, or append as the next page of the dense range.
    pub fn commit_page(&mut self, node: &Node)
        requires
            node@.page_num <= old(self)@.len(),
        ensures
            node@.page_num < old(self)@.len() ==> final(self)@ == old(self)@.update(
                node@.page_num as int,
                node@,
            ),
            node@.page_num == old(self)@.len() ==> final(self)@ == old(self)@.push(node@),
    {
        let ghost pre = self@;
        let n = node.page_num;
        if n < self.pages.len() {
            self.pages.remove(n);
            self.pages.insert(n, node.clone());
            proof {
                assert(self@ =~= pre.update(n as int, node@));
            }
        } else {
            self.pages.push(node.clone());
            proof {
                assert(self@ =~= pre.push(node@));
            }
        }
    }
}

} // verus!
