use crate::cursor::Cursor;
use crate::node::{
    has_key, lemma_insert_preserves_order, lower_key_idx, ordered, sorted_insert, valid_key_pos,
    valid_pos, KeyValuePair, Node, NodeKindView, NodeType, NodeView, MAX_CELLS, MAX_PAGE_SENTINEL,
};
use crate::pager::Pager;
use crate::row::Row;
use vstd::prelude::*;

verus! {

/// Flat well-formedness of a committed store: page 0 is the one root and has
/// no parent, every other page is a non-root with a parent, every page knows
/// its own page number, and every node is locally well-formed (ordered keys,
/// at most `MAX_CELLS` of them).
pub open spec fn store_ok(pages: Seq<NodeView>) -> bool {
    &&& pages.len() >= 1
    &&& pages[0].is_root
    &&& pages[0].parent is None
    &&& forall|i: int|
        1 <= i < pages.len() ==> (!(#[trigger] pages[i]).is_root && pages[i].parent is Some)
    &&& forall|i: int|
        0 <= i < pages.len() ==> (#[trigger] pages[i]).page_num == i && pages[i].wf()
}

/// The child pages named by an internal node exist, are never the root page,
/// and sit strictly below it in the level labelling.
pub open spec fn child_links_ok(pages: Seq<NodeView>, lv: Seq<nat>, i: int) -> bool {
    match pages[i].kind {
        NodeKindView::Internal { children, .. } => forall|j: int|
            0 <= j < children.len() ==> {
                let c = #[trigger] children[j] as int;
                &&& 0 < c < pages.len()
                &&& lv[c] < lv[i]
            },
        NodeKindView::Leaf { .. } => true,
    }
}

/// A parent pointer names an existing internal page strictly above its
/// holder in the level labelling.
pub open spec fn parent_link_ok(pages: Seq<NodeView>, lv: Seq<nat>, i: int) -> bool {
    match pages[i].parent {
        Some(q) => {
            &&& (q as int) < pages.len()
            &&& !pages[q as int].is_leaf()
            &&& lv[i] < lv[q as int]
        },
        None => true,
    }
}

/// A level labelling of the pages under which every child link descends and
/// every parent link ascends.  Its existence rules out cycles, so every
/// search descent reaches a leaf.
pub open spec fn levels_ok(pages: Seq<NodeView>, lv: Seq<nat>) -> bool {
    &&& lv.len() == pages.len()
    &&& forall|i: int| 0 <= i < pages.len() ==> child_links_ok(pages, lv, i)
    &&& forall|i: int| 0 <= i < pages.len() ==> parent_link_ok(pages, lv, i)
}

/// A store a tree can be opened on: flat well-formedness plus an acyclic
/// level labelling.
pub open spec fn valid_store(pages: Seq<NodeView>) -> bool {
    &&& store_ok(pages)
    &&& exists|lv: Seq<nat>| levels_ok(pages, lv)
}

/// The model of a fresh single-leaf root page.
pub open spec fn empty_root_view() -> NodeView {
    NodeView {
        is_root: true,
        parent: None,
        num_cells: 0,
        page_num: 0,
        kind: NodeKindView::Leaf { cells: Seq::empty() },
    }
}

/// The tree orchestrator: owns the page store, keeps the root at page 0,
/// and is the only component that restructures pages (splits and root
/// promotion).
pub struct BTree {
    pager: Pager,
}

impl View for BTree {
    type V = Seq<NodeView>;

    closed spec fn view(&self) -> Seq<NodeView> {
        self.pager@
    }
}

impl BTree {
    pub open spec fn wf(self) -> bool {
        valid_store(self.view())
    }

    /// Open a tree on a store: an empty store gets a fresh leaf committed as
    /// the root at page 0; a non-empty store is taken as it is, with its
    /// root at page 0.
    pub fn new(pager: Pager) -> (t: BTree)
        requires
            pager@.len() == 0 || valid_store(pager@),
        ensures
            t.wf(),
            pager@.len() == 0 ==> t@ == Seq::empty().push(empty_root_view()),
            pager@.len() > 0 ==> t@ == pager@,
    {
        let mut pager = pager;
        if pager.num_pages() == 0 {
            let mut root = pager.get_page(0);
            root.is_root = true;
            pager.commit_page(&root);
            proof {
                let pages = pager@;
                assert(pages =~= Seq::empty().push(empty_root_view()));
                assert(pages[0].wf());
                let lv: Seq<nat> = seq![0nat];
                assert(levels_ok(pages, lv));
            }
        }
        BTree { pager }
    }

    /// The record at a confirmed position.  Calling this with anything but a
    /// cursor previously returned as a hit is a programming error, excluded
    /// by contract.
    pub fn get(&self, page_num: usize, cell_num: usize) -> (r: Row)
        requires
            self.wf(),
            page_num < self@.len(),
            self@[page_num as int].is_leaf(),
            cell_num < self@[page_num as int].cells().len(),
        ensures
            r == self@[page_num as int].cells()[cell_num as int].value,
    {
        let node = self.pager.get_page(page_num);
        match node.get(cell_num) {
            Some(kv) => kv.value,
            None => vstd::pervasive::unreached(),
        }
    }

    /// A decoded copy of the page currently acting as root.
    pub fn root(&self) -> (n: Node)
        requires
            self.wf(),
        ensures
            n@ == self@[0],
            n@.is_root,
    {
        self.pager.get_page(0)
    }

    /// Release the tree and hand back the underlying store with every
    /// committed page intact, ready to be reopened.
    pub fn close(self) -> (p: Pager)
        requires
            self.wf(),
        ensures
            p@ == self@,
            valid_store(p@),
    {
        self.pager
    }
}

/// What a search promises about its result, relative to the leaf the
/// descent reached.  A hit names an existing cell holding the key.  A miss
/// on a leaf with room names the order-preserving insertion index.  A miss
/// on a full leaf names the capacity index `MAX_CELLS`, with `end_of_table`
/// set exactly when that leaf is the store's last page.
pub open spec fn find_post(pages: Seq<NodeView>, key: usize, r: Result<Cursor, Cursor>) -> bool {
    match r {
        Ok(c) => {
            &&& (c.page_num as int) < pages.len()
            &&& pages[c.page_num as int].is_leaf()
            &&& (c.cell_num as int) < pages[c.page_num as int].cells().len()
            &&& pages[c.page_num as int].cells()[c.cell_num as int].key == key
            &&& !c.end_of_table
        },
        Err(c) => {
            let cells = pages[c.page_num as int].cells();
            &&& (c.page_num as int) < pages.len()
            &&& pages[c.page_num as int].is_leaf()
            &&& !has_key(cells, key)
            &&& if cells.len() >= MAX_CELLS {
                &&& c.cell_num == MAX_CELLS
                &&& c.end_of_table == ((c.page_num as int) == pages.len() - 1)
            } else {
                &&& valid_pos(cells, c.cell_num as int, key)
                &&& !c.end_of_table
            }
        },
    }
}

impl BTree {
    /// Search for `key`, descending from the root to the leaf whose key
    /// range covers it.  `Ok` means the key exists at the returned cursor;
    /// `Err` means the cursor denotes the correct insertion point (or, for a
    /// full leaf, that a split is needed there first).
    pub fn find(&self, key: usize) -> (r: Result<Cursor, Cursor>)
        requires
            self.wf(),
        ensures
            find_post(self@, key, r),
            self@[0].is_leaf() ==> (match r {
                Ok(c) => c.page_num == 0,
                Err(c) => c.page_num == 0,
            }),
    {
        let ghost pages = self@;
        let ghost lv: Seq<nat> = choose|lv: Seq<nat>| levels_ok(pages, lv);
        let mut page: usize = 0;
        let mut node = self.pager.get_page(page);
        while !node.is_leaf()
            invariant
                self.wf(),
                pages == self@,
                levels_ok(pages, lv),
                (page as int) < pages.len(),
                node@ == pages[page as int],
                pages[0].is_leaf() ==> page == 0,
            decreases lv[page as int],
        {
            let c = node.child_for(key);
            proof {
                let j = choose|j: int|
                    0 <= j < node@.children().len() && node@.children()[j] == c;
                assert(child_links_ok(pages, lv, page as int));
                assert(0 < c as int && (c as int) < pages.len() && lv[c as int] < lv[page as int]);
            }
            page = c;
            node = self.pager.get_page(page);
        }
        let np = self.pager.num_pages();
        match node.find(key) {
            Ok((p, c)) => {
                proof {
                    assert(p == page);
                }
                let eot = p + 1 == np && c >= MAX_CELLS;
                Ok(Cursor::new(p, c, eot))
            },
            Err((p, c)) => {
                if p == MAX_PAGE_SENTINEL {
                    proof {
                        // a real page number is always below the page count
                        assert(page < np);
                        assert(self@[page as int].cells().len() >= MAX_CELLS);
                    }
                    let eot = page + 1 == np;
                    Err(Cursor::new(page, MAX_CELLS, eot))
                } else {
                    proof {
                        assert(p == page);
                        assert(self@[page as int].cells().len() < MAX_CELLS);
                    }
                    Err(Cursor::new(p, c, false))
                }
            },
        }
    }
}

/// The store after every child of the internal node at `page` has had its
/// parent pointer set to `page`; nothing else changes.
pub open spec fn reparented(pages: Seq<NodeView>, page: usize) -> Seq<NodeView> {
    pages.map(
        |i: int, n: NodeView|
            if pages[page as int].children().contains(i as usize) {
                NodeView { parent: Some(page), ..n }
            } else {
                n
            },
    )
}

/// Every entry of `kids` is drawn from `pool` or is the page `extra`.
pub open spec fn drawn_from(pool: Seq<usize>, kids: Seq<usize>, extra: usize) -> bool {
    forall|j: int| 0 <= j < kids.len() ==> pool.contains(#[trigger] kids[j]) || kids[j] == extra
}

proof fn lemma_subrange_drawn(pool: Seq<usize>, lo: int, hi: int, extra: usize)
    requires
        0 <= lo <= hi <= pool.len(),
    ensures
        drawn_from(pool, pool.subrange(lo, hi), extra),
{
    assert forall|j: int| 0 <= j < hi - lo implies pool.contains(
        #[trigger] pool.subrange(lo, hi)[j],
    ) by {
        assert(pool.subrange(lo, hi)[j] == pool[lo + j]);
    }
}

proof fn lemma_insert_drawn(pool: Seq<usize>, kids: Seq<usize>, k: int, extra: usize)
    requires
        drawn_from(pool, kids, extra),
        0 <= k <= kids.len(),
    ensures
        drawn_from(pool, kids.insert(k, extra), extra),
{
    let s = kids.insert(k, extra);
    assert forall|j: int| 0 <= j < s.len() implies pool.contains(#[trigger] s[j]) || s[j]
        == extra by {
        if j < k {
            assert(s[j] == kids[j]);
        } else if j > k {
            assert(s[j] == kids[j - 1]);
        }
    }
}

/// Re-pointing the children of one internal page at it preserves the store
/// invariants under the same level labelling.
proof fn lemma_reparent_preserves(pre: Seq<NodeView>, lv: Seq<nat>, page: usize)
    requires
        store_ok(pre),
        levels_ok(pre, lv),
        (page as int) < pre.len(),
        !pre[page as int].is_leaf(),
    ensures
        store_ok(reparented(pre, page)),
        levels_ok(reparented(pre, page), lv),
{
    let post = reparented(pre, page);
    let kids = pre[page as int].children();
    assert(child_links_ok(pre, lv, page as int));
    assert forall|i: int| 0 <= i < post.len() implies post[i].kind == pre[i].kind
        && post[i].is_root == pre[i].is_root && post[i].page_num == pre[i].page_num
        && post[i].num_cells == pre[i].num_cells by {}
    assert(store_ok(post)) by {
        assert forall|i: int|
            0 <= i < post.len() implies (#[trigger] post[i]).page_num == i && post[i].wf() by {
            assert(pre[i].page_num == i && pre[i].wf());
        }
        assert forall|i: int|
            1 <= i < post.len() implies (!(#[trigger] post[i]).is_root && post[i].parent
            is Some) by {
            assert(!pre[i].is_root && pre[i].parent is Some);
        }
        assert(!kids.contains(0usize)) by {
            if kids.contains(0usize) {
                let w = choose|w: int| 0 <= w < kids.len() && kids[w] == 0usize;
                assert(0 < kids[w] as int);
            }
        }
        assert(post[0].parent == pre[0].parent);
    }
    assert(levels_ok(post, lv)) by {
        assert forall|i: int| 0 <= i < post.len() implies child_links_ok(post, lv, i) by {
            assert(child_links_ok(pre, lv, i));
        }
        assert forall|i: int| 0 <= i < post.len() implies parent_link_ok(post, lv, i) by {
            assert(parent_link_ok(pre, lv, i));
            if kids.contains(i as usize) {
                let w = choose|w: int| 0 <= w < kids.len() && kids[w] == i as usize;
                assert(kids[w] == i as usize);
                assert(lv[i] < lv[page as int]);
                assert(!post[page as int].is_leaf());
            } else {
                match pre[i].parent {
                    Some(q) => {
                        assert(!pre[q as int].is_leaf());
                        assert(!post[q as int].is_leaf());
                    },
                    None => {},
                }
            }
        }
    }
}

impl BTree {
    /// After a split hands an internal node a fresh set of children, point
    /// every one of those children back at it.
    fn fix_children(&mut self, page: usize)
        requires
            old(self).wf(),
            (page as int) < old(self)@.len(),
            !old(self)@[page as int].is_leaf(),
        ensures
            final(self).wf(),
            final(self)@ == reparented(old(self)@, page),
            final(self)@.len() == old(self)@.len(),
            forall|i: int|
                0 <= i < old(self)@.len() ==> final(self)@[i] == (NodeView {
                    parent: (if old(self)@[page as int].children().contains(i as usize) {
                        Some(page)
                    } else {
                        old(self)@[i].parent
                    }),
                    ..old(self)@[i]
                }),
    {
        let ghost pages0 = self@;
        let ghost lv: Seq<nat> = choose|lv: Seq<nat>| levels_ok(pages0, lv);
        let node = self.pager.get_page(page);
        match &node.node_type {
            NodeType::Internal { children, .. } => {
                let ghost all = pages0[page as int].children();
                let mut j: usize = 0;
                while j < children.len()
                    invariant
                        store_ok(self@),
                        levels_ok(self@, lv),
                        self@.len() == pages0.len(),
                        (page as int) < pages0.len(),
                        children@ == all,
                        all == pages0[page as int].children(),
                        child_links_ok(pages0, lv, page as int),
                        j <= all.len(),
                        forall|i: int|
                            0 <= i < pages0.len() ==> self@[i] == (NodeView {
                                parent: (if all.subrange(0, j as int).contains(i as usize) {
                                    Some(page)
                                } else {
                                    pages0[i].parent
                                }),
                                ..pages0[i]
                            }),
                    decreases all.len() - j,
                {
                    let c = children[j];
                    proof {
                        assert(all[j as int] == c);
                        assert(0 < c as int && (c as int) < pages0.len());
                        assert(lv[c as int] < lv[page as int]);
                    }
                    let mut cn = self.pager.get_page(c);
                    let ghost mid = self@;
                    cn.parent_offset = Some(page);
                    self.pager.commit_page(&cn);
                    proof {
                        let now = self@;
                        assert(now == mid.update(c as int, cn@));
                        assert(all.subrange(0, j as int + 1) =~= all.subrange(0, j as int).push(
                            c,
                        ));
                        assert forall|i: int| 0 <= i < pages0.len() implies now[i] == (NodeView {
                            parent: (if all.subrange(0, j as int + 1).contains(i as usize) {
                                Some(page)
                            } else {
                                pages0[i].parent
                            }),
                            ..pages0[i]
                        }) by {
                            if i == c as int {
                                assert(all.subrange(0, j as int + 1)[j as int] == c);
                                assert(all.subrange(0, j as int + 1).contains(c));
                            } else {
                                assert(now[i] == mid[i]);
                                if all.subrange(0, j as int + 1).contains(i as usize) {
                                    let w = choose|w: int|
                                        0 <= w < j + 1 && #[trigger] all.subrange(
                                            0,
                                            j as int + 1,
                                        )[w] == i as usize;
                                    assert(all.subrange(0, j as int)[w] == i as usize);
                                    assert(all.subrange(0, j as int).contains(i as usize));
                                }
                            }
                        }
                        assert(store_ok(now)) by {
                            assert forall|i: int|
                                0 <= i < now.len() implies (#[trigger] now[i]).page_num == i
                                && now[i].wf() by {
                                assert(store_ok(mid));
                                assert(now[i].kind == mid[i].kind);
                                assert(now[i].num_cells == mid[i].num_cells);
                            }
                        }
                        assert(levels_ok(now, lv)) by {
                            assert forall|i: int|
                                0 <= i < now.len() implies child_links_ok(now, lv, i) by {
                                assert(child_links_ok(mid, lv, i));
                                assert(now[i].kind == mid[i].kind);
                            }
                            assert forall|i: int|
                                0 <= i < now.len() implies parent_link_ok(now, lv, i) by {
                                assert(parent_link_ok(mid, lv, i));
                                if i == c as int {
                                    assert(!now[page as int].is_leaf());
                                    assert(lv[c as int] < lv[page as int]);
                                } else {
                                    assert(now[i].parent == mid[i].parent);
                                    match mid[i].parent {
                                        Some(q) => {
                                            assert(!mid[q as int].is_leaf());
                                            assert(now[q as int].kind == mid[q as int].kind);
                                        },
                                        None => {},
                                    }
                                }
                            }
                        }
                    }
                    j = j + 1;
                }
                proof {
                    assert(all.subrange(0, all.len() as int) =~= all);
                    assert(self@ =~= reparented(pages0, page));
                }
            },
            NodeType::Leaf(_) => vstd::pervasive::unreached(),
        }
    }
}

impl BTree {
    /// Record a freshly split-off sibling under its parent: insert the
    /// promoted separator key and the sibling's page, splitting each full
    /// ancestor in turn and synthesising a new internal root at page 0 when
    /// the propagation reaches it.  The walk is bounded by the page count;
    /// in a well-formed store the parent chain is always shorter than that.
    fn add_child(&mut self, parent_page: usize, sep: usize, child_page: usize)
        requires
            old(self).wf(),
            (child_page as int) < old(self)@.len(),
            old(self)@[child_page as int].parent == Some(parent_page),
            child_page != 0,
            old(self)@.len() < usize::MAX - 2,
        ensures
            final(self).wf(),
            final(self)@.len() >= old(self)@.len(),
            forall|i: int|
                0 <= i < old(self)@.len() && old(self)@[i].is_leaf() ==> final(self)@[i].kind
                    == old(self)@[i].kind,
            ({
                let pages = old(self)@;
                let pp = parent_page as int;
                let keys = pages[pp].keys();
                let ki = lower_key_idx(keys, sep);
                (keys.len() < MAX_CELLS && !keys.contains(sep)) ==> final(self)@ == pages.update(
                    pp,
                    (NodeView {
                        num_cells: (pages[pp].num_cells + 1) as usize,
                        kind: (NodeKindView::Internal {
                            keys: keys.insert(ki, sep),
                            children: pages[pp].children().insert(ki + 1, child_page),
                        }),
                        ..pages[pp]
                    }),
                )
            }),
    {
        let ghost pages0 = self@;
        let ghost pp0 = parent_page;
        let ghost sep0 = sep;
        let ghost child0 = child_page;
        let ghost keys0 = pages0[pp0 as int].keys();
        let ghost easy = keys0.len() < MAX_CELLS && !keys0.contains(sep0);
        let mut cur_parent = parent_page;
        let mut cur_sep = sep;
        let mut cur_child = child_page;
        let mut budget = self.pager.num_pages();
        let ghost mut lv: Seq<nat> = choose|l: Seq<nat>| levels_ok(pages0, l);
        loop
            invariant
                pages0 == old(self)@,
                pp0 == parent_page,
                sep0 == sep,
                child0 == child_page,
                keys0 == pages0[pp0 as int].keys(),
                easy == (keys0.len() < MAX_CELLS && !keys0.contains(sep0)),
                easy ==> (self@ == pages0 && cur_parent == pp0 && cur_sep == sep0 && cur_child
                    == child0 && budget >= 1 && pages0.len() < usize::MAX - 2),
                store_ok(self@),
                levels_ok(self@, lv),
                self@.len() >= pages0.len(),
                (cur_child as int) < self@.len(),
                self@[cur_child as int].parent == Some(cur_parent),
                cur_child != 0,
                forall|i: int|
                    0 <= i < pages0.len() && pages0[i].is_leaf() ==> self@[i].kind
                        == pages0[i].kind,
            decreases budget,
        {
            if budget == 0 {
                return;
            }
            budget = budget - 1;
            let np = self.pager.num_pages();
            if np >= usize::MAX - 2 {
                return;
            }
            proof {
                // the child's parent link: its parent exists and is internal
                assert(parent_link_ok(self@, lv, cur_child as int));
            }
            let mut parent = self.pager.get_page(cur_parent);
            if parent.num_cells < MAX_CELLS {
                let ghost mid = self@;
                let inserted = parent.insert_separator(cur_sep, cur_child);
                if inserted {
                    self.pager.commit_page(&parent);
                    proof {
                        let now = self@;
                        let pp = cur_parent as int;
                        assert(now == mid.update(pp, parent@));
                        assert(store_ok(now)) by {
                            assert forall|i: int|
                                1 <= i < now.len() implies (!(#[trigger] now[i]).is_root
                                && now[i].parent is Some) by {
                                assert(mid[i].is_root == now[i].is_root);
                            }
                        }
                        assert(levels_ok(now, lv)) by {
                            let kids0 = mid[pp].children();
                            let ki = lower_key_idx(mid[pp].keys(), cur_sep) + 1;
                            crate::node::lemma_lower_key_idx_bounds(mid[pp].keys(), cur_sep);
                            assert(now[pp].children() == kids0.insert(ki, cur_child));
                            assert forall|i: int|
                                0 <= i < now.len() implies child_links_ok(now, lv, i) by {
                                assert(child_links_ok(mid, lv, i));
                                if i == pp {
                                    let kids1 = now[pp].children();
                                    assert forall|j: int|
                                        0 <= j < kids1.len() implies {
                                        let c = #[trigger] kids1[j] as int;
                                        0 < c && c < now.len() && lv[c] < lv[i]
                                    } by {
                                        if j < ki {
                                            assert(kids1[j] == kids0[j]);
                                        } else if j == ki {
                                            assert(kids1[j] == cur_child);
                                        } else {
                                            assert(kids1[j] == kids0[j - 1]);
                                        }
                                    }
                                } else {
                                    assert(now[i].kind == mid[i].kind);
                                }
                            }
                            assert forall|i: int|
                                0 <= i < now.len() implies parent_link_ok(now, lv, i) by {
                                assert(parent_link_ok(mid, lv, i));
                                assert(now[i].parent == mid[i].parent);
                                match mid[i].parent {
                                    Some(q) => {
                                        assert(now[q as int].kind == mid[q as int].kind || q
                                            == cur_parent);
                                        assert(!mid[q as int].is_leaf());
                                    },
                                    None => {},
                                }
                            }
                        }
                    }
                    proof {
                        if easy {
                            let pp = cur_parent as int;
                            let keys = mid[pp].keys();
                            let ki = lower_key_idx(keys, cur_sep);
                            crate::node::lemma_lower_key_idx_valid(keys, cur_sep);
                            let wi = choose|wi: int|
                                #[trigger] valid_key_pos(keys, wi, cur_sep) && parent@ == (NodeView {
                                    num_cells: (mid[pp].num_cells + 1) as usize,
                                    kind: (NodeKindView::Internal {
                                        keys: keys.insert(wi, cur_sep),
                                        children: mid[pp].children().insert(wi + 1, cur_child),
                                    }),
                                    ..mid[pp]
                                });
                            crate::node::lemma_valid_key_pos_unique(keys, wi, ki, cur_sep);
                            assert(self@ == pages0.update(pp, parent@));
                        }
                    }
                }
                proof {
                    if easy && !inserted {
                        assert(false);
                    }
                }
                return;
            }
            // the parent is at fan-out capacity: split it and promote the
            // median separator one level up
            proof {
                if easy {
                    assert(self@[cur_parent as int].num_cells >= MAX_CELLS);
                    assert(pages0[pp0 as int].wf());
                    assert(false);
                }
            }
            let new_page = np;
            let ghost mid = self@;
            let ghost pp = cur_parent as int;
            let ghost kids0 = mid[pp].children();
            let (median, mut right) = parent.split_internal(new_page);
            proof {
                let m = mid[pp].keys().len() as int / 2;
                assert(parent@.children() == kids0.subrange(0, m + 1));
                assert(right@.children() == kids0.subrange(m + 1, kids0.len() as int));
                lemma_subrange_drawn(kids0, 0, m + 1, cur_child);
                lemma_subrange_drawn(kids0, m + 1, kids0.len() as int, cur_child);
            }
            if cur_sep < median {
                let ghost before = parent@;
                let linked = parent.insert_separator(cur_sep, cur_child);
                proof {
                    if linked {
                        crate::node::lemma_lower_key_idx_bounds(before.keys(), cur_sep);
                        lemma_insert_drawn(
                            kids0,
                            before.children(),
                            lower_key_idx(before.keys(), cur_sep) + 1,
                            cur_child,
                        );
                    }
                }
            } else {
                let ghost before = right@;
                let linked = right.insert_separator(cur_sep, cur_child);
                proof {
                    if linked {
                        crate::node::lemma_lower_key_idx_bounds(before.keys(), cur_sep);
                        lemma_insert_drawn(
                            kids0,
                            before.children(),
                            lower_key_idx(before.keys(), cur_sep) + 1,
                            cur_child,
                        );
                    }
                }
            }
            proof {
                assert(drawn_from(kids0, parent@.children(), cur_child));
                assert(drawn_from(kids0, right@.children(), cur_child));
                assert(child_links_ok(mid, lv, pp));
                assert(parent_link_ok(mid, lv, cur_child as int));
            }
            if parent.is_root {
                proof {
                    if pp != 0 {
                        assert(!mid[pp].is_root);
                    }
                    assert(pp == 0);
                }
                let left_page = new_page + 1;
                parent.is_root = false;
                parent.page_num = left_page;
                parent.parent_offset = Some(0);
                right.parent_offset = Some(0);
                self.pager.commit_page(&right);
                self.pager.commit_page(&parent);
                let mut root_keys: Vec<usize> = Vec::new();
                root_keys.push(median);
                let mut root_children: Vec<usize> = Vec::new();
                root_children.push(left_page);
                root_children.push(new_page);
                let new_root = Node {
                    is_root: true,
                    node_type: NodeType::Internal { keys: root_keys, children: root_children },
                    parent_offset: None,
                    num_cells: 1,
                    page_num: 0,
                };
                self.pager.commit_page(&new_root);
                proof {
                    let lv0 = lv;
                    lv = lv.update(0, (lv0[0] + 1) as nat).push(lv0[0]).push(lv0[0]);
                    let now = self@;
                    let n = mid.len() as int;
                    assert(forall|t: int| 0 < t < n ==> lv[t] == lv0[t]);
                    assert(lv[0] == lv0[0] + 1 && lv[n] == lv0[0] && lv[n + 1] == lv0[0]);
                    assert(child_links_ok(mid, lv0, pp));
                    assert(parent_link_ok(mid, lv0, cur_child as int));
                    assert(now == mid.push(right@).push(parent@).update(0, new_root@));
                    assert(new_root@.wf()) by {
                        assert(new_root@.keys() =~= Seq::empty().push(median));
                        assert(new_root@.children() =~= Seq::empty().push(left_page).push(
                            new_page,
                        ));
                    }
                    assert(store_ok(now)) by {
                        assert forall|i: int|
                            1 <= i < now.len() implies (!(#[trigger] now[i]).is_root && now[i].parent
                            is Some) by {
                            if i < n {
                                assert(now[i] == mid[i]);
                            }
                        }
                        assert forall|i: int|
                            0 <= i < now.len() implies (#[trigger] now[i]).page_num == i
                            && now[i].wf() by {
                            if 0 < i < n {
                                assert(now[i] == mid[i]);
                            }
                        }
                    }
                    assert(levels_ok(now, lv)) by {
                        assert forall|i: int| 0 <= i < now.len() implies child_links_ok(
                            now,
                            lv,
                            i,
                        ) by {
                            if 0 < i < n {
                                assert(now[i] == mid[i]);
                                assert(child_links_ok(mid, lv0, i));
                                match mid[i].kind {
                                    NodeKindView::Internal { children, .. } => {
                                        assert forall|j: int| 0 <= j < children.len() implies {
                                            let c = #[trigger] children[j] as int;
                                            0 < c && c < now.len() && lv[c] < lv[i]
                                        } by {}
                                    },
                                    NodeKindView::Leaf { .. } => {},
                                }
                            } else if i == 0 {
                                assert(now[0].children() =~= Seq::empty().push(left_page).push(
                                    new_page,
                                ));
                            } else {
                                // the two fresh pages: their children are old
                                // children of the split root, or the pending child
                                let kids = now[i].children();
                                assert(drawn_from(kids0, kids, cur_child));
                                assert forall|j: int| 0 <= j < kids.len() implies {
                                    let c = #[trigger] kids[j] as int;
                                    0 < c && c < now.len() && lv[c] < lv[i]
                                } by {
                                    if kids0.contains(kids[j]) {
                                        let w = choose|w: int|
                                            0 <= w < kids0.len() && kids0[w] == kids[j];
                                        assert(kids0[w] == kids[j]);
                                    }
                                }
                            }
                        }
                        assert forall|i: int| 0 <= i < now.len() implies parent_link_ok(
                            now,
                            lv,
                            i,
                        ) by {
                            if 0 < i < n {
                                assert(now[i] == mid[i]);
                                assert(parent_link_ok(mid, lv0, i));
                                match mid[i].parent {
                                    Some(q) => {
                                        assert(!mid[q as int].is_leaf());
                                        if q as int != 0 {
                                            assert(now[q as int] == mid[q as int]);
                                        }
                                    },
                                    None => {},
                                }
                            }
                        }
                    }
                }
                let ghost pre1 = self@;
                self.fix_children(new_page);
                proof {
                    lemma_reparent_preserves(pre1, lv, new_page);
                }
                let ghost pre2 = self@;
                self.fix_children(left_page);
                proof {
                    lemma_reparent_preserves(pre2, lv, left_page);
                }
                return;
            } else {
                let gp = match parent.parent_offset {
                    Some(q) => q,
                    None => vstd::pervasive::unreached(),
                };
                proof {
                    assert(parent_link_ok(mid, lv, pp));
                }
                right.parent_offset = Some(gp);
                self.pager.commit_page(&parent);
                self.pager.commit_page(&right);
                proof {
                    let lv0 = lv;
                    lv = lv.push(lv0[pp]);
                    let now = self@;
                    let n = mid.len() as int;
                    assert(forall|t: int| 0 <= t < n ==> lv[t] == lv0[t]);
                    assert(lv[n] == lv0[pp]);
                    assert(child_links_ok(mid, lv0, pp));
                    assert(parent_link_ok(mid, lv0, cur_child as int));
                    assert(parent_link_ok(mid, lv0, pp));
                    assert(now == mid.update(pp, parent@).push(right@));
                    assert(store_ok(now)) by {
                        assert forall|i: int|
                            1 <= i < now.len() implies (!(#[trigger] now[i]).is_root && now[i].parent
                            is Some) by {
                            if i < n && i != pp {
                                assert(now[i] == mid[i]);
                            }
                        }
                        assert forall|i: int|
                            0 <= i < now.len() implies (#[trigger] now[i]).page_num == i
                            && now[i].wf() by {
                            if i < n && i != pp {
                                assert(now[i] == mid[i]);
                            }
                        }
                    }
                    assert(levels_ok(now, lv)) by {
                        assert forall|i: int| 0 <= i < now.len() implies child_links_ok(
                            now,
                            lv,
                            i,
                        ) by {
                            if i < n && i != pp {
                                assert(now[i] == mid[i]);
                                assert(child_links_ok(mid, lv0, i));
                                match mid[i].kind {
                                    NodeKindView::Internal { children, .. } => {
                                        assert forall|j: int| 0 <= j < children.len() implies {
                                            let c = #[trigger] children[j] as int;
                                            0 < c && c < now.len() && lv[c] < lv[i]
                                        } by {}
                                    },
                                    NodeKindView::Leaf { .. } => {},
                                }
                            } else {
                                let kids = now[i].children();
                                assert(drawn_from(kids0, kids, cur_child));
                                assert forall|j: int| 0 <= j < kids.len() implies {
                                    let c = #[trigger] kids[j] as int;
                                    0 < c && c < now.len() && lv[c] < lv[i]
                                } by {
                                    if kids0.contains(kids[j]) {
                                        let w = choose|w: int|
                                            0 <= w < kids0.len() && kids0[w] == kids[j];
                                        assert(kids0[w] == kids[j]);
                                    }
                                }
                            }
                        }
                        assert forall|i: int| 0 <= i < now.len() implies parent_link_ok(
                            now,
                            lv,
                            i,
                        ) by {
                            if i < n {
                                assert(now[i].parent == mid[i].parent);
                                assert(parent_link_ok(mid, lv0, i));
                                match mid[i].parent {
                                    Some(q) => {
                                        assert(!mid[q as int].is_leaf());
                                        if q as int != pp {
                                            assert(now[q as int] == mid[q as int]);
                                        }
                                    },
                                    None => {},
                                }
                            } else {
                                assert(now[i].parent == Some(gp));
                                assert(!mid[gp as int].is_leaf());
                                if gp as int != pp {
                                    assert(now[gp as int] == mid[gp as int]);
                                }
                            }
                        }
                    }
                }
                let ghost pre1 = self@;
                self.fix_children(new_page);
                proof {
                    lemma_reparent_preserves(pre1, lv, new_page);
                    // the fresh page is not among its own children, so its
                    // parent pointer survives the fix-up
                    assert(child_links_ok(pre1, lv, new_page as int));
                    if pre1[new_page as int].children().contains(new_page) {
                        let kk = pre1[new_page as int].children();
                        let w = choose|w: int| 0 <= w < kk.len() && kk[w] == new_page;
                        assert(kk[w] == new_page);
                        assert(lv[new_page as int] < lv[new_page as int]);
                    }
                    assert(self@[new_page as int].parent == Some(gp));
                }
                cur_sep = median;
                cur_child = new_page;
                cur_parent = gp;
            }
        }
    }
}

/// The store after an in-place insertion rewrote the leaf at `p`.
pub open spec fn leaf_replaced(pages: Seq<NodeView>, p: int, cells: Seq<KeyValuePair>) -> Seq<
    NodeView,
> {
    pages.update(
        p,
        (NodeView {
            num_cells: cells.len() as usize,
            kind: (NodeKindView::Leaf { cells }),
            ..pages[p]
        }),
    )
}

/// The lower half of a full leaf's cells after a split, with the new pair
/// routed to it when its key is at most the separator (the largest key of
/// the lower half).
pub open spec fn split_lower(cells: Seq<KeyValuePair>, pair: KeyValuePair) -> Seq<KeyValuePair> {
    let at = ((cells.len() + 1) / 2) as int;
    if pair.key <= cells[at - 1].key {
        sorted_insert(cells.take(at), pair)
    } else {
        cells.take(at)
    }
}

/// The upper half of a full leaf's cells after a split, with the new pair
/// routed to it when its key is above the separator.
pub open spec fn split_upper(cells: Seq<KeyValuePair>, pair: KeyValuePair) -> Seq<KeyValuePair> {
    let at = ((cells.len() + 1) / 2) as int;
    if pair.key <= cells[at - 1].key {
        cells.skip(at)
    } else {
        sorted_insert(cells.skip(at), pair)
    }
}

/// The exact store layout after the root leaf at page 0 splits: the upper
/// half moves to the next fresh page, the lower half to the one after it,
/// and page 0 becomes an internal root with the separator key and the two
/// fresh pages as its children.
pub open spec fn root_leaf_split(pages: Seq<NodeView>, pair: KeyValuePair) -> Seq<NodeView> {
    let cells = pages[0].cells();
    let at = ((cells.len() + 1) / 2) as int;
    let sep = cells[at - 1].key;
    let lower = split_lower(cells, pair);
    let upper = split_upper(cells, pair);
    let n = pages.len();
    pages.update(
        0,
        (NodeView {
            is_root: true,
            parent: None,
            num_cells: 1,
            page_num: 0,
            kind: (NodeKindView::Internal {
                keys: Seq::empty().push(sep),
                children: Seq::empty().push((n + 1) as usize).push(n as usize),
            }),
        }),
    ).push(
        (NodeView {
            is_root: false,
            parent: Some(0),
            num_cells: upper.len() as usize,
            page_num: n as usize,
            kind: (NodeKindView::Leaf { cells: upper }),
        }),
    ).push(
        (NodeView {
            is_root: false,
            parent: Some(0),
            num_cells: lower.len() as usize,
            page_num: (n + 1) as usize,
            kind: (NodeKindView::Leaf { cells: lower }),
        }),
    )
}

/// The exact store layout after a non-root leaf at `p` splits and its
/// parent — with room, and not yet holding the separator — records the new
/// sibling: the lower half stays at `p`, the upper half lands on the next
/// fresh page, and the parent gains the separator key with the sibling as
/// the child to its right.
pub open spec fn leaf_split_result(
    pages: Seq<NodeView>,
    p: int,
    pair: KeyValuePair,
    pp: usize,
) -> Seq<NodeView> {
    let cells = pages[p].cells();
    let at = ((cells.len() + 1) / 2) as int;
    let sep = cells[at - 1].key;
    let lower = split_lower(cells, pair);
    let upper = split_upper(cells, pair);
    let n = pages.len();
    let keys = pages[pp as int].keys();
    let ki = lower_key_idx(keys, sep);
    pages.update(
        p,
        (NodeView {
            num_cells: lower.len() as usize,
            kind: (NodeKindView::Leaf { cells: lower }),
            ..pages[p]
        }),
    ).push(
        (NodeView {
            is_root: false,
            parent: Some(pp),
            num_cells: upper.len() as usize,
            page_num: n as usize,
            kind: (NodeKindView::Leaf { cells: upper }),
        }),
    ).update(
        pp as int,
        (NodeView {
            num_cells: (pages[pp as int].num_cells + 1) as usize,
            kind: (NodeKindView::Internal {
                keys: keys.insert(ki, sep),
                children: pages[pp as int].children().insert(ki + 1, n as usize),
            }),
            ..pages[pp as int]
        }),
    )
}

impl BTree {
    /// Insert a record at a cursor previously produced by `find`.  A leaf
    /// with room takes the pair in place at the cursor's cell (refusing a
    /// position that would break the ordering).  A full leaf is split: the
    /// halves are committed, the separator is recorded in the parent —
    /// splitting full ancestors and promoting a fresh root as needed — and
    /// the pair lands in whichever half its key belongs to, unless the key
    /// is already present, which is refused.  Returns whether the requested
    /// record was placed.
    pub fn insert(&mut self, cursor: &Cursor, value: Row) -> (r: bool)
        requires
            old(self).wf(),
            (cursor.page_num as int) < old(self)@.len(),
            old(self)@[cursor.page_num as int].is_leaf(),
            old(self)@.len() < usize::MAX - 3,
        ensures
            final(self).wf(),
            ({
                let pages = old(self)@;
                let p = cursor.page_num as int;
                let cells = pages[p].cells();
                let key = value.id;
                let pair = (KeyValuePair { key: value.id, value });
                if cells.len() < MAX_CELLS {
                    if valid_pos(cells, cursor.cell_num as int, key) {
                        r && final(self)@ == leaf_replaced(
                            pages,
                            p,
                            cells.insert(cursor.cell_num as int, pair),
                        )
                    } else {
                        !r && final(self)@ == pages
                    }
                } else if has_key(cells, key) {
                    !r && final(self)@ == pages
                } else {
                    &&& r
                    &&& final(self)@.len() > pages.len()
                    &&& final(self)@[pages.len() as int].is_leaf()
                    &&& final(self)@[pages.len() as int].cells() == split_upper(cells, pair)
                    &&& if pages[p].is_root {
                        final(self)@ == root_leaf_split(pages, pair)
                    } else {
                        final(self)@[p].is_leaf() && final(self)@[p].cells() == split_lower(
                            cells,
                            pair,
                        )
                    }
                    &&& match pages[p].parent {
                        Some(pp) => {
                            let sep = cells[((cells.len() + 1) / 2 - 1) as int].key;
                            (pages[pp as int].keys().len() < MAX_CELLS && !pages[
                                pp as int
                            ].keys().contains(sep)) ==> final(self)@ == leaf_split_result(
                                pages,
                                p,
                                pair,
                                pp,
                            )
                        },
                        None => true,
                    }
                }
            }),
    {
        let ghost pages0 = self@;
        let ghost lv: Seq<nat> = choose|l: Seq<nat>| levels_ok(pages0, l);
        let page = cursor.page_num();
        let ghost p = page as int;
        let ghost cells = pages0[p].cells();
        let key = value.id;
        let ghost pair = (KeyValuePair { key: value.id, value });
        let mut node = self.pager.get_page(page);
        if node.num_cells < MAX_CELLS {
            let ok = node.insert(cursor.cell_num(), key, value);
            if ok {
                self.pager.commit_page(&node);
                proof {
                    let now = self@;
                    assert(now == pages0.update(p, node@));
                    assert(node@ =~= (NodeView {
                        num_cells: cells.insert(cursor.cell_num as int, pair).len() as usize,
                        kind: (NodeKindView::Leaf {
                            cells: cells.insert(cursor.cell_num as int, pair),
                        }),
                        ..pages0[p]
                    }));
                    assert(now == leaf_replaced(
                        pages0,
                        p,
                        cells.insert(cursor.cell_num as int, pair),
                    ));
                    assert(store_ok(now)) by {
                        assert forall|i: int|
                            1 <= i < now.len() implies (!(#[trigger] now[i]).is_root && now[i].parent
                            is Some) by {
                            assert(now[i].is_root == pages0[i].is_root);
                        }
                    }
                    assert(levels_ok(now, lv)) by {
                        assert forall|i: int| 0 <= i < now.len() implies child_links_ok(
                            now,
                            lv,
                            i,
                        ) by {
                            assert(child_links_ok(pages0, lv, i));
                            assert(now[i].kind is Internal ==> now[i].kind == pages0[i].kind);
                        }
                        assert forall|i: int| 0 <= i < now.len() implies parent_link_ok(
                            now,
                            lv,
                            i,
                        ) by {
                            assert(parent_link_ok(pages0, lv, i));
                            assert(now[i].parent == pages0[i].parent);
                            match pages0[i].parent {
                                Some(q) => {
                                    assert(now[q as int].is_leaf() == pages0[q as int].is_leaf());
                                },
                                None => {},
                            }
                        }
                    }
                }
            }
            return ok;
        }
        // the leaf is at capacity: a duplicate is refused outright, anything
        // else triggers the split protocol
        if node.contains_key(key) {
            return false;
        }
        let sib_page = self.pager.num_pages();
        let mut sib = node.split(sib_page);
        let sep = node.max_key();
        let ghost at = ((cells.len() + 1) / 2) as int;
        proof {
            assert(cells.len() == MAX_CELLS);
            assert(node@.cells() == cells.take(at));
            assert(sib@.cells() == cells.skip(at));
            assert(sep == cells[at - 1].key);
            assert(!has_key(cells.take(at), key)) by {
                if has_key(cells.take(at), key) {
                    let i = choose|i: int|
                        0 <= i < cells.take(at).len() && cells.take(at)[i].key == key;
                    assert(cells[i].key == key);
                }
            }
            assert(!has_key(cells.skip(at), key)) by {
                if has_key(cells.skip(at), key) {
                    let i = choose|i: int|
                        0 <= i < cells.skip(at).len() && cells.skip(at)[i].key == key;
                    assert(cells[i + at].key == key);
                }
            }
        }
        let placed = if key <= sep {
            node.insert_sorted(key, value)
        } else {
            sib.insert_sorted(key, value)
        };
        proof {
            assert(placed);
            assert(node@.cells() == split_lower(cells, pair));
            assert(sib@.cells() == split_upper(cells, pair));
        }
        if node.is_root {
            proof {
                if p != 0 {
                    assert(!pages0[p].is_root);
                }
                assert(p == 0);
            }
            let left_page = sib_page + 1;
            node.is_root = false;
            node.page_num = left_page;
            node.parent_offset = Some(0);
            sib.parent_offset = Some(0);
            self.pager.commit_page(&sib);
            self.pager.commit_page(&node);
            let mut root_keys: Vec<usize> = Vec::new();
            root_keys.push(sep);
            let mut root_children: Vec<usize> = Vec::new();
            root_children.push(left_page);
            root_children.push(sib_page);
            let new_root = Node {
                is_root: true,
                node_type: NodeType::Internal { keys: root_keys, children: root_children },
                parent_offset: None,
                num_cells: 1,
                page_num: 0,
            };
            self.pager.commit_page(&new_root);
            proof {
                let now = self@;
                let n = pages0.len() as int;
                assert(now =~= root_leaf_split(pages0, pair));
                assert(new_root@.wf()) by {
                    assert(new_root@.keys() =~= Seq::empty().push(sep));
                    assert(new_root@.children() =~= Seq::empty().push(left_page).push(sib_page));
                }
                assert(store_ok(now)) by {
                    assert forall|i: int|
                        1 <= i < now.len() implies (!(#[trigger] now[i]).is_root && now[i].parent
                        is Some) by {
                        if i < n {
                            assert(now[i] == pages0[i]);
                        }
                    }
                    assert forall|i: int|
                        0 <= i < now.len() implies (#[trigger] now[i]).page_num == i
                        && now[i].wf() by {
                        if 0 < i < n {
                            assert(now[i] == pages0[i]);
                        }
                    }
                }
                let lv2 = lv.update(0, (lv[0] + 1) as nat).push(lv[0]).push(lv[0]);
                assert(levels_ok(now, lv2)) by {
                    assert(forall|t: int| 0 < t < n ==> lv2[t] == lv[t]);
                    assert forall|i: int| 0 <= i < now.len() implies child_links_ok(
                        now,
                        lv2,
                        i,
                    ) by {
                        if 0 < i < n {
                            assert(now[i] == pages0[i]);
                            assert(child_links_ok(pages0, lv, i));
                            match pages0[i].kind {
                                NodeKindView::Internal { children, .. } => {
                                    assert forall|j: int| 0 <= j < children.len() implies {
                                        let c = #[trigger] children[j] as int;
                                        0 < c && c < now.len() && lv2[c] < lv2[i]
                                    } by {}
                                },
                                NodeKindView::Leaf { .. } => {},
                            }
                        } else if i == 0 {
                            assert(now[0].children() =~= Seq::empty().push(left_page).push(
                                sib_page,
                            ));
                        }
                    }
                    assert forall|i: int| 0 <= i < now.len() implies parent_link_ok(
                        now,
                        lv2,
                        i,
                    ) by {
                        if 0 < i < n {
                            assert(now[i] == pages0[i]);
                            assert(parent_link_ok(pages0, lv, i));
                            match pages0[i].parent {
                                Some(q) => {
                                    assert(!pages0[q as int].is_leaf());
                                    assert(q as int != 0);
                                    assert(now[q as int] == pages0[q as int]);
                                },
                                None => {},
                            }
                        }
                    }
                }
            }
            true
        } else {
            let pp = match node.parent_offset {
                Some(q) => q,
                None => vstd::pervasive::unreached(),
            };
            sib.parent_offset = Some(pp);
            self.pager.commit_page(&node);
            self.pager.commit_page(&sib);
            proof {
                let now = self@;
                let n = pages0.len() as int;
                assert(now == pages0.update(p, node@).push(sib@));
                assert(parent_link_ok(pages0, lv, p));
                assert(store_ok(now)) by {
                    assert forall|i: int|
                        1 <= i < now.len() implies (!(#[trigger] now[i]).is_root && now[i].parent
                        is Some) by {
                        if i < n && i != p {
                            assert(now[i] == pages0[i]);
                        }
                    }
                    assert forall|i: int|
                        0 <= i < now.len() implies (#[trigger] now[i]).page_num == i
                        && now[i].wf() by {
                        if i < n && i != p {
                            assert(now[i] == pages0[i]);
                        }
                    }
                }
                let lv2 = lv.push(lv[p]);
                assert(levels_ok(now, lv2)) by {
                    assert(forall|t: int| 0 <= t < n ==> lv2[t] == lv[t]);
                    assert forall|i: int| 0 <= i < now.len() implies child_links_ok(
                        now,
                        lv2,
                        i,
                    ) by {
                        assert(child_links_ok(pages0, lv, i) || i == n);
                        assert(now[i].kind is Internal ==> (i != p && i != n && now[i].kind
                            == pages0[i].kind));
                    }
                    assert forall|i: int| 0 <= i < now.len() implies parent_link_ok(
                        now,
                        lv2,
                        i,
                    ) by {
                        if i < n {
                            assert(parent_link_ok(pages0, lv, i));
                            assert(now[i].parent == pages0[i].parent);
                            match pages0[i].parent {
                                Some(q) => {
                                    assert(!pages0[q as int].is_leaf());
                                    assert(q as int != p);
                                    assert(now[q as int] == pages0[q as int]);
                                },
                                None => {},
                            }
                        } else {
                            assert(now[i].parent == Some(pp));
                            assert(!pages0[pp as int].is_leaf());
                            assert(pp as int != p);
                            assert(now[pp as int] == pages0[pp as int]);
                        }
                    }
                }
            }
            let ghost pre = self@;
            self.add_child(pp, sep, sib_page);
            proof {
                assert(self@[p].kind == pre[p].kind);
                assert(self@[sib_page as int].kind == pre[sib_page as int].kind);
                let keysp = pages0[pp as int].keys();
                if keysp.len() < MAX_CELLS && !keysp.contains(sep) {
                    assert(pre[pp as int] == pages0[pp as int]);
                    assert(self@ =~= leaf_split_result(pages0, p, pair, pp));
                }
            }
            true
        }
    }
}

/// Root invariant: in a well-formed tree exactly one page is marked as root
/// — page 0, which has no parent — and every other page has a parent.
pub proof fn lemma_single_root(t: BTree, i: int)
    requires
        t.wf(),
        0 <= i < t@.len(),
    ensures
        t@[0].is_root && t@[0].parent is None,
        i != 0 ==> !t@[i].is_root && t@[i].parent is Some,
{
}

/// Find/insert round trip at the tree level, for a tree whose root is a
/// leaf with room: take a missed search for a record's key, insert the
/// record at the reported cursor, and search again.  Any result the search
/// contract admits on the updated store is a hit, at the very cell the miss
/// reported, and the cell holds the record that was inserted.
pub proof fn lemma_find_insert_round_trip_tree(
    pages: Seq<NodeView>,
    miss: Cursor,
    r2: Result<Cursor, Cursor>,
    value: Row,
)
    requires
        store_ok(pages),
        pages[0].is_leaf(),
        pages[0].cells().len() < MAX_CELLS,
        miss.page_num == 0,
        find_post(pages, value.id, Err(miss)),
        find_post(
            leaf_replaced(
                pages,
                0,
                pages[0].cells().insert(miss.cell_num as int, (KeyValuePair { key: value.id, value })),
            ),
            value.id,
            r2,
        ),
        match r2 {
            Ok(c) => c.page_num == 0,
            Err(c) => c.page_num == 0,
        },
    ensures
        r2 is Ok,
        match r2 {
            Ok(c) => c.cell_num == miss.cell_num && leaf_replaced(
                pages,
                0,
                pages[0].cells().insert(miss.cell_num as int, (KeyValuePair { key: value.id, value })),
            )[0].cells()[c.cell_num as int].value == value,
            Err(_) => false,
        },
{
    let pair = (KeyValuePair { key: value.id, value });
    let cells = pages[0].cells();
    let i = miss.cell_num as int;
    let after = leaf_replaced(pages, 0, cells.insert(i, pair));
    assert(pages[0].wf());
    assert(ordered(cells));
    lemma_insert_preserves_order(cells, i, pair);
    assert(after[0].cells() == cells.insert(i, pair));
    assert(after[0].cells()[i] == pair);
    assert(has_key(after[0].cells(), value.id));
    match r2 {
        Ok(c) => {
            let j = c.cell_num as int;
            assert(after[0].cells()[j].key == value.id);
            if j < i {
                assert(after[0].cells()[j].key < after[0].cells()[i].key);
            }
            if j > i {
                assert(after[0].cells()[i].key < after[0].cells()[j].key);
            }
        },
        Err(_) => {
            assert(false);
        },
    }
}

/// Capacity invariant: no committed page of a well-formed tree ever holds
/// more than `MAX_CELLS` cells or separator keys.
pub proof fn lemma_committed_capacity(t: BTree, i: int)
    requires
        t.wf(),
        0 <= i < t@.len(),
    ensures
        t@[i].num_cells <= MAX_CELLS,
        t@[i].is_leaf() ==> t@[i].cells().len() <= MAX_CELLS,
        !t@[i].is_leaf() ==> t@[i].keys().len() <= MAX_CELLS,
{
    assert(t@[i].wf());
}

} // verus!
