use crate::row::Row;
use vstd::prelude::*;

verus! {

/// Capacity of one node: how many cells a fixed-size page can hold.
pub const MAX_CELLS: usize = 12;

/// Page number used by a leaf search to signal that the leaf is at capacity
/// and cannot accept an insertion: the caller must split it first.
pub const MAX_PAGE_SENTINEL: usize = usize::MAX;

/// One cell of a leaf: a key together with the record stored under it.
#[derive(Clone, Copy, Debug, PartialEq, Eq, Structural)]
pub struct KeyValuePair {
    pub key: usize,
    pub value: Row,
}

/// The payload of a node.  A leaf holds an ordered sequence of cells.  An
/// internal node holds `n` separator keys and `n + 1` child page numbers;
/// keys at most `keys[i]` belong to the subtree under `children[i]`, and
/// keys above the last separator belong to the last child.
pub enum NodeType {
    Internal { keys: Vec<usize>, children: Vec<usize> },
    Leaf(Vec<KeyValuePair>),
}

/// The in-memory decoded form of one page of the store.
pub struct Node {
    /// True only for the single page currently acting as the tree root.
    pub is_root: bool,
    pub node_type: NodeType,
    /// Page of this node's parent; absent only for the root.
    pub parent_offset: Option<usize>,
    /// Number of cells (leaf) or separator keys (internal) held.
    pub num_cells: usize,
    /// The page this node occupies in the page store.
    pub page_num: usize,
}

/// Mathematical model of a node's payload.
#[verifier::ext_equal]
pub ghost enum NodeKindView {
    Internal { keys: Seq<usize>, children: Seq<usize> },
    Leaf { cells: Seq<KeyValuePair> },
}

/// Mathematical model of a node.
#[verifier::ext_equal]
pub ghost struct NodeView {
    pub is_root: bool,
    pub parent: Option<usize>,
    pub num_cells: usize,
    pub page_num: usize,
    pub kind: NodeKindView,
}

impl View for Node {
    type V = NodeView;

    open spec fn view(&self) -> NodeView {
        NodeView {
            is_root: self.is_root,
            parent: self.parent_offset,
            num_cells: self.num_cells,
            page_num: self.page_num,
            kind: match self.node_type {
                NodeType::Leaf(cells) => NodeKindView::Leaf { cells: cells@ },
                NodeType::Internal { keys, children } => NodeKindView::Internal {
                    keys: keys@,
                    children: children@,
                },
            },
        }
    }
}

/// The cells are strictly increasing by key: ordered, and no duplicates.
pub open spec fn ordered(cells: Seq<KeyValuePair>) -> bool {
    forall|i: int, j: int| 0 <= i < j < cells.len() ==> cells[i].key < cells[j].key
}

/// A sequence of keys is strictly increasing.
pub open spec fn strictly_sorted(keys: Seq<usize>) -> bool {
    forall|i: int, j: int| 0 <= i < j < keys.len() ==> keys[i] < keys[j]
}

/// Some cell of `cells` holds `key`.
pub open spec fn has_key(cells: Seq<KeyValuePair>, key: usize) -> bool {
    exists|i: int| 0 <= i < cells.len() && cells[i].key == key
}

/// `i` is the unique index at which inserting a cell with key `key` keeps
/// `cells` strictly increasing: everything before is smaller, everything
/// from `i` on is larger.
pub open spec fn valid_pos(cells: Seq<KeyValuePair>, i: int, key: usize) -> bool {
    &&& 0 <= i <= cells.len()
    &&& forall|j: int| 0 <= j < i ==> cells[j].key < key
    &&& forall|j: int| i <= j < cells.len() ==> key < cells[j].key
}

/// Same for a plain key sequence: the order-preserving insertion index.
pub open spec fn valid_key_pos(keys: Seq<usize>, i: int, key: usize) -> bool {
    &&& 0 <= i <= keys.len()
    &&& forall|j: int| 0 <= j < i ==> keys[j] < key
    &&& forall|j: int| i <= j < keys.len() ==> key < keys[j]
}

/// The number of cells with keys below `key`; for an ordered sequence this
/// is the order-preserving insertion index.
pub open spec fn lower_idx(cells: Seq<KeyValuePair>, key: usize) -> int
    decreases cells.len(),
{
    if cells.len() == 0 {
        0
    } else if cells[0].key < key {
        1 + lower_idx(cells.subrange(1, cells.len() as int), key)
    } else {
        0
    }
}

/// `cells` with a new pair placed at its order-preserving position.
pub open spec fn sorted_insert(cells: Seq<KeyValuePair>, pair: KeyValuePair) -> Seq<KeyValuePair> {
    cells.insert(lower_idx(cells, pair.key), pair)
}

impl NodeView {
    pub open spec fn is_leaf(self) -> bool {
        self.kind is Leaf
    }

    pub open spec fn cells(self) -> Seq<KeyValuePair> {
        match self.kind {
            NodeKindView::Leaf { cells } => cells,
            NodeKindView::Internal { .. } => Seq::empty(),
        }
    }

    pub open spec fn keys(self) -> Seq<usize> {
        match self.kind {
            NodeKindView::Internal { keys, .. } => keys,
            NodeKindView::Leaf { .. } => Seq::empty(),
        }
    }

    pub open spec fn children(self) -> Seq<usize> {
        match self.kind {
            NodeKindView::Internal { children, .. } => children,
            NodeKindView::Leaf { .. } => Seq::empty(),
        }
    }

    /// Local well-formedness of one node: the cell count matches the payload
    /// and stays within capacity, and keys are strictly increasing.
    pub open spec fn wf(self) -> bool {
        match self.kind {
            NodeKindView::Leaf { cells } => {
                &&& self.num_cells == cells.len()
                &&& cells.len() <= MAX_CELLS
                &&& ordered(cells)
            },
            NodeKindView::Internal { keys, children } => {
                &&& self.num_cells == keys.len()
                &&& children.len() == keys.len() + 1
                &&& 1 <= keys.len() <= MAX_CELLS
                &&& strictly_sorted(keys)
            },
        }
    }
}

fn copy_cells(v: &Vec<KeyValuePair>) -> (r: Vec<KeyValuePair>)
    ensures
        r@ == v@,
{
    let mut r: Vec<KeyValuePair> = Vec::new();
    let mut i: usize = 0;
    while i < v.len()
        invariant
            i <= v@.len(),
            r@ == v@.subrange(0, i as int),
        decreases v@.len() - i,
    {
        r.push(v[i]);
        i = i + 1;
        proof {
            assert(r@ =~= v@.subrange(0, i as int));
        }
    }
    proof {
        assert(v@.subrange(0, v@.len() as int) =~= v@);
    }
    r
}

fn copy_page_nums(v: &Vec<usize>) -> (r: Vec<usize>)
    ensures
        r@ == v@,
{
    let mut r: Vec<usize> = Vec::new();
    let mut i: usize = 0;
    while i < v.len()
        invariant
            i <= v@.len(),
            r@ == v@.subrange(0, i as int),
        decreases v@.len() - i,
    {
        r.push(v[i]);
        i = i + 1;
        proof {
            assert(r@ =~= v@.subrange(0, i as int));
        }
    }
    proof {
        assert(v@.subrange(0, v@.len() as int) =~= v@);
    }
    r
}

impl Clone for Node {
    fn clone(&self) -> (r: Self)
        ensures
            r@ == self@,
    {
        let node_type = match &self.node_type {
            NodeType::Leaf(cells) => NodeType::Leaf(copy_cells(cells)),
            NodeType::Internal { keys, children } => NodeType::Internal {
                keys: copy_page_nums(keys),
                children: copy_page_nums(children),
            },
        };
        let r = Node {
            is_root: self.is_root,
            node_type,
            parent_offset: self.parent_offset,
            num_cells: self.num_cells,
            page_num: self.page_num,
        };
        proof {
            assert(r@ =~= self@);
        }
        r
    }
}

impl Node {
    /// An empty leaf: not root, no parent, no cells, page 0.
    pub fn leaf() -> (n: Node)
        ensures
            n@ == (NodeView {
                is_root: false,
                parent: None,
                num_cells: 0,
                page_num: 0,
                kind: (NodeKindView::Leaf { cells: Seq::empty() }),
            }),
    {
        let n = Node {
            is_root: false,
            node_type: NodeType::Leaf(Vec::new()),
            parent_offset: None,
            num_cells: 0,
            page_num: 0,
        };
        proof {
            assert(n@ =~= (NodeView {
                is_root: false,
                parent: None,
                num_cells: 0,
                page_num: 0,
                kind: (NodeKindView::Leaf { cells: Seq::empty() }),
            }));
        }
        n
    }

    /// A leaf pre-populated from a cell sequence; used to build the upper
    /// half of a split.  The cell count is set to the sequence's length.
    pub fn leaf_with_children(children: Vec<KeyValuePair>) -> (n: Node)
        ensures
            n@ == (NodeView {
                is_root: false,
                parent: None,
                num_cells: children@.len() as usize,
                page_num: 0,
                kind: (NodeKindView::Leaf { cells: children@ }),
            }),
    {
        let num_cells = children.len();
        Node {
            is_root: false,
            node_type: NodeType::Leaf(children),
            parent_offset: None,
            num_cells,
            page_num: 0,
        }
    }

    /// An empty internal node, to be populated by the caller before commit.
    pub fn internal() -> (n: Node)
        ensures
            n@ == (NodeView {
                is_root: false,
                parent: None,
                num_cells: 0,
                page_num: 0,
                kind: (NodeKindView::Internal { keys: Seq::empty(), children: Seq::empty() }),
            }),
    {
        let n = Node {
            is_root: false,
            node_type: NodeType::Internal { keys: Vec::new(), children: Vec::new() },
            parent_offset: None,
            num_cells: 0,
            page_num: 0,
        };
        proof {
            assert(n@ =~= (NodeView {
                is_root: false,
                parent: None,
                num_cells: 0,
                page_num: 0,
                kind: (NodeKindView::Internal { keys: Seq::empty(), children: Seq::empty() }),
            }));
        }
        n
    }

    /// Whether this node is a leaf.
    pub fn is_leaf(&self) -> (b: bool)
        ensures
            b == self@.is_leaf(),
    {
        match &self.node_type {
            NodeType::Leaf(_) => true,
            NodeType::Internal { .. } => false,
        }
    }

    /// The cell at `cell_num` of a leaf, or nothing when out of range or
    /// when this node is internal.
    pub fn get(&self, cell_num: usize) -> (r: Option<KeyValuePair>)
        ensures
            r == (if self@.is_leaf() && (cell_num as int) < self@.cells().len() {
                Some(self@.cells()[cell_num as int])
            } else {
                None::<KeyValuePair>
            }),
    {
        match &self.node_type {
            NodeType::Leaf(cells) => {
                if cell_num < cells.len() {
                    Some(cells[cell_num])
                } else {
                    None
                }
            },
            NodeType::Internal { .. } => None,
        }
    }

    /// The largest key of a leaf: the key of its last cell.
    pub fn max_key(&self) -> (k: usize)
        requires
            self@.is_leaf(),
            self@.cells().len() > 0,
        ensures
            k == self@.cells().last().key,
    {
        match &self.node_type {
            NodeType::Leaf(cells) => cells[cells.len() - 1].key,
            NodeType::Internal { .. } => vstd::pervasive::unreached(),
        }
    }

    /// Ordered insertion into a leaf with room: places the pair at
    /// `cell_num`, shifting later cells.  Refuses (returns false, changing
    /// nothing) when the leaf is at capacity, when `cell_num` is not the
    /// order-preserving position for `key`, or on an internal node.
    pub fn insert(&mut self, cell_num: usize, key: usize, value: Row) -> (r: bool)
        requires
            old(self)@.wf(),
        ensures
            final(self)@.wf(),
            r == (old(self)@.is_leaf() && old(self)@.cells().len() < MAX_CELLS && valid_pos(
                old(self)@.cells(),
                cell_num as int,
                key,
            )),
            r ==> final(self)@ == (NodeView {
                num_cells: (old(self)@.num_cells + 1) as usize,
                kind: (NodeKindView::Leaf {
                    cells: old(self)@.cells().insert(cell_num as int, (KeyValuePair { key, value })),
                }),
                ..old(self)@
            }),
            !r ==> final(self)@ == old(self)@,
    {
        let ghost pre = self@;
        match &mut self.node_type {
            NodeType::Leaf(cells) => {
                if cells.len() >= MAX_CELLS {
                    return false;
                }
                if cell_num > cells.len() {
                    return false;
                }
                if cell_num > 0 && cells[cell_num - 1].key >= key {
                    return false;
                }
                if cell_num < cells.len() && cells[cell_num].key <= key {
                    return false;
                }
                proof {
                    assert forall|j: int| 0 <= j < cell_num implies pre.cells()[j].key < key by {
                        if j < cell_num - 1 {
                            assert(pre.cells()[j].key < pre.cells()[cell_num - 1].key);
                        }
                    }
                    assert forall|j: int|
                        cell_num <= j < pre.cells().len() implies key < pre.cells()[j].key by {
                        if j > cell_num {
                            assert(pre.cells()[cell_num as int].key < pre.cells()[j].key);
                        }
                    }
                    lemma_insert_preserves_order(
                        pre.cells(),
                        cell_num as int,
                        (KeyValuePair { key, value }),
                    );
                }
                cells.insert(cell_num, KeyValuePair { key, value });
                self.num_cells = self.num_cells + 1;
                proof {
                    assert(self@ =~= (NodeView {
                        num_cells: (pre.num_cells + 1) as usize,
                        kind: (NodeKindView::Leaf {
                            cells: pre.cells().insert(cell_num as int, (KeyValuePair { key, value })),
                        }),
                        ..pre
                    }));
                }
                true
            },
            NodeType::Internal { .. } => false,
        }
    }

    /// Binary search of a leaf.  A hit returns `Ok((page, cell))`.  A miss on
    /// a leaf with room returns `Err((page, i))` where `i` is the
    /// order-preserving insertion index; a miss on a full leaf returns the
    /// sentinel `Err((MAX_PAGE_SENTINEL, 0))`: the caller must split first.
    pub fn find(&self, key: usize) -> (r: Result<(usize, usize), (usize, usize)>)
        requires
            self@.wf(),
            self@.is_leaf(),
        ensures
            ({
                let cells = self@.cells();
                match r {
                    Ok((p, c)) => {
                        &&& p == self@.page_num
                        &&& (c as int) < cells.len()
                        &&& cells[c as int].key == key
                    },
                    Err((p, c)) => {
                        &&& !has_key(cells, key)
                        &&& if cells.len() >= MAX_CELLS {
                            p == MAX_PAGE_SENTINEL && c == 0
                        } else {
                            p == self@.page_num && valid_pos(cells, c as int, key)
                        }
                    },
                }
            }),
    {
        match &self.node_type {
            NodeType::Leaf(cells) => {
                let mut lo: usize = 0;
                let mut hi: usize = cells.len();
                while lo < hi
                    invariant
                        lo <= hi <= cells@.len(),
                        cells@ == self@.cells(),
                        ordered(cells@),
                        forall|j: int| 0 <= j < lo ==> cells@[j].key < key,
                        forall|j: int| hi <= j < cells@.len() ==> key <= cells@[j].key,
                    decreases hi - lo,
                {
                    let mid = lo + (hi - lo) / 2;
                    if cells[mid].key < key {
                        lo = mid + 1;
                    } else {
                        hi = mid;
                    }
                }
                if lo < cells.len() && cells[lo].key == key {
                    Ok((self.page_num, lo))
                } else {
                    proof {
                        assert forall|j: int|
                            0 <= j < cells@.len() implies cells@[j].key != key by {
                            if j >= lo && j > lo {
                                assert(cells@[lo as int].key < cells@[j].key);
                            }
                        }
                    }
                    if cells.len() >= MAX_CELLS {
                        Err((MAX_PAGE_SENTINEL, 0))
                    } else {
                        proof {
                            assert forall|j: int|
                                lo <= j < cells@.len() implies key < cells@[j].key by {
                                if j > lo {
                                    assert(cells@[lo as int].key < cells@[j].key);
                                }
                            }
                        }
                        Err((self.page_num, lo))
                    }
                }
            },
            NodeType::Internal { .. } => vstd::pervasive::unreached(),
        }
    }

    /// Whether a leaf holds `key`.
    pub fn contains_key(&self, key: usize) -> (b: bool)
        requires
            self@.wf(),
            self@.is_leaf(),
        ensures
            b == has_key(self@.cells(), key),
    {
        self.find(key).is_ok()
    }

    /// Ordered insertion without a caller-supplied position: searches for
    /// the order-preserving index and inserts there.  Refuses duplicates and
    /// full leaves.
    pub fn insert_sorted(&mut self, key: usize, value: Row) -> (r: bool)
        requires
            old(self)@.wf(),
            old(self)@.is_leaf(),
        ensures
            final(self)@.wf(),
            r == (!has_key(old(self)@.cells(), key) && old(self)@.cells().len() < MAX_CELLS),
            r ==> final(self)@ == (NodeView {
                num_cells: (old(self)@.num_cells + 1) as usize,
                kind: (NodeKindView::Leaf {
                    cells: sorted_insert(old(self)@.cells(), (KeyValuePair { key, value })),
                }),
                ..old(self)@
            }),
            !r ==> final(self)@ == old(self)@,
    {
        let ghost pre = self@;
        match self.find(key) {
            Ok(_) => false,
            Err((_, c)) => {
                if self.num_cells >= MAX_CELLS {
                    false
                } else {
                    proof {
                        lemma_lower_idx_valid(pre.cells(), key);
                        lemma_valid_pos_unique(
                            pre.cells(),
                            c as int,
                            lower_idx(pre.cells(), key),
                            key,
                        );
                    }
                    self.insert(c, key, value)
                }
            },
        }
    }

    /// Leaf split: keeps the lower half (the extra cell, for an odd count)
    /// and moves the upper half to a fresh leaf at `new_page_num`, which
    /// starts as non-root with no parent.
    pub fn split(&mut self, new_page_num: usize) -> (n: Node)
        requires
            old(self)@.wf(),
            old(self)@.is_leaf(),
        ensures
            final(self)@.wf(),
            n@.wf(),
            ({
                let cells = old(self)@.cells();
                let at = ((cells.len() + 1) / 2) as int;
                &&& final(self)@ == (NodeView {
                    num_cells: at as usize,
                    kind: (NodeKindView::Leaf { cells: cells.take(at) }),
                    ..old(self)@
                })
                &&& n@ == (NodeView {
                    is_root: false,
                    parent: None,
                    num_cells: (cells.len() - at) as usize,
                    page_num: new_page_num,
                    kind: (NodeKindView::Leaf { cells: cells.skip(at) }),
                })
            }),
    {
        let ghost pre = self@;
        match &mut self.node_type {
            NodeType::Leaf(cells) => {
                let at = (cells.len() + 1) / 2;
                let upper = cells.split_off(at);
                let num_upper = upper.len();
                self.num_cells = at;
                let n = Node {
                    is_root: false,
                    node_type: NodeType::Leaf(upper),
                    parent_offset: None,
                    num_cells: num_upper,
                    page_num: new_page_num,
                };
                proof {
                    let atg = ((pre.cells().len() + 1) / 2) as int;
                    assert(self@ =~= (NodeView {
                        num_cells: atg as usize,
                        kind: (NodeKindView::Leaf { cells: pre.cells().take(atg) }),
                        ..pre
                    }));
                    assert(n@ =~= (NodeView {
                        is_root: false,
                        parent: None,
                        num_cells: (pre.cells().len() - atg) as usize,
                        page_num: new_page_num,
                        kind: (NodeKindView::Leaf { cells: pre.cells().skip(atg) }),
                    }));
                }
                n
            },
            NodeType::Internal { .. } => vstd::pervasive::unreached(),
        }
    }

    /// Routing step of an internal node: the child page whose key range
    /// contains `key`.  Keys at most `keys[i]` route to `children[i]`; keys
    /// above every separator route to the last child.
    pub fn child_for(&self, key: usize) -> (c: usize)
        requires
            self@.wf(),
            !self@.is_leaf(),
        ensures
            ({
                let keys = self@.keys();
                let children = self@.children();
                exists|i: int|
                    {
                        &&& 0 <= i <= keys.len()
                        &&& forall|j: int| 0 <= j < i ==> keys[j] < key
                        &&& (i < keys.len() ==> key <= keys[i])
                        &&& c == #[trigger] children[i]
                    }
            }),
            self@.children().contains(c),
    {
        match &self.node_type {
            NodeType::Internal { keys, children } => {
                let mut lo: usize = 0;
                let mut hi: usize = keys.len();
                while lo < hi
                    invariant
                        lo <= hi <= keys@.len(),
                        keys@ == self@.keys(),
                        strictly_sorted(keys@),
                        forall|j: int| 0 <= j < lo ==> keys@[j] < key,
                        forall|j: int| hi <= j < keys@.len() ==> key <= keys@[j],
                    decreases hi - lo,
                {
                    let mid = lo + (hi - lo) / 2;
                    if keys[mid] < key {
                        lo = mid + 1;
                    } else {
                        hi = mid;
                    }
                }
                let c = children[lo];
                proof {
                    assert(c == self@.children()[lo as int]);
                    assert(self@.children().contains(c));
                }
                c
            },
            NodeType::Leaf(_) => vstd::pervasive::unreached(),
        }
    }

    /// Separator insertion into an internal node: places `key` at its
    /// order-preserving position among the separators and `child` directly
    /// to its right among the child pages.  Refuses duplicates and nodes at
    /// capacity.
    pub fn insert_separator(&mut self, key: usize, child: usize) -> (r: bool)
        requires
            old(self)@.wf(),
            !old(self)@.is_leaf(),
        ensures
            final(self)@.wf(),
            !final(self)@.is_leaf(),
            r == (!old(self)@.keys().contains(key) && old(self)@.keys().len() < MAX_CELLS),
            r ==> (exists|i: int|
                {
                    &&& #[trigger] valid_key_pos(old(self)@.keys(), i, key)
                    &&& final(self)@ == (NodeView {
                        num_cells: (old(self)@.num_cells + 1) as usize,
                        kind: (NodeKindView::Internal {
                            keys: old(self)@.keys().insert(i, key),
                            children: old(self)@.children().insert(i + 1, child),
                        }),
                        ..old(self)@
                    })
                }),
            r ==> final(self)@.children() == old(self)@.children().insert(
                (lower_key_idx(old(self)@.keys(), key) + 1) as int,
                child,
            ),
            !r ==> final(self)@ == old(self)@,
    {
        let ghost pre = self@;
        match &mut self.node_type {
            NodeType::Internal { keys, children } => {
                if keys.len() >= MAX_CELLS {
                    return false;
                }
                let mut lo: usize = 0;
                let mut hi: usize = keys.len();
                while lo < hi
                    invariant
                        lo <= hi <= keys@.len(),
                        keys@ == pre.keys(),
                        strictly_sorted(keys@),
                        forall|j: int| 0 <= j < lo ==> keys@[j] < key,
                        forall|j: int| hi <= j < keys@.len() ==> key <= keys@[j],
                    decreases hi - lo,
                {
                    let mid = lo + (hi - lo) / 2;
                    if keys[mid] < key {
                        lo = mid + 1;
                    } else {
                        hi = mid;
                    }
                }
                if lo < keys.len() && keys[lo] == key {
                    proof {
                        assert(pre.keys().contains(key));
                    }
                    return false;
                }
                proof {
                    assert forall|j: int| lo <= j < keys@.len() implies key < keys@[j] by {
                        if j > lo {
                            assert(keys@[lo as int] < keys@[j]);
                        }
                    }
                    assert(valid_key_pos(pre.keys(), lo as int, key));
                    assert(!pre.keys().contains(key)) by {
                        if pre.keys().contains(key) {
                            let w = choose|w: int|
                                0 <= w < pre.keys().len() && pre.keys()[w] == key;
                            assert(pre.keys()[w] == key);
                        }
                    }
                    lemma_key_insert_preserves_sorted(pre.keys(), lo as int, key);
                    lemma_lower_key_idx_valid(pre.keys(), key);
                    lemma_valid_key_pos_unique(
                        pre.keys(),
                        lo as int,
                        lower_key_idx(pre.keys(), key),
                        key,
                    );
                }
                keys.insert(lo, key);
                children.insert(lo + 1, child);
                self.num_cells = self.num_cells + 1;
                proof {
                    assert(self@ =~= (NodeView {
                        num_cells: (pre.num_cells + 1) as usize,
                        kind: (NodeKindView::Internal {
                            keys: pre.keys().insert(lo as int, key),
                            children: pre.children().insert(lo as int + 1, child),
                        }),
                        ..pre
                    }));
                }
                true
            },
            NodeType::Leaf(_) => vstd::pervasive::unreached(),
        }
    }

    /// Internal split: keeps the separators below the median, moves those
    /// above it (with their children) to a fresh node at `new_page_num`, and
    /// hands the median key back to be promoted one level up.
    pub fn split_internal(&mut self, new_page_num: usize) -> (r: (usize, Node))
        requires
            old(self)@.wf(),
            !old(self)@.is_leaf(),
            old(self)@.keys().len() >= 3,
        ensures
            final(self)@.wf(),
            r.1@.wf(),
            ({
                let keys = old(self)@.keys();
                let children = old(self)@.children();
                let m = (keys.len() / 2) as int;
                &&& r.0 == keys[m]
                &&& final(self)@ == (NodeView {
                    num_cells: m as usize,
                    kind: (NodeKindView::Internal {
                        keys: keys.take(m),
                        children: children.take(m + 1),
                    }),
                    ..old(self)@
                })
                &&& r.1@ == (NodeView {
                    is_root: false,
                    parent: None,
                    num_cells: (keys.len() - m - 1) as usize,
                    page_num: new_page_num,
                    kind: (NodeKindView::Internal {
                        keys: keys.skip(m + 1),
                        children: children.skip(m + 1),
                    }),
                })
            }),
    {
        let ghost pre = self@;
        match &mut self.node_type {
            NodeType::Internal { keys, children } => {
                let m = keys.len() / 2;
                let median = keys[m];
                let right_keys = keys.split_off(m + 1);
                keys.truncate(m);
                let right_children = children.split_off(m + 1);
                self.num_cells = m;
                let num_right = right_keys.len();
                let n = Node {
                    is_root: false,
                    node_type: NodeType::Internal { keys: right_keys, children: right_children },
                    parent_offset: None,
                    num_cells: num_right,
                    page_num: new_page_num,
                };
                proof {
                    let mg = (pre.keys().len() / 2) as int;
                    assert(pre.keys().subrange(0, mg + 1).subrange(0, mg) =~= pre.keys().take(mg));
                    assert(self@ =~= (NodeView {
                        num_cells: mg as usize,
                        kind: (NodeKindView::Internal {
                            keys: pre.keys().take(mg),
                            children: pre.children().take(mg + 1),
                        }),
                        ..pre
                    }));
                    assert(n@ =~= (NodeView {
                        is_root: false,
                        parent: None,
                        num_cells: (pre.keys().len() - mg - 1) as usize,
                        page_num: new_page_num,
                        kind: (NodeKindView::Internal {
                            keys: pre.keys().skip(mg + 1),
                            children: pre.children().skip(mg + 1),
                        }),
                    }));
                }
                (median, n)
            },
            NodeType::Leaf(_) => vstd::pervasive::unreached(),
        }
    }
}

/// The number of separator keys below `key`.
pub open spec fn lower_key_idx(keys: Seq<usize>, key: usize) -> int
    decreases keys.len(),
{
    if keys.len() == 0 {
        0
    } else if keys[0] < key {
        1 + lower_key_idx(keys.subrange(1, keys.len() as int), key)
    } else {
        0
    }
}

/// The count of keys below `key` never exceeds the number of keys.
pub proof fn lemma_lower_key_idx_bounds(keys: Seq<usize>, key: usize)
    ensures
        0 <= lower_key_idx(keys, key) <= keys.len(),
    decreases keys.len(),
{
    if keys.len() > 0 && keys[0] < key {
        lemma_lower_key_idx_bounds(keys.subrange(1, keys.len() as int), key);
    }
}

/// For strictly sorted keys not containing `key`, `lower_key_idx` is the
/// order-preserving insertion index.
pub proof fn lemma_lower_key_idx_valid(keys: Seq<usize>, key: usize)
    requires
        strictly_sorted(keys),
        !keys.contains(key),
    ensures
        valid_key_pos(keys, lower_key_idx(keys, key), key),
    decreases keys.len(),
{
    if keys.len() > 0 {
        let rest = keys.subrange(1, keys.len() as int);
        if keys[0] < key {
            assert(strictly_sorted(rest));
            assert(!rest.contains(key)) by {
                if rest.contains(key) {
                    let i = choose|i: int| 0 <= i < rest.len() && rest[i] == key;
                    assert(keys[i + 1] == key);
                    assert(keys.contains(key));
                }
            }
            lemma_lower_key_idx_valid(rest, key);
            let r = lower_key_idx(rest, key);
            assert forall|j: int| 0 <= j < r + 1 implies keys[j] < key by {
                if j > 0 {
                    assert(rest[j - 1] < key);
                }
            }
            assert forall|j: int| r + 1 <= j < keys.len() implies key < keys[j] by {
                assert(key < rest[j - 1]);
            }
        } else {
            assert(keys[0] != key) by {
                if keys[0] == key {
                    assert(keys.contains(key));
                }
            }
            assert forall|j: int| 0 <= j < keys.len() implies key < keys[j] by {
                if j > 0 {
                    assert(keys[0] < keys[j]);
                }
            }
        }
    }
}

/// At most one position among sorted keys preserves the order.
pub proof fn lemma_valid_key_pos_unique(keys: Seq<usize>, i: int, j: int, key: usize)
    requires
        valid_key_pos(keys, i, key),
        valid_key_pos(keys, j, key),
    ensures
        i == j,
{
    if i < j {
        assert(keys[i] < key && key < keys[i]);
    }
    if j < i {
        assert(keys[j] < key && key < keys[j]);
    }
}

/// Placing a key at its order-preserving position keeps keys sorted.
pub proof fn lemma_key_insert_preserves_sorted(keys: Seq<usize>, i: int, key: usize)
    requires
        strictly_sorted(keys),
        valid_key_pos(keys, i, key),
    ensures
        strictly_sorted(keys.insert(i, key)),
{
    let s = keys.insert(i, key);
    assert forall|a: int, b: int| 0 <= a < b < s.len() implies s[a] < s[b] by {
        if a < i {
            assert(s[a] == keys[a]);
        } else if a == i {
            assert(s[a] == key);
        } else {
            assert(s[a] == keys[a - 1]);
        }
        if b < i {
            assert(s[b] == keys[b]);
        } else if b == i {
            assert(s[b] == key);
        } else {
            assert(s[b] == keys[b - 1]);
        }
    }
}

/// Ordering is kept by every order-preserving insertion: the heart of the
/// leaf invariant.
pub proof fn lemma_insert_preserves_order(cells: Seq<KeyValuePair>, i: int, pair: KeyValuePair)
    requires
        ordered(cells),
        valid_pos(cells, i, pair.key),
    ensures
        ordered(cells.insert(i, pair)),
{
    let s = cells.insert(i, pair);
    assert forall|a: int, b: int| 0 <= a < b < s.len() implies s[a].key < s[b].key by {
        if a < i {
            assert(s[a] == cells[a]);
        } else if a == i {
            assert(s[a] == pair);
        } else {
            assert(s[a] == cells[a - 1]);
        }
        if b < i {
            assert(s[b] == cells[b]);
        } else if b == i {
            assert(s[b] == pair);
        } else {
            assert(s[b] == cells[b - 1]);
        }
    }
}

/// Split tie-break: the two halves partition the cells in order; they are
/// equal in size for an even count, and the lower half holds exactly one
/// more cell for an odd count.
pub proof fn lemma_split_balance(cells: Seq<KeyValuePair>)
    ensures
        ({
            let at = ((cells.len() + 1) / 2) as int;
            &&& cells.take(at) + cells.skip(at) == cells
            &&& (cells.len() % 2 == 0 ==> cells.take(at).len() == cells.skip(at).len())
            &&& (cells.len() % 2 == 1 ==> cells.take(at).len() == cells.skip(at).len() + 1)
        }),
{
    let at = ((cells.len() + 1) / 2) as int;
    assert(cells.take(at) + cells.skip(at) =~= cells);
}

/// Find/insert round trip at the cell level: a missing key inserted at the
/// position a missed search reports is found afterwards at exactly that
/// position, carrying the record that was stored with it.
pub proof fn lemma_find_insert_round_trip(cells: Seq<KeyValuePair>, pair: KeyValuePair)
    requires
        ordered(cells),
        !has_key(cells, pair.key),
    ensures
        ({
            let after = sorted_insert(cells, pair);
            let i = lower_idx(cells, pair.key);
            &&& ordered(after)
            &&& valid_pos(cells, i, pair.key)
            &&& 0 <= i < after.len()
            &&& after[i] == pair
            &&& has_key(after, pair.key)
            &&& forall|j: int| 0 <= j < after.len() && after[j].key == pair.key ==> j == i
        }),
{
    lemma_lower_idx_valid(cells, pair.key);
    lemma_insert_preserves_order(cells, lower_idx(cells, pair.key), pair);
    let after = sorted_insert(cells, pair);
    let i = lower_idx(cells, pair.key);
    assert(after[i] == pair);
    assert forall|j: int| 0 <= j < after.len() && after[j].key == pair.key implies j == i by {
        if j < i {
            assert(after[j].key < after[i].key);
        }
        if j > i {
            assert(after[i].key < after[j].key);
        }
    }
}

/// At most one position preserves the order, so a valid position is unique.
pub proof fn lemma_valid_pos_unique(cells: Seq<KeyValuePair>, i: int, j: int, key: usize)
    requires
        valid_pos(cells, i, key),
        valid_pos(cells, j, key),
    ensures
        i == j,
{
    if i < j {
        assert(cells[i].key < key && key < cells[i].key);
    }
    if j < i {
        assert(cells[j].key < key && key < cells[j].key);
    }
}

/// For ordered cells without the key, `lower_idx` is the valid position.
pub proof fn lemma_lower_idx_valid(cells: Seq<KeyValuePair>, key: usize)
    requires
        ordered(cells),
        !has_key(cells, key),
    ensures
        valid_pos(cells, lower_idx(cells, key), key),
    decreases cells.len(),
{
    if cells.len() > 0 {
        let rest = cells.subrange(1, cells.len() as int);
        if cells[0].key < key {
            assert(ordered(rest));
            assert(!has_key(rest, key)) by {
                if has_key(rest, key) {
                    let i = choose|i: int| 0 <= i < rest.len() && rest[i].key == key;
                    assert(cells[i + 1].key == key);
                }
            }
            lemma_lower_idx_valid(rest, key);
            let r = lower_idx(rest, key);
            assert forall|j: int| 0 <= j < r + 1 implies cells[j].key < key by {
                if j > 0 {
                    assert(rest[j - 1].key < key);
                }
            }
            assert forall|j: int| r + 1 <= j < cells.len() implies key < cells[j].key by {
                assert(key < rest[j - 1].key);
            }
        } else {
            assert(cells[0].key != key);
            assert forall|j: int| 0 <= j < cells.len() implies key < cells[j].key by {
                if j > 0 {
                    assert(cells[0].key < cells[j].key);
                }
            }
        }
    }
}

} // verus!
