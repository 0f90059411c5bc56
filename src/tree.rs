use vstd::prelude::*;

verus! {

/// Number of distinct byte symbols.
pub const SYMBOLS: usize = 256;

/// Symbol tag of the not-yet-transmitted leaf.
pub const NYT: u16 = 256;

/// Symbol tag of an internal node.
pub const INTERNAL_NODE: u16 = 257;

/// One node of the code tree, held in an arena and linked by indices.
#[derive(Clone, Copy)]
pub struct Node {
    pub left: Option<usize>,
    pub right: Option<usize>,
    pub parent: Option<usize>,
    /// Neighbour of higher (or equal) weight in the weight-ordered list.
    pub next: Option<usize>,
    /// Neighbour of lower (or equal) weight in the weight-ordered list.
    pub prev: Option<usize>,
    /// Index of the cell that names the leader of this node's weight block.
    pub head: usize,
    pub weight: u32,
    pub symbol: u16,
}

/// The whole state of an adaptive code tree.
pub ghost struct TreeState {
    pub nodes: Seq<Node>,
    /// Block-leader cells: each holds the index of the last node of a block.
    pub cells: Seq<usize>,
    /// Cells released for reuse.
    pub free: Seq<usize>,
    /// The leaf of each byte value, once it has been seen.
    pub loc: Seq<Option<usize>>,
    pub root: usize,
    /// The not-yet-transmitted leaf, always the front of the list.
    pub nyt: usize,
}

pub open spec fn link_ok(o: Option<usize>, len: nat) -> bool {
    match o {
        Some(i) => i < len,
        None => true,
    }
}

pub open spec fn node_ok(n: Node, len: nat, clen: nat) -> bool {
    &&& link_ok(n.left, len)
    &&& link_ok(n.right, len)
    &&& link_ok(n.parent, len)
    &&& link_ok(n.next, len)
    &&& link_ok(n.prev, len)
    &&& n.head < clen
}

/// How many of the first `k` byte values have a leaf.
pub open spec fn seen_count(loc: Seq<Option<usize>>, k: int) -> nat
    decreases k,
{
    if k <= 0 {
        0
    } else {
        seen_count(loc, k - 1) + if loc[k - 1] is Some {
            1nat
        } else {
            0nat
        }
    }
}

/// Every index stored in the state points into the arena or the cell table,
/// and the arena holds one node plus two for each byte value seen.
pub open spec fn wf(s: TreeState) -> bool {
    &&& s.loc.len() == SYMBOLS
    &&& s.nodes.len() == 1 + 2 * seen_count(s.loc, SYMBOLS as int)
    &&& s.root < s.nodes.len()
    &&& s.nyt < s.nodes.len()
    &&& forall|i: int| 0 <= i < s.nodes.len() ==> #[trigger] node_ok(s.nodes[i], s.nodes.len(), s.cells.len())
    &&& forall|c: int| 0 <= c < s.cells.len() ==> #[trigger] s.cells[c] < s.nodes.len()
    &&& forall|k: int| 0 <= k < s.free.len() ==> #[trigger] s.free[k] < s.cells.len()
    &&& forall|k: int| 0 <= k < s.loc.len() ==> #[trigger] link_ok(s.loc[k], s.nodes.len())
}

pub proof fn lemma_seen_count_bound(loc: Seq<Option<usize>>, k: int)
    requires
        0 <= k,
    ensures
        seen_count(loc, k) <= k,
    decreases k,
{
    if k > 0 {
        lemma_seen_count_bound(loc, k - 1);
    }
}

pub proof fn lemma_seen_count_update(loc: Seq<Option<usize>>, i: int, v: usize, k: int)
    requires
        0 <= i < loc.len(),
        loc[i] is None,
        0 <= k <= loc.len(),
    ensures
        seen_count(loc.update(i, Some(v)), k) == seen_count(loc, k) + if i < k {
            1nat
        } else {
            0nat
        },
    decreases k,
{
    if k > 0 {
        lemma_seen_count_update(loc, i, v, k - 1);
    }
}

/// From `a` to `b` no node is added or removed, no node changes its symbol,
/// no weight falls, and the symbol table and the not-yet-transmitted leaf
/// stay.
pub open spec fn kept(a: TreeState, b: TreeState) -> bool {
    &&& b.nodes.len() == a.nodes.len()
    &&& b.loc == a.loc
    &&& b.nyt == a.nyt
    &&& forall|i: int|
        0 <= i < a.nodes.len() ==> (#[trigger] b.nodes[i]).symbol == a.nodes[i].symbol
            && b.nodes[i].weight >= a.nodes[i].weight
}

/// From `a` to `b` two nodes were added for the first occurrence of `sym`: a
/// leaf for it and an internal node; the older nodes keep their symbols and
/// no weight falls.
pub open spec fn grown(a: TreeState, b: TreeState, sym: u8) -> bool {
    let t = a.nodes.len();
    &&& b.nodes.len() == t + 2
    &&& b.loc == a.loc.update(sym as int, Some(t as usize))
    &&& b.nyt == a.nyt
    &&& forall|i: int|
        0 <= i < t ==> (#[trigger] b.nodes[i]).symbol == a.nodes[i].symbol && b.nodes[i].weight
            >= a.nodes[i].weight
    &&& b.nodes[t as int].symbol == sym as u16
    &&& b.nodes[t + 1int].symbol == INTERNAL_NODE
}

/// Each seen byte value's leaf holds that value, and the not-yet-transmitted
/// leaf is tagged as such.
pub open spec fn symbols_ok(s: TreeState) -> bool {
    &&& s.nodes[s.nyt as int].symbol == NYT
    &&& forall|k: int|
        0 <= k < s.loc.len() && (#[trigger] s.loc[k]) is Some ==> s.nodes[s.loc[k].unwrap() as int].symbol
            == k as u16
}

/// The state that holds a lone not-yet-transmitted leaf.
pub open spec fn init_state() -> TreeState {
    TreeState {
        nodes: seq![
            Node {
                left: None,
                right: None,
                parent: None,
                next: None,
                prev: None,
                head: 0,
                weight: 0,
                symbol: NYT,
            },
        ],
        cells: seq![0usize],
        free: Seq::empty(),
        loc: Seq::new(SYMBOLS as nat, |i: int| None),
        root: 0,
        nyt: 0,
    }
}

pub open spec fn put(s: TreeState, i: usize, n: Node) -> TreeState {
    TreeState { nodes: s.nodes.update(i as int, n), ..s }
}

pub open spec fn put_left(s: TreeState, i: usize, v: Option<usize>) -> TreeState {
    put(s, i, Node { left: v, ..s.nodes[i as int] })
}

pub open spec fn put_right(s: TreeState, i: usize, v: Option<usize>) -> TreeState {
    put(s, i, Node { right: v, ..s.nodes[i as int] })
}

pub open spec fn put_parent(s: TreeState, i: usize, v: Option<usize>) -> TreeState {
    put(s, i, Node { parent: v, ..s.nodes[i as int] })
}

pub open spec fn put_next(s: TreeState, i: usize, v: Option<usize>) -> TreeState {
    put(s, i, Node { next: v, ..s.nodes[i as int] })
}

pub open spec fn put_prev(s: TreeState, i: usize, v: Option<usize>) -> TreeState {
    put(s, i, Node { prev: v, ..s.nodes[i as int] })
}

pub open spec fn put_head(s: TreeState, i: usize, c: usize) -> TreeState {
    put(s, i, Node { head: c, ..s.nodes[i as int] })
}

pub open spec fn put_cell(s: TreeState, c: usize, i: usize) -> TreeState {
    TreeState { cells: s.cells.update(c as int, i), ..s }
}

/// Makes `to` the child that `from` was of `p`, or the root where `from` had
/// no parent.
pub open spec fn replace_child(s: TreeState, p: Option<usize>, from: usize, to: usize) -> TreeState {
    match p {
        Some(x) => if s.nodes[x as int].left == Some(from) {
            put_left(s, x, Some(to))
        } else {
            put_right(s, x, Some(to))
        },
        None => TreeState { root: to, ..s },
    }
}

/// Exchanges the tree positions of `a` and `b`, with their subtrees.
pub open spec fn swap_spec(s: TreeState, a: usize, b: usize) -> TreeState {
    let par_a = s.nodes[a as int].parent;
    let par_b = s.nodes[b as int].parent;
    let s1 = replace_child(s, par_a, a, b);
    let s2 = replace_child(s1, par_b, b, a);
    let s3 = put_parent(s2, a, par_b);
    put_parent(s3, b, par_a)
}

pub open spec fn link_back_prev(s: TreeState, i: usize) -> TreeState {
    match s.nodes[i as int].next {
        Some(x) => put_prev(s, x, Some(i)),
        None => s,
    }
}

pub open spec fn link_back_next(s: TreeState, i: usize) -> TreeState {
    match s.nodes[i as int].prev {
        Some(x) => put_next(s, x, Some(i)),
        None => s,
    }
}

/// Exchanges the list positions of `a` and `b`.
pub open spec fn swap_list_spec(s: TreeState, a: usize, b: usize) -> TreeState {
    let na = s.nodes[a as int];
    let nb = s.nodes[b as int];
    let s1 = put(s, a, Node { next: nb.next, prev: nb.prev, ..na });
    let s2 = put(s1, b, Node { next: na.next, prev: na.prev, ..s1.nodes[b as int] });
    let s3 = if s2.nodes[a as int].next == Some(a) {
        put_next(s2, a, Some(b))
    } else {
        s2
    };
    let s4 = if s3.nodes[b as int].next == Some(b) {
        put_next(s3, b, Some(a))
    } else {
        s3
    };
    let s5 = link_back_prev(s4, a);
    let s6 = link_back_prev(s5, b);
    let s7 = link_back_next(s6, a);
    link_back_next(s7, b)
}

pub open spec fn same(o: Option<usize>, v: usize) -> bool {
    o == Some(v)
}

/// From `a` to `b` no weight of a node of `a` rises by more than `d`.
pub open spec fn rises_at_most(a: TreeState, b: TreeState, d: nat) -> bool {
    forall|i: int| 0 <= i < a.nodes.len() ==> (#[trigger] b.nodes[i]).weight <= a.nodes[i].weight + d
}

/// No node weighs more than `m`.
pub open spec fn weights_below(s: TreeState, m: nat) -> bool {
    forall|i: int| 0 <= i < s.nodes.len() ==> (#[trigger] s.nodes[i]).weight <= m
}

/// The list successor of `i` has the same weight as `i`.
pub open spec fn same_weight_next(s: TreeState, i: usize) -> bool {
    match s.nodes[i as int].next {
        Some(x) => s.nodes[x as int].weight == s.nodes[i as int].weight,
        None => false,
    }
}

pub open spec fn release_spec(s: TreeState, c: usize) -> TreeState {
    TreeState { free: s.free.push(c), ..s }
}

/// Gives `i` a cell of its own that names `i`, reusing a released cell if any.
pub open spec fn alloc_cell_spec(s: TreeState, i: usize) -> TreeState {
    if s.free.len() > 0 {
        let c = s.free.last();
        put_head(TreeState { free: s.free.drop_last(), cells: s.cells.update(c as int, i), ..s }, i, c)
    } else {
        let c = s.cells.len() as usize;
        put_head(TreeState { cells: s.cells.push(i), ..s }, i, c)
    }
}

/// Moves `node` to the end of its weight block, hands its block on, raises its
/// weight by one and joins it to the block it now belongs to.
pub open spec fn lift_spec(s: TreeState, node: usize) -> TreeState {
    let n = s.nodes[node as int];
    let s1 = if same_weight_next(s, node) {
        let l = s.cells[n.head as int];
        let sa = if !same(n.parent, l) {
            swap_spec(s, l, node)
        } else {
            s
        };
        swap_list_spec(sa, l, node)
    } else {
        s
    };
    let n1 = s1.nodes[node as int];
    let s2 = match n1.prev {
        Some(pv) => if s1.nodes[pv as int].weight == n1.weight {
            put_cell(s1, n1.head, pv)
        } else {
            release_spec(s1, n1.head)
        },
        None => release_spec(s1, n1.head),
    };
    let n2 = s2.nodes[node as int];
    let s3 = put(s2, node, Node { weight: (n2.weight + 1) as u32, ..n2 });
    match s3.nodes[node as int].next {
        Some(x) => if s3.nodes[x as int].weight == s3.nodes[node as int].weight {
            put_head(s3, node, s3.nodes[x as int].head)
        } else {
            alloc_cell_spec(s3, node)
        },
        None => alloc_cell_spec(s3, node),
    }
}

/// After the parent `p` of `node` has been raised: if `p` now stands right
/// before `node` in the list, the two change places.
pub open spec fn settle_spec(s: TreeState, node: usize, p: usize) -> TreeState {
    if same(s.nodes[node as int].prev, p) {
        let s1 = swap_list_spec(s, node, p);
        let h = s1.nodes[node as int].head;
        if s1.cells[h as int] == node {
            put_cell(s1, h, p)
        } else {
            s1
        }
    } else {
        s
    }
}

/// Raises the weight of `node` and of each of its ancestors by one, keeping
/// the list ordered; `fuel` bounds the number of ancestors visited.
pub open spec fn increment_spec(s: TreeState, node: usize, fuel: nat) -> TreeState
    decreases fuel,
{
    if fuel == 0 {
        s
    } else {
        let s1 = lift_spec(s, node);
        match s1.nodes[node as int].parent {
            None => s1,
            Some(p) => settle_spec(increment_spec(s1, p, (fuel - 1) as nat), node, p),
        }
    }
}

/// Splits the not-yet-transmitted leaf into an internal node whose children
/// are that leaf and a new leaf of weight one for `sym`.
pub open spec fn add_new_spec(s: TreeState, sym: u8) -> TreeState {
    let z = s.nyt;
    let zn = s.nodes[z as int];
    let t = s.nodes.len() as usize;
    let t2 = (t + 1) as usize;
    let joins = match zn.next {
        Some(x) => s.nodes[x as int].weight == 1,
        None => false,
    };
    let s0 = if joins {
        s
    } else if s.free.len() > 0 {
        TreeState { free: s.free.drop_last(), cells: s.cells.update(s.free.last() as int, t2), ..s }
    } else {
        TreeState { cells: s.cells.push(t2), ..s }
    };
    let h = if joins {
        s.nodes[zn.next.unwrap() as int].head
    } else if s.free.len() > 0 {
        s.free.last()
    } else {
        s.cells.len() as usize
    };
    let nt = Node {
        left: None,
        right: None,
        parent: Some(t2),
        next: Some(t2),
        prev: Some(z),
        head: h,
        weight: 1,
        symbol: sym as u16,
    };
    let nt2 = Node {
        left: Some(z),
        right: Some(t),
        parent: zn.parent,
        next: zn.next,
        prev: Some(t),
        head: h,
        weight: 1,
        symbol: INTERNAL_NODE,
    };
    let s1 = TreeState {
        nodes: s0.nodes.push(nt).push(nt2),
        loc: s0.loc.update(sym as int, Some(t)),
        ..s0
    };
    let s2 = match zn.next {
        Some(x) => put_prev(s1, x, Some(t2)),
        None => s1,
    };
    let s3 = put(s2, z, Node { next: Some(t), parent: Some(t2), ..s2.nodes[z as int] });
    replace_child(s3, zn.parent, z, t2)
}

/// Records one occurrence of `sym`: a first one splits the not-yet-transmitted
/// leaf, a later one raises the weight of its leaf; the weights above follow.
#[verifier::opaque]
pub open spec fn add_ref_spec(s: TreeState, sym: u8) -> TreeState {
    match s.loc[sym as int] {
        Some(l) => increment_spec(s, l, s.nodes.len()),
        None => {
            let s1 = add_new_spec(s, sym);
            match s.nodes[s.nyt as int].parent {
                Some(p) => increment_spec(s1, p, s1.nodes.len()),
                None => s1,
            }
        },
    }
}

pub struct Tree {
    nodes: Vec<Node>,
    cells: Vec<usize>,
    free: Vec<usize>,
    loc: Vec<Option<usize>>,
    root: usize,
    nyt: usize,
}

fn is_same_node(o: Option<usize>, v: usize) -> (r: bool)
    ensures
        r == same(o, v),
{
    match o {
        Some(x) => x == v,
        None => false,
    }
}

impl Tree {
    pub closed spec fn view(&self) -> TreeState {
        TreeState {
            nodes: self.nodes@,
            cells: self.cells@,
            free: self.free@,
            loc: self.loc@,
            root: self.root,
            nyt: self.nyt,
        }
    }

    /// A tree with a lone not-yet-transmitted leaf.
    pub fn new() -> (t: Tree)
        ensures
            t@ == init_state(),
            wf(t@),
    {
        let mut nodes: Vec<Node> = Vec::new();
        nodes.push(
            Node {
                left: None,
                right: None,
                parent: None,
                next: None,
                prev: None,
                head: 0,
                weight: 0,
                symbol: NYT,
            },
        );
        let mut cells: Vec<usize> = Vec::new();
        cells.push(0);
        let mut loc: Vec<Option<usize>> = Vec::new();
        let mut k: usize = 0;
        while k < SYMBOLS
            invariant
                k <= SYMBOLS,
                loc@.len() == k,
                forall|j: int| 0 <= j < k ==> loc@[j] is None,
            decreases SYMBOLS - k,
        {
            loc.push(None);
            k = k + 1;
        }
        let t = Tree { nodes, cells, free: Vec::new(), loc, root: 0, nyt: 0 };
        proof {
            assert(t@.loc =~= init_state().loc);
            assert(t@.nodes =~= init_state().nodes);
            assert(t@.cells =~= init_state().cells);
            assert(t@.free =~= init_state().free);
            lemma_seen_count_none(t@.loc, SYMBOLS as int);
        }
        t
    }

    pub fn node(&self, i: usize) -> (n: Node)
        requires
            i < self@.nodes.len(),
        ensures
            n == self@.nodes[i as int],
    {
        self.nodes[i]
    }

    pub fn len(&self) -> (r: usize)
        ensures
            r == self@.nodes.len(),
    {
        self.nodes.len()
    }

    pub fn root(&self) -> (r: usize)
        ensures
            r == self@.root,
    {
        self.root
    }

    pub fn nyt(&self) -> (r: usize)
        ensures
            r == self@.nyt,
    {
        self.nyt
    }

    pub fn leaf_of(&self, sym: u8) -> (r: Option<usize>)
        requires
            wf(self@),
        ensures
            r == self@.loc[sym as int],
    {
        self.loc[sym as usize]
    }

    fn set(&mut self, i: usize, n: Node)
        requires
            wf(old(self)@),
            i < old(self)@.nodes.len(),
            node_ok(n, old(self)@.nodes.len(), old(self)@.cells.len()),
            n.symbol == old(self)@.nodes[i as int].symbol,
            n.weight >= old(self)@.nodes[i as int].weight,
        ensures
            final(self)@ == put(old(self)@, i, n),
            kept(old(self)@, final(self)@),
            wf(final(self)@),
    {
        self.nodes.set(i, n);
        proof {
            assert(self@.nodes =~= put(old(self)@, i, n).nodes);
            assert forall|j: int| 0 <= j < self@.nodes.len() implies #[trigger] node_ok(
                self@.nodes[j],
                self@.nodes.len(),
                self@.cells.len(),
            ) by {
                if j != i {
                    assert(node_ok(old(self)@.nodes[j], old(self)@.nodes.len(), old(self)@.cells.len()));
                }
            }
        }
    }

    fn set_next(&mut self, i: usize, v: Option<usize>)
        requires
            wf(old(self)@),
            i < old(self)@.nodes.len(),
            link_ok(v, old(self)@.nodes.len()),
        ensures
            final(self)@ == put_next(old(self)@, i, v),
            kept(old(self)@, final(self)@),
            rises_at_most(old(self)@, final(self)@, 0),
            wf(final(self)@),
    {
        let mut n = self.nodes[i];
        proof {
            assert(node_ok(self@.nodes[i as int], self@.nodes.len(), self@.cells.len()));
        }
        n.next = v;
        self.set(i, n);
    }

    fn set_prev(&mut self, i: usize, v: Option<usize>)
        requires
            wf(old(self)@),
            i < old(self)@.nodes.len(),
            link_ok(v, old(self)@.nodes.len()),
        ensures
            final(self)@ == put_prev(old(self)@, i, v),
            kept(old(self)@, final(self)@),
            rises_at_most(old(self)@, final(self)@, 0),
            wf(final(self)@),
    {
        let mut n = self.nodes[i];
        proof {
            assert(node_ok(self@.nodes[i as int], self@.nodes.len(), self@.cells.len()));
        }
        n.prev = v;
        self.set(i, n);
    }

    fn set_parent(&mut self, i: usize, v: Option<usize>)
        requires
            wf(old(self)@),
            i < old(self)@.nodes.len(),
            link_ok(v, old(self)@.nodes.len()),
        ensures
            final(self)@ == put_parent(old(self)@, i, v),
            kept(old(self)@, final(self)@),
            rises_at_most(old(self)@, final(self)@, 0),
            wf(final(self)@),
    {
        let mut n = self.nodes[i];
        proof {
            assert(node_ok(self@.nodes[i as int], self@.nodes.len(), self@.cells.len()));
        }
        n.parent = v;
        self.set(i, n);
    }

    fn replace_child(&mut self, p: Option<usize>, from: usize, to: usize)
        requires
            wf(old(self)@),
            link_ok(p, old(self)@.nodes.len()),
            to < old(self)@.nodes.len(),
        ensures
            wf(final(self)@),
            final(self)@ == replace_child(old(self)@, p, from, to),
            kept(old(self)@, final(self)@),
            rises_at_most(old(self)@, final(self)@, 0),
    {
        match p {
            Some(x) => {
                let mut n = self.nodes[x];
                proof {
                    assert(node_ok(self@.nodes[x as int], self@.nodes.len(), self@.cells.len()));
                }
                if is_same_node(n.left, from) {
                    n.left = Some(to);
                } else {
                    n.right = Some(to);
                }
                self.set(x, n);
                proof {
                    assert(rises_at_most(old(self)@, self@, 0));
                }
            },
            None => {
                let ghost s = self@;
                self.root = to;
                proof {
                    assert forall|i: int| 0 <= i < self@.nodes.len() implies #[trigger] node_ok(
                        self@.nodes[i],
                        self@.nodes.len(),
                        self@.cells.len(),
                    ) by {
                        assert(node_ok(s.nodes[i], s.nodes.len(), s.cells.len()));
                    }
                    assert(self@.cells == s.cells && self@.free == s.free && self@.loc == s.loc);
                }
            },
        }
    }

    /// Exchanges the tree positions of `a` and `b`.
    fn swap(&mut self, a: usize, b: usize)
        requires
            wf(old(self)@),
            a < old(self)@.nodes.len(),
            b < old(self)@.nodes.len(),
        ensures
            final(self)@ == swap_spec(old(self)@, a, b),
            kept(old(self)@, final(self)@),
            rises_at_most(old(self)@, final(self)@, 0),
            wf(final(self)@),
    {
        proof {
            assert(node_ok(self@.nodes[a as int], self@.nodes.len(), self@.cells.len()));
            assert(node_ok(self@.nodes[b as int], self@.nodes.len(), self@.cells.len()));
        }
        let par_a = self.nodes[a].parent;
        let par_b = self.nodes[b].parent;
        self.replace_child(par_a, a, b);
        self.replace_child(par_b, b, a);
        self.set_parent(a, par_b);
        self.set_parent(b, par_a);
    }

    fn set_cell(&mut self, c: usize, i: usize)
        requires
            wf(old(self)@),
            c < old(self)@.cells.len(),
            i < old(self)@.nodes.len(),
        ensures
            final(self)@ == put_cell(old(self)@, c, i),
            kept(old(self)@, final(self)@),
            rises_at_most(old(self)@, final(self)@, 0),
            wf(final(self)@),
    {
        self.cells.set(c, i);
        proof {
            assert(self@.cells =~= put_cell(old(self)@, c, i).cells);
            lemma_nodes_ok_widen(old(self)@, self@);
        }
    }

    fn set_head(&mut self, i: usize, c: usize)
        requires
            wf(old(self)@),
            i < old(self)@.nodes.len(),
            c < old(self)@.cells.len(),
        ensures
            final(self)@ == put_head(old(self)@, i, c),
            kept(old(self)@, final(self)@),
            rises_at_most(old(self)@, final(self)@, 0),
            wf(final(self)@),
    {
        let mut n = self.nodes[i];
        proof {
            assert(node_ok(self@.nodes[i as int], self@.nodes.len(), self@.cells.len()));
        }
        n.head = c;
        self.set(i, n);
    }

    fn release(&mut self, c: usize)
        requires
            wf(old(self)@),
            c < old(self)@.cells.len(),
        ensures
            final(self)@ == release_spec(old(self)@, c),
            kept(old(self)@, final(self)@),
            rises_at_most(old(self)@, final(self)@, 0),
            wf(final(self)@),
    {
        self.free.push(c);
        proof {
            assert forall|k: int| 0 <= k < self@.free.len() implies #[trigger] self@.free[k]
                < self@.cells.len() by {
                if k < old(self)@.free.len() {
                    assert(old(self)@.free[k] < old(self)@.cells.len());
                }
            }
            lemma_nodes_ok_widen(old(self)@, self@);
        }
    }

    fn alloc_cell(&mut self, i: usize)
        requires
            wf(old(self)@),
            i < old(self)@.nodes.len(),
        ensures
            final(self)@ == alloc_cell_spec(old(self)@, i),
            kept(old(self)@, final(self)@),
            rises_at_most(old(self)@, final(self)@, 0),
            wf(final(self)@),
    {
        let ghost s = self@;
        match self.free.pop() {
            Some(c) => {
                proof {
                    assert(s.free[s.free.len() - 1] < s.cells.len());
                    assert(self@.free =~= s.free.drop_last());
                }
                self.cells.set(c, i);
                proof {
                    lemma_nodes_ok_widen(s, self@);
                    assert forall|k: int| 0 <= k < self@.free.len() implies #[trigger] self@.free[k]
                        < self@.cells.len() by {
                        assert(s.free[k] < s.cells.len());
                    }
                    assert(self@ == TreeState { free: s.free.drop_last(), cells: s.cells.update(c as int, i), ..s });
                }
                self.set_head(i, c);
            },
            None => {
                let c = self.cells.len();
                self.cells.push(i);
                proof {
                    lemma_nodes_ok_widen(s, self@);
                    assert forall|k: int| 0 <= k < self@.cells.len() implies #[trigger] self@.cells[k]
                        < self@.nodes.len() by {
                        if k < s.cells.len() {
                            assert(s.cells[k] < s.nodes.len());
                        }
                    }
                    assert forall|k: int| 0 <= k < self@.free.len() implies #[trigger] self@.free[k]
                        < self@.cells.len() by {
                        assert(s.free[k] < s.cells.len());
                    }
                }
                self.set_head(i, c);
            },
        }
    }

    fn lift(&mut self, node: usize)
        requires
            wf(old(self)@),
            node < old(self)@.nodes.len(),
            old(self)@.nodes[node as int].weight < u32::MAX,
        ensures
            final(self)@ == lift_spec(old(self)@, node),
            kept(old(self)@, final(self)@),
            rises_at_most(old(self)@, final(self)@, 1),
            wf(final(self)@),
            final(self)@.nodes.len() == old(self)@.nodes.len(),
            final(self)@.loc == old(self)@.loc,
    {
        let ghost s = self@;
        proof {
            assert(node_ok(s.nodes[node as int], s.nodes.len(), s.cells.len()));
        }
        let n = self.nodes[node];
        let next_same = match n.next {
            Some(x) => self.nodes[x].weight == n.weight,
            None => false,
        };
        if next_same {
            let l = self.cells[n.head];
            if !is_same_node(n.parent, l) {
                self.swap(l, node);
            }
            self.swap_list(l, node);
        }
        let ghost s1 = self@;
        proof {
            assert(node_ok(s1.nodes[node as int], s1.nodes.len(), s1.cells.len()));
        }
        let n1 = self.nodes[node];
        match n1.prev {
            Some(pv) => {
                if self.nodes[pv].weight == n1.weight {
                    self.set_cell(n1.head, pv);
                } else {
                    self.release(n1.head);
                }
            },
            None => {
                self.release(n1.head);
            },
        }
        let n2 = self.nodes[node];
        proof {
            assert(n2.weight == s.nodes[node as int].weight);
        }
        let w = n2.weight + 1;
        proof {
            assert(node_ok(self@.nodes[node as int], self@.nodes.len(), self@.cells.len()));
        }
        self.set(node, Node { weight: w, ..n2 });
        proof {
            assert(node_ok(self@.nodes[node as int], self@.nodes.len(), self@.cells.len()));
        }
        match self.nodes[node].next {
            Some(x) => {
                proof {
                    assert(node_ok(self@.nodes[x as int], self@.nodes.len(), self@.cells.len()));
                }
                if self.nodes[x].weight == self.nodes[node].weight {
                    let h = self.nodes[x].head;
                    self.set_head(node, h);
                } else {
                    self.alloc_cell(node);
                }
            },
            None => {
                self.alloc_cell(node);
            },
        }
    }

    fn settle(&mut self, node: usize, p: usize)
        requires
            wf(old(self)@),
            node < old(self)@.nodes.len(),
            p < old(self)@.nodes.len(),
        ensures
            final(self)@ == settle_spec(old(self)@, node, p),
            kept(old(self)@, final(self)@),
            rises_at_most(old(self)@, final(self)@, 0),
            wf(final(self)@),
            final(self)@.nodes.len() == old(self)@.nodes.len(),
            final(self)@.loc == old(self)@.loc,
    {
        if is_same_node(self.nodes[node].prev, p) {
            self.swap_list(node, p);
            proof {
                assert(node_ok(self@.nodes[node as int], self@.nodes.len(), self@.cells.len()));
            }
            let h = self.nodes[node].head;
            if self.cells[h] == node {
                self.set_cell(h, p);
            }
        }
    }

    /// Raises the weight of `node` and its ancestors, keeping the list ordered.
    fn increment(&mut self, node: usize, fuel: usize)
        requires
            wf(old(self)@),
            node < old(self)@.nodes.len(),
            fuel <= 1024,
            weights_below(old(self)@, (u32::MAX - fuel) as nat),
        ensures
            final(self)@ == increment_spec(old(self)@, node, fuel as nat),
            kept(old(self)@, final(self)@),
            rises_at_most(old(self)@, final(self)@, fuel as nat),
            wf(final(self)@),
            final(self)@.nodes.len() == old(self)@.nodes.len(),
            final(self)@.loc == old(self)@.loc,
        decreases fuel,
    {
        if fuel == 0 {
            return;
        }
        let ghost s0 = self@;
        proof {
            assert(s0.nodes[node as int].weight <= (u32::MAX - fuel) as nat);
        }
        self.lift(node);
        proof {
            assert(node_ok(self@.nodes[node as int], self@.nodes.len(), self@.cells.len()));
        }
        match self.nodes[node].parent {
            None => {},
            Some(p) => {
                proof {
                    assert forall|i: int| 0 <= i < self@.nodes.len() implies (
                    #[trigger] self@.nodes[i]).weight <= (u32::MAX - (fuel - 1)) as nat by {
                        assert(s0.nodes[i].weight <= (u32::MAX - fuel) as nat);
                        assert(self@.nodes[i].weight <= s0.nodes[i].weight + 1);
                    }
                }
                let ghost s1 = self@;
                self.increment(p, fuel - 1);
                let ghost s2 = self@;
                self.settle(node, p);
                proof {
                    assert forall|i: int| 0 <= i < s0.nodes.len() implies (#[trigger] self@.nodes[
                    i]).weight <= s0.nodes[i].weight + fuel by {
                        assert(s1.nodes[i].weight <= s0.nodes[i].weight + 1);
                        assert(s2.nodes[i].weight <= s1.nodes[i].weight + (fuel - 1));
                    }
                }
            },
        }
    }

    fn add_new(&mut self, sym: u8)
        requires
            wf(old(self)@),
            old(self)@.loc[sym as int] is None,
        ensures
            final(self)@ == add_new_spec(old(self)@, sym),
            wf(final(self)@),
            grown(old(self)@, final(self)@, sym),
            rises_at_most(old(self)@, final(self)@, 0),
            final(self)@.nodes[old(self)@.nodes.len() as int].weight == 1,
            final(self)@.nodes[old(self)@.nodes.len() + 1int].weight == 1,
            final(self)@.nodes.len() == old(self)@.nodes.len() + 2,
    {
        let ghost s = self@;
        proof {
            lemma_seen_count_bound(s.loc, SYMBOLS as int);
            assert(node_ok(s.nodes[s.nyt as int], s.nodes.len(), s.cells.len()));
        }
        let z = self.nyt;
        let zn = self.nodes[z];
        let t = self.nodes.len();
        let t2 = t + 1;
        let joins = match zn.next {
            Some(x) => self.nodes[x].weight == 1,
            None => false,
        };
        let h: usize = if joins {
            match zn.next {
                Some(x) => {
                    proof {
                        assert(node_ok(s.nodes[x as int], s.nodes.len(), s.cells.len()));
                    }
                    self.nodes[x].head
                },
                None => 0,
            }
        } else {
            match self.free.pop() {
                Some(c) => {
                    proof {
                        assert(s.free[s.free.len() - 1] < s.cells.len());
                        assert(self@.free =~= s.free.drop_last());
                    }
                    self.cells.set(c, t2);
                    c
                },
                None => {
                    let c = self.cells.len();
                    self.cells.push(t2);
                    c
                },
            }
        };
        let ghost s0 = self@;
        self.nodes.push(
            Node {
                left: None,
                right: None,
                parent: Some(t2),
                next: Some(t2),
                prev: Some(z),
                head: h,
                weight: 1,
                symbol: sym as u16,
            },
        );
        self.nodes.push(
            Node {
                left: Some(z),
                right: Some(t),
                parent: zn.parent,
                next: zn.next,
                prev: Some(t),
                head: h,
                weight: 1,
                symbol: INTERNAL_NODE,
            },
        );
        self.loc.set(sym as usize, Some(t));
        proof {
            lemma_seen_count_update(s.loc, sym as int, t, SYMBOLS as int);
            let len = self@.nodes.len();
            let clen = self@.cells.len();
            assert(h < clen);
            assert forall|j: int| 0 <= j < len implies #[trigger] node_ok(self@.nodes[j], len, clen) by {
                if j < s.nodes.len() {
                    assert(node_ok(s.nodes[j], s.nodes.len(), s.cells.len()));
                    assert(self@.nodes[j] == s.nodes[j]);
                }
            }
            assert forall|c: int| 0 <= c < clen implies #[trigger] self@.cells[c] < len by {
                if c < s.cells.len() && !(c == h && !joins) {
                    assert(s.cells[c] < s.nodes.len());
                }
            }
            assert forall|k: int| 0 <= k < self@.free.len() implies #[trigger] self@.free[k] < clen by {
                assert(s.free[k] < s.cells.len());
            }
            assert forall|k: int| 0 <= k < self@.loc.len() implies #[trigger] link_ok(self@.loc[k], len) by {
                if k != sym as int {
                    assert(link_ok(s.loc[k], s.nodes.len()));
                }
            }
            assert(self@.loc =~= s.loc.update(sym as int, Some(t)));
        }
        match zn.next {
            Some(x) => {
                self.set_prev(x, Some(t2));
            },
            None => {},
        }
        let nz = self.nodes[z];
        self.set(z, Node { next: Some(t), parent: Some(t2), ..nz });
        self.replace_child(zn.parent, z, t2);
    }

    /// Records one occurrence of `sym` in the tree.
    pub fn add_ref(&mut self, sym: u8)
        requires
            wf(old(self)@),
            weights_below(old(self)@, (u32::MAX - 1024) as nat),
        ensures
            final(self)@ == add_ref_spec(old(self)@, sym),
            wf(final(self)@),
            symbols_ok(old(self)@) ==> symbols_ok(final(self)@),
            old(self)@.loc[sym as int] is Some ==> kept(old(self)@, final(self)@),
            old(self)@.loc[sym as int] is None ==> grown(old(self)@, final(self)@, sym),
            forall|m: nat| #[trigger]
                weights_below(old(self)@, m) ==> weights_below(final(self)@, m + 1024),
    {
        reveal(add_ref_spec);
        proof {
            assert(link_ok(self@.loc[sym as int], self@.nodes.len()));
            assert(node_ok(self@.nodes[self.nyt as int], self@.nodes.len(), self@.cells.len()));
        }
        let ghost s0 = self@;
        proof {
            lemma_seen_count_bound(s0.loc, SYMBOLS as int);
        }
        match self.loc[sym as usize] {
            Some(l) => {
                let fuel = self.nodes.len();
                proof {
                    assert forall|i: int| 0 <= i < s0.nodes.len() implies (
                    #[trigger] s0.nodes[i]).weight <= (u32::MAX - fuel) as nat by {
                        assert(s0.nodes[i].weight <= (u32::MAX - 1024) as nat);
                    }
                }
                self.increment(l, fuel);
                proof {
                    assert forall|m: nat| #[trigger] weights_below(s0, m) implies weights_below(
                        self@,
                        m + 1024,
                    ) by {
                        assert forall|i: int| 0 <= i < self@.nodes.len() implies (
                        #[trigger] self@.nodes[i]).weight <= m + 1024 by {
                            assert(s0.nodes[i].weight <= m);
                        }
                    }
                }
            },
            None => {
                let zp = self.nodes[self.nyt].parent;
                self.add_new(sym);
                let ghost s1 = self@;
                proof {
                    assert forall|i: int| 0 <= i < s1.nodes.len() implies (
                    #[trigger] s1.nodes[i]).weight <= (u32::MAX - 1024) as nat by {
                        if i < s0.nodes.len() {
                            assert(s0.nodes[i].weight <= (u32::MAX - 1024) as nat);
                        }
                    }
                }
                match zp {
                    Some(p) => {
                        let fuel = self.nodes.len();
                        self.increment(p, fuel);
                    },
                    None => {},
                }
                proof {
                    assert forall|m: nat| #[trigger] weights_below(s0, m) implies weights_below(
                        self@,
                        m + 1024,
                    ) by {
                        assert forall|i: int| 0 <= i < self@.nodes.len() implies (
                        #[trigger] self@.nodes[i]).weight <= m + 1024 by {
                            if i < s0.nodes.len() {
                                assert(s0.nodes[i].weight <= m);
                                assert(s1.nodes[i].weight <= s0.nodes[i].weight);
                            } else {
                                assert(s1.nodes[i].weight == 1);
                            }
                        }
                    }
                }
            },
        }
        proof {
            let a = old(self)@;
            let b = self@;
            lemma_seen_count_bound(a.loc, SYMBOLS as int);
            if symbols_ok(a) {
                assert(a.nyt < a.nodes.len());
                assert(b.nodes[b.nyt as int].symbol == a.nodes[a.nyt as int].symbol);
                assert forall|k: int|
                    0 <= k < b.loc.len() && (#[trigger] b.loc[k]) is Some implies b.nodes[b.loc[
                    k].unwrap() as int].symbol == k as u16 by {
                    if k != sym as int || a.loc[sym as int] is Some {
                        assert(a.loc[k] == b.loc[k]);
                        assert(link_ok(a.loc[k], a.nodes.len()));
                        let l = a.loc[k].unwrap() as int;
                        assert(a.nodes[l].symbol == k as u16);
                        assert(b.nodes[l].symbol == a.nodes[l].symbol);
                    } else {
                        assert(b.loc[k] == Some(a.nodes.len() as usize));
                        assert(b.nodes[a.nodes.len() as int].symbol == sym as u16);
                    }
                }
            }
        }
    }

    fn link_back_prev(&mut self, i: usize)
        requires
            wf(old(self)@),
            i < old(self)@.nodes.len(),
        ensures
            final(self)@ == link_back_prev(old(self)@, i),
            kept(old(self)@, final(self)@),
            rises_at_most(old(self)@, final(self)@, 0),
            wf(final(self)@),
    {
        proof {
            assert(node_ok(self@.nodes[i as int], self@.nodes.len(), self@.cells.len()));
        }
        if let Some(x) = self.nodes[i].next {
            self.set_prev(x, Some(i));
        }
    }

    fn link_back_next(&mut self, i: usize)
        requires
            wf(old(self)@),
            i < old(self)@.nodes.len(),
        ensures
            final(self)@ == link_back_next(old(self)@, i),
            kept(old(self)@, final(self)@),
            rises_at_most(old(self)@, final(self)@, 0),
            wf(final(self)@),
    {
        proof {
            assert(node_ok(self@.nodes[i as int], self@.nodes.len(), self@.cells.len()));
        }
        if let Some(x) = self.nodes[i].prev {
            self.set_next(x, Some(i));
        }
    }

    /// Exchanges the list positions of `a` and `b`.
    fn swap_list(&mut self, a: usize, b: usize)
        requires
            wf(old(self)@),
            a < old(self)@.nodes.len(),
            b < old(self)@.nodes.len(),
        ensures
            final(self)@ == swap_list_spec(old(self)@, a, b),
            kept(old(self)@, final(self)@),
            rises_at_most(old(self)@, final(self)@, 0),
            wf(final(self)@),
    {
        proof {
            assert(node_ok(self@.nodes[a as int], self@.nodes.len(), self@.cells.len()));
            assert(node_ok(self@.nodes[b as int], self@.nodes.len(), self@.cells.len()));
        }
        let na = self.nodes[a];
        let nb = self.nodes[b];
        self.set(a, Node { next: nb.next, prev: nb.prev, ..na });
        let n1 = self.nodes[b];
        self.set(b, Node { next: na.next, prev: na.prev, ..n1 });
        if is_same_node(self.nodes[a].next, a) {
            self.set_next(a, Some(b));
        }
        if is_same_node(self.nodes[b].next, b) {
            self.set_next(b, Some(a));
        }
        self.link_back_prev(a);
        self.link_back_prev(b);
        self.link_back_next(a);
        self.link_back_next(b);
    }
}

/// Nodes that stay the same stay well formed when cells are added.
proof fn lemma_nodes_ok_widen(a: TreeState, b: TreeState)
    requires
        b.nodes == a.nodes,
        b.cells.len() >= a.cells.len(),
        forall|i: int| 0 <= i < a.nodes.len() ==> #[trigger] node_ok(a.nodes[i], a.nodes.len(), a.cells.len()),
    ensures
        forall|i: int| 0 <= i < b.nodes.len() ==> #[trigger] node_ok(b.nodes[i], b.nodes.len(), b.cells.len()),
{
    assert forall|i: int| 0 <= i < b.nodes.len() implies #[trigger] node_ok(b.nodes[i], b.nodes.len(), b.cells.len()) by {
        assert(node_ok(a.nodes[i], a.nodes.len(), a.cells.len()));
    }
}

proof fn lemma_seen_count_none(loc: Seq<Option<usize>>, k: int)
    requires
        0 <= k <= loc.len(),
        forall|j: int| 0 <= j < loc.len() ==> loc[j] is None,
    ensures
        seen_count(loc, k) == 0,
    decreases k,
{
    if k > 0 {
        lemma_seen_count_none(loc, k - 1);
    }
}

} // verus!
