use vstd::prelude::*;
use crate::bits::{bit_of, lemma_bit_is_01, lemma_packs_unique, packs, read_bit, write_bits};
use crate::tree::{
    add_ref_spec, symbols_ok, weights_below, increment_spec, init_state, lemma_seen_count_bound, lift_spec, node_ok, same,
    settle_spec, swap_list_spec, wf, Node, Tree, TreeState,
    INTERNAL_NODE, NYT, SYMBOLS,
};

verus! {

/// The longest input that the two-byte length header can announce.
pub const MAX_INPUT: usize = 65535;

/// Ways in which compressing or decompressing fails.
#[derive(Clone, Copy, Debug, PartialEq, Eq, Structural)]
pub enum HuffError {
    /// The input is longer than the length header can announce.
    TooLong,
    /// The stream ends before the announced number of symbols is decoded.
    Truncated,
    /// The code tree does not lead to the expected node.
    Inconsistent,
    /// Whole bytes follow the last announced symbol.
    TrailingData,
}

/// The code of node `n`: one bit for each edge from the root down to `n`,
/// `true` for a right child; `None` where the parent links do not lead to the
/// root within `fuel` steps through internal nodes that hold the child.
pub open spec fn path_spec(s: TreeState, n: usize, fuel: nat) -> Option<Seq<bool>>
    decreases fuel,
{
    if n == s.root {
        Some(Seq::empty())
    } else if fuel == 0 {
        None
    } else {
        match s.nodes[n as int].parent {
            None => None,
            Some(p) => {
                let pn = s.nodes[p as int];
                if pn.symbol == INTERNAL_NODE && (same(pn.left, n) || same(pn.right, n)) {
                    match path_spec(s, p, (fuel - 1) as nat) {
                        Some(up) => Some(up.push(same(pn.right, n))),
                        None => None,
                    }
                } else {
                    None
                }
            },
        }
    }
}

/// The eight bits of `x`, most significant first.
pub open spec fn bits8(x: u8) -> Seq<bool> {
    Seq::new(8, |i: int| (x >> ((7 - i) as u8)) & 1u8 == 1u8)
}

/// The bits sent for `sym`: the code of its leaf, or for a first occurrence
/// the code of the not-yet-transmitted leaf and then the eight raw bits.
pub open spec fn code_of(s: TreeState, sym: u8) -> Option<Seq<bool>> {
    match s.loc[sym as int] {
        Some(l) => if s.nodes[l as int].symbol == sym as u16 {
            path_spec(s, l, s.nodes.len())
        } else {
            None
        },
        None => if s.nodes[s.nyt as int].symbol == NYT {
            match path_spec(s, s.nyt, s.nodes.len()) {
                Some(p) => Some(p + bits8(sym)),
                None => None,
            }
        } else {
            None
        },
    }
}

/// The tree after the first `i` symbols of `data` have been recorded.
pub open spec fn state_after(data: Seq<u8>, i: nat) -> TreeState
    decreases i,
{
    if i == 0 {
        init_state()
    } else {
        add_ref_spec(state_after(data, (i - 1) as nat), data[i - 1])
    }
}

/// The bits sent for the first `i` symbols of `data`.
pub open spec fn code_bits(data: Seq<u8>, i: nat) -> Option<Seq<bool>>
    decreases i,
{
    if i == 0 {
        Some(Seq::empty())
    } else {
        match code_bits(data, (i - 1) as nat) {
            Some(a) => match code_of(state_after(data, (i - 1) as nat), data[i - 1]) {
                Some(b) => Some(a + b),
                None => None,
            },
            None => None,
        }
    }
}

/// Every symbol of `data` has a code in the tree it meets.
pub open spec fn encodable(data: Seq<u8>) -> bool {
    code_bits(data, data.len()) is Some
}

/// `out` is the compressed form of `data`: nothing for empty input, else the
/// length in two bytes, most significant first, then the code bits packed
/// least significant bit first.
pub open spec fn is_compression(data: Seq<u8>, out: Seq<u8>) -> bool {
    if data.len() == 0 {
        out.len() == 0
    } else {
        match code_bits(data, data.len()) {
            Some(b) => {
                &&& 2 <= out.len() <= usize::MAX / 8
                &&& out[0] == (data.len() / 256) as u8
                &&& out[1] == (data.len() % 256) as u8
                &&& packs(out, 2, b)
            },
            None => false,
        }
    }
}

/// Descends from `node`, one bit of `bytes` from position `pos` for each
/// internal node, to a leaf; gives the leaf and the position after the bits.
pub open spec fn walk(s: TreeState, bytes: Seq<u8>, pos: int, node: usize, fuel: nat) -> Result<
    (usize, int),
    HuffError,
>
    decreases fuel,
{
    if s.nodes[node as int].symbol != INTERNAL_NODE {
        Ok((node, pos))
    } else if fuel == 0 {
        Err(HuffError::Inconsistent)
    } else if pos >= 8 * bytes.len() {
        Err(HuffError::Truncated)
    } else {
        let c = if bit_of(bytes, pos) {
            s.nodes[node as int].right
        } else {
            s.nodes[node as int].left
        };
        match c {
            Some(ch) => walk(s, bytes, pos + 1, ch, (fuel - 1) as nat),
            None => Err(HuffError::Inconsistent),
        }
    }
}

/// The byte that `k` bits of `bytes` from position `p` spell, most
/// significant first.
pub open spec fn bits_val(bytes: Seq<u8>, p: int, k: nat) -> u8
    decreases k,
{
    if k == 0 {
        0
    } else {
        (bits_val(bytes, p, (k - 1) as nat) << 1u8) | if bit_of(bytes, p + k - 1) {
            1u8
        } else {
            0u8
        }
    }
}

/// Decodes one symbol at bit position `pos`; gives it and the position after it.
pub open spec fn decode_step(s: TreeState, bytes: Seq<u8>, pos: int) -> Result<(u8, int), HuffError> {
    match walk(s, bytes, pos, s.root, s.nodes.len()) {
        Err(e) => Err(e),
        Ok((leaf, next_pos)) => {
            let sy = s.nodes[leaf as int].symbol;
            if sy < 256 {
                Ok((sy as u8, next_pos))
            } else if sy == NYT {
                if next_pos + 8 <= 8 * bytes.len() {
                    Ok((bits_val(bytes, next_pos, 8), next_pos + 8))
                } else {
                    Err(HuffError::Truncated)
                }
            } else {
                Err(HuffError::Inconsistent)
            }
        },
    }
}

pub open spec fn prefixed(a: Seq<u8>, r: Result<(Seq<u8>, int), HuffError>) -> Result<
    (Seq<u8>, int),
    HuffError,
> {
    match r {
        Ok((x, p)) => Ok((a + x, p)),
        Err(e) => Err(e),
    }
}

/// Decodes `k` symbols from bit position `pos`, starting from tree `s`;
/// gives them and the bit position after the last one.
pub open spec fn decode_from(s: TreeState, bytes: Seq<u8>, pos: int, k: nat) -> Result<
    (Seq<u8>, int),
    HuffError,
>
    decreases k,
{
    if k == 0 {
        Ok((Seq::empty(), pos))
    } else {
        match decode_step(s, bytes, pos) {
            Err(e) => Err(e),
            Ok((sym, next_pos)) => prefixed(
                seq![sym],
                decode_from(add_ref_spec(s, sym), bytes, next_pos, (k - 1) as nat),
            ),
        }
    }
}

/// What decompressing `bytes` gives.
pub open spec fn decompress_spec(bytes: Seq<u8>) -> Result<Seq<u8>, HuffError> {
    if bytes.len() == 0 {
        Ok(Seq::empty())
    } else if bytes.len() < 2 {
        Err(HuffError::Truncated)
    } else if bytes.len() > usize::MAX / 8 {
        Err(HuffError::TooLong)
    } else {
        match decode_from(init_state(), bytes, 16, (bytes[0] * 256 + bytes[1]) as nat) {
            Ok((v, p)) => if bytes.len() > (p + 7) / 8 {
                Err(HuffError::TrailingData)
            } else {
                Ok(v)
            },
            Err(e) => Err(e),
        }
    }
}

/// Every internal node has two children and weighs what they weigh together.
pub open spec fn weights_summed(s: TreeState) -> bool {
    forall|i: int|
        0 <= i < s.nodes.len() && #[trigger] s.nodes[i].symbol == INTERNAL_NODE ==> match (
            s.nodes[i].left,
            s.nodes[i].right,
        ) {
            (Some(a), Some(b)) => a < s.nodes.len() && b < s.nodes.len() && s.nodes[i].weight
                == s.nodes[a as int].weight + s.nodes[b as int].weight,
            _ => false,
        }
}

/// From `i` on, the list ends within `fuel` steps and its weights never fall.
pub open spec fn list_ordered_from(s: TreeState, i: usize, fuel: nat) -> bool
    decreases fuel,
{
    match s.nodes[i as int].next {
        None => true,
        Some(x) => fuel > 0 && x < s.nodes.len() && s.nodes[i as int].weight <= s.nodes[x as int].weight
            && list_ordered_from(s, x, (fuel - 1) as nat),
    }
}

/// The weights of the tree are consistent: summed at each internal node and
/// non-decreasing along the list from the not-yet-transmitted leaf.
pub open spec fn weights_consistent(s: TreeState) -> bool {
    weights_summed(s) && list_ordered_from(s, s.nyt, s.nodes.len())
}

/// An adaptive Huffman coder: one instance per stream direction.
pub struct Huffman {
    tree: Tree,
}

impl Huffman {
    pub closed spec fn view(&self) -> TreeState {
        self.tree@
    }

    pub closed spec fn inv(&self) -> bool {
        wf(self.tree@) && symbols_ok(self.tree@)
    }

    pub fn new() -> (h: Huffman)
        ensures
            h@ == init_state(),
            h.inv(),
    {
        Huffman { tree: Tree::new() }
    }

    /// The number of nodes in the tree.
    pub fn node_count(&self) -> (r: usize)
        ensures
            r == self@.nodes.len(),
    {
        self.tree.len()
    }

    /// The node at index `i` of the tree, if there is one.
    pub fn node(&self, i: usize) -> (r: Option<Node>)
        ensures
            r == if i < self@.nodes.len() {
                Some(self@.nodes[i as int])
            } else {
                None::<Node>
            },
    {
        if i < self.tree.len() {
            Some(self.tree.node(i))
        } else {
            None
        }
    }

    /// The index of the root node.
    pub fn root_index(&self) -> (r: usize)
        ensures
            r == self@.root,
    {
        self.tree.root()
    }

    /// The weight of the leaf of `sym`, once `sym` has been seen.
    pub fn leaf_weight(&self, sym: u8) -> (r: Option<u32>)
        requires
            self.inv(),
        ensures
            r == match self@.loc[sym as int] {
                Some(l) => Some(self@.nodes[l as int].weight),
                None => None::<u32>,
            },
    {
        match self.tree.leaf_of(sym) {
            Some(l) => {
                proof {
                    assert(crate::tree::link_ok(self@.loc[sym as int], self@.nodes.len()));
                }
                Some(self.tree.node(l).weight)
            },
            None => None,
        }
    }

    /// Tells whether the weights of the tree are consistent.
    pub fn weights_consistent(&self) -> (r: bool)
        requires
            self.inv(),
        ensures
            r == weights_consistent(self@),
    {
        let ghost s = self@;
        let n = self.tree.len();
        let mut i: usize = 0;
        while i < n
            invariant
                s == self@,
                wf(s),
                n == s.nodes.len(),
                i <= n,
                forall|j: int|
                    0 <= j < i && #[trigger] s.nodes[j].symbol == INTERNAL_NODE ==> match (
                        s.nodes[j].left,
                        s.nodes[j].right,
                    ) {
                        (Some(a), Some(b)) => a < s.nodes.len() && b < s.nodes.len()
                            && s.nodes[j].weight == s.nodes[a as int].weight
                            + s.nodes[b as int].weight,
                        _ => false,
                    },
            decreases n - i,
        {
            let nd = self.tree.node(i);
            proof {
                assert(node_ok(s.nodes[i as int], s.nodes.len(), s.cells.len()));
            }
            if nd.symbol == INTERNAL_NODE {
                match (nd.left, nd.right) {
                    (Some(a), Some(b)) => {
                        let wa = self.tree.node(a).weight as u64;
                        let wb = self.tree.node(b).weight as u64;
                        if nd.weight as u64 != wa + wb {
                            return false;
                        }
                    },
                    _ => {
                        return false;
                    },
                }
            }
            i = i + 1;
        }
        let mut cur = self.tree.nyt();
        let mut fuel = n;
        loop
            invariant
                s == self@,
                wf(s),
                n == s.nodes.len(),
                cur < n,
                weights_summed(s),
                list_ordered_from(s, s.nyt, n as nat) == list_ordered_from(s, cur, fuel as nat),
            decreases fuel,
        {
            let nd = self.tree.node(cur);
            proof {
                assert(node_ok(s.nodes[cur as int], s.nodes.len(), s.cells.len()));
            }
            match nd.next {
                None => {
                    return true;
                },
                Some(x) => {
                    if fuel == 0 || nd.weight > self.tree.node(x).weight {
                        return false;
                    }
                    cur = x;
                    fuel = fuel - 1;
                },
            }
        }
    }

    /// The code of node `n`, collected from the root down.
    fn send(&self, n: usize, fuel: usize) -> (r: Option<Vec<bool>>)
        requires
            wf(self@),
            n < self@.nodes.len(),
        ensures
            match r {
                Some(v) => path_spec(self@, n, fuel as nat) == Some(v@) && v@.len() <= fuel,
                None => path_spec(self@, n, fuel as nat) is None,
            },
        decreases fuel,
    {
        if n == self.tree.root() {
            return Some(Vec::new());
        }
        if fuel == 0 {
            return None;
        }
        let nn = self.tree.node(n);
        proof {
            assert(node_ok(self@.nodes[n as int], self@.nodes.len(), self@.cells.len()));
        }
        match nn.parent {
            None => None,
            Some(p) => {
                let pn = self.tree.node(p);
                let is_left = match pn.left {
                    Some(x) => x == n,
                    None => false,
                };
                let is_right = match pn.right {
                    Some(x) => x == n,
                    None => false,
                };
                if pn.symbol == INTERNAL_NODE && (is_left || is_right) {
                    match self.send(p, fuel - 1) {
                        Some(mut up) => {
                            up.push(is_right);
                            Some(up)
                        },
                        None => None,
                    }
                } else {
                    None
                }
            },
        }
    }

    /// The bits to send for `sym` in the current tree.
    fn transmit(&self, sym: u8) -> (r: Option<Vec<bool>>)
        requires
            wf(self@),
        ensures
            match r {
                Some(v) => code_of(self@, sym) == Some(v@) && v@.len() <= self@.nodes.len() + 8,
                None => code_of(self@, sym) is None,
            },
    {
        let fuel = self.tree.len();
        match self.tree.leaf_of(sym) {
            Some(l) => {
                proof {
                    assert(crate::tree::link_ok(self@.loc[sym as int], self@.nodes.len()));
                }
                if self.tree.node(l).symbol == sym as u16 {
                    self.send(l, fuel)
                } else {
                    None
                }
            },
            None => {
                let z = self.tree.nyt();
                if self.tree.node(z).symbol != NYT {
                    return None;
                }
                match self.send(z, fuel) {
                    Some(mut v) => {
                        let ghost p = v@;
                        let mut i: u8 = 0;
                        while i < 8
                            invariant
                                i <= 8,
                                v@ == p + bits8(sym).subrange(0, i as int),
                            decreases 8 - i,
                        {
                            v.push((sym >> (7 - i)) & 1u8 == 1u8);
                            proof {
                                assert(v@ =~= p + bits8(sym).subrange(0, i + 1));
                            }
                            i = i + 1;
                        }
                        proof {
                            assert(bits8(sym).subrange(0, 8) =~= bits8(sym));
                        }
                        Some(v)
                    },
                    None => None,
                }
            },
        }
    }

    /// Compresses `data`: the length in two bytes, most significant first,
    /// then the code of each byte in turn, packed least significant bit first.
    /// Empty input gives empty output. The coder starts from a fresh tree; on
    /// failure it is left as it was.
    pub fn adaptive_encode(&mut self, data: &[u8]) -> (r: Result<Vec<u8>, HuffError>)
        ensures
            r is Ok ==> final(self).inv(),
            r is Err ==> final(self)@ == old(self)@,
            r is Ok <==> (data@.len() <= MAX_INPUT && encodable(data@)),
            match r {
                Ok(out) => is_compression(data@, out@) && final(self)@ == state_after(
                    data@,
                    data@.len(),
                ),
                Err(e) => e == if data@.len() > MAX_INPUT {
                    HuffError::TooLong
                } else {
                    HuffError::Inconsistent
                },
            },
    {
        if data.len() > MAX_INPUT {
            return Err(HuffError::TooLong);
        }
        let mut work = Huffman::new();
        if data.len() == 0 {
            *self = work;
            return Ok(Vec::new());
        }
        let mut bits: Vec<bool> = Vec::new();
        let mut i: usize = 0;
        while i < data.len()
            invariant
                wf(work@),
                symbols_ok(work@),
                weights_below(work@, 1024 * i as nat),
                self@ == old(self)@,
                i <= data@.len() <= MAX_INPUT,
                work@ == state_after(data@, i as nat),
                code_bits(data@, i as nat) == Some(bits@),
                bits@.len() <= 521 * i,
            decreases data@.len() - i,
        {
            proof {
                lemma_seen_count_bound(work@.loc, SYMBOLS as int);
            }
            match work.transmit(data[i]) {
                None => {
                    proof {
                        lemma_code_bits_stays_none(data@, (i + 1) as nat, data@.len());
                    }
                    return Err(HuffError::Inconsistent);
                },
                Some(mut c) => {
                    bits.append(&mut c);
                },
            }
            proof {
                assert forall|j: int| 0 <= j < work@.nodes.len() implies (
                #[trigger] work@.nodes[j]).weight <= (u32::MAX - 1024) as nat by {
                    assert(work@.nodes[j].weight <= 1024 * i as nat);
                }
            }
            work.tree.add_ref(data[i]);
            proof {
                assert(1024 * i as nat + 1024 == 1024 * (i + 1) as nat);
            }
            i = i + 1;
        }
        let mut out: Vec<u8> = Vec::new();
        out.push((data.len() / 256) as u8);
        out.push((data.len() % 256) as u8);
        write_bits(&mut out, &bits);
        proof {
            assert(out@[0] == out@.subrange(0, 2)[0]);
            assert(out@[1] == out@.subrange(0, 2)[1]);
        }
        *self = work;
        Ok(out)
    }

    /// Decodes one symbol of `data` at bit position `pos`.
    fn decode_symbol(&self, data: &[u8], pos: usize) -> (r: Result<(u8, usize), HuffError>)
        requires
            wf(self@),
            pos <= 8 * data@.len(),
            data@.len() <= usize::MAX / 8,
        ensures
            match r {
                Ok((sym, next_pos)) => decode_step(self@, data@, pos as int) == Ok::<(u8, int), HuffError>((sym, next_pos as int)) && next_pos
                    <= 8 * data@.len(),
                Err(e) => decode_step(self@, data@, pos as int) == Err::<(u8, int), HuffError>(e),
            },
    {
        let ghost s = self@;
        let mut node = self.tree.root();
        let mut fuel = self.tree.len();
        let mut p = pos;
        while self.tree.node(node).symbol == INTERNAL_NODE
            invariant
                wf(s),
                s == self@,
                node < s.nodes.len(),
                p <= 8 * data@.len(),
                data@.len() <= usize::MAX / 8,
                walk(s, data@, pos as int, s.root, s.nodes.len()) == walk(
                    s,
                    data@,
                    p as int,
                    node,
                    fuel as nat,
                ),
            decreases fuel,
        {
            let nn = self.tree.node(node);
            proof {
                assert(node_ok(s.nodes[node as int], s.nodes.len(), s.cells.len()));
            }
            if fuel == 0 {
                return Err(HuffError::Inconsistent);
            }
            if p >= 8 * data.len() {
                return Err(HuffError::Truncated);
            }
            let b = read_bit(data, p);
            let c = if b {
                nn.right
            } else {
                nn.left
            };
            match c {
                None => {
                    return Err(HuffError::Inconsistent);
                },
                Some(ch) => {
                    node = ch;
                    p = p + 1;
                    fuel = fuel - 1;
                },
            }
        }
        let sy = self.tree.node(node).symbol;
        if sy < 256 {
            Ok((sy as u8, p))
        } else if sy == NYT {
            if 8 * data.len() - p >= 8 {
                let mut v: u8 = 0;
                let mut k: usize = 0;
                while k < 8
                    invariant
                        k <= 8,
                        p + 8 <= 8 * data@.len(),
                        data@.len() <= usize::MAX / 8,
                        v == bits_val(data@, p as int, k as nat),
                    decreases 8 - k,
                {
                    let b = read_bit(data, p + k);
                    v = (v << 1u8) | if b {
                        1u8
                    } else {
                        0u8
                    };
                    k = k + 1;
                }
                Ok((v, p + 8))
            } else {
                Err(HuffError::Truncated)
            }
        } else {
            Err(HuffError::Inconsistent)
        }
    }

    /// Decompresses `data`, the output of `adaptive_encode`: reads the length
    /// header, then decodes that many symbols, updating the tree after each
    /// one as the encoder did. The coder starts from a fresh tree.
    pub fn adaptive_decode(&mut self, data: &[u8]) -> (r: Result<Vec<u8>, HuffError>)
        ensures
            final(self).inv(),
            match r {
                Ok(v) => decompress_spec(data@) == Ok::<Seq<u8>, HuffError>(v@),
                Err(e) => decompress_spec(data@) == Err::<Seq<u8>, HuffError>(e),
            },
    {
        self.tree = Tree::new();
        if data.len() == 0 {
            return Ok(Vec::new());
        }
        if data.len() < 2 {
            return Err(HuffError::Truncated);
        }
        if data.len() > usize::MAX / 8 {
            return Err(HuffError::TooLong);
        }
        let n: usize = data[0] as usize * 256 + data[1] as usize;
        let mut out: Vec<u8> = Vec::new();
        let mut pos: usize = 16;
        let mut i: usize = 0;
        proof {
            assert(out@ + Seq::<u8>::empty() =~= Seq::<u8>::empty());
        }
        while i < n
            invariant
                wf(self@),
                symbols_ok(self@),
                weights_below(self@, 1024 * i as nat),
                i <= n,
                n == data@[0] * 256 + data@[1],
                2 <= data@.len() <= usize::MAX / 8,
                pos <= 8 * data@.len(),
                decode_from(init_state(), data@, 16, n as nat) == prefixed(
                    out@,
                    decode_from(self@, data@, pos as int, (n - i) as nat),
                ),
            decreases n - i,
        {
            match self.decode_symbol(data, pos) {
                Err(e) => {
                    return Err(e);
                },
                Ok((sym, next_pos)) => {
                    let ghost s = self@;
                    let ghost o = out@;
                    proof {
                        assert forall|j: int| 0 <= j < s.nodes.len() implies (
                        #[trigger] s.nodes[j]).weight <= (u32::MAX - 1024) as nat by {
                            assert(s.nodes[j].weight <= 1024 * i as nat);
                        }
                    }
                    self.tree.add_ref(sym);
                    proof {
                        assert(1024 * i as nat + 1024 == 1024 * (i + 1) as nat);
                    }
                    out.push(sym);
                    pos = next_pos;
                    proof {
                        let rest = decode_from(self@, data@, pos as int, (n - i - 1) as nat);
                        match rest {
                            Ok((x, _)) => {
                                assert(o + (seq![sym] + x) =~= out@ + x);
                            },
                            Err(_) => {},
                        }
                    }
                },
            }
            i = i + 1;
        }
        proof {
            assert(out@ + Seq::<u8>::empty() =~= out@);
        }
        let used = pos / 8 + if pos % 8 == 0 {
            0
        } else {
            1
        };
        if data.len() > used {
            return Err(HuffError::TrailingData);
        }
        Ok(out)
    }
}

/// Compresses `data` with a fresh coder.
pub fn compress(data: &[u8]) -> (r: Result<Vec<u8>, HuffError>)
    ensures
        r is Ok <==> (data@.len() <= MAX_INPUT && encodable(data@)),
        match r {
            Ok(out) => is_compression(data@, out@),
            Err(e) => e == if data@.len() > MAX_INPUT {
                HuffError::TooLong
            } else {
                HuffError::Inconsistent
            },
        },
{
    let mut h = Huffman::new();
    h.adaptive_encode(data)
}

/// Decompresses `data` with a fresh coder.
pub fn decompress(data: &[u8]) -> (r: Result<Vec<u8>, HuffError>)
    ensures
        match r {
            Ok(v) => decompress_spec(data@) == Ok::<Seq<u8>, HuffError>(v@),
            Err(e) => decompress_spec(data@) == Err::<Seq<u8>, HuffError>(e),
        },
{
    let mut h = Huffman::new();
    h.adaptive_decode(data)
}

/// The tree after a run of one byte value `x` seen `w` times: an internal
/// root whose left child is the not-yet-transmitted leaf and whose right
/// child is the leaf of `x`, listed in that order.
pub open spec fn single_run_shape(s: TreeState, x: u8, w: u32) -> bool {
    let h = s.nodes[1].head;
    &&& s.nodes.len() == 3
    &&& s.root == 2
    &&& s.nyt == 0
    &&& s.loc.len() == SYMBOLS
    &&& s.loc[x as int] == Some(1usize)
    &&& s.nodes[0] == Node {
        left: None,
        right: None,
        parent: Some(2),
        next: Some(1),
        prev: None,
        head: s.nodes[0].head,
        weight: 0,
        symbol: NYT,
    }
    &&& s.nodes[1] == Node {
        left: None,
        right: None,
        parent: Some(2),
        next: Some(2),
        prev: Some(0),
        head: h,
        weight: w,
        symbol: x as u16,
    }
    &&& s.nodes[2] == Node {
        left: Some(0),
        right: Some(1),
        parent: None,
        next: None,
        prev: Some(1),
        head: h,
        weight: w,
        symbol: INTERNAL_NODE,
    }
    &&& h < s.cells.len()
    &&& s.cells[h as int] == 2
    &&& s.cells.len() <= 3
    &&& s.free.len() == 0 ==> s.cells.len() <= 2
    &&& s.free.len() <= 1
    &&& s.free.len() == 1 ==> s.free[0] != h && s.free[0] < s.cells.len()
    &&& 1 <= w
}

#[verifier::rlimit(100)]
proof fn lemma_single_run_step(s: TreeState, x: u8, w: u32)
    requires
        single_run_shape(s, x, w),
        w < 65536,
    ensures
        single_run_shape(add_ref_spec(s, x), x, (w + 1) as u32),
{
    reveal(add_ref_spec);
    let h = s.nodes[1].head;
    let n0 = s.nodes[0];
    let n1 = s.nodes[1];
    let n2 = s.nodes[2];
    let w1 = (w + 1) as u32;
    let sl = swap_list_spec(s, 2, 1);
    assert(sl.nodes =~= seq![
        Node { next: Some(2), ..n0 },
        Node { next: None, prev: Some(2), ..n1 },
        Node { next: Some(1), prev: Some(0), ..n2 },
    ]);
    let f = if s.free.len() > 0 {
        s.free[0]
    } else {
        s.cells.len() as usize
    };
    let cells1 = if s.free.len() > 0 {
        s.cells.update(f as int, 1)
    } else {
        s.cells.push(1)
    };
    let sa = lift_spec(s, 1);
    assert(sa.nodes =~= seq![
        Node { next: Some(2), ..n0 },
        Node { next: None, prev: Some(2), weight: w1, head: f, ..n1 },
        Node { next: Some(1), prev: Some(0), ..n2 },
    ]);
    assert(sa.cells =~= cells1);
    assert(sa.free =~= Seq::<usize>::empty());
    let sb = lift_spec(sa, 2);
    assert(sb.nodes =~= seq![
        Node { next: Some(2), ..n0 },
        Node { next: None, prev: Some(2), weight: w1, head: f, ..n1 },
        Node { next: Some(1), prev: Some(0), weight: w1, head: f, ..n2 },
    ]);
    assert(sb.free =~= seq![h]);
    assert(sb.cells =~= cells1);
    assert(increment_spec(sa, 2, 2) == sb);
    let sc = settle_spec(sb, 1, 2);
    assert(sc.nodes =~= seq![
        Node { next: Some(1), ..n0 },
        Node { weight: w1, head: f, ..n1 },
        Node { weight: w1, head: f, ..n2 },
    ]);
    assert(increment_spec(s, 1, 3) == sc);
    assert(sc.cells =~= cells1.update(f as int, 2));
    assert(sc.free =~= seq![h]);
    assert(sc.loc == s.loc && sc.root == s.root && sc.nyt == s.nyt);
    assert(sc.cells[h as int] == 2);
    assert(add_ref_spec(s, x) == sc);
}

proof fn lemma_single_run_first(x: u8)
    ensures
        single_run_shape(add_ref_spec(init_state(), x), x, 1),
{
    reveal(add_ref_spec);
}

proof fn lemma_single_run_states(x: u8, k: nat, i: nat)
    requires
        1 <= i <= k <= MAX_INPUT,
    ensures
        single_run_shape(state_after(Seq::new(k, |j: int| x), i), x, i as u32),
    decreases i,
{
    let data = Seq::new(k, |j: int| x);
    assert(data[i - 1] == x);
    if i == 1 {
        lemma_single_run_first(x);
    } else {
        lemma_single_run_states(x, k, (i - 1) as nat);
        lemma_single_run_step(state_after(data, (i - 1) as nat), x, (i - 1) as u32);
    }
}

/// In a run of one byte value, the first occurrence is sent as the eight raw
/// bits of the value and every later occurrence as a single bit.
pub proof fn lemma_single_run_cost(x: u8, k: nat, i: nat)
    requires
        i < k <= MAX_INPUT,
    ensures
        code_of(state_after(Seq::new(k, |j: int| x), i), x) == Some(
            if i == 0 {
                bits8(x)
            } else {
                seq![true]
            },
        ),
{
    if i == 0 {
        let s = init_state();
        assert(path_spec(s, 0, 1) == Some(Seq::<bool>::empty()));
        assert(Seq::<bool>::empty() + bits8(x) =~= bits8(x));
    } else {
        lemma_single_run_states(x, k, i);
        let s = state_after(Seq::new(k, |j: int| x), i);
        assert(path_spec(s, 2, 2) == Some(Seq::<bool>::empty()));
        assert(Seq::<bool>::empty().push(true) =~= seq![true]);
        assert(path_spec(s, 1, 3) == Some(seq![true]));
    }
}

proof fn lemma_code_bits_stays_none(data: Seq<u8>, i: nat, j: nat)
    requires
        i <= j,
        code_bits(data, i) is None,
    ensures
        code_bits(data, j) is None,
    decreases j - i,
{
    if i < j {
        lemma_code_bits_stays_none(data, i, (j - 1) as nat);
    }
}


/// Decompressing the compressed form of any input gives the input back.
pub proof fn lemma_round_trip(data: Seq<u8>, out: Seq<u8>)
    requires
        data.len() <= MAX_INPUT,
        is_compression(data, out),
    ensures
        decompress_spec(out) == Ok::<Seq<u8>, HuffError>(data),
{
    if data.len() == 0 {
        assert(data =~= Seq::<u8>::empty());
    } else {
        let n = data.len();
        let b = code_bits(data, n).unwrap();
        assert(out[0] * 256 + out[1] == n);
        lemma_decode_suffix(data, out, b, 0);
        assert(data.subrange(0, n as int) =~= data);
    }
}

/// Compressing the same input twice, each time from a fresh tree, gives the
/// same bytes.
pub proof fn lemma_deterministic(data: Seq<u8>, out1: Seq<u8>, out2: Seq<u8>)
    requires
        is_compression(data, out1),
        is_compression(data, out2),
    ensures
        out1 == out2,
{
    if data.len() == 0 {
        assert(out1 =~= out2);
    } else {
        let b = code_bits(data, data.len()).unwrap();
        assert(out1.subrange(0, 2) =~= out2.subrange(0, 2));
        lemma_packs_unique(out1, out2, 2, b);
    }
}

proof fn lemma_path_len(s: TreeState, n: usize, fuel: nat)
    ensures
        path_spec(s, n, fuel) is Some ==> path_spec(s, n, fuel).unwrap().len() <= fuel,
    decreases fuel,
{
    if n != s.root && fuel > 0 {
        match s.nodes[n as int].parent {
            Some(p) => lemma_path_len(s, p, (fuel - 1) as nat),
            None => {},
        }
    }
}

/// The bits of the first `i` symbols start the bits of the first `j`.
proof fn lemma_code_bits_prefix(data: Seq<u8>, i: nat, j: nat)
    requires
        i <= j,
        code_bits(data, j) is Some,
    ensures
        code_bits(data, i) is Some,
        code_bits(data, i).unwrap().len() <= code_bits(data, j).unwrap().len(),
        code_bits(data, j).unwrap().subrange(0, code_bits(data, i).unwrap().len() as int)
            == code_bits(data, i).unwrap(),
    decreases j - i,
{
    if i < j {
        lemma_code_bits_prefix(data, i, (j - 1) as nat);
        let a = code_bits(data, i).unwrap();
        let m = code_bits(data, (j - 1) as nat).unwrap();
        let f = code_bits(data, j).unwrap();
        assert(f.subrange(0, m.len() as int) =~= m);
        assert(f.subrange(0, a.len() as int) =~= m.subrange(0, a.len() as int));
    } else {
        let a = code_bits(data, i).unwrap();
        assert(a.subrange(0, a.len() as int) =~= a);
    }
}

/// The bits of `bytes` from position `pos` on are `p`.
pub open spec fn bits_at(bytes: Seq<u8>, pos: int, p: Seq<bool>) -> bool {
    &&& pos + p.len() <= 8 * bytes.len()
    &&& forall|j: int| pos <= j < pos + p.len() ==> #[trigger] bit_of(bytes, j) == p[j - pos]
}

/// Following the code of `n` down from the root leads to `n`.
proof fn lemma_walk_path(s: TreeState, bytes: Seq<u8>, pos: int, n: usize, fp: nat, fw: nat)
    requires
        path_spec(s, n, fp) is Some,
        fw >= path_spec(s, n, fp).unwrap().len(),
        pos >= 0,
        bits_at(bytes, pos, path_spec(s, n, fp).unwrap()),
    ensures
        walk(s, bytes, pos, s.root, fw) == walk(
            s,
            bytes,
            pos + path_spec(s, n, fp).unwrap().len(),
            n,
            (fw - path_spec(s, n, fp).unwrap().len()) as nat,
        ),
    decreases fp,
{
    let p = path_spec(s, n, fp).unwrap();
    if n != s.root {
        let par = s.nodes[n as int].parent.unwrap();
        let pn = s.nodes[par as int];
        let up = path_spec(s, par, (fp - 1) as nat).unwrap();
        assert(p == up.push(same(pn.right, n)));
        assert(p.len() == up.len() + 1);
        assert forall|j: int| pos <= j < pos + up.len() implies #[trigger] bit_of(bytes, j)
            == up[j - pos] by {
            assert(pos <= j < pos + p.len());
            assert(bit_of(bytes, j) == p[j - pos]);
            assert(p[j - pos] == up[j - pos]);
        }
        assert(bits_at(bytes, pos, up));
        lemma_walk_path(s, bytes, pos, par, (fp - 1) as nat, fw);
        let q = pos + up.len();
        assert(bit_of(bytes, pos + up.len()) == p[up.len() as int]) by {
            let j = pos + up.len();
            assert(j - pos == up.len());
        }
        assert(walk(s, bytes, q, par, (fw - up.len()) as nat) == walk(
            s,
            bytes,
            q + 1,
            n,
            (fw - up.len() - 1) as nat,
        ));
    }
}

proof fn lemma_byte_spelled(x: u8, v1: u8, v2: u8, v3: u8, v4: u8, v5: u8, v6: u8, v7: u8, v8: u8)
    by (bit_vector)
    requires
        v1 == (0u8 << 1u8) | ((x >> 7u8) & 1u8),
        v2 == (v1 << 1u8) | ((x >> 6u8) & 1u8),
        v3 == (v2 << 1u8) | ((x >> 5u8) & 1u8),
        v4 == (v3 << 1u8) | ((x >> 4u8) & 1u8),
        v5 == (v4 << 1u8) | ((x >> 3u8) & 1u8),
        v6 == (v5 << 1u8) | ((x >> 2u8) & 1u8),
        v7 == (v6 << 1u8) | ((x >> 1u8) & 1u8),
        v8 == (v7 << 1u8) | ((x >> 0u8) & 1u8),
    ensures
        v8 == x,
{
}

/// Eight bits that spell `x` most significant first are read back as `x`.
proof fn lemma_read_raw(bytes: Seq<u8>, p: int, x: u8)
    requires
        forall|k: int| 0 <= k < 8 ==> #[trigger] bit_of(bytes, p + k) == bits8(x)[k],
    ensures
        bits_val(bytes, p, 8) == x,
{
    reveal_with_fuel(bits_val, 9);
    assert forall|k: int| 0 <= k < 8 implies (if #[trigger] bit_of(bytes, p + k) {
        1u8
    } else {
        0u8
    }) == (x >> ((7 - k) as u8)) & 1u8 by {
        assert(bit_of(bytes, p + k) == bits8(x)[k]);
        lemma_bit_is_01(x, (7 - k) as u8);
    }
    assert(bit_of(bytes, p + 0) == bit_of(bytes, p));
    lemma_byte_spelled(
        x,
        bits_val(bytes, p, 1),
        bits_val(bytes, p, 2),
        bits_val(bytes, p, 3),
        bits_val(bytes, p, 4),
        bits_val(bytes, p, 5),
        bits_val(bytes, p, 6),
        bits_val(bytes, p, 7),
        bits_val(bytes, p, 8),
    );
}

/// Where the bits at `pos` are the code of `sym`, one decoding step gives
/// `sym` and the position after the code.
proof fn lemma_decode_one(s: TreeState, out: Seq<u8>, pos: int, sym: u8)
    requires
        code_of(s, sym) is Some,
        pos >= 0,
        bits_at(out, pos, code_of(s, sym).unwrap()),
    ensures
        decode_step(s, out, pos) == Ok::<(u8, int), HuffError>(
            (sym, pos + code_of(s, sym).unwrap().len() as int),
        ),
{
    let c = code_of(s, sym).unwrap();
    let fw = s.nodes.len();
    match s.loc[sym as int] {
        Some(l) => {
            lemma_path_len(s, l, fw);
            lemma_walk_path(s, out, pos, l, fw, fw);
        },
        None => {
            let p = path_spec(s, s.nyt, fw).unwrap();
            assert(c == p + bits8(sym));
            lemma_path_len(s, s.nyt, fw);
            assert forall|j: int| pos <= j < pos + p.len() implies #[trigger] bit_of(out, j) == p[j
                - pos] by {
                assert(pos <= j < pos + c.len());
                assert(bit_of(out, j) == c[j - pos]);
                assert(c[j - pos] == p[j - pos]);
            }
            assert(bits_at(out, pos, p));
            lemma_walk_path(s, out, pos, s.nyt, fw, fw);
            let q = pos + p.len() as int;
            assert forall|k: int| 0 <= k < 8 implies #[trigger] bit_of(out, q + k) == bits8(sym)[k] by {
                let j = q + k;
                assert(j - pos == p.len() + k);
                assert(bit_of(out, j) == c[j - pos]);
                assert(c[p.len() + k] == bits8(sym)[k]);
            }
            assert(q + 8 <= 8 * out.len());
            lemma_read_raw(out, q, sym);
        },
    }
}

/// Decoding the rest of the stream, from the tree and bit position reached
/// after `i` symbols, gives the rest of `data`.
proof fn lemma_decode_suffix(data: Seq<u8>, out: Seq<u8>, b: Seq<bool>, i: nat)
    requires
        1 <= data.len(),
        i <= data.len(),
        code_bits(data, data.len()) == Some(b),
        packs(out, 2, b),
    ensures
        code_bits(data, i) is Some,
        decode_from(
            state_after(data, i),
            out,
            16 + code_bits(data, i).unwrap().len() as int,
            (data.len() - i) as nat,
        ) == Ok::<(Seq<u8>, int), HuffError>((data.subrange(i as int, data.len() as int), 16 + b.len() as int)),
    decreases data.len() - i,
{
    let n = data.len();
    lemma_code_bits_prefix(data, i, n);
    if i == n {
        assert(data.subrange(i as int, n as int) =~= Seq::<u8>::empty());
        assert(code_bits(data, i).unwrap() =~= b.subrange(0, b.len() as int));
    } else {
        lemma_code_bits_prefix(data, i + 1, n);
        lemma_decode_suffix(data, out, b, i + 1);
        let s = state_after(data, i);
        let sym = data[i as int];
        let ci = code_bits(data, i).unwrap();
        let c = code_of(s, sym).unwrap();
        let pos: int = 16 + ci.len() as int;
        let ci1 = code_bits(data, i + 1).unwrap();
        assert(ci1 == ci + c);
        assert(b.subrange(0, ci1.len() as int) == ci1);
        assert(pos + c.len() <= 8 * out.len());
        assert forall|j: int| pos <= j < pos + c.len() implies #[trigger] bit_of(out, j) == c[j
            - pos] by {
            let m = j - 16;
            assert(m == ci.len() + (j - pos));
            assert(ci1[m] == c[j - pos]);
            assert(b.subrange(0, ci1.len() as int)[m] == b[m]);
            assert(j < 8 * out.len());
        }
        lemma_decode_one(s, out, pos, sym);
        assert(state_after(data, i + 1) == add_ref_spec(s, sym));
        assert(seq![sym] + data.subrange(i + 1 as int, n as int) =~= data.subrange(
            i as int,
            n as int,
        ));
    }
}
} // verus!
