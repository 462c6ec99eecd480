use crate::algorithms::bit_string::{bit_char, bits_of, is_prefix_of};
use crate::algorithms::canonical::{
    assign_huffman_codes, code_len, is_canonical_table, lemma_canonical_table_unique,
    lemma_table_symbol_has_code, prefix_free,
};
use vstd::arithmetic::power2::{lemma_pow2_pos, lemma_pow2_unfold, pow2};
use vstd::multiset::Multiset;
use vstd::prelude::*;
use vstd::std_specs::iter::IteratorSpec;
use vstd::string::{StrSliceExecFns, StringExecFns};

verus! {

broadcast use vstd::seq_lib::group_to_multiset_ensures, vstd::multiset::group_multiset_axioms;


/// A node of a Huffman tree: a leaf holding one symbol and its count, or a
/// merge point that owns its two subtrees.
pub enum HuffmanNode {
    Data { character: char, frequency: u64 },
    InternalNode { left: Box<HuffmanNode>, right: Box<HuffmanNode>, combined_frequency: u64 },
}

impl HuffmanNode {
    /// The weight stored in the node.
    pub open spec fn weight(&self) -> nat {
        match self {
            HuffmanNode::Data { frequency, .. } => *frequency as nat,
            HuffmanNode::InternalNode { combined_frequency, .. } => *combined_frequency as nat,
        }
    }

    /// The symbols at the leaves below this node, with repetition.
    pub open spec fn symbols(&self) -> Multiset<char>
        decreases self,
    {
        match self {
            HuffmanNode::Data { character, .. } => Multiset::singleton(*character),
            HuffmanNode::InternalNode { left, right, .. } => left.symbols().add(right.symbols()),
        }
    }

    /// Number of edges on the longest path down to a leaf.
    pub open spec fn height(&self) -> nat
        decreases self,
    {
        match self {
            HuffmanNode::Data { .. } => 0,
            HuffmanNode::InternalNode { left, right, .. } => 1 + if left.height() >= right.height() {
                left.height()
            } else {
                right.height()
            },
        }
    }

    /// Distance from this node down to the leaf holding `c` (the left one if
    /// `c` occurs on both sides).
    pub open spec fn depth_of(&self, c: char) -> nat
        decreases self,
    {
        match self {
            HuffmanNode::Data { .. } => 0,
            HuffmanNode::InternalNode { left, right, .. } => 1 + if left.symbols().count(c) > 0 {
                left.depth_of(c)
            } else {
                right.depth_of(c)
            },
        }
    }

    /// The weight of the leaf holding `c` (the left one if `c` occurs on
    /// both sides).
    pub open spec fn leaf_weight(&self, c: char) -> nat
        decreases self,
    {
        match self {
            HuffmanNode::Data { frequency, .. } => *frequency as nat,
            HuffmanNode::InternalNode { left, right, .. } => if left.symbols().count(c) > 0 {
                left.leaf_weight(c)
            } else {
                right.leaf_weight(c)
            },
        }
    }

    /// No symbol labels two leaves.
    pub open spec fn distinct_symbols(&self) -> bool {
        forall|c: char| self.symbols().count(c) <= 1
    }

    /// Every merge point weighs what its two children weigh together.
    pub open spec fn weights_add_up(&self) -> bool
        decreases self,
    {
        match self {
            HuffmanNode::Data { .. } => true,
            HuffmanNode::InternalNode { left, right, combined_frequency } => {
                &&& *combined_frequency as nat == left.weight() + right.weight()
                &&& left.weights_add_up()
                &&& right.weights_add_up()
            },
        }
    }

    /// The weight stored in the node.
    pub fn frequency(&self) -> (r: u64)
        ensures
            r == self.weight(),
    {
        match self {
            HuffmanNode::Data { frequency, .. } => *frequency,
            HuffmanNode::InternalNode { combined_frequency, .. } => *combined_frequency,
        }
    }
}

/// The `amount_of_digits` low bits of `number` as a string of `'0'` and
/// `'1'`, most significant first.
pub fn get_binary_string(number: u32, amount_of_digits: usize) -> (r: String)
    requires
        amount_of_digits <= 32,
    ensures
        r@ == bits_of(number as nat, amount_of_digits as nat),
{
    let mut binary = String::new();
    let mut i: usize = amount_of_digits;
    proof {
        vstd::arithmetic::power2::lemma2_to64();
        vstd::arithmetic::div_mod::lemma_small_mod(0, 1);
    }
    while i > 0
        invariant
            i <= amount_of_digits <= 32,
            binary@ == bits_of(number as nat / pow2(i as nat), (amount_of_digits - i) as nat),
        decreases i,
    {
        let ghost prev = number as nat / pow2(i as nat);
        i = i - 1;
        let shifted: u32 = number >> (i as u32);
        let bit: u32 = shifted & 1;
        proof {
            vstd::bits::lemma_u32_shr_is_div(number, i as u32);
            assert(shifted & 1 == shifted % 2) by (bit_vector);
            lemma_pow2_unfold((i + 1) as nat);
            lemma_pow2_pos(i as nat);
            vstd::arithmetic::div_mod::lemma_div_denominator(number as int, pow2(i as nat) as int, 2);
            reveal_strlit("1");
            reveal_strlit("0");
        }
        if bit == 1 {
            binary.append("1");
        } else {
            binary.append("0");
        }
        proof {
            let n = number as nat / pow2(i as nat);
            assert(bits_of(n, (amount_of_digits - i) as nat) == bits_of(n / 2, (amount_of_digits - i - 1) as nat).push(bit_char(n % 2 == 1)));
            assert(binary@ =~= bits_of(n, (amount_of_digits - i) as nat));
        }
    }
    proof {
        vstd::arithmetic::power2::lemma2_to64();
        assert(number as nat / 1 == number as nat);
    }
    binary
}

/// Whether `p` is a prefix of `s`.
pub fn is_prefix(p: &String, s: &String) -> (r: bool)
    ensures
        r == is_prefix_of(p@, s@),
{
    let plen = p.as_str().unicode_len();
    let slen = s.as_str().unicode_len();
    if plen > slen {
        return false;
    }
    let mut i: usize = 0;
    while i < plen
        invariant
            plen == p@.len() <= slen == s@.len(),
            i <= plen,
            forall|k: int| 0 <= k < i ==> p@[k] == s@[k],
        decreases plen - i,
    {
        if p.as_str().get_char(i) != s.as_str().get_char(i) {
            return false;
        }
        i = i + 1;
    }
    assert(s@.subrange(0, p@.len() as int) =~= p@);
    true
}

/// The ways the Huffman pipeline can fail.
#[derive(Debug, Clone, Copy, PartialEq, Eq, Structural)]
pub enum HuffmanError {
    /// There is no symbol to build a tree from.
    EmptyAlphabet,
    /// A leaf lies deeper than 32 edges, so its code would not fit in 32 bits.
    CodeWidthOverflow,
    /// The input holds a symbol that has no code in the table.
    SymbolNotInTable,
}

/// The characters of `data`, in order.
pub fn chars_of(data: &str) -> (r: Vec<char>)
    ensures
        r@ == data@,
{
    broadcast use vstd::string::group_string_axioms;

    let mut it = data.chars();
    let mut out: Vec<char> = Vec::new();
    loop
        invariant
            it.obeys_prophetic_iter_laws(),
            out@ + it.remaining() == data@,
            it.decrease() is Some,
        decreases it.decrease()->0,
    {
        match it.next() {
            Some(c) => {
                out.push(c);
            },
            None => {
                proof {
                    assert(out@ + it.remaining() == out@);
                }
                return out;
            },
        }
    }
}


/// How often `c` occurs in `data`.
pub open spec fn occurrences(data: Seq<char>, c: char) -> nat {
    data.to_multiset().count(c)
}

/// Keys in strictly ascending order.
pub open spec fn keys_ascending(f: Seq<(char, u64)>) -> bool {
    forall|i: int, j: int| 0 <= i < j < f.len() ==> #[trigger] f[i].0 < #[trigger] f[j].0
}

/// The sum of the counts in `f`.
pub open spec fn total_weight(f: Seq<(char, u64)>) -> nat
    decreases f.len(),
{
    if f.len() == 0 {
        0
    } else {
        f[0].1 as nat + total_weight(f.drop_first())
    }
}

/// `f` lists each distinct symbol of `data` once, in ascending order, with
/// the number of times it occurs.
pub open spec fn is_frequency_table(data: Seq<char>, f: Seq<(char, u64)>) -> bool {
    &&& keys_ascending(f)
    &&& forall|i: int| 0 <= i < f.len() ==> #[trigger] f[i].1 == occurrences(data, f[i].0) && f[i].1 > 0
    &&& forall|c: char| data.contains(c) ==> exists|i: int| 0 <= i < f.len() && #[trigger] f[i].0 == c
    &&& total_weight(f) == data.len()
}

proof fn lemma_total_weight_update(f: Seq<(char, u64)>, p: int, e: (char, u64))
    requires
        0 <= p < f.len(),
    ensures
        total_weight(f.update(p, e)) + f[p].1 == total_weight(f) + e.1,
    decreases p,
{
    if p > 0 {
        lemma_total_weight_update(f.drop_first(), p - 1, e);
        assert(f.update(p, e).drop_first() =~= f.drop_first().update(p - 1, e));
    } else {
        assert(f.update(p, e).drop_first() =~= f.drop_first());
    }
}

proof fn lemma_total_weight_insert(f: Seq<(char, u64)>, p: int, e: (char, u64))
    requires
        0 <= p <= f.len(),
    ensures
        total_weight(f.insert(p, e)) == total_weight(f) + e.1,
    decreases p,
{
    if p > 0 {
        lemma_total_weight_insert(f.drop_first(), p - 1, e);
        assert(f.insert(p, e).drop_first() =~= f.drop_first().insert(p - 1, e));
    } else {
        assert(f.insert(p, e).drop_first() =~= f);
    }
}

proof fn lemma_weight_le_total(f: Seq<(char, u64)>, p: int)
    requires
        0 <= p < f.len(),
    ensures
        f[p].1 <= total_weight(f),
    decreases p,
{
    if p > 0 {
        lemma_weight_le_total(f.drop_first(), p - 1);
    }
}

/// Counts how often each symbol occurs in `data`.
pub fn count_frequencies(data: &Vec<char>) -> (r: Vec<(char, u64)>)
    ensures
        is_frequency_table(data@, r@),
{
    let mut f: Vec<(char, u64)> = Vec::new();
    let mut i: usize = 0;
    proof {
        assert(data@.subrange(0, 0) =~= Seq::<char>::empty());
    }
    while i < data.len()
        invariant
            i <= data@.len(),
            is_frequency_table(data@.subrange(0, i as int), f@),
        decreases data@.len() - i,
    {
        let c = data[i];
        let ghost seen = data@.subrange(0, i as int);
        let ghost seen2 = data@.subrange(0, i as int + 1);
        let ghost before = f@;
        proof {
            assert(seen2 =~= seen.push(c));
        }
        let mut p: usize = 0;
        while p < f.len() && f[p].0 < c
            invariant
                p <= f@.len(),
                forall|k: int| 0 <= k < p ==> #[trigger] f@[k].0 < c,
            decreases f@.len() - p,
        {
            p = p + 1;
        }
        if p < f.len() && f[p].0 == c {
            let n = f[p].1;
            proof {
                lemma_weight_le_total(before, p as int);
            }
            f.set(p, (c, n + 1));
            proof {
                lemma_total_weight_update(before, p as int, (c, (n + 1) as u64));
                let g = f@;
                assert forall|k: int| 0 <= k < g.len() implies #[trigger] g[k].1 == occurrences(seen2, g[k].0) && g[k].1 > 0 by {
                    if k != p {
                        assert(g[k] == before[k]);
                        assert(before[k].0 != c);
                    }
                }
                assert forall|x: char| seen2.contains(x) implies exists|k: int| 0 <= k < g.len() && #[trigger] g[k].0 == x by {
                    if x == c {
                        assert(g[p as int].0 == x);
                    } else {
                        let j = choose|j: int| 0 <= j < seen2.len() && seen2[j] == x;
                        assert(seen[j] == x);
                        assert(seen.contains(x));
                        let k = choose|k: int| 0 <= k < before.len() && #[trigger] before[k].0 == x;
                        assert(g[k].0 == x);
                    }
                }
                assert forall|a: int, b: int| 0 <= a < b < g.len() implies #[trigger] g[a].0 < #[trigger] g[b].0 by {
                    assert(before[a].0 < before[b].0);
                }
            }
        } else {
            proof {
                if seen.contains(c) {
                    let k = choose|k: int| 0 <= k < before.len() && #[trigger] before[k].0 == c;
                    if k < p {
                        assert(before[k].0 < c);
                    } else if k > p {
                        assert(before[p as int].0 < before[k].0);
                        assert(c <= before[p as int].0);
                    }
                }
                assert(!seen.contains(c));
                assert(occurrences(seen, c) == 0);
            }
            f.insert(p, (c, 1));
            proof {
                lemma_total_weight_insert(before, p as int, (c, 1u64));
                let g = f@;
                assert(g == before.insert(p as int, (c, 1u64)));
                assert forall|k: int| 0 <= k < g.len() implies #[trigger] g[k].1 == occurrences(seen2, g[k].0) && g[k].1 > 0 by {
                    if k < p {
                        assert(g[k] == before[k]);
                        assert(before[k].0 != c);
                    } else if k > p {
                        assert(g[k] == before[k - 1]);
                        assert(before[k - 1].0 != c);
                    }
                }
                assert forall|x: char| seen2.contains(x) implies exists|k: int| 0 <= k < g.len() && #[trigger] g[k].0 == x by {
                    if x == c {
                        assert(g[p as int].0 == x);
                    } else {
                        let j = choose|j: int| 0 <= j < seen2.len() && seen2[j] == x;
                        assert(seen[j] == x);
                        assert(seen.contains(x));
                        let k = choose|k: int| 0 <= k < before.len() && #[trigger] before[k].0 == x;
                        if k < p {
                            assert(g[k].0 == x);
                        } else {
                            assert(g[k + 1].0 == x);
                        }
                    }
                }
                assert forall|a: int, b: int| 0 <= a < b < g.len() implies #[trigger] g[a].0 < #[trigger] g[b].0 by {
                    if b < p {
                        assert(before[a].0 < before[b].0);
                    } else if b == p {
                        assert(before[a].0 < c);
                    } else if a > p {
                        assert(before[a - 1].0 < before[b - 1].0);
                    } else if a == p {
                        if b - 1 > p {
                            assert(before[p as int].0 < before[b - 1].0);
                        }
                        assert(c < before[p as int].0);
                    } else {
                        assert(before[a].0 < c);
                        if b - 1 > p {
                            assert(before[p as int].0 < before[b - 1].0);
                        }
                    }
                }
            }
        }
        i = i + 1;
    }
    proof {
        assert(data@.subrange(0, i as int) =~= data@);
    }
    f
}


/// The order in which the tree builder takes nodes: lighter first; at equal
/// weight a leaf before a merge point, and two leaves by ascending symbol.
/// Two merge points of equal weight are tied.
pub open spec fn node_order(a: HuffmanNode, b: HuffmanNode) -> core::cmp::Ordering {
    if a.weight() < b.weight() {
        core::cmp::Ordering::Less
    } else if a.weight() > b.weight() {
        core::cmp::Ordering::Greater
    } else {
        match (a, b) {
            (HuffmanNode::Data { character: c1, .. }, HuffmanNode::Data { character: c2, .. }) => {
                if c1 < c2 {
                    core::cmp::Ordering::Less
                } else if c1 == c2 {
                    core::cmp::Ordering::Equal
                } else {
                    core::cmp::Ordering::Greater
                }
            },
            (HuffmanNode::Data { .. }, _) => core::cmp::Ordering::Less,
            (_, HuffmanNode::Data { .. }) => core::cmp::Ordering::Greater,
            _ => core::cmp::Ordering::Equal,
        }
    }
}

impl HuffmanNode {
    /// Compares two nodes in the order in which the tree builder takes them.
    pub fn cmp(&self, other: &HuffmanNode) -> (r: core::cmp::Ordering)
        ensures
            r == node_order(*self, *other),
    {
        let a = self.frequency();
        let b = other.frequency();
        if a < b {
            return core::cmp::Ordering::Less;
        }
        if a > b {
            return core::cmp::Ordering::Greater;
        }
        match (self, other) {
            (HuffmanNode::Data { character: c1, .. }, HuffmanNode::Data { character: c2, .. }) => {
                if *c1 < *c2 {
                    core::cmp::Ordering::Less
                } else if *c1 == *c2 {
                    core::cmp::Ordering::Equal
                } else {
                    core::cmp::Ordering::Greater
                }
            },
            (HuffmanNode::Data { .. }, _) => core::cmp::Ordering::Less,
            (_, HuffmanNode::Data { .. }) => core::cmp::Ordering::Greater,
            _ => core::cmp::Ordering::Equal,
        }
    }
}

/// The symbols of all the trees in `q`, with repetition.
pub open spec fn forest_symbols(q: Seq<HuffmanNode>) -> Multiset<char>
    decreases q.len(),
{
    if q.len() == 0 {
        Multiset::empty()
    } else {
        q[0].symbols().add(forest_symbols(q.drop_first()))
    }
}

/// The weights of all the trees in `q`, added up.
pub open spec fn forest_weight(q: Seq<HuffmanNode>) -> nat
    decreases q.len(),
{
    if q.len() == 0 {
        0
    } else {
        q[0].weight() + forest_weight(q.drop_first())
    }
}

/// The symbols that `f` gives counts for, with repetition.
pub open spec fn freq_symbols(f: Seq<(char, u64)>) -> Multiset<char>
    decreases f.len(),
{
    if f.len() == 0 {
        Multiset::empty()
    } else {
        freq_symbols(f.drop_last()).insert(f.last().0)
    }
}

proof fn lemma_forest_insert(q: Seq<HuffmanNode>, p: int, n: HuffmanNode)
    requires
        0 <= p <= q.len(),
    ensures
        forest_symbols(q.insert(p, n)) == forest_symbols(q).add(n.symbols()),
        forest_weight(q.insert(p, n)) == forest_weight(q) + n.weight(),
    decreases p,
{
    if p > 0 {
        lemma_forest_insert(q.drop_first(), p - 1, n);
        assert(q.insert(p, n).drop_first() =~= q.drop_first().insert(p - 1, n));
    } else {
        assert(q.insert(p, n).drop_first() =~= q);
    }
}

proof fn lemma_forest_push(q: Seq<HuffmanNode>, n: HuffmanNode)
    ensures
        forest_symbols(q.push(n)) == forest_symbols(q).add(n.symbols()),
        forest_weight(q.push(n)) == forest_weight(q) + n.weight(),
    decreases q.len(),
{
    if q.len() == 0 {
        assert(q.push(n).drop_first() =~= q);
    } else {
        lemma_forest_push(q.drop_first(), n);
        assert(q.push(n).drop_first() =~= q.drop_first().push(n));
    }
}

proof fn lemma_total_weight_push(f: Seq<(char, u64)>, e: (char, u64))
    ensures
        total_weight(f.push(e)) == total_weight(f) + e.1,
    decreases f.len(),
{
    if f.len() == 0 {
        assert(f.push(e).drop_first() =~= f);
    } else {
        lemma_total_weight_push(f.drop_first(), e);
        assert(f.push(e).drop_first() =~= f.drop_first().push(e));
    }
}

proof fn lemma_forest_remove(q: Seq<HuffmanNode>, p: int)
    requires
        0 <= p < q.len(),
    ensures
        forest_symbols(q) == forest_symbols(q.remove(p)).add(q[p].symbols()),
        forest_weight(q) == forest_weight(q.remove(p)) + q[p].weight(),
{
    lemma_forest_insert(q.remove(p), p, q[p]);
    q.remove(p).insert_ensures(p, q[p]);
    assert(q.remove(p).insert(p, q[p]) =~= q);
}

proof fn lemma_freq_symbols_distinct(f: Seq<(char, u64)>, c: char)
    requires
        keys_ascending(f),
    ensures
        freq_symbols(f).count(c) <= 1,
        freq_symbols(f).count(c) > 0 ==> exists|i: int| 0 <= i < f.len() && f[i].0 == c,
    decreases f.len(),
{
    if f.len() > 0 {
        let g = f.drop_last();
        assert(keys_ascending(g)) by {
            assert forall|i: int, j: int| 0 <= i < j < g.len() implies #[trigger] g[i].0 < #[trigger] g[j].0 by {
                assert(f[i].0 < f[j].0);
            }
        }
        lemma_freq_symbols_distinct(g, c);
        if freq_symbols(g).count(c) > 0 {
            let i = choose|i: int| 0 <= i < g.len() && g[i].0 == c;
            assert(f[i].0 < f[f.len() - 1].0);
        }
        if freq_symbols(f).count(c) > 0 && f.last().0 != c {
            let i = choose|i: int| 0 <= i < g.len() && g[i].0 == c;
            assert(f[i].0 == c);
        }
    }
}

/// Node `m` of `q` is the first one that no node of `q` precedes.
pub open spec fn is_first_min(q: Seq<HuffmanNode>, m: int) -> bool {
    &&& 0 <= m < q.len()
    &&& forall|k: int| 0 <= k < m ==> node_order(#[trigger] q[k], q[m]) == core::cmp::Ordering::Greater
    &&& forall|k: int| 0 <= k < q.len() ==> node_order(#[trigger] q[k], q[m]) != core::cmp::Ordering::Less
}

/// The index of the first node of `q` that no node precedes.
pub open spec fn first_min(q: Seq<HuffmanNode>) -> int {
    choose|m: int| is_first_min(q, m)
}

/// `node_order` is antisymmetric.
pub proof fn lemma_node_order_flip(a: HuffmanNode, b: HuffmanNode)
    ensures
        node_order(a, b) == core::cmp::Ordering::Less <==> node_order(b, a) == core::cmp::Ordering::Greater,
{
}

proof fn lemma_first_min_unique(q: Seq<HuffmanNode>, m: int)
    requires
        is_first_min(q, m),
    ensures
        first_min(q) == m,
{
    let f = first_min(q);
    assert(is_first_min(q, f));
    if f < m {
        lemma_node_order_flip(q[f], q[m]);
        assert(node_order(q[f], q[m]) == core::cmp::Ordering::Greater);
        assert(node_order(q[m], q[f]) != core::cmp::Ordering::Less);
    } else if f > m {
        lemma_node_order_flip(q[m], q[f]);
        assert(node_order(q[m], q[f]) == core::cmp::Ordering::Greater);
        assert(node_order(q[f], q[m]) != core::cmp::Ordering::Less);
    }
}

/// The merge point of `a` and `b`.
pub open spec fn merge_of(a: HuffmanNode, b: HuffmanNode) -> HuffmanNode {
    HuffmanNode::InternalNode {
        left: Box::new(a),
        right: Box::new(b),
        combined_frequency: (a.weight() + b.weight()) as u64,
    }
}

/// One round of the tree builder: the first two nodes in `node_order` leave
/// `q` and their merge point joins it at the end.
pub open spec fn merge_round(q: Seq<HuffmanNode>) -> Seq<HuffmanNode> {
    let q1 = q.remove(first_min(q));
    let q2 = q1.remove(first_min(q1));
    q2.push(merge_of(q[first_min(q)], q1[first_min(q1)]))
}

proof fn lemma_merge_round_len(q: Seq<HuffmanNode>)
    requires
        q.len() >= 2,
    ensures
        merge_round(q).len() == q.len() - 1,
{
    let m0 = first_min(q);
    let q1 = q.remove(m0);
    if !is_first_min(q, m0) {
        lemma_first_min_exists(q);
    }
    assert(q1.len() == q.len() - 1);
    lemma_first_min_exists(q1);
}

proof fn lemma_first_min_exists(q: Seq<HuffmanNode>)
    requires
        q.len() > 0,
    ensures
        is_first_min(q, first_min(q)),
    decreases q.len(),
{
    if q.len() == 1 {
        assert(is_first_min(q, 0));
    } else {
        let p = q.drop_last();
        lemma_first_min_exists(p);
        let m = first_min(p);
        let last = q.len() - 1;
        lemma_node_order_flip(q[last], q[m]);
        if node_order(q[last], q[m]) == core::cmp::Ordering::Less {
            assert forall|k: int| 0 <= k < last implies node_order(#[trigger] q[k], q[last]) == core::cmp::Ordering::Greater by {
                assert(q[k] == p[k]);
                lemma_node_order_flip(q[k], q[last]);
                lemma_node_order_flip(q[k], q[m]);
                lemma_node_order_transitive(q[last], q[m], q[k]);
            }
            assert(is_first_min(q, last));
        } else {
            assert forall|k: int| 0 <= k < q.len() implies node_order(#[trigger] q[k], q[m]) != core::cmp::Ordering::Less by {
                if k < last {
                    assert(q[k] == p[k]);
                }
            }
            assert forall|k: int| 0 <= k < m implies node_order(#[trigger] q[k], q[m]) == core::cmp::Ordering::Greater by {
                assert(q[k] == p[k]);
            }
            assert(is_first_min(q, m));
        }
    }
}

/// If `a` precedes `b` and `c` does not precede `b`, then `a` precedes `c`.
proof fn lemma_node_order_transitive(a: HuffmanNode, b: HuffmanNode, c: HuffmanNode)
    requires
        node_order(a, b) == core::cmp::Ordering::Less,
        node_order(c, b) != core::cmp::Ordering::Less,
    ensures
        node_order(a, c) == core::cmp::Ordering::Less,
{
}

/// The tree that the builder makes from the queue `q`.
pub open spec fn merged(q: Seq<HuffmanNode>) -> HuffmanNode
    decreases q.len(),
    via merged_decreases
{
    if q.len() <= 1 {
        q[0]
    } else {
        merged(merge_round(q))
    }
}

#[via_fn]
proof fn merged_decreases(q: Seq<HuffmanNode>) {
    if q.len() > 1 {
        lemma_merge_round_len(q);
    }
}

/// Takes the first of the nodes of `queue` that no other node precedes.
fn pop_min(queue: &mut Vec<HuffmanNode>) -> (r: HuffmanNode)
    requires
        old(queue)@.len() > 0,
    ensures
        exists|m: int|
            0 <= m < old(queue)@.len() && r == old(queue)@[m] && final(queue)@ == old(queue)@.remove(m)
                && (forall|k: int| 0 <= k < m ==> node_order(old(queue)@[k], r) == core::cmp::Ordering::Greater)
                && (forall|k: int| 0 <= k < old(queue)@.len() ==> node_order(old(queue)@[k], r) != core::cmp::Ordering::Less),
        r == old(queue)@[first_min(old(queue)@)],
        final(queue)@ == old(queue)@.remove(first_min(old(queue)@)),
{
    let mut best: usize = 0;
    let mut k: usize = 1;
    while k < queue.len()
        invariant
            0 <= best < k <= queue@.len(),
            forall|j: int| 0 <= j < best ==> node_order(queue@[j], queue@[best as int]) == core::cmp::Ordering::Greater,
            forall|j: int| 0 <= j < k ==> node_order(queue@[j], queue@[best as int]) != core::cmp::Ordering::Less,
        decreases queue@.len() - k,
    {
        let takes_lead = match queue[k].cmp(&queue[best]) {
            core::cmp::Ordering::Less => true,
            _ => false,
        };
        if takes_lead {
            proof {
                let n = queue@[k as int];
                let b = queue@[best as int];
                assert forall|j: int| 0 <= j < k implies node_order(queue@[j], n) == core::cmp::Ordering::Greater by {
                    let a = queue@[j];
                    assert(node_order(a, b) != core::cmp::Ordering::Less);
                }
            }
            best = k;
        }
        k = k + 1;
    }
    proof {
        let q = queue@;
        assert(is_first_min(q, best as int));
        lemma_first_min_unique(q, best as int);
    }
    queue.remove(best)
}

/// A leaf for the symbol `c` seen `n` times.
fn make_leaf(c: char, n: u64) -> (r: HuffmanNode)
    ensures
        r == (HuffmanNode::Data { character: c, frequency: n }),
{
    HuffmanNode::Data { character: c, frequency: n }
}

/// The leaf for one entry of a frequency table.
pub open spec fn leaf_of(e: (char, u64)) -> HuffmanNode {
    HuffmanNode::Data { character: e.0, frequency: e.1 }
}

/// One leaf per entry of `f`, in order.
pub open spec fn leaf_seq(f: Seq<(char, u64)>) -> Seq<HuffmanNode> {
    f.map_values(|e: (char, u64)| leaf_of(e))
}

/// Every leaf of `n` that holds a symbol of `f` weighs its count.
pub open spec fn leaves_weigh_counts(n: HuffmanNode, f: Seq<(char, u64)>) -> bool {
    forall|i: int|
        0 <= i < f.len() && #[trigger] n.symbols().count(f[i].0) > 0 ==> n.leaf_weight(f[i].0) == f[i].1
}

/// One leaf per entry of `frequencies`, in order.
fn leaves_of(frequencies: &Vec<(char, u64)>) -> (r: Vec<HuffmanNode>)
    requires
        keys_ascending(frequencies@),
    ensures
        r@ == leaf_seq(frequencies@),
        forall|k: int| 0 <= k < r@.len() ==> leaves_weigh_counts(#[trigger] r@[k], frequencies@),
        r@.len() == frequencies@.len(),
        forest_symbols(r@) == freq_symbols(frequencies@),
        forest_weight(r@) == total_weight(frequencies@),
        forall|k: int| 0 <= k < r@.len() ==> (#[trigger] r@[k]) is Data,
{
    let mut queue: Vec<HuffmanNode> = Vec::new();
    let mut i: usize = 0;
    proof {
        assert(frequencies@.subrange(0, 0) =~= Seq::<(char, u64)>::empty());
        assert(forest_symbols(queue@) =~= Multiset::<char>::empty());
    }
    while i < frequencies.len()
        invariant
            i <= frequencies@.len(),
            queue@.len() == i,
            forest_symbols(queue@) == freq_symbols(frequencies@.subrange(0, i as int)),
            forest_weight(queue@) == total_weight(frequencies@.subrange(0, i as int)),
            forall|k: int| 0 <= k < queue@.len() ==> (#[trigger] queue@[k]) is Data,
            forall|k: int| 0 <= k < queue@.len() ==> leaves_weigh_counts(#[trigger] queue@[k], frequencies@),
            forall|k: int| 0 <= k < queue@.len() ==> #[trigger] queue@[k] == (HuffmanNode::Data {
                character: frequencies@[k].0,
                frequency: frequencies@[k].1,
            }),
            keys_ascending(frequencies@),
        decreases frequencies@.len() - i,
    {
        let c: char = frequencies[i].0;
        let n: u64 = frequencies[i].1;
        let leaf = make_leaf(c, n);
        let ghost before = queue@;
        proof {
            assert(before.len() == i);
            lemma_forest_push(before, leaf);
            let s = frequencies@.subrange(0, i as int);
            lemma_total_weight_push(s, (c, n));
            assert(s.push((c, n)) =~= frequencies@.subrange(0, i as int + 1));
            assert(frequencies@.subrange(0, i as int + 1).drop_last() =~= s);
        }
        proof {
            assert forall|j: int| 0 <= j < frequencies@.len() && #[trigger] leaf.symbols().count(frequencies@[j].0) > 0
                implies leaf.leaf_weight(frequencies@[j].0) == frequencies@[j].1 by {
                if j < i {
                    assert(frequencies@[j].0 < frequencies@[i as int].0);
                } else if j > i {
                    assert(frequencies@[i as int].0 < frequencies@[j].0);
                }
            }
        }
        queue.push(leaf);
        proof {
            assert(queue@ == before.push(leaf));
            assert(forest_symbols(queue@) =~= freq_symbols(frequencies@.subrange(0, i as int + 1)));
        }
        i = i + 1;
    }
    proof {
        assert(frequencies@.subrange(0, i as int) =~= frequencies@);
        let leaves = leaf_seq(frequencies@);
        assert(leaves.len() == queue@.len());
        assert forall|k: int| 0 <= k < queue@.len() implies #[trigger] queue@[k] == leaves[k] by {
            assert(leaves[k] == leaf_of(frequencies@[k]));
        }
        assert(queue@ =~= leaves);
    }
    queue
}

/// Builds the Huffman tree of a frequency table: starting from one leaf per
/// symbol, the two first nodes in `node_order` are merged until one is left.
pub fn build_huffman_tree(frequencies: &Vec<(char, u64)>) -> (r: Result<HuffmanNode, HuffmanError>)
    requires
        keys_ascending(frequencies@),
        total_weight(frequencies@) <= u64::MAX,
    ensures
        match r {
            Ok(root) => {
                &&& frequencies@.len() > 0
                &&& root.symbols() == freq_symbols(frequencies@)
                &&& root.distinct_symbols()
                &&& root.weights_add_up()
                &&& root.weight() == total_weight(frequencies@)
                &&& forall|i: int| 0 <= i < frequencies@.len() ==> #[trigger] root.leaf_weight(frequencies@[i].0) == frequencies@[i].1
                &&& root == merged(leaf_seq(frequencies@))
            },
            Err(e) => frequencies@.len() == 0 && e == HuffmanError::EmptyAlphabet,
        },
{
    if frequencies.len() == 0 {
        return Err(HuffmanError::EmptyAlphabet);
    }
    let mut queue = leaves_of(frequencies);
    proof {
        assert forall|k: int| 0 <= k < queue@.len() implies (#[trigger] queue@[k]).weights_add_up() by {
            assert(queue@[k] is Data);
        }
    }
    while queue.len() > 1
        invariant
            queue@.len() >= 1,
            forest_symbols(queue@) == freq_symbols(frequencies@),
            forest_weight(queue@) == total_weight(frequencies@),
            total_weight(frequencies@) <= u64::MAX,
            forall|k: int| 0 <= k < queue@.len() ==> (#[trigger] queue@[k]).weights_add_up(),
            forall|k: int| 0 <= k < queue@.len() ==> leaves_weigh_counts(#[trigger] queue@[k], frequencies@),
            merged(queue@) == merged(leaf_seq(frequencies@)),
        decreases queue@.len(),
    {
        let ghost q0 = queue@;
        let a = pop_min(&mut queue);
        let ghost q1 = queue@;
        let b = pop_min(&mut queue);
        let ghost q2 = queue@;
        proof {
            let m0 = choose|m: int| 0 <= m < q0.len() && a == q0[m] && q1 == q0.remove(m);
            lemma_forest_remove(q0, m0);
            let m1 = choose|m: int| 0 <= m < q1.len() && b == q1[m] && q2 == q1.remove(m);
            lemma_forest_remove(q1, m1);
            assert(a.weights_add_up());
            assert(q1[m1].weights_add_up()) by {
                if m1 < m0 {
                    assert(q1[m1] == q0[m1]);
                } else {
                    assert(q1[m1] == q0[m1 + 1]);
                }
            }
            assert forall|k: int| 0 <= k < q2.len() implies (#[trigger] q2[k]).weights_add_up()
                && leaves_weigh_counts(q2[k], frequencies@) by {
                let k1 = if k < m1 { k } else { k + 1 };
                assert(q2[k] == q1[k1]);
                if k1 < m0 {
                    assert(q1[k1] == q0[k1]);
                } else {
                    assert(q1[k1] == q0[k1 + 1]);
                }
            }
            assert(leaves_weigh_counts(a, frequencies@));
            assert(leaves_weigh_counts(q1[m1], frequencies@)) by {
                if m1 < m0 {
                    assert(q1[m1] == q0[m1]);
                } else {
                    assert(q1[m1] == q0[m1 + 1]);
                }
            }
        }
        let w = a.frequency() + b.frequency();
        let node = HuffmanNode::InternalNode { left: Box::new(a), right: Box::new(b), combined_frequency: w };
        proof {
            assert(node == merge_of(a, b));
            assert(q2.push(node) == merge_round(q0));
            lemma_forest_push(q2, node);
            assert forall|j: int|
                0 <= j < frequencies@.len() && #[trigger] node.symbols().count(frequencies@[j].0) > 0
                implies node.leaf_weight(frequencies@[j].0) == frequencies@[j].1 by {
                if a.symbols().count(frequencies@[j].0) > 0 {
                    assert(a.symbols().count(frequencies@[j].0) > 0);
                } else {
                    assert(b.symbols().count(frequencies@[j].0) > 0);
                }
            }
        }
        queue.push(node);
    }
    let root = queue.remove(0);
    proof {
        let q = queue@;
        assert(q.len() == 0);
        assert(forest_symbols(q) =~= Multiset::<char>::empty());
        assert(forest_weight(q) == 0);
        lemma_forest_push(q, root);
        assert(q.push(root) =~= seq![root]);
        assert forall|c: char| root.symbols().count(c) <= 1 by {
            lemma_freq_symbols_distinct(frequencies@, c);
        }
        assert(leaves_weigh_counts(q.push(root)[0], frequencies@));
        assert(merged(q.push(root)) == root);
        assert forall|i: int| 0 <= i < frequencies@.len() implies #[trigger] root.leaf_weight(frequencies@[i].0) == frequencies@[i].1 by {
            lemma_key_counted(frequencies@, i);
        }
    }
    Ok(root)
}




/// Some entry of `t` is for `c`.
pub open spec fn has_code(t: Seq<(char, String)>, c: char) -> bool {
    exists|i: int| 0 <= i < t.len() && #[trigger] t[i].0 == c
}

/// Entry `i` is the first entry of `t` for `c`.
pub open spec fn is_first_entry(t: Seq<(char, String)>, c: char, i: int) -> bool {
    0 <= i < t.len() && t[i].0 == c && forall|j: int| 0 <= j < i ==> #[trigger] t[j].0 != c
}

/// The code of the first entry of `t` for `c` (empty where there is none).
pub open spec fn code_for(t: Seq<(char, String)>, c: char) -> Seq<char> {
    if has_code(t, c) {
        t[choose|i: int| is_first_entry(t, c, i)].1@
    } else {
        Seq::empty()
    }
}

/// The codes of the symbols of `data`, one after the other.
pub open spec fn encoding(t: Seq<(char, String)>, data: Seq<char>) -> Seq<char>
    decreases data.len(),
{
    if data.len() == 0 {
        Seq::empty()
    } else {
        code_for(t, data[0]) + encoding(t, data.drop_first())
    }
}

/// Reads `bits` from the front, each time taking the symbol whose code
/// starts what is left.
pub open spec fn decode(t: Seq<(char, String)>, bits: Seq<char>) -> Seq<char>
    decreases bits.len(),
{
    if bits.len() == 0 {
        Seq::empty()
    } else if exists|i: int| 0 <= i < t.len() && t[i].1@.len() > 0 && #[trigger] is_prefix_of(t[i].1@, bits) {
        let i = choose|i: int| 0 <= i < t.len() && t[i].1@.len() > 0 && #[trigger] is_prefix_of(t[i].1@, bits);
        seq![t[i].0] + decode(t, bits.subrange(t[i].1@.len() as int, bits.len() as int))
    } else {
        Seq::empty()
    }
}

proof fn lemma_first_entry(t: Seq<(char, String)>, c: char, i: int)
    requires
        is_first_entry(t, c, i),
    ensures
        has_code(t, c),
        code_for(t, c) == t[i].1@,
{
    let k = choose|k: int| is_first_entry(t, c, k);
    if k < i {
        assert(t[k].0 != c);
    } else if k > i {
        assert(t[i].0 != c);
    }
}

proof fn lemma_has_first_entry(t: Seq<(char, String)>, c: char)
    requires
        has_code(t, c),
    ensures
        exists|i: int| is_first_entry(t, c, i),
    decreases t.len(),
{
    if t[0].0 != c {
        let u = t.drop_first();
        let j = choose|j: int| 0 <= j < t.len() && #[trigger] t[j].0 == c;
        assert(u[j - 1].0 == c);
        lemma_has_first_entry(u, c);
        let i = choose|i: int| is_first_entry(u, c, i);
        assert forall|k: int| 0 <= k < i + 1 implies #[trigger] t[k].0 != c by {
            if k > 0 {
                assert(t[k] == u[k - 1]);
            }
        }
        assert(is_first_entry(t, c, i + 1));
    } else {
        assert(is_first_entry(t, c, 0));
    }
}

proof fn lemma_encoding_push(t: Seq<(char, String)>, data: Seq<char>, c: char)
    ensures
        encoding(t, data.push(c)) == encoding(t, data) + code_for(t, c),
    decreases data.len(),
{
    if data.len() == 0 {
        assert(data.push(c).drop_first() =~= data);
        assert(encoding(t, data.push(c)) =~= encoding(t, data) + code_for(t, c));
    } else {
        lemma_encoding_push(t, data.drop_first(), c);
        assert(data.push(c).drop_first() =~= data.drop_first().push(c));
        assert(encoding(t, data.push(c)) =~= encoding(t, data) + code_for(t, c));
    }
}

/// Finds the first entry of `table` for `c`.
fn find_code(table: &Vec<(char, String)>, c: char) -> (r: Option<usize>)
    ensures
        match r {
            Some(i) => is_first_entry(table@, c, i as int),
            None => !has_code(table@, c),
        },
{
    let mut i: usize = 0;
    while i < table.len()
        invariant
            i <= table@.len(),
            forall|j: int| 0 <= j < i ==> #[trigger] table@[j].0 != c,
        decreases table@.len() - i,
    {
        if table[i].0 == c {
            return Some(i);
        }
        i = i + 1;
    }
    None
}

/// Concatenates the codes of the symbols of `data`, in order.
pub fn encode_data(data: &Vec<char>, huffman_codes: &Vec<(char, String)>) -> (r: Result<String, HuffmanError>)
    ensures
        match r {
            Ok(bits) => (forall|k: int| 0 <= k < data@.len() ==> has_code(huffman_codes@, #[trigger] data@[k]))
                && bits@ == encoding(huffman_codes@, data@),
            Err(e) => e == HuffmanError::SymbolNotInTable && exists|k: int|
                0 <= k < data@.len() && !has_code(huffman_codes@, #[trigger] data@[k]),
        },
{
    let mut encoded_data = String::new();
    let mut i: usize = 0;
    proof {
        assert(data@.subrange(0, 0) =~= Seq::<char>::empty());
        assert(encoding(huffman_codes@, Seq::<char>::empty()) == Seq::<char>::empty());
    }
    while i < data.len()
        invariant
            i <= data@.len(),
            forall|k: int| 0 <= k < i ==> has_code(huffman_codes@, #[trigger] data@[k]),
            encoded_data@ == encoding(huffman_codes@, data@.subrange(0, i as int)),
        decreases data@.len() - i,
    {
        let c = data[i];
        match find_code(huffman_codes, c) {
            Some(j) => {
                proof {
                    lemma_first_entry(huffman_codes@, c, j as int);
                    lemma_encoding_push(huffman_codes@, data@.subrange(0, i as int), c);
                    assert(data@.subrange(0, i as int).push(c) =~= data@.subrange(0, i as int + 1));
                }
                encoded_data.append(huffman_codes[j].1.as_str());
            },
            None => {
                return Err(HuffmanError::SymbolNotInTable);
            },
        }
        i = i + 1;
    }
    proof {
        assert(data@.subrange(0, i as int) =~= data@);
    }
    Ok(encoded_data)
}

/// Decoding the encoding of `data` with a prefix-free table of non-empty
/// codes that has a code for every symbol of `data` gives `data` back.
pub proof fn lemma_round_trip(t: Seq<(char, String)>, data: Seq<char>)
    requires
        prefix_free(t),
        forall|i: int| 0 <= i < t.len() ==> (#[trigger] t[i].1@).len() > 0,
        forall|k: int| 0 <= k < data.len() ==> has_code(t, #[trigger] data[k]),
    ensures
        decode(t, encoding(t, data)) == data,
    decreases data.len(),
{
    if data.len() > 0 {
        let c = data[0];
        let rest = data.drop_first();
        assert(has_code(t, data[0]));
        lemma_has_first_entry(t, c);
        let j = choose|j: int| is_first_entry(t, c, j);
        lemma_first_entry(t, c, j);
        let code = t[j].1@;
        let bits = encoding(t, data);
        assert(bits == code + encoding(t, rest));
        assert(bits.subrange(0, code.len() as int) =~= code);
        assert(is_prefix_of(t[j].1@, bits));
        let i = choose|i: int| 0 <= i < t.len() && t[i].1@.len() > 0 && #[trigger] is_prefix_of(t[i].1@, bits);
        if i != j {
            let ci = t[i].1@;
            if ci.len() <= code.len() {
                assert(code.subrange(0, ci.len() as int) =~= bits.subrange(0, ci.len() as int));
                assert(is_prefix_of(t[i].1@, t[j].1@));
            } else {
                assert(ci.subrange(0, code.len() as int) =~= bits.subrange(0, code.len() as int));
                assert(is_prefix_of(t[j].1@, t[i].1@));
            }
        }
        assert(bits.subrange(code.len() as int, bits.len() as int) =~= encoding(t, rest));
        assert forall|k: int| 0 <= k < rest.len() implies has_code(t, #[trigger] rest[k]) by {
            assert(rest[k] == data[k + 1]);
        }
        lemma_round_trip(t, rest);
        assert(decode(t, bits) =~= data);
    }
}


proof fn lemma_same_key_step(data: Seq<char>, a: Seq<(char, u64)>, b: Seq<(char, u64)>, m: int)
    requires
        is_frequency_table(data, a),
        is_frequency_table(data, b),
        0 <= m < a.len(),
        m < b.len(),
        forall|i: int| 0 <= i < m ==> #[trigger] a[i].0 == b[i].0,
    ensures
        a[m].0 == b[m].0,
{
    let x = a[m].0;
    let y = b[m].0;
    assert(a[m].1 == occurrences(data, x));
    assert(b[m].1 == occurrences(data, y));
    assert(data.contains(x));
    assert(data.contains(y));
    let j = choose|j: int| 0 <= j < b.len() && #[trigger] b[j].0 == x;
    let j2 = choose|j: int| 0 <= j < a.len() && #[trigger] a[j].0 == y;
    if x != y {
        if j < m {
            assert(a[j].0 == b[j].0);
            assert(a[j].0 < a[m].0);
        } else if j2 < m {
            assert(a[j2].0 == b[j2].0);
            assert(b[j2].0 < b[m].0);
        } else {
            assert(b[m].0 < b[j].0);
            assert(a[m].0 < a[j2].0);
        }
    }
}

proof fn lemma_same_keys_upto(data: Seq<char>, a: Seq<(char, u64)>, b: Seq<(char, u64)>, k: int)
    requires
        is_frequency_table(data, a),
        is_frequency_table(data, b),
        0 <= k <= a.len(),
        k <= b.len(),
    ensures
        forall|i: int| 0 <= i < k ==> #[trigger] a[i].0 == b[i].0,
    decreases k,
{
    if k > 0 {
        lemma_same_keys_upto(data, a, b, k - 1);
        lemma_same_key_step(data, a, b, k - 1);
    }
}

proof fn lemma_no_longer(data: Seq<char>, a: Seq<(char, u64)>, b: Seq<(char, u64)>)
    requires
        is_frequency_table(data, a),
        is_frequency_table(data, b),
    ensures
        b.len() <= a.len(),
{
    if a.len() < b.len() {
        let m = a.len() as int;
        lemma_same_keys_upto(data, a, b, m);
        let y = b[m].0;
        assert(b[m].1 == occurrences(data, y));
        assert(data.contains(y));
        let j = choose|j: int| 0 <= j < a.len() && #[trigger] a[j].0 == y;
        assert(a[j].0 == b[j].0);
        assert(b[j].0 < b[m].0);
    }
}

/// A sequence of symbols has exactly one frequency table.
pub proof fn lemma_frequency_table_unique(data: Seq<char>, a: Seq<(char, u64)>, b: Seq<(char, u64)>)
    requires
        is_frequency_table(data, a),
        is_frequency_table(data, b),
    ensures
        a == b,
{
    lemma_no_longer(data, a, b);
    lemma_no_longer(data, b, a);
    lemma_same_keys_upto(data, a, b, a.len() as int);
    assert forall|i: int| 0 <= i < a.len() implies a[i] == b[i] by {
        assert(a[i].0 == b[i].0);
        assert(a[i].1 == occurrences(data, a[i].0));
        assert(b[i].1 == occurrences(data, b[i].0));
    }
    assert(a =~= b);
}

/// The frequency table of `data`.
pub open spec fn frequency_table_of(data: Seq<char>) -> Seq<(char, u64)> {
    choose|f: Seq<(char, u64)>| is_frequency_table(data, f)
}

/// The Huffman tree that the builder makes for `data`.
pub open spec fn huffman_tree_of(data: Seq<char>) -> HuffmanNode {
    merged(leaf_seq(frequency_table_of(data)))
}

/// `root` is a Huffman tree over the symbols of `data`: one leaf per distinct
/// symbol, weighing how often it occurs, merge points weighing what their
/// children weigh, and a total weight of the length of `data`.
pub open spec fn is_tree_for(root: HuffmanNode, data: Seq<char>) -> bool {
    &&& forall|c: char| #[trigger] root.symbols().count(c) == if data.contains(c) {
        1nat
    } else {
        0nat
    }
    &&& forall|c: char| data.contains(c) ==> #[trigger] root.leaf_weight(c) == occurrences(data, c)
    &&& root.weights_add_up()
    &&& root.weight() == data.len()
}

/// `t` is the canonical code table of some Huffman tree over the symbols of
/// `data`.
pub open spec fn is_code_table_for(data: Seq<char>, t: Seq<(char, String)>) -> bool {
    exists|root: HuffmanNode| is_tree_for(root, data) && is_canonical_table(root, t)
}

proof fn lemma_key_counted(f: Seq<(char, u64)>, i: int)
    requires
        0 <= i < f.len(),
    ensures
        freq_symbols(f).count(f[i].0) > 0,
    decreases f.len(),
{
    if i < f.len() - 1 {
        lemma_key_counted(f.drop_last(), i);
    }
}

proof fn lemma_frequency_symbols(data: Seq<char>, f: Seq<(char, u64)>, c: char)
    requires
        is_frequency_table(data, f),
    ensures
        freq_symbols(f).count(c) == if data.contains(c) {
            1nat
        } else {
            0nat
        },
{
    lemma_freq_symbols_distinct(f, c);
    if data.contains(c) {
        let i = choose|i: int| 0 <= i < f.len() && #[trigger] f[i].0 == c;
        lemma_key_counted(f, i);
    } else if freq_symbols(f).count(c) > 0 {
        let i = choose|i: int| 0 <= i < f.len() && f[i].0 == c;
        assert(f[i].1 == occurrences(data, c));
    }
}

/// The canonical code table of the symbols of `data`: counts them, builds the
/// Huffman tree and assigns canonical codes to its leaves.
pub fn canonical_code_table(data: &Vec<char>) -> (r: Result<Vec<(char, String)>, HuffmanError>)
    ensures
        match r {
            Ok(t) => data@.len() > 0 && is_code_table_for(data@, t@) && is_canonical_table(
                huffman_tree_of(data@),
                t@,
            ),
            Err(HuffmanError::EmptyAlphabet) => data@.len() == 0,
            Err(HuffmanError::CodeWidthOverflow) => exists|root: HuffmanNode|
                is_tree_for(root, data@) && root.height() > 32,
            Err(HuffmanError::SymbolNotInTable) => false,
        },
{
    let frequencies = count_frequencies(data);
    let n: usize = data.len();
    proof {
        assert(usize::MAX <= u64::MAX);
        assert(total_weight(frequencies@) == n);
    }
    let tree = match build_huffman_tree(&frequencies) {
        Ok(tree) => tree,
        Err(e) => {
            proof {
                if data@.len() > 0 {
                    assert(data@.contains(data@[0]));
                }
            }
            return Err(e);
        },
    };
    let ghost root = tree;
    proof {
        assert forall|c: char| #[trigger] root.symbols().count(c) == if data@.contains(c) {
            1nat
        } else {
            0nat
        } by {
            lemma_frequency_symbols(data@, frequencies@, c);
        }
        assert forall|c: char| data@.contains(c) implies #[trigger] root.leaf_weight(c) == occurrences(data@, c) by {
            let i = choose|i: int| 0 <= i < frequencies@.len() && #[trigger] frequencies@[i].0 == c;
            assert(root.leaf_weight(frequencies@[i].0) == frequencies@[i].1);
        }
        assert(is_tree_for(root, data@));
        lemma_frequency_table_unique(data@, frequency_table_of(data@), frequencies@);
        assert(root == huffman_tree_of(data@));
    }
    assign_huffman_codes(&tree)
}

/// `bits` is `data` encoded with the canonical code table of the Huffman tree
/// that the builder makes for it.
pub open spec fn encodes_canonically(data: Seq<char>, bits: Seq<char>) -> bool {
    exists|t: Seq<(char, String)>|
        is_code_table_for(data, t) && is_canonical_table(huffman_tree_of(data), t) && bits == encoding(
            t,
            data,
        )
}

/// Encodes the characters of `data` with their canonical Huffman code.
/// An empty input gives an empty output.
pub fn canonically_encode_data(data: &str) -> (r: Result<String, HuffmanError>)
    ensures
        data@.len() == 0 ==> r is Ok,
        match r {
            Ok(bits) => data@.len() == 0 && bits@ == Seq::<char>::empty() || encodes_canonically(data@, bits@),
            Err(e) => data@.len() > 0 && e == HuffmanError::CodeWidthOverflow && exists|root: HuffmanNode|
                is_tree_for(root, data@) && root.height() > 32,
        },
{
    let chars = chars_of(data);
    if chars.len() == 0 {
        return Ok(String::new());
    }
    let table = match canonical_code_table(&chars) {
        Ok(table) => table,
        Err(e) => {
            return Err(e);
        },
    };
    proof {
        let root = choose|root: HuffmanNode| is_tree_for(root, chars@) && is_canonical_table(root, table@);
        assert forall|k: int| 0 <= k < chars@.len() implies has_code(table@, #[trigger] chars@[k]) by {
            let c = chars@[k];
            assert(chars@.contains(c));
            assert(root.symbols().count(c) == 1);
            lemma_table_symbol_has_code(table@, c);
        }
    }
    match encode_data(&chars, &table) {
        Ok(bits) => Ok(bits),
        Err(e) => Err(e),
    }
}


/// Encoding `data` with any canonical code table of its symbols and decoding
/// the bits with the same table gives `data` back.
pub proof fn lemma_canonical_round_trip(data: Seq<char>, t: Seq<(char, String)>)
    requires
        is_code_table_for(data, t),
    ensures
        decode(t, encoding(t, data)) == data,
{
    let root = choose|root: HuffmanNode| is_tree_for(root, data) && is_canonical_table(root, t);
    assert forall|k: int| 0 <= k < data.len() implies has_code(t, #[trigger] data[k]) by {
        assert(data.contains(data[k]));
        assert(root.symbols().count(data[k]) == 1);
        lemma_table_symbol_has_code(t, data[k]);
    }
    assert forall|i: int| 0 <= i < t.len() implies (#[trigger] t[i].1@).len() > 0 by {
        assert(1 <= code_len(t, i));
    }
    lemma_round_trip(t, data);
}


proof fn lemma_same_entries_same_encoding(a: Seq<(char, String)>, b: Seq<(char, String)>, data: Seq<char>)
    requires
        a.len() == b.len(),
        forall|i: int| 0 <= i < a.len() ==> #[trigger] a[i].0 == b[i].0 && a[i].1@ == b[i].1@,
    ensures
        encoding(a, data) == encoding(b, data),
    decreases data.len(),
{
    if data.len() > 0 {
        let c = data[0];
        if has_code(a, c) {
            lemma_has_first_entry(a, c);
            let i = choose|i: int| is_first_entry(a, c, i);
            lemma_first_entry(a, c, i);
            assert forall|j: int| 0 <= j < i implies #[trigger] b[j].0 != c by {
                assert(a[j].0 == b[j].0);
                assert(a[j].0 != c);
            }
            assert(is_first_entry(b, c, i));
            lemma_first_entry(b, c, i);
        } else {
            if has_code(b, c) {
                let j = choose|j: int| 0 <= j < b.len() && #[trigger] b[j].0 == c;
                assert(a[j].0 == c);
            }
        }
        lemma_same_entries_same_encoding(a, b, data.drop_first());
    }
}

/// Encoding one input twice gives the same bits: the code table, and with it
/// the encoding, is determined by the input.
pub proof fn lemma_encoding_deterministic(data: Seq<char>, bits1: Seq<char>, bits2: Seq<char>)
    requires
        encodes_canonically(data, bits1),
        encodes_canonically(data, bits2),
    ensures
        bits1 == bits2,
{
    let t1 = choose|t: Seq<(char, String)>|
        is_code_table_for(data, t) && is_canonical_table(huffman_tree_of(data), t) && bits1 == encoding(t, data);
    let t2 = choose|t: Seq<(char, String)>|
        is_code_table_for(data, t) && is_canonical_table(huffman_tree_of(data), t) && bits2 == encoding(t, data);
    lemma_canonical_table_unique(huffman_tree_of(data), t1, t2);
    lemma_same_entries_same_encoding(t1, t2, data);
}

} // verus!
