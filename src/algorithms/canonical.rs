use crate::algorithms::bit_string::{
    bits_of, is_prefix_of, lemma_bits_len, lemma_bits_injective, lemma_prefix_iff_high_part,
    lemma_value_of_bits, value_of,
};
use crate::algorithms::huffman::{get_binary_string, has_code, is_prefix, HuffmanError, HuffmanNode};
use vstd::arithmetic::power2::{lemma_pow2_pos, lemma_pow2_unfold, pow2};
use vstd::multiset::Multiset;
use vstd::prelude::*;
use vstd::string::StrSliceExecFns;

verus! {

broadcast use vstd::seq_lib::group_to_multiset_ensures, vstd::multiset::group_multiset_axioms;

/// Symbols in strictly ascending order.
pub open spec fn strictly_ascending(s: Seq<char>) -> bool {
    forall|i: int, j: int| 0 <= i < j < s.len() ==> s[i] < s[j]
}

/// Inserts `c` into the ascending `chars`, keeping them ascending.
fn insert_sorted(chars: &mut Vec<char>, c: char)
    requires
        strictly_ascending(old(chars)@),
        !old(chars)@.contains(c),
    ensures
        strictly_ascending(final(chars)@),
        final(chars)@.len() == old(chars)@.len() + 1,
        final(chars)@.to_multiset() == old(chars)@.to_multiset().insert(c),
        forall|x: char| final(chars)@.contains(x) <==> (old(chars)@.contains(x) || x == c),
{
    let mut p: usize = 0;
    while p < chars.len() && chars[p] < c
        invariant
            p <= chars@.len(),
            forall|k: int| 0 <= k < p ==> chars@[k] < c,
        decreases chars@.len() - p,
    {
        p = p + 1;
    }
    let ghost before = chars@;
    proof {
        if p < before.len() {
            assert(before[p as int] != c);
        }
    }
    chars.insert(p, c);
    proof {
        let after = chars@;
        assert(after == before.insert(p as int, c));
        assert forall|x: char| after.contains(x) <==> (before.contains(x) || x == c) by {
            if after.contains(x) {
                let k = choose|k: int| 0 <= k < after.len() && after[k] == x;
                if k < p {
                    assert(before[k] == x);
                } else if k > p {
                    assert(before[k - 1] == x);
                }
            }
            if before.contains(x) {
                let k = choose|k: int| 0 <= k < before.len() && before[k] == x;
                if k < p {
                    assert(after[k] == x);
                } else {
                    assert(after[k + 1] == x);
                }
            }
            if x == c {
                assert(after[p as int] == x);
            }
        }
    }
}

/// The symbols of all the subtrees in `level`, with repetition.
pub open spec fn frontier_symbols(level: Seq<&HuffmanNode>) -> Multiset<char>
    decreases level.len(),
{
    if level.len() == 0 {
        Multiset::empty()
    } else {
        level[0].symbols().add(frontier_symbols(level.drop_first()))
    }
}

/// `level` lists subtrees that stand `d` edges below `root`.
pub open spec fn frontier_at(root: HuffmanNode, level: Seq<&HuffmanNode>, d: nat) -> bool {
    &&& forall|i: int, c: char|
        0 <= i < level.len() && #[trigger] level[i].symbols().count(c) > 0 ==> root.depth_of(c)
            == d + level[i].depth_of(c)
    &&& forall|i: int, c: char| 0 <= i < level.len() ==> #[trigger] level[i].symbols().count(c) <= 1
    &&& forall|i: int| 0 <= i < level.len() ==> d + #[trigger] level[i].height() <= root.height()
}

/// Some subtree of `level` reaches the deepest leaf of `root`.
pub open spec fn frontier_reaches(root: HuffmanNode, level: Seq<&HuffmanNode>, d: nat) -> bool {
    exists|i: int| 0 <= i < level.len() && d + #[trigger] level[i].height() == root.height()
}

proof fn lemma_frontier_split(level: Seq<&HuffmanNode>, j: int)
    requires
        0 <= j < level.len(),
    ensures
        frontier_symbols(level.subrange(j, level.len() as int)) == level[j].symbols().add(
            frontier_symbols(level.subrange(j + 1, level.len() as int)),
        ),
{
    assert(level.subrange(j, level.len() as int).drop_first() =~= level.subrange(
        j + 1,
        level.len() as int,
    ));
}

proof fn lemma_frontier_push(level: Seq<&HuffmanNode>, n: &HuffmanNode)
    ensures
        frontier_symbols(level.push(n)) == frontier_symbols(level).add(n.symbols()),
    decreases level.len(),
{
    if level.len() == 0 {
        assert(level.push(n).drop_first() =~= level);
    } else {
        lemma_frontier_push(level.drop_first(), n);
        assert(level.push(n).drop_first() =~= level.drop_first().push(n));
    }
}

/// Splits the subtrees of one level into the symbols of its leaves, in
/// ascending order, and the children of its merge points, in order.
fn scan_level<'a>(level: &Vec<&'a HuffmanNode>, Ghost(root): Ghost<HuffmanNode>, Ghost(d): Ghost<nat>) -> (res: (Vec<&'a HuffmanNode>, Vec<char>))
    requires
        frontier_at(root, level@, d),
        frontier_reaches(root, level@, d),
        forall|c: char| frontier_symbols(level@).count(c) <= 1,
    ensures
        res.1@.to_multiset().add(frontier_symbols(res.0@)) == frontier_symbols(level@),
        strictly_ascending(res.1@),
        forall|k: int| 0 <= k < res.1@.len() ==> root.depth_of(#[trigger] res.1@[k]) == d,
        frontier_at(root, res.0@, d + 1),
        res.0@.len() > 0 ==> frontier_reaches(root, res.0@, d + 1),
        res.0@.len() == 0 <==> root.height() == d,
        2 * res.1@.len() + res.0@.len() == 2 * level@.len(),
{
    let mut next: Vec<&'a HuffmanNode> = Vec::new();
    let mut chars: Vec<char> = Vec::new();
    let ghost w = choose|i: int| 0 <= i < level@.len() && d + level@[i].height() == root.height();
    let mut j: usize = 0;
    proof {
        assert(level@.subrange(0, level@.len() as int) =~= level@);
    }
    while j < level.len()
        invariant
            j <= level@.len(),
            frontier_at(root, level@, d),
            forall|c: char| frontier_symbols(level@).count(c) <= 1,
            0 <= w < level@.len(),
            d + level@[w].height() == root.height(),
            chars@.to_multiset().add(frontier_symbols(next@)).add(
                frontier_symbols(level@.subrange(j as int, level@.len() as int)),
            ) == frontier_symbols(level@),
            strictly_ascending(chars@),
            forall|k: int| 0 <= k < chars@.len() ==> root.depth_of(#[trigger] chars@[k]) == d,
            frontier_at(root, next@, d + 1),
            w < j && root.height() > d ==> frontier_reaches(root, next@, d + 1),
            next@.len() > 0 ==> root.height() > d,
            2 * chars@.len() + next@.len() == 2 * j,
        decreases level@.len() - j,
    {
        let node: &'a HuffmanNode = level[j];
        proof {
            lemma_frontier_split(level@, j as int);
        }
        match node {
            HuffmanNode::InternalNode { left, right, .. } => {
                let l: &'a HuffmanNode = &**left;
                let r: &'a HuffmanNode = &**right;
                let ghost old_next = next@;
                next.push(l);
                next.push(r);
                proof {
                    lemma_frontier_push(old_next, l);
                    lemma_frontier_push(old_next.push(l), r);
                    assert(frontier_at(root, next@, d + 1)) by {
                        assert forall|i: int, c: char|
                            0 <= i < next@.len() && #[trigger] next@[i].symbols().count(c) > 0
                            implies root.depth_of(c) == d + 1 + next@[i].depth_of(c) by {
                            if i >= old_next.len() {
                                assert(node.symbols().count(c) > 0);
                                assert(level@[j as int].symbols().count(c) > 0);
                                if i == old_next.len() + 1 {
                                    assert(l.symbols().count(c) == 0);
                                }
                            }
                        }
                        assert forall|i: int, c: char| 0 <= i < next@.len()
                            implies #[trigger] next@[i].symbols().count(c) <= 1 by {
                            if i >= old_next.len() {
                                assert(level@[j as int].symbols().count(c) <= 1);
                            }
                        }
                        assert forall|i: int| 0 <= i < next@.len()
                            implies d + 1 + #[trigger] next@[i].height() <= root.height() by {
                            if i >= old_next.len() {
                                assert(d + level@[j as int].height() <= root.height());
                            }
                        }
                    }
                    assert(d + level@[j as int].height() <= root.height());
                    if w == j {
                        if l.height() >= r.height() {
                            assert(d + 1 + next@[old_next.len() as int].height() == root.height());
                        } else {
                            assert(d + 1 + next@[old_next.len() as int + 1].height() == root.height());
                        }
                    }
                    if w < j && root.height() > d {
                        let i0 = choose|i: int| 0 <= i < old_next.len() && d + 1 + old_next[i].height() == root.height();
                        assert(next@[i0] == old_next[i0]);
                    }
                }
            },
            HuffmanNode::Data { character, .. } => {
                let c = *character;
                proof {
                    assert(node.symbols().count(c) == 1);
                    assert(frontier_symbols(level@).count(c) <= 1);
                    if chars@.contains(c) {
                        assert(chars@.to_multiset().count(c) > 0);
                        assert(false);
                    }
                    assert(root.depth_of(c) == d + level@[j as int].depth_of(c));
                    if w == j {
                        assert(root.height() == d);
                    }
                }
                insert_sorted(&mut chars, c);
                proof {
                    assert forall|k: int| 0 <= k < chars@.len() implies root.depth_of(#[trigger] chars@[k]) == d by {
                        let x = chars@[k];
                        assert(chars@.contains(x));
                    }
                }
            },
        }
        j = j + 1;
    }
    proof {
        assert(level@.subrange(level@.len() as int, level@.len() as int).len() == 0);
        assert(frontier_symbols(level@.subrange(level@.len() as int, level@.len() as int)) == Multiset::<char>::empty());
        if root.height() == d && next@.len() > 0 {
            assert(false);
        }
    }
    (next, chars)
}


/// The length of the `i`-th code of `t`.
pub open spec fn code_len(t: Seq<(char, String)>, i: int) -> nat {
    t[i].1@.len()
}

/// The number that the `i`-th code of `t` spells.
pub open spec fn code_val(t: Seq<(char, String)>, i: int) -> nat {
    value_of(t[i].1@)
}

/// Every code is a non-empty string of binary digits, at most 32 long.
pub open spec fn binary_codes(t: Seq<(char, String)>) -> bool {
    forall|i: int|
        0 <= i < t.len() ==> {
            &&& #[trigger] t[i].1@ == bits_of(code_val(t, i), code_len(t, i))
            &&& 1 <= code_len(t, i) <= 32
            &&& code_val(t, i) < pow2(code_len(t, i))
        }
}

/// No code is a prefix of another entry's code.
pub open spec fn prefix_free(t: Seq<(char, String)>) -> bool {
    forall|i: int, j: int|
        0 <= i < t.len() && 0 <= j < t.len() && i != j ==> !is_prefix_of(
            #[trigger] t[i].1@,
            #[trigger] t[j].1@,
        )
}

/// Entry `i` comes before entry `j` by code length, then by symbol.
pub open spec fn entry_precedes(t: Seq<(char, String)>, i: int, j: int) -> bool {
    code_len(t, i) < code_len(t, j) || (code_len(t, i) == code_len(t, j) && t[i].0 < t[j].0)
}

/// Entries run by code length, and by ascending symbol within one length.
pub open spec fn canonically_ordered(t: Seq<(char, String)>) -> bool {
    forall|i: int, j: int| 0 <= i < j < t.len() ==> #[trigger] entry_precedes(t, i, j)
}

/// Within one code length, code values grow with the symbols.
pub open spec fn values_ascend_within_length(t: Seq<(char, String)>) -> bool {
    forall|i: int, j: int|
        0 <= i < t.len() && 0 <= j < t.len() && code_len(t, i) == code_len(t, j) && #[trigger] t[i].0
            < #[trigger] t[j].0 ==> code_val(t, i) < code_val(t, j)
}

/// The first code is all zeros; each following code is the previous one plus
/// one, shifted left by the growth in length.
pub open spec fn canonical_successors(t: Seq<(char, String)>) -> bool {
    &&& t.len() > 0 ==> code_val(t, 0) == 0
    &&& forall|i: int|
        0 < i < t.len() ==> code_len(t, i - 1) <= code_len(t, i) && #[trigger] code_val(t, i) == (
        code_val(t, i - 1) + 1) * pow2((code_len(t, i) - code_len(t, i - 1)) as nat)
}

/// Some code of `t` is the high part of the `d`-bit number `x`.
pub open spec fn is_covered(t: Seq<(char, String)>, d: nat, x: nat) -> bool {
    exists|i: int|
        0 <= i < t.len() && #[trigger] code_len(t, i) <= d && x / pow2((d - code_len(t, i)) as nat)
            == code_val(t, i)
}

/// Seen as `d`-bit numbers, the codes of `t` cover exactly `0 .. cur`.
pub open spec fn covers_below(t: Seq<(char, String)>, d: nat, cur: nat) -> bool {
    &&& forall|i: int|
        0 <= i < t.len() ==> #[trigger] code_len(t, i) <= d && (code_val(t, i) + 1) * pow2(
            (d - code_len(t, i)) as nat,
        ) <= cur
    &&& forall|x: nat| x < cur ==> #[trigger] is_covered(t, d, x)
    &&& t.len() == 0 ==> cur == 0
    &&& t.len() > 0 ==> cur == (code_val(t, t.len() - 1) + 1) * pow2(
        (d - code_len(t, t.len() - 1)) as nat,
    )
}

/// What holds of the table between the steps of the canonical assignment.
pub open spec fn table_inv(t: Seq<(char, String)>, d: nat, cur: nat) -> bool {
    &&& binary_codes(t)
    &&& prefix_free(t)
    &&& canonically_ordered(t)
    &&& values_ascend_within_length(t)
    &&& canonical_successors(t)
    &&& covers_below(t, d, cur)
}

proof fn lemma_quotient_at_least(v: nat, p: nat, x: nat)
    requires
        p > 0,
        (v + 1) * p <= x,
    ensures
        x / p >= v + 1,
{
    assert((v + 1) * p == p * (v + 1)) by (nonlinear_arith);
    vstd::arithmetic::div_mod::lemma_div_is_ordered((p * (v + 1)) as int, x as int, p as int);
    vstd::arithmetic::div_mod::lemma_div_multiples_vanish((v + 1) as int, p as int);
}

/// What appending the code `cur` of width `d` asks of the table.
pub open spec fn push_ready(t: Seq<(char, String)>, d: nat, cur: nat, e: (char, String)) -> bool {
    &&& table_inv(t, d, cur)
    &&& 1 <= d <= 32
    &&& cur < pow2(d)
    &&& e.1@ == bits_of(cur, d)
    &&& forall|i: int| 0 <= i < t.len() && code_len(t, i) == d ==> #[trigger] t[i].0 < e.0
}

proof fn lemma_push_entry(t: Seq<(char, String)>, d: nat, cur: nat, e: (char, String))
    requires
        push_ready(t, d, cur, e),
    ensures
        code_len(t.push(e), t.len() as int) == d,
        code_val(t.push(e), t.len() as int) == cur,
        forall|i: int| 0 <= i < t.len() ==> #[trigger] t.push(e)[i] == t[i],
        forall|i: int| 0 <= i < t.len() ==> cur / pow2((d - code_len(t, i)) as nat) >= code_val(t, i) + 1,
        pow2(0) == 1,
{
    let n = t.len() as int;
    let t2 = t.push(e);
    lemma_bits_len(cur, d);
    lemma_value_of_bits(cur, d);
    vstd::arithmetic::div_mod::lemma_small_mod(cur, pow2(d));
    vstd::arithmetic::power2::lemma2_to64();
    assert(t2[n] == e);
    assert forall|i: int| 0 <= i < n implies cur / pow2((d - code_len(t, i)) as nat) >= code_val(t, i) + 1 by {
        lemma_pow2_pos((d - code_len(t, i)) as nat);
        lemma_quotient_at_least(code_val(t, i), pow2((d - code_len(t, i)) as nat), cur);
    }
}

proof fn lemma_push_codes(t: Seq<(char, String)>, d: nat, cur: nat, e: (char, String))
    requires
        push_ready(t, d, cur, e),
    ensures
        binary_codes(t.push(e)),
        prefix_free(t.push(e)),
{
    let n = t.len() as int;
    let t2 = t.push(e);
    lemma_push_entry(t, d, cur, e);
    lemma_bits_len(cur, d);
    assert forall|i: int| 0 <= i < t2.len() implies {
        &&& #[trigger] t2[i].1@ == bits_of(code_val(t2, i), code_len(t2, i))
        &&& 1 <= code_len(t2, i) <= 32
        &&& code_val(t2, i) < pow2(code_len(t2, i))
    } by {
        if i < n {
            assert(t2[i] == t[i]);
        }
    }
    assert forall|i: int, j: int|
        0 <= i < t2.len() && 0 <= j < t2.len() && i != j implies !is_prefix_of(
        #[trigger] t2[i].1@,
        #[trigger] t2[j].1@,
    ) by {
        if i < n && j < n {
            assert(t2[i] == t[i] && t2[j] == t[j]);
            assert(!is_prefix_of(t[i].1@, t[j].1@));
        } else if j == n {
            assert(t2[i] == t[i]);
            assert(t[i].1@ == bits_of(code_val(t, i), code_len(t, i)));
            lemma_prefix_iff_high_part(code_val(t, i), code_len(t, i), cur, d);
        } else {
            assert(t2[j] == t[j]);
            assert(t[j].1@ == bits_of(code_val(t, j), code_len(t, j)));
            if is_prefix_of(t2[i].1@, t2[j].1@) {
                assert(code_len(t, j) == d);
                assert(t[j].1@.subrange(0, d as int) =~= t[j].1@);
                lemma_bits_injective(cur, code_val(t, j), d);
            }
        }
    }
}

proof fn lemma_push_order(t: Seq<(char, String)>, d: nat, e: (char, String))
    requires
        canonically_ordered(t),
        forall|i: int| 0 <= i < t.len() ==> #[trigger] code_len(t, i) <= d,
        forall|i: int| 0 <= i < t.len() && code_len(t, i) == d ==> #[trigger] t[i].0 < e.0,
        e.1@.len() == d,
    ensures
        canonically_ordered(t.push(e)),
{
    let n = t.len() as int;
    let t2 = t.push(e);
    assert forall|i: int, j: int| 0 <= i < j < t2.len() implies #[trigger] entry_precedes(t2, i, j) by {
        assert(t2[i] == t[i]);
        assert(code_len(t2, i) == code_len(t, i));
        if j < n {
            assert(t2[j] == t[j]);
            assert(code_len(t2, j) == code_len(t, j));
            assert(entry_precedes(t, i, j));
        } else {
            assert(t2[j] == e);
            assert(code_len(t2, j) == d);
            assert(code_len(t, i) <= d);
            if code_len(t, i) == d {
                assert(t[i].0 < e.0);
            }
        }
    }
}

proof fn lemma_push_values(t: Seq<(char, String)>, d: nat, cur: nat, e: (char, String))
    requires
        push_ready(t, d, cur, e),
    ensures
        values_ascend_within_length(t.push(e)),
{
    let n = t.len() as int;
    let t2 = t.push(e);
    lemma_push_entry(t, d, cur, e);
    assert forall|i: int, j: int|
        0 <= i < t2.len() && 0 <= j < t2.len() && code_len(t2, i) == code_len(t2, j)
            && #[trigger] t2[i].0 < #[trigger] t2[j].0 implies code_val(t2, i) < code_val(t2, j) by {
        if i < n && j < n {
            assert(t2[i] == t[i] && t2[j] == t[j]);
        } else if i < n {
            assert(t2[i] == t[i]);
            assert(code_len(t, i) <= d);
            assert((code_val(t, i) + 1) * pow2((d - code_len(t, i)) as nat) <= cur);
        } else if j < n {
            assert(t2[j] == t[j]);
            assert(t[j].0 < e.0);
        }
    }
}

proof fn lemma_push_successors(t: Seq<(char, String)>, d: nat, cur: nat, e: (char, String))
    requires
        push_ready(t, d, cur, e),
    ensures
        canonical_successors(t.push(e)),
{
    let n = t.len() as int;
    let t2 = t.push(e);
    lemma_push_entry(t, d, cur, e);
    assert forall|i: int| 0 < i < t2.len() implies code_len(t2, i - 1) <= code_len(t2, i)
        && #[trigger] code_val(t2, i) == (code_val(t2, i - 1) + 1) * pow2(
        (code_len(t2, i) - code_len(t2, i - 1)) as nat,
    ) by {
        assert(t2[i - 1] == t[i - 1]);
        if i < n {
            assert(t2[i] == t[i]);
        } else {
            assert(code_len(t, n - 1) <= d);
        }
    }
    if n > 0 {
        assert(t2[0] == t[0]);
    }
}

proof fn lemma_push_cover(t: Seq<(char, String)>, d: nat, cur: nat, e: (char, String))
    requires
        push_ready(t, d, cur, e),
    ensures
        covers_below(t.push(e), d, cur + 1),
{
    let n = t.len() as int;
    let t2 = t.push(e);
    lemma_push_entry(t, d, cur, e);
    assert forall|i: int| 0 <= i < t2.len() implies #[trigger] code_len(t2, i) <= d && (code_val(t2, i)
        + 1) * pow2((d - code_len(t2, i)) as nat) <= cur + 1 by {
        if i < n {
            assert(t2[i] == t[i]);
        } else {
            assert((d - code_len(t2, i)) as nat == 0);
        }
    }
    assert forall|x: nat| x < cur + 1 implies #[trigger] is_covered(t2, d, x) by {
        if x < cur {
            assert(is_covered(t, d, x));
            let i = choose|i: int|
                0 <= i < t.len() && #[trigger] code_len(t, i) <= d && x / pow2(
                    (d - code_len(t, i)) as nat,
                ) == code_val(t, i);
            assert(t2[i] == t[i]);
            assert(code_len(t2, i) <= d);
        } else {
            assert((d - code_len(t2, n)) as nat == 0);
            assert(x / 1 == x);
            assert(x / pow2((d - code_len(t2, n)) as nat) == code_val(t2, n));
            assert(code_len(t2, n) <= d);
        }
    }
    assert(t2.len() - 1 == n);
    assert((d - code_len(t2, n)) as nat == 0);
    assert(pow2(0) == 1);
    assert(code_val(t2, n) == cur);
    assert((cur + 1) * 1 == cur + 1);
    assert((code_val(t2, n) + 1) * pow2((d - code_len(t2, n)) as nat) == cur + 1);
}

/// Appending the code `cur` of width `d` keeps the table canonical.
proof fn lemma_table_push(t: Seq<(char, String)>, d: nat, cur: nat, e: (char, String))
    requires
        push_ready(t, d, cur, e),
    ensures
        table_inv(t.push(e), d, cur + 1),
{
    lemma_push_codes(t, d, cur, e);
    lemma_push_entry(t, d, cur, e);
    lemma_push_order(t, d, e);
    lemma_push_values(t, d, cur, e);
    lemma_push_successors(t, d, cur, e);
    lemma_push_cover(t, d, cur, e);
}

/// Seen one bit wider, the covered range doubles.
proof fn lemma_table_deepen(t: Seq<(char, String)>, d: nat, cur: nat)
    requires
        table_inv(t, d, cur),
    ensures
        table_inv(t, d + 1, 2 * cur),
{
    assert forall|i: int| 0 <= i < t.len() implies pow2((d + 1 - code_len(t, i)) as nat) == 2 * pow2(
        (d - code_len(t, i)) as nat,
    ) by {
        assert(code_len(t, i) <= d);
        lemma_pow2_unfold((d + 1 - code_len(t, i)) as nat);
    }
    assert forall|i: int| 0 <= i < t.len() implies #[trigger] code_len(t, i) <= d + 1 && (code_val(t, i)
        + 1) * pow2((d + 1 - code_len(t, i)) as nat) <= 2 * cur by {
        assert(code_len(t, i) <= d);
        let p = pow2((d - code_len(t, i)) as nat);
        assert((code_val(t, i) + 1) * (2 * p) == 2 * ((code_val(t, i) + 1) * p)) by (nonlinear_arith);
    }
    assert forall|x: nat| x < 2 * cur implies #[trigger] is_covered(t, d + 1, x) by {
        assert(is_covered(t, d, x / 2));
        let i = choose|i: int|
            0 <= i < t.len() && #[trigger] code_len(t, i) <= d && (x / 2) / pow2(
                (d - code_len(t, i)) as nat,
            ) == code_val(t, i);
        lemma_pow2_pos((d - code_len(t, i)) as nat);
        vstd::arithmetic::div_mod::lemma_div_denominator(
            x as int,
            2,
            pow2((d - code_len(t, i)) as nat) as int,
        );
        assert(code_len(t, i) <= d + 1);
    }
    if t.len() > 0 {
        let i = t.len() - 1;
        let p = pow2((d - code_len(t, i)) as nat);
        assert((code_val(t, i) + 1) * (2 * p) == 2 * ((code_val(t, i) + 1) * p)) by (nonlinear_arith);
    }
}

/// Finds the smallest `d`-bit number from `lowest` on that no code of
/// `table` is a prefix of, and that is no prefix of any code. A candidate
/// that has a code as prefix is skipped together with every number sharing
/// that prefix.
fn first_free_code(table: &Vec<(char, String)>, lowest: u64, width: usize, Ghost(cur): Ghost<nat>) -> (r: u64)
    requires
        table_inv(table@, width as nat, cur),
        lowest <= cur,
        cur < pow2(width as nat),
        1 <= width <= 32,
    ensures
        r == cur,
{
    let mut i: u64 = lowest;
    proof {
        vstd::arithmetic::power2::lemma2_to64();
        vstd::arithmetic::power2::lemma_pow2_strictly_increases(width as nat, 33);
        if width < 32 {
            vstd::arithmetic::power2::lemma_pow2_strictly_increases(width as nat, 32);
        }
    }
    loop
        invariant
            table_inv(table@, width as nat, cur),
            i <= cur < pow2(width as nat) <= 0x1_0000_0000,
            1 <= width <= 32,
        decreases cur - i,
    {
        let candidate = get_binary_string(i as u32, width);
        let mut k: usize = 0;
        let mut hit: bool = false;
        while k < table.len() && !hit
            invariant
                table_inv(table@, width as nat, cur),
                candidate@ == bits_of(i as nat, width as nat),
                k <= table@.len(),
                hit ==> k < table@.len() && is_prefix_of(table@[k as int].1@, candidate@),
                !hit ==> forall|m: int| 0 <= m < k ==> !is_prefix_of(#[trigger] table@[m].1@, candidate@),
            decreases table@.len() - k + if hit { 0int } else { 1int },
        {
            let code = &table[k].1;
            if is_prefix(code, &candidate) || is_prefix(&candidate, code) {
                proof {
                    let t = table@;
                    assert(t[k as int].1@ == bits_of(code_val(t, k as int), code_len(t, k as int)));
                    lemma_bits_len(i as nat, width as nat);
                    if is_prefix_of(candidate@, code@) {
                        assert(code_len(t, k as int) <= width);
                        assert(code@.subrange(0, width as int) =~= code@);
                    }
                }
                hit = true;
            } else {
                k = k + 1;
            }
        }
        if !hit {
            proof {
                let t = table@;
                if (i as nat) < cur {
                    assert(is_covered(t, width as nat, i as nat));
                    let m = choose|m: int|
                        0 <= m < t.len() && #[trigger] code_len(t, m) <= width && (i as nat) / pow2(
                            (width - code_len(t, m)) as nat,
                        ) == code_val(t, m);
                    assert(t[m].1@ == bits_of(code_val(t, m), code_len(t, m)));
                    lemma_prefix_iff_high_part(code_val(t, m), code_len(t, m), i as nat, width as nat);
                    assert(!is_prefix_of(t[m].1@, candidate@));
                }
            }
            return i;
        }
        let len = table[k].1.as_str().unicode_len();
        let shift: usize = width - len;
        let ghost t = table@;
        let ghost v = code_val(t, k as int);
        let ghost p = pow2(shift as nat);
        proof {
            assert(t[k as int].1@ == bits_of(v, code_len(t, k as int)));
            lemma_prefix_iff_high_part(v, code_len(t, k as int), i as nat, width as nat);
            assert((i as nat) / p == v);
            assert((v + 1) * p <= cur);
            vstd::bits::lemma_u64_shr_is_div(i, shift as u64);
            lemma_pow2_pos(shift as nat);
            vstd::arithmetic::div_mod::lemma_fundamental_div_mod(i as int, p as int);
            vstd::arithmetic::div_mod::lemma_mod_pos_bound(i as int, p as int);
            let ii = i as int;
            let rr = ii % (p as int);
            assert(ii < (v + 1) * p) by (nonlinear_arith)
                requires
                    ii == p * v + rr,
                    0 <= rr < p,
            ;
        }
        let high: u64 = (i >> (shift as u64)) + 1;
        proof {
            vstd::bits::lemma_u64_shl_is_mul(high, shift as u64);
        }
        i = high << (shift as u64);
    }
}


/// The symbols that `t` gives codes to, with repetition.
pub open spec fn table_symbols(t: Seq<(char, String)>) -> Multiset<char>
    decreases t.len(),
{
    if t.len() == 0 {
        Multiset::empty()
    } else {
        table_symbols(t.drop_last()).insert(t.last().0)
    }
}

/// The length of the code that `c` gets from the tree `root`: its depth, or
/// one when the whole tree is a single leaf.
pub open spec fn code_length_for(root: HuffmanNode, c: char) -> nat {
    match root {
        HuffmanNode::Data { .. } => 1,
        HuffmanNode::InternalNode { .. } => root.depth_of(c),
    }
}

/// `t` is the canonical code table of the tree `root`: one entry per leaf,
/// each code as long as its leaf is deep, entries ordered by length and then
/// symbol, and each code the previous one plus one, widened to its length.
pub open spec fn is_canonical_table(root: HuffmanNode, t: Seq<(char, String)>) -> bool {
    &&& table_symbols(t) == root.symbols()
    &&& binary_codes(t)
    &&& prefix_free(t)
    &&& canonically_ordered(t)
    &&& values_ascend_within_length(t)
    &&& canonical_successors(t)
    &&& forall|i: int| 0 <= i < t.len() ==> #[trigger] code_len(t, i) == code_length_for(root, t[i].0)
}

proof fn lemma_table_symbols_push(t: Seq<(char, String)>, e: (char, String))
    ensures
        table_symbols(t.push(e)) == table_symbols(t).insert(e.0),
{
    assert(t.push(e).drop_last() =~= t);
}

/// Gives the ascending `chars` the consecutive codes `start, start + 1, ...`
/// of width `depth`.
fn assign_level(
    table: &mut Vec<(char, String)>,
    chars: &Vec<char>,
    start: u64,
    depth: usize,
    Ghost(root): Ghost<HuffmanNode>,
)
    requires
        table_inv(old(table)@, depth as nat, start as nat),
        1 <= depth <= 32,
        start + chars@.len() <= pow2(depth as nat),
        forall|i: int| 0 <= i < old(table)@.len() ==> #[trigger] code_len(old(table)@, i) < depth,
        forall|i: int|
            0 <= i < old(table)@.len() ==> #[trigger] code_len(old(table)@, i) == root.depth_of(
                old(table)@[i].0,
            ),
        strictly_ascending(chars@),
        forall|m: int| 0 <= m < chars@.len() ==> root.depth_of(#[trigger] chars@[m]) == depth,
    ensures
        table_inv(final(table)@, depth as nat, (start + chars@.len()) as nat),
        forall|i: int| 0 <= i < final(table)@.len() ==> #[trigger] code_len(final(table)@, i) <= depth,
        forall|i: int|
            0 <= i < final(table)@.len() ==> #[trigger] code_len(final(table)@, i) == root.depth_of(
                final(table)@[i].0,
            ),
        table_symbols(final(table)@) == table_symbols(old(table)@).add(chars@.to_multiset()),
{
    let ghost initial = table@;
    let mut k: usize = 0;
    proof {
        vstd::arithmetic::power2::lemma2_to64();
        if depth < 32 {
            vstd::arithmetic::power2::lemma_pow2_strictly_increases(depth as nat, 32);
        }
        assert(chars@.subrange(0, 0).to_multiset() =~= Multiset::<char>::empty());
        assert(table_symbols(initial) =~= table_symbols(initial).add(Multiset::<char>::empty()));
    }
    while k < chars.len()
        invariant
            1 <= depth <= 32,
            pow2(depth as nat) <= 0x1_0000_0000,
            start + chars@.len() <= pow2(depth as nat),
            k <= chars@.len(),
            table_inv(table@, depth as nat, (start + k) as nat),
            forall|i: int| 0 <= i < table@.len() ==> #[trigger] code_len(table@, i) <= depth,
            k < chars@.len() ==> forall|i: int|
                0 <= i < table@.len() && code_len(table@, i) == depth ==> #[trigger] table@[i].0
                    < chars@[k as int],
            forall|i: int|
                0 <= i < table@.len() ==> #[trigger] code_len(table@, i) == root.depth_of(
                    table@[i].0,
                ),
            strictly_ascending(chars@),
            forall|m: int| 0 <= m < chars@.len() ==> root.depth_of(#[trigger] chars@[m]) == depth,
            table_symbols(table@) == table_symbols(initial).add(chars@.subrange(0, k as int).to_multiset()),
        decreases chars@.len() - k,
    {
        let c = chars[k];
        let code = get_binary_string((start + k as u64) as u32, depth);
        let ghost before = table@;
        proof {
            assert(root.depth_of(chars@[k as int]) == depth);
            lemma_table_push(before, depth as nat, (start + k) as nat, (c, code));
            lemma_table_symbols_push(before, (c, code));
            lemma_bits_len((start + k) as nat, depth as nat);
            assert(chars@.subrange(0, k as int + 1) =~= chars@.subrange(0, k as int).push(c));
        }
        table.push((c, code));
        proof {
            let t = table@;
            assert(t[before.len() as int] == (c, code));
            assert forall|i: int| 0 <= i < t.len() implies #[trigger] code_len(t, i) == root.depth_of(t[i].0) by {
                if i < before.len() {
                    assert(t[i] == before[i]);
                }
            }
            assert forall|i: int| 0 <= i < t.len() implies #[trigger] code_len(t, i) <= depth by {
                if i < before.len() {
                    assert(t[i] == before[i]);
                }
            }
            if k + 1 < chars@.len() {
                assert forall|i: int|
                    0 <= i < t.len() && code_len(t, i) == depth implies #[trigger] t[i].0 < chars@[k + 1] by {
                    if i < before.len() {
                        assert(t[i] == before[i]);
                    }
                }
            }
        }
        k = k + 1;
    }
    proof {
        assert(chars@.subrange(0, k as int) =~= chars@);
    }
}

/// Assigns canonical codes to the leaves of `root_node`, level by level:
/// the leaves of one level, in ascending symbol order, take consecutive
/// numbers from the first one that no shorter code is a prefix of.
#[verifier::rlimit(50)]
pub fn assign_huffman_codes(root_node: &HuffmanNode) -> (r: Result<Vec<(char, String)>, HuffmanError>)
    requires
        root_node.distinct_symbols(),
    ensures
        match r {
            Ok(t) => root_node.height() <= 32 && is_canonical_table(*root_node, t@),
            Err(e) => root_node.height() > 32 && e == HuffmanError::CodeWidthOverflow,
        },
{
    if let HuffmanNode::Data { character, .. } = root_node {
        let code = get_binary_string(0, 1);
        let mut table: Vec<(char, String)> = Vec::new();
        let ghost empty = table@;
        table.push((*character, code));
        proof {
            let t = table@;
            lemma_table_symbols_push(empty, (*character, code));
            lemma_bits_len(0, 1);
            lemma_value_of_bits(0, 1);
            vstd::arithmetic::power2::lemma2_to64();
            assert(t[0] == (*character, code));
            assert(code_val(t, 0) == 0);
            assert(table_symbols(t) =~= root_node.symbols());
        }
        return Ok(table);
    }
    let ghost root = *root_node;
    let mut table: Vec<(char, String)> = Vec::new();
    let mut lowest: u64 = 0;
    let ghost mut cur: nat = 0;
    let mut level: Vec<&HuffmanNode> = Vec::new();
    level.push(root_node);
    let mut depth: usize = 0;
    proof {
        vstd::arithmetic::power2::lemma2_to64();
        assert(level@.drop_first() =~= Seq::<&HuffmanNode>::empty());
        assert(frontier_symbols(level@.drop_first()) == Multiset::<char>::empty());
        assert(frontier_symbols(level@) =~= root.symbols());
        assert(table_symbols(table@).add(frontier_symbols(level@)) =~= root.symbols());
        assert(frontier_reaches(root, level@, 0)) by {
            assert(0 + level@[0].height() == root.height());
        }
    }
    loop
        invariant
            root == *root_node,
            root is InternalNode,
            root.distinct_symbols(),
            table_inv(table@, depth as nat, cur),
            forall|i: int| 0 <= i < table@.len() ==> #[trigger] code_len(table@, i) < depth,
            forall|i: int|
                0 <= i < table@.len() ==> #[trigger] code_len(table@, i) == root.depth_of(
                    table@[i].0,
                ),
            cur + level@.len() == pow2(depth as nat),
            lowest <= cur,
            table_symbols(table@).add(frontier_symbols(level@)) == root.symbols(),
            frontier_at(root, level@, depth as nat),
            frontier_reaches(root, level@, depth as nat),
            depth <= root.height(),
        decreases root.height() - depth,
    {
        if depth > 32 {
            return Err(HuffmanError::CodeWidthOverflow);
        }
        proof {
            assert forall|c: char| frontier_symbols(level@).count(c) <= 1 by {
                assert(root.symbols().count(c) <= 1);
            }
        }
        let (next, chars) = scan_level(&level, Ghost(root), Ghost(depth as nat));
        if chars.len() > 0 {
            proof {
                assert(root.depth_of(chars@[0]) == depth);
                assert(depth >= 1);
                vstd::arithmetic::power2::lemma_pow2_strictly_increases(depth as nat, 33);
            }
            let start = first_free_code(&table, lowest, depth, Ghost(cur));
            lowest = start;
            assign_level(&mut table, &chars, start, depth, Ghost(root));
            proof {
                cur = cur + chars@.len();
                assert(table_symbols(table@).add(frontier_symbols(next@)) =~= root.symbols());
            }
        } else {
            proof {
                assert(chars@.to_multiset() =~= Multiset::<char>::empty());
            }
        }
        if next.len() == 0 {
            proof {
                assert(frontier_symbols(next@) =~= Multiset::<char>::empty());
                assert(table_symbols(table@) =~= root.symbols());
            }
            return Ok(table);
        }
        proof {
            lemma_table_deepen(table@, depth as nat, cur);
            cur = 2 * cur;
            lemma_pow2_unfold(depth as nat + 1);
        }
        level = next;
        depth = depth + 1;
    }
}


/// A symbol that the table counts has an entry.
pub proof fn lemma_table_symbol_has_code(t: Seq<(char, String)>, c: char)
    requires
        table_symbols(t).count(c) > 0,
    ensures
        has_code(t, c),
    decreases t.len(),
{
    if t.last().0 == c {
        assert(t[t.len() - 1].0 == c);
    } else {
        lemma_table_symbol_has_code(t.drop_last(), c);
        let i = choose|i: int| 0 <= i < t.len() - 1 && #[trigger] t.drop_last()[i].0 == c;
        assert(t[i].0 == c);
    }
}

proof fn lemma_table_symbols_len(t: Seq<(char, String)>)
    ensures
        table_symbols(t).len() == t.len(),
    decreases t.len(),
{
    if t.len() > 0 {
        lemma_table_symbols_len(t.drop_last());
    }
}

proof fn lemma_entry_counted(t: Seq<(char, String)>, i: int)
    requires
        0 <= i < t.len(),
    ensures
        table_symbols(t).count(t[i].0) > 0,
    decreases t.len(),
{
    if i < t.len() - 1 {
        lemma_entry_counted(t.drop_last(), i);
    }
}

/// Entry `m` of two tables ordered alike, over one symbol set, agrees in
/// symbol when all entries before it do.
proof fn lemma_same_symbol_step(root: HuffmanNode, a: Seq<(char, String)>, b: Seq<(char, String)>, m: int)
    requires
        canonically_ordered(a),
        canonically_ordered(b),
        forall|i: int| 0 <= i < a.len() ==> #[trigger] code_len(a, i) == code_length_for(root, a[i].0),
        forall|i: int| 0 <= i < b.len() ==> #[trigger] code_len(b, i) == code_length_for(root, b[i].0),
        table_symbols(a) == table_symbols(b),
        a.len() == b.len(),
        0 <= m < a.len(),
        forall|i: int| 0 <= i < m ==> #[trigger] a[i].0 == b[i].0,
    ensures
        a[m].0 == b[m].0,
{
    let x = a[m].0;
    let y = b[m].0;
    lemma_entry_counted(a, m);
    lemma_entry_counted(b, m);
    lemma_table_symbol_has_code(b, x);
    lemma_table_symbol_has_code(a, y);
    let j = choose|j: int| 0 <= j < b.len() && #[trigger] b[j].0 == x;
    let j2 = choose|j: int| 0 <= j < a.len() && #[trigger] a[j].0 == y;
    if x != y {
        assert(code_len(a, m) == code_length_for(root, x));
        assert(code_len(b, m) == code_length_for(root, y));
        assert(code_len(a, j2) == code_length_for(root, y));
        assert(code_len(b, j) == code_length_for(root, x));
        if j < m {
            assert(a[j].0 == b[j].0);
            assert(code_len(a, j) == code_length_for(root, x));
            assert(entry_precedes(a, j, m));
        } else if j2 < m {
            assert(a[j2].0 == b[j2].0);
            assert(code_len(b, j2) == code_length_for(root, y));
            assert(entry_precedes(b, j2, m));
        } else {
            assert(entry_precedes(b, m, j));
            assert(entry_precedes(a, m, j2));
        }
    }
}

/// Entries up to `k` of two canonical tables of one tree agree in symbol.
proof fn lemma_same_symbols_upto(root: HuffmanNode, a: Seq<(char, String)>, b: Seq<(char, String)>, k: int)
    requires
        canonically_ordered(a),
        canonically_ordered(b),
        forall|i: int| 0 <= i < a.len() ==> #[trigger] code_len(a, i) == code_length_for(root, a[i].0),
        forall|i: int| 0 <= i < b.len() ==> #[trigger] code_len(b, i) == code_length_for(root, b[i].0),
        table_symbols(a) == table_symbols(b),
        a.len() == b.len(),
        0 <= k <= a.len(),
    ensures
        forall|i: int| 0 <= i < k ==> #[trigger] a[i].0 == b[i].0,
    decreases k,
{
    if k > 0 {
        lemma_same_symbols_upto(root, a, b, k - 1);
        lemma_same_symbol_step(root, a, b, k - 1);
    }
}

/// Two canonical code tables of one Huffman tree are the same table: the
/// table is a function of the tree.
pub proof fn lemma_canonical_table_unique(root: HuffmanNode, a: Seq<(char, String)>, b: Seq<(char, String)>)
    requires
        is_canonical_table(root, a),
        is_canonical_table(root, b),
    ensures
        a.len() == b.len(),
        forall|i: int| 0 <= i < a.len() ==> #[trigger] a[i].0 == b[i].0 && a[i].1@ == b[i].1@,
{
    lemma_table_symbols_len(a);
    lemma_table_symbols_len(b);
    lemma_same_symbols_upto(root, a, b, a.len() as int);
    assert forall|i: int| 0 <= i < a.len() implies code_val(a, i) == code_val(b, i) && code_len(a, i)
        == code_len(b, i) by {
        lemma_same_values_upto(root, a, b, i);
    }
    assert forall|i: int| 0 <= i < a.len() implies #[trigger] a[i].0 == b[i].0 && a[i].1@ == b[i].1@ by {
        assert(a[i].0 == b[i].0);
        assert(code_val(a, i) == code_val(b, i) && code_len(a, i) == code_len(b, i));
        assert(a[i].1@ == bits_of(code_val(a, i), code_len(a, i)));
        assert(b[i].1@ == bits_of(code_val(b, i), code_len(b, i)));
    }
}

proof fn lemma_same_values_upto(root: HuffmanNode, a: Seq<(char, String)>, b: Seq<(char, String)>, i: int)
    requires
        is_canonical_table(root, a),
        is_canonical_table(root, b),
        a.len() == b.len(),
        0 <= i < a.len(),
        forall|k: int| 0 <= k < a.len() ==> #[trigger] a[k].0 == b[k].0,
    ensures
        code_val(a, i) == code_val(b, i),
        code_len(a, i) == code_len(b, i),
    decreases i,
{
    assert(a[i].0 == b[i].0);
    assert(code_len(a, i) == code_length_for(root, a[i].0));
    assert(code_len(b, i) == code_length_for(root, b[i].0));
    if i > 0 {
        lemma_same_values_upto(root, a, b, i - 1);
        assert(code_val(a, i) == (code_val(a, i - 1) + 1) * pow2((code_len(a, i) - code_len(a, i - 1)) as nat));
        assert(code_val(b, i) == (code_val(b, i - 1) + 1) * pow2((code_len(b, i) - code_len(b, i - 1)) as nat));
    }
}

} // verus!
