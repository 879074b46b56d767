//! A verified Huffman encoder: frequency counting, greedy prefix-tree
//! construction, code generation, bit packing, and container serialization.

use vstd::prelude::*;
use vstd::string::StrSliceExecFns;

verus! {


/// One node of the prefix tree. A `Leaf` holds a symbol and its occurrence
/// count; an `Internal` node owns its two children exclusively.
#[derive(Debug, PartialEq, Eq)]
pub enum HuffmanNode {
    Internal(Box<HuffmanNode>, Box<HuffmanNode>),
    Leaf(char, usize),
}

impl HuffmanNode {
    /// The weight of a node: a leaf's stored count, or the sum of the
    /// children's weights.
    pub open spec fn weight(self) -> nat
        decreases self,
    {
        match self {
            HuffmanNode::Internal(left, right) => left.weight() + right.weight(),
            HuffmanNode::Leaf(_, freq) => freq as nat,
        }
    }

    /// How many leaves of the tree carry the symbol `c`.
    pub open spec fn sym_count(self, c: char) -> nat
        decreases self,
    {
        match self {
            HuffmanNode::Internal(left, right) => left.sym_count(c) + right.sym_count(c),
            HuffmanNode::Leaf(ch, _) => if ch == c { 1nat } else { 0nat },
        }
    }

    /// The total weight of the tree, computed by summing leaf counts.
    pub fn frequency(&self) -> (r: usize)
        requires
            self.weight() <= usize::MAX,
        ensures
            r == self.weight(),
        decreases *self,
    {
        match self {
            HuffmanNode::Internal(left, right) => left.frequency() + right.frequency(),
            HuffmanNode::Leaf(_, freq) => *freq,
        }
    }
}



/// How many times the symbol `c` occurs in `s`.
pub open spec fn count_in(s: Seq<char>, c: char) -> nat
    decreases s.len(),
{
    if s.len() == 0 {
        0nat
    } else {
        count_in(s.drop_last(), c) + (if s.last() == c { 1nat } else { 0nat })
    }
}

/// The distinct symbols of `s`, in order of first occurrence.
pub open spec fn firsts(s: Seq<char>) -> Seq<char>
    decreases s.len(),
{
    if s.len() == 0 {
        Seq::empty()
    } else {
        let p = firsts(s.drop_last());
        if p.contains(s.last()) {
            p
        } else {
            p.push(s.last())
        }
    }
}

/// The frequency table of `s`: one entry per distinct symbol, in order of
/// first occurrence, each carrying its occurrence count. Counts are stored
/// as `usize`; they are exact whenever `s` fits in memory.
pub open spec fn freq_table_spec(s: Seq<char>) -> Seq<(char, usize)> {
    firsts(s).map_values(|c: char| (c, count_in(s, c) as usize))
}

/// A symbol occurs in `s` exactly when its count there is positive.
pub proof fn lemma_firsts_contains(s: Seq<char>, c: char)
    ensures
        firsts(s).contains(c) <==> count_in(s, c) > 0,
    decreases s.len(),
{
    if s.len() > 0 {
        let p = firsts(s.drop_last());
        lemma_firsts_contains(s.drop_last(), c);
        if s.last() == c {
            if p.contains(c) {
                assert(firsts(s) == p);
            } else {
                assert(firsts(s) == p.push(c));
                assert(firsts(s)[p.len() as int] == c);
            }
        } else {
            if !p.contains(s.last()) {
                assert(firsts(s) == p.push(s.last()));
                if firsts(s).contains(c) {
                    let k = choose|k: int| 0 <= k < firsts(s).len() && firsts(s)[k] == c;
                    assert(p[k] == c);
                }
                if p.contains(c) {
                    let k = choose|k: int| 0 <= k < p.len() && p[k] == c;
                    assert(firsts(s)[k] == c);
                }
            }
        }
    }
}

/// No count exceeds the input's length.
pub proof fn lemma_count_le_len(s: Seq<char>, c: char)
    ensures
        count_in(s, c) <= s.len(),
    decreases s.len(),
{
    if s.len() > 0 {
        lemma_count_le_len(s.drop_last(), c);
    }
}

/// Every position's symbol has a positive count.
pub proof fn lemma_count_at_index(s: Seq<char>, i: int)
    requires
        0 <= i < s.len(),
    ensures
        count_in(s, s[i]) > 0,
    decreases s.len(),
{
    if i == s.len() - 1 {
        assert(s.last() == s[i]);
    } else {
        lemma_count_at_index(s.drop_last(), i);
        assert(s.drop_last()[i] == s[i]);
    }
}

/// The distinct-symbol sequence never repeats a symbol.
pub proof fn lemma_firsts_no_duplicates(s: Seq<char>)
    ensures
        firsts(s).no_duplicates(),
    decreases s.len(),
{
    if s.len() > 0 {
        lemma_firsts_no_duplicates(s.drop_last());
    }
}

/// The sum of all counts recorded in a frequency table.
pub open spec fn sum_counts(table: Seq<(char, usize)>) -> nat
    decreases table.len(),
{
    if table.len() == 0 {
        0nat
    } else {
        sum_counts(table.drop_last()) + table.last().1 as nat
    }
}

/// Replacing one entry's count changes the sum by exactly the difference.
proof fn lemma_sum_counts_update(table: Seq<(char, usize)>, m: int, e: (char, usize))
    requires
        0 <= m < table.len(),
    ensures
        sum_counts(table.update(m, e)) + table[m].1 as nat == sum_counts(table) + e.1 as nat,
    decreases table.len(),
{
    let u = table.update(m, e);
    if m == table.len() - 1 {
        assert(u.drop_last() =~= table.drop_last());
    } else {
        assert(u.drop_last() =~= table.drop_last().update(m, e));
        assert(u.last() == table.last());
        lemma_sum_counts_update(table.drop_last(), m, e);
    }
}

/// The counts in the frequency table add up to the input's length.
pub proof fn lemma_sum_counts_freq(s: Seq<char>)
    requires
        s.len() <= usize::MAX,
    ensures
        sum_counts(freq_table_spec(s)) == s.len(),
    decreases s.len(),
{
    if s.len() > 0 {
        let d = s.drop_last();
        let c = s.last();
        lemma_sum_counts_freq(d);
        lemma_firsts_contains(d, c);
        lemma_firsts_no_duplicates(d);
        assert forall|x: char| x != c implies count_in(s, x) == count_in(d, x) by {}
        assert forall|m: int| 0 <= m < firsts(d).len() implies #[trigger] count_in(
            d,
            firsts(d)[m],
        ) <= d.len() by {
            lemma_count_le_len(d, firsts(d)[m]);
        }
        if firsts(d).contains(c) {
            let m0 = choose|m0: int| 0 <= m0 < firsts(d).len() && firsts(d)[m0] == c;
            assert(firsts(s) == firsts(d));
            assert(freq_table_spec(s) =~= freq_table_spec(d).update(
                m0,
                (c, (count_in(d, c) + 1) as usize),
            ));
            lemma_sum_counts_update(freq_table_spec(d), m0, (c, (count_in(d, c) + 1) as usize));
            lemma_count_le_len(d, c);
        } else {
            assert(count_in(d, c) == 0);
            assert(firsts(s) == firsts(d).push(c));
            assert(freq_table_spec(s) =~= freq_table_spec(d).push((c, 1usize)));
            assert(freq_table_spec(s).drop_last() =~= freq_table_spec(d));
        }
    }
}

/// Builds the frequency table of `data`: scans every symbol once, adding a
/// new entry on first sight and incrementing the matching count afterwards.
pub fn count_frequencies(data: &Vec<char>) -> (r: Vec<(char, usize)>)
    ensures
        r@ == freq_table_spec(data@),
{
    let ghost s = data@;
    let mut table: Vec<(char, usize)> = Vec::new();
    let n: usize = data.len();
    for i in 0..n
        invariant
            n == s.len(),
            table@ == freq_table_spec(s.take(i as int)),
            s == data@,
    {
        let ch: char = data[i];
        let ghost prefix = s.take(i as int);
        let ghost next = s.take(i + 1);
        proof {
            assert(next.drop_last() =~= prefix);
            assert(next.last() == s[i as int]);
            lemma_firsts_no_duplicates(prefix);
            lemma_firsts_contains(prefix, ch);
        }
        let mut j: usize = 0;
        let mut found: bool = false;
        while j < table.len() && !found
            invariant
                j <= table.len(),
                table@ == freq_table_spec(prefix),
                !found ==> forall|m: int| 0 <= m < j ==> table@[m].0 != ch,
                found ==> j < table.len() && table@[j as int].0 == ch,
            decreases table.len() - j + (if found { 0int } else { 1int }),
        {
            if table[j].0 == ch {
                found = true;
            } else {
                j += 1;
            }
        }
        if found {
            proof {
                lemma_count_le_len(prefix, ch);
                assert(firsts(prefix)[j as int] == ch);
                assert(firsts(next) =~= firsts(prefix));
            }
            let old_count: usize = table[j].1;
            let entry = (ch, old_count + 1);
            table.remove(j);
            table.insert(j, entry);
            proof {
                assert forall|m: int| 0 <= m < firsts(next).len() implies table@[m]
                    == freq_table_spec(next)[m] by {
                    lemma_count_le_len(prefix, firsts(prefix)[m]);
                    if m == j {
                        assert(count_in(next, ch) == count_in(prefix, ch) + 1);
                    } else {
                        assert(firsts(prefix)[m] != ch);
                        assert(count_in(next, firsts(prefix)[m]) == count_in(
                            prefix,
                            firsts(prefix)[m],
                        ));
                    }
                }
                assert(table@ =~= freq_table_spec(next));
            }
        } else {
            proof {
                assert forall|m: int|
                    0 <= m < firsts(prefix).len() implies firsts(prefix)[m] != ch by {
                    assert(table@[m] == freq_table_spec(prefix)[m]);
                    assert(table@[m].0 != ch);
                }
                assert(!firsts(prefix).contains(ch));
            }
            table.push((ch, 1));
            proof {
                assert(count_in(prefix, ch) == 0);
                assert(firsts(next) =~= firsts(prefix).push(ch));
                assert forall|m: int| 0 <= m < firsts(next).len() implies table@[m]
                    == freq_table_spec(next)[m] by {
                    if m < firsts(prefix).len() {
                        lemma_count_le_len(prefix, firsts(prefix)[m]);
                        assert(firsts(prefix)[m] != ch);
                        assert(count_in(next, firsts(prefix)[m]) == count_in(
                            prefix,
                            firsts(prefix)[m],
                        ));
                    } else {
                        assert(count_in(next, ch) == 1);
                    }
                }
                assert(table@ =~= freq_table_spec(next));
            }
        }
    }
    proof {
        assert(s.take(n as int) =~= s);
    }
    table
}



/// The leaf a frequency-table entry seeds the builder with.
pub open spec fn leaf_of(e: (char, usize)) -> HuffmanNode {
    HuffmanNode::Leaf(e.0, e.1)
}

/// The leaf worklist a frequency table seeds the builder with: one leaf per
/// entry, in table order.
pub open spec fn initial_nodes(table: Seq<(char, usize)>) -> Seq<HuffmanNode> {
    Seq::new(table.len(), |k: int| leaf_of(table[k]))
}

/// The total weight of a worklist.
pub open spec fn sum_weights(ns: Seq<HuffmanNode>) -> nat
    decreases ns.len(),
{
    if ns.len() == 0 {
        0nat
    } else {
        sum_weights(ns.drop_last()) + ns.last().weight()
    }
}

/// How many leaves over the whole worklist carry the symbol `c`.
pub open spec fn seq_sym_count(ns: Seq<HuffmanNode>, c: char) -> nat
    decreases ns.len(),
{
    if ns.len() == 0 {
        0nat
    } else {
        seq_sym_count(ns.drop_last(), c) + ns.last().sym_count(c)
    }
}

/// The index of the lightest node; on equal weights the lowest index wins.
pub open spec fn min_idx(ns: Seq<HuffmanNode>) -> int
    recommends
        ns.len() > 0,
    decreases ns.len(),
{
    if ns.len() <= 1 {
        0
    } else {
        let m = min_idx(ns.drop_last());
        if ns.last().weight() < ns[m].weight() {
            ns.len() - 1
        } else {
            m
        }
    }
}

/// The chosen index is in range and carries a minimal weight.
pub proof fn lemma_min_idx_bounds(ns: Seq<HuffmanNode>)
    requires
        ns.len() > 0,
    ensures
        0 <= min_idx(ns) < ns.len(),
        forall|k: int| 0 <= k < ns.len() ==> ns[min_idx(ns)].weight() <= #[trigger] ns[k].weight(),
    decreases ns.len(),
{
    if ns.len() > 1 {
        lemma_min_idx_bounds(ns.drop_last());
        let m = min_idx(ns.drop_last());
        assert forall|k: int| 0 <= k < ns.len() implies ns[min_idx(ns)].weight()
            <= #[trigger] ns[k].weight() by {
            if k < ns.len() - 1 {
                assert(ns[k] == ns.drop_last()[k]);
                assert(ns.drop_last()[m].weight() <= ns.drop_last()[k].weight());
            }
        }
    }
}

/// One greedy step: take out the two lightest nodes (first the one chosen by
/// `min_idx`, then the one chosen among the rest) and append an internal node
/// combining them, the first removed as the left child.
pub open spec fn merge_step(ns: Seq<HuffmanNode>) -> Seq<HuffmanNode>
    recommends
        ns.len() >= 2,
{
    let i = min_idx(ns);
    let rest = ns.remove(i);
    let j = min_idx(rest);
    let rest2 = rest.remove(j);
    rest2.push(HuffmanNode::Internal(Box::new(ns[i]), Box::new(rest[j])))
}

/// A greedy step shortens the worklist by exactly one node.
pub proof fn lemma_merge_step_len(ns: Seq<HuffmanNode>)
    requires
        ns.len() >= 2,
    ensures
        merge_step(ns).len() == ns.len() - 1,
{
    lemma_min_idx_bounds(ns);
    lemma_min_idx_bounds(ns.remove(min_idx(ns)));
}

/// The tree the greedy algorithm builds from a worklist: repeated merge
/// steps until a single node remains.
pub open spec fn build_tree_spec(ns: Seq<HuffmanNode>) -> HuffmanNode
    recommends
        ns.len() > 0,
    decreases ns.len(),
{
    if ns.len() <= 1 {
        if ns.len() == 1 {
            ns[0]
        } else {
            HuffmanNode::Leaf('\0', 0)
        }
    } else {
        proof {
            lemma_merge_step_len(ns);
        }
        build_tree_spec(merge_step(ns))
    }
}

/// No node outweighs the whole worklist.
pub proof fn lemma_weight_le_sum(ns: Seq<HuffmanNode>, k: int)
    requires
        0 <= k < ns.len(),
    ensures
        ns[k].weight() <= sum_weights(ns),
    decreases ns.len(),
{
    if k < ns.len() - 1 {
        lemma_weight_le_sum(ns.drop_last(), k);
    }
}

/// Taking one node out lowers the total weight by exactly that node's weight.
proof fn lemma_sum_weights_remove(ns: Seq<HuffmanNode>, i: int)
    requires
        0 <= i < ns.len(),
    ensures
        sum_weights(ns.remove(i)) + ns[i].weight() == sum_weights(ns),
    decreases ns.len(),
{
    let r = ns.remove(i);
    if i == ns.len() - 1 {
        assert(r =~= ns.drop_last());
    } else {
        assert(r.drop_last() =~= ns.drop_last().remove(i));
        assert(r.last() == ns.last());
        lemma_sum_weights_remove(ns.drop_last(), i);
    }
}

/// Taking one node out lowers the worklist's symbol count by exactly that
/// node's symbol count.
proof fn lemma_sym_count_remove(ns: Seq<HuffmanNode>, i: int, c: char)
    requires
        0 <= i < ns.len(),
    ensures
        seq_sym_count(ns.remove(i), c) + ns[i].sym_count(c) == seq_sym_count(ns, c),
    decreases ns.len(),
{
    let r = ns.remove(i);
    if i == ns.len() - 1 {
        assert(r =~= ns.drop_last());
    } else {
        assert(r.drop_last() =~= ns.drop_last().remove(i));
        assert(r.last() == ns.last());
        lemma_sym_count_remove(ns.drop_last(), i, c);
    }
}

/// A greedy step moves weight around but neither adds nor loses any, and the
/// same holds of every symbol's leaf count.
pub proof fn lemma_merge_step_preserves(ns: Seq<HuffmanNode>, c: char)
    requires
        ns.len() >= 2,
    ensures
        sum_weights(merge_step(ns)) == sum_weights(ns),
        seq_sym_count(merge_step(ns), c) == seq_sym_count(ns, c),
{
    let i = min_idx(ns);
    lemma_min_idx_bounds(ns);
    let rest = ns.remove(i);
    let j = min_idx(rest);
    lemma_min_idx_bounds(rest);
    let rest2 = rest.remove(j);
    let node = HuffmanNode::Internal(Box::new(ns[i]), Box::new(rest[j]));
    let merged = merge_step(ns);
    assert(merged.drop_last() =~= rest2);
    assert(merged.last() == node);
    assert(node.weight() == ns[i].weight() + rest[j].weight());
    assert(node.sym_count(c) == ns[i].sym_count(c) + rest[j].sym_count(c));
    lemma_sum_weights_remove(ns, i);
    lemma_sum_weights_remove(rest, j);
    lemma_sym_count_remove(ns, i, c);
    lemma_sym_count_remove(rest, j, c);
}

/// The finished tree weighs as much as the worklist it was built from, and
/// carries each symbol on as many leaves as the worklist did.
pub proof fn lemma_build_tree_preserves(ns: Seq<HuffmanNode>, c: char)
    requires
        ns.len() >= 1,
    ensures
        build_tree_spec(ns).weight() == sum_weights(ns),
        build_tree_spec(ns).sym_count(c) == seq_sym_count(ns, c),
    decreases ns.len(),
{
    if ns.len() == 1 {
        assert(ns.drop_last() =~= Seq::<HuffmanNode>::empty());
        assert(sum_weights(ns.drop_last()) == 0);
        assert(seq_sym_count(ns.drop_last(), c) == 0);
        assert(ns.last() == ns[0]);
        assert(build_tree_spec(ns) == ns[0]);
    } else {
        lemma_merge_step_len(ns);
        lemma_merge_step_preserves(ns, c);
        lemma_build_tree_preserves(merge_step(ns), c);
        assert(build_tree_spec(ns) == build_tree_spec(merge_step(ns)));
    }
}

/// Seeding from a non-empty table appends one leaf for the table's last
/// entry to the worklist seeded from the rest.
proof fn lemma_initial_nodes_snoc(table: Seq<(char, usize)>)
    requires
        table.len() > 0,
    ensures
        initial_nodes(table) == initial_nodes(table.drop_last()).push(leaf_of(table.last())),
{
    let a = initial_nodes(table);
    let b = initial_nodes(table.drop_last()).push(leaf_of(table.last()));
    assert forall|m: int| 0 <= m < a.len() implies a[m] == b[m] by {
        if m < table.len() - 1 {
            assert(b[m] == initial_nodes(table.drop_last())[m]);
            assert(table.drop_last()[m] == table[m]);
        }
    }
    assert(a =~= b);
}

/// A worklist holding one leaf per table entry weighs the table's total
/// count, and carries a symbol once per table entry that names it.
proof fn lemma_leaves_worklist(table: Seq<(char, usize)>, ns: Seq<HuffmanNode>, c: char)
    requires
        ns.len() == table.len(),
        forall|k: int|
            0 <= k < table.len() ==> ns[k] == HuffmanNode::Leaf(
                (#[trigger] table[k]).0,
                table[k].1,
            ),
    ensures
        sum_weights(ns) == sum_counts(table),
        seq_sym_count(ns, c) == table_sym_count(table, c),
    decreases table.len(),
{
    if table.len() > 0 {
        assert(ns[table.len() - 1] == HuffmanNode::Leaf(table.last().0, table.last().1));
        assert forall|k: int| 0 <= k < table.len() - 1 implies ns.drop_last()[k]
            == HuffmanNode::Leaf((#[trigger] table.drop_last()[k]).0, table.drop_last()[k].1) by {
            assert(table.drop_last()[k] == table[k]);
            assert(ns.drop_last()[k] == ns[k]);
        }
        lemma_leaves_worklist(table.drop_last(), ns.drop_last(), c);
        assert(ns.last().weight() == table.last().1 as nat);
        assert(sum_weights(ns) == sum_weights(ns.drop_last()) + ns.last().weight());
        assert(seq_sym_count(ns, c) == seq_sym_count(ns.drop_last(), c) + ns.last().sym_count(c));
    }
}

/// The worklist seeded from a table weighs the table's total count, and
/// carries a symbol once per table entry that names it.
pub proof fn lemma_initial_nodes_counts(table: Seq<(char, usize)>, c: char)
    ensures
        sum_weights(initial_nodes(table)) == sum_counts(table),
        seq_sym_count(initial_nodes(table), c) == table_sym_count(table, c),
{
    let ns = initial_nodes(table);
    assert(ns.len() == table.len());
    assert forall|k: int|
        0 <= k < table.len() implies ns[k] == HuffmanNode::Leaf(
        (#[trigger] table[k]).0,
        table[k].1,
    ) by {}
    lemma_leaves_worklist(table, ns, c);
}

/// How many entries of a frequency table name the symbol `c`.
pub open spec fn table_sym_count(table: Seq<(char, usize)>, c: char) -> nat
    decreases table.len(),
{
    if table.len() == 0 {
        0nat
    } else {
        table_sym_count(table.drop_last(), c) + (if table.last().0 == c {
            1nat
        } else {
            0nat
        })
    }
}

/// Finds the index of the lightest node, scanning left to right so that the
/// lowest index wins ties.
fn min_index(nodes: &Vec<HuffmanNode>) -> (r: usize)
    requires
        nodes@.len() > 0,
        forall|k: int| 0 <= k < nodes@.len() ==> #[trigger] nodes@[k].weight() <= usize::MAX,
    ensures
        r == min_idx(nodes@),
        r < nodes@.len(),
{
    let mut best: usize = 0;
    let mut best_w: usize = nodes[0].frequency();
    let n: usize = nodes.len();
    for i in 1..n
        invariant
            1 <= i <= n,
            n == nodes@.len(),
            best < i,
            best == min_idx(nodes@.take(i as int)),
            best_w == nodes@[best as int].weight(),
            forall|k: int| 0 <= k < nodes@.len() ==> #[trigger] nodes@[k].weight() <= usize::MAX,
    {
        proof {
            assert(nodes@.take(i + 1).drop_last() =~= nodes@.take(i as int));
            assert(nodes@.take(i + 1).last() == nodes@[i as int]);
        }
        let w: usize = nodes[i].frequency();
        if w < best_w {
            best = i;
            best_w = w;
        }
    }
    proof {
        assert(nodes@.take(n as int) =~= nodes@);
    }
    best
}

/// Builds the prefix tree for a frequency table: seeds a worklist with one
/// leaf per entry, then greedily merges the two lightest nodes (lowest index
/// first on ties) until one tree remains. Returns `None` exactly when the
/// table is empty.
pub fn build_huffman_tree(frequencies: &Vec<(char, usize)>) -> (r: Option<HuffmanNode>)
    requires
        sum_counts(frequencies@) <= usize::MAX,
    ensures
        r is Some <==> frequencies@.len() > 0,
        frequencies@.len() > 0 ==> r == Some(build_tree_spec(initial_nodes(frequencies@))),
{
    let ghost init = initial_nodes(frequencies@);
    proof {
        lemma_initial_nodes_counts(frequencies@, '\0');
    }
    let mut nodes: Vec<HuffmanNode> = Vec::new();
    proof {
        assert(nodes@ =~= initial_nodes(frequencies@.take(0)));
    }
    let n: usize = frequencies.len();
    for k in 0..n
        invariant
            n == frequencies@.len(),
            nodes@ == initial_nodes(frequencies@.take(k as int)),
    {
        let entry = frequencies[k];
        nodes.push(HuffmanNode::Leaf(entry.0, entry.1));
        proof {
            let t1 = frequencies@.take(k + 1);
            lemma_initial_nodes_snoc(t1);
            assert(t1.drop_last() =~= frequencies@.take(k as int));
            assert(t1.last() == frequencies@[k as int]);
        }
    }
    proof {
        assert(frequencies@.take(n as int) =~= frequencies@);
    }
    while nodes.len() > 1
        invariant
            init.len() == 0 ==> nodes@.len() == 0,
            init.len() > 0 ==> nodes@.len() >= 1 && build_tree_spec(nodes@) == build_tree_spec(
                init,
            ),
            sum_weights(nodes@) == sum_weights(init),
            sum_weights(init) <= usize::MAX,
        decreases nodes@.len(),
    {
        let ghost prev = nodes@;
        proof {
            assert forall|k: int| 0 <= k < nodes@.len() implies #[trigger] nodes@[k].weight()
                <= usize::MAX by {
                lemma_weight_le_sum(nodes@, k);
            }
        }
        let i: usize = min_index(&nodes);
        let left = nodes.remove(i);
        proof {
            lemma_sum_weights_remove(prev, i as int);
            assert forall|k: int| 0 <= k < nodes@.len() implies #[trigger] nodes@[k].weight()
                <= usize::MAX by {
                lemma_weight_le_sum(nodes@, k);
            }
        }
        let j: usize = min_index(&nodes);
        let right = nodes.remove(j);
        nodes.push(HuffmanNode::Internal(Box::new(left), Box::new(right)));
        proof {
            assert(nodes@ =~= merge_step(prev));
            lemma_merge_step_preserves(prev, '\0');
            lemma_merge_step_len(prev);
        }
    }
    nodes.pop()
}

} // verus!


verus! {





} // verus!




verus! {

/// The (symbol, code) entries a depth-first traversal of `t` records under
/// `prefix`: descending left appends bit 0 (`false`), descending right
/// appends bit 1 (`true`); a leaf records the accumulated prefix.
pub open spec fn code_entries(t: HuffmanNode, prefix: Seq<bool>) -> Seq<(char, Seq<bool>)>
    decreases t,
{
    match t {
        HuffmanNode::Internal(left, right) => code_entries(*left, prefix.push(false))
            + code_entries(*right, prefix.push(true)),
        HuffmanNode::Leaf(ch, _) => seq![(ch, prefix)],
    }
}

/// Every code recorded under `prefix` starts with `prefix`.
pub proof fn lemma_code_entries_prefixed(t: HuffmanNode, prefix: Seq<bool>, k: int)
    requires
        0 <= k < code_entries(t, prefix).len(),
    ensures
        code_entries(t, prefix)[k].1.len() >= prefix.len(),
        code_entries(t, prefix)[k].1.take(prefix.len() as int) == prefix,
    decreases t,
{
    let es = code_entries(t, prefix);
    match t {
        HuffmanNode::Internal(left, right) => {
            let le = code_entries(*left, prefix.push(false));
            let re = code_entries(*right, prefix.push(true));
            if k < le.len() {
                lemma_code_entries_prefixed(*left, prefix.push(false), k);
                assert(es[k] == le[k]);
                assert(le[k].1.take(prefix.len() as int + 1) == prefix.push(false));
                assert(le[k].1.take(prefix.len() as int) =~= prefix);
            } else {
                lemma_code_entries_prefixed(*right, prefix.push(true), k - le.len());
                assert(es[k] == re[k - le.len()]);
                assert(re[k - le.len()].1.take(prefix.len() as int + 1) == prefix.push(true));
                assert(re[k - le.len()].1.take(prefix.len() as int) =~= prefix);
            }
        }
        HuffmanNode::Leaf(_, _) => {
            assert(es[k].1 == prefix);
            assert(prefix.take(prefix.len() as int) =~= prefix);
        }
    }
}

/// No code recorded by one traversal is a prefix of another: the codes of a
/// prefix tree are prefix-free.
pub proof fn lemma_code_entries_prefix_free(t: HuffmanNode, prefix: Seq<bool>, i: int, j: int)
    requires
        0 <= i < code_entries(t, prefix).len(),
        0 <= j < code_entries(t, prefix).len(),
        i != j,
    ensures
        !code_entries(t, prefix)[i].1.is_prefix_of(code_entries(t, prefix)[j].1),
    decreases t,
{
    let es = code_entries(t, prefix);
    match t {
        HuffmanNode::Internal(left, right) => {
            let le = code_entries(*left, prefix.push(false));
            let re = code_entries(*right, prefix.push(true));
            let p = prefix.len() as int;
            if i < le.len() && j < le.len() {
                lemma_code_entries_prefix_free(*left, prefix.push(false), i, j);
            } else if i >= le.len() && j >= le.len() {
                lemma_code_entries_prefix_free(*right, prefix.push(true), i - le.len(), j - le.len());
            } else {
                lemma_code_entries_prefixed(t, prefix, i);
                lemma_code_entries_prefixed(t, prefix, j);
                let ci = es[i].1;
                let cj = es[j].1;
                if i < le.len() {
                    lemma_code_entries_prefixed(*left, prefix.push(false), i);
                    lemma_code_entries_prefixed(*right, prefix.push(true), j - le.len());
                    assert(ci.take(p + 1) == prefix.push(false));
                    assert(cj.take(p + 1) == prefix.push(true));
                    assert(ci.take(p + 1)[p] == false);
                    assert(cj.take(p + 1)[p] == true);
                    assert(ci[p] == false);
                    assert(cj[p] == true);
                    if ci.is_prefix_of(cj) {
                        assert(ci =~= cj.subrange(0, ci.len() as int));
                        assert(ci[p] == cj[p]);
                    }
                } else {
                    lemma_code_entries_prefixed(*right, prefix.push(true), i - le.len());
                    lemma_code_entries_prefixed(*left, prefix.push(false), j);
                    assert(ci.take(p + 1) == prefix.push(true));
                    assert(cj.take(p + 1) == prefix.push(false));
                    assert(ci.take(p + 1)[p] == true);
                    assert(cj.take(p + 1)[p] == false);
                    assert(ci[p] == true);
                    assert(cj[p] == false);
                    if ci.is_prefix_of(cj) {
                        assert(ci =~= cj.subrange(0, ci.len() as int));
                        assert(ci[p] == cj[p]);
                    }
                }
            }
        }
        HuffmanNode::Leaf(_, _) => {}
    }
}

} // verus!

verus! {

/// The mathematical view of an executable code table: each entry's code as
/// a sequence of bits.
pub open spec fn table_view(t: Seq<(char, Vec<bool>)>) -> Seq<(char, Seq<bool>)> {
    Seq::new(t.len(), |k: int| (t[k].0, t[k].1@))
}

/// Copies a bit string.
fn clone_bits(v: &Vec<bool>) -> (r: Vec<bool>)
    ensures
        r@ == v@,
{
    let mut r: Vec<bool> = Vec::new();
    let n: usize = v.len();
    for i in 0..n
        invariant
            n == v@.len(),
            r@ == v@.take(i as int),
    {
        r.push(v[i]);
        proof {
            assert(r@ =~= v@.take(i + 1));
        }
    }
    proof {
        assert(v@.take(n as int) =~= v@);
    }
    r
}

/// Walks the tree depth-first and appends one (symbol, code) entry per leaf
/// to `codes`: left children extend the prefix with bit 0, right children
/// with bit 1, and a leaf records the accumulated prefix as its code.
pub fn generate_codes(node: &HuffmanNode, prefix: Vec<bool>, codes: &mut Vec<(char, Vec<bool>)>)
    ensures
        table_view(final(codes)@) == table_view(old(codes)@) + code_entries(*node, prefix@),
    decreases *node,
{
    match node {
        HuffmanNode::Internal(left, right) => {
            let ghost codes0 = codes@;
            let mut left_prefix = clone_bits(&prefix);
            left_prefix.push(false);
            generate_codes(left, left_prefix, codes);
            let ghost codes1 = codes@;
            let mut right_prefix = prefix;
            right_prefix.push(true);
            generate_codes(right, right_prefix, codes);
            proof {
                let le = code_entries(**left, prefix@.push(false));
                let re = code_entries(**right, prefix@.push(true));
                assert(table_view(codes1) == table_view(codes0) + le);
                assert(table_view(codes@) == (table_view(codes0) + le) + re);
                assert((table_view(codes0) + le) + re =~= table_view(codes0) + (le + re));
            }
        }
        HuffmanNode::Leaf(ch, _) => {
            let ghost codes0 = codes@;
            codes.push((*ch, prefix));
            proof {
                assert(table_view(codes@) =~= table_view(codes0) + code_entries(*node, prefix@));
            }
        }
    }
}

/// The code the table assigns to `c`: the first entry naming `c`, if any.
pub open spec fn lookup_code(entries: Seq<(char, Seq<bool>)>, c: char) -> Option<Seq<bool>>
    decreases entries.len(),
{
    if entries.len() == 0 {
        None
    } else if entries[0].0 == c {
        Some(entries[0].1)
    } else {
        lookup_code(entries.drop_first(), c)
    }
}

/// The lookup succeeds exactly when some entry names the symbol.
pub proof fn lemma_lookup_some(entries: Seq<(char, Seq<bool>)>, c: char)
    ensures
        lookup_code(entries, c) is Some <==> exists|k: int|
            0 <= k < entries.len() && (#[trigger] entries[k]).0 == c,
    decreases entries.len(),
{
    if entries.len() > 0 && entries[0].0 != c {
        lemma_lookup_some(entries.drop_first(), c);
        let rest = entries.drop_first();
        if lookup_code(entries, c) is Some {
            let k = choose|k: int| 0 <= k < rest.len() && (#[trigger] rest[k]).0 == c;
            assert(entries[k + 1].0 == c);
        }
        if exists|k: int| 0 <= k < entries.len() && (#[trigger] entries[k]).0 == c {
            let k = choose|k: int| 0 <= k < entries.len() && (#[trigger] entries[k]).0 == c;
            assert(rest[k - 1].0 == c);
        }
    }
}

/// Finds the first code-table entry for `c`, scanning left to right.
fn find_code(codes: &Vec<(char, Vec<bool>)>, c: char) -> (r: Option<usize>)
    ensures
        match r {
            Some(k) => k < codes@.len() && codes@[k as int].0 == c && lookup_code(
                table_view(codes@),
                c,
            ) == Some(codes@[k as int].1@),
            None => lookup_code(table_view(codes@), c) is None,
        },
{
    let ghost view = table_view(codes@);
    proof {
        assert(view.skip(0) =~= view);
    }
    let n: usize = codes.len();
    let mut j: usize = 0;
    while j < n
        invariant
            j <= n,
            n == codes@.len(),
            view == table_view(codes@),
            lookup_code(view, c) == lookup_code(view.skip(j as int), c),
            forall|m: int| 0 <= m < j ==> (#[trigger] view[m]).0 != c,
        decreases n - j,
    {
        if codes[j].0 == c {
            proof {
                assert(view.skip(j as int)[0] == view[j as int]);
                assert(lookup_code(view.skip(j as int), c) == Some(view[j as int].1));
            }
            return Some(j);
        }
        proof {
            assert(view.skip(j as int)[0] == view[j as int]);
            assert(view.skip(j as int).drop_first() =~= view.skip(j + 1));
        }
        j += 1;
    }
    proof {
        assert(view.skip(n as int) =~= Seq::<(char, Seq<bool>)>::empty());
    }
    None
}

} // verus!

verus! {

/// How many code-table entries name the symbol `c`.
pub open spec fn entries_sym_count(entries: Seq<(char, Seq<bool>)>, c: char) -> nat
    decreases entries.len(),
{
    if entries.len() == 0 {
        0nat
    } else {
        entries_sym_count(entries.drop_last(), c) + (if entries.last().0 == c {
            1nat
        } else {
            0nat
        })
    }
}

/// Symbol counts add up over concatenation of entry lists.
proof fn lemma_entries_sym_count_concat(a: Seq<(char, Seq<bool>)>, b: Seq<(char, Seq<bool>)>, c: char)
    ensures
        entries_sym_count(a + b, c) == entries_sym_count(a, c) + entries_sym_count(b, c),
    decreases b.len(),
{
    if b.len() == 0 {
        assert(a + b =~= a);
    } else {
        assert((a + b).drop_last() =~= a + b.drop_last());
        assert((a + b).last() == b.last());
        lemma_entries_sym_count_concat(a, b.drop_last(), c);
    }
}

/// A traversal records the symbol `c` once per leaf of `t` that carries it.
pub proof fn lemma_code_entries_sym_count(t: HuffmanNode, prefix: Seq<bool>, c: char)
    ensures
        entries_sym_count(code_entries(t, prefix), c) == t.sym_count(c),
    decreases t,
{
    match t {
        HuffmanNode::Internal(left, right) => {
            let le = code_entries(*left, prefix.push(false));
            let re = code_entries(*right, prefix.push(true));
            lemma_code_entries_sym_count(*left, prefix.push(false), c);
            lemma_code_entries_sym_count(*right, prefix.push(true), c);
            lemma_entries_sym_count_concat(le, re, c);
        }
        HuffmanNode::Leaf(ch, _) => {
            let es = code_entries(t, prefix);
            assert(es.drop_last() =~= Seq::<(char, Seq<bool>)>::empty());
            assert(entries_sym_count(es.drop_last(), c) == 0);
            assert(es.last() == (ch, prefix));
        }
    }
}

/// An entry naming `c` at one index makes the symbol count positive.
proof fn lemma_entries_index_count(entries: Seq<(char, Seq<bool>)>, c: char, k: int)
    requires
        0 <= k < entries.len(),
        entries[k].0 == c,
    ensures
        entries_sym_count(entries, c) >= 1,
    decreases entries.len(),
{
    if k < entries.len() - 1 {
        assert(entries.drop_last()[k] == entries[k]);
        lemma_entries_index_count(entries.drop_last(), c, k);
    }
}

/// Two distinct entries naming `c` make the symbol count at least two.
proof fn lemma_entries_two_indices(entries: Seq<(char, Seq<bool>)>, c: char, i: int, j: int)
    requires
        0 <= i < j < entries.len(),
        entries[i].0 == c,
        entries[j].0 == c,
    ensures
        entries_sym_count(entries, c) >= 2,
    decreases entries.len(),
{
    if j == entries.len() - 1 {
        lemma_entries_index_count(entries.drop_last(), c, i);
        assert(entries.drop_last()[i] == entries[i]);
    } else {
        assert(entries.drop_last()[i] == entries[i]);
        assert(entries.drop_last()[j] == entries[j]);
        lemma_entries_two_indices(entries.drop_last(), c, i, j);
    }
}

/// A table-entry naming `c` at one index makes the table's symbol count
/// positive.
proof fn lemma_table_index_count(table: Seq<(char, usize)>, c: char, k: int)
    requires
        0 <= k < table.len(),
        table[k].0 == c,
    ensures
        table_sym_count(table, c) >= 1,
    decreases table.len(),
{
    if k < table.len() - 1 {
        assert(table.drop_last()[k] == table[k]);
        lemma_table_index_count(table.drop_last(), c, k);
    }
}

/// A table whose symbols are pairwise distinct names each symbol at most
/// once.
proof fn lemma_table_distinct_count(table: Seq<(char, usize)>, c: char)
    requires
        forall|i: int, j: int|
            0 <= i < j < table.len() ==> (#[trigger] table[i]).0 != (#[trigger] table[j]).0,
    ensures
        table_sym_count(table, c) <= 1,
    decreases table.len(),
{
    if table.len() > 0 {
        let d = table.drop_last();
        assert forall|i: int, j: int|
            0 <= i < j < d.len() implies (#[trigger] d[i]).0 != (#[trigger] d[j]).0 by {
            assert(d[i] == table[i]);
            assert(d[j] == table[j]);
        }
        lemma_table_distinct_count(d, c);
        if table.last().0 == c && table_sym_count(d, c) >= 1 {
            lemma_table_count_witness(d, c);
            let k = choose|k: int| 0 <= k < d.len() && (#[trigger] d[k]).0 == c;
            assert(table[k].0 == c);
            assert(table[table.len() - 1].0 == c);
        }
    }
}

/// A positive table symbol count exhibits an entry naming the symbol.
proof fn lemma_table_count_witness(table: Seq<(char, usize)>, c: char)
    requires
        table_sym_count(table, c) >= 1,
    ensures
        exists|k: int| 0 <= k < table.len() && (#[trigger] table[k]).0 == c,
    decreases table.len(),
{
    if table.len() > 0 {
        if table.last().0 == c {
            assert(table[table.len() - 1].0 == c);
        } else {
            lemma_table_count_witness(table.drop_last(), c);
            let k = choose|k: int|
                0 <= k < table.drop_last().len() && (#[trigger] table.drop_last()[k]).0 == c;
            assert(table[k].0 == c);
        }
    }
}

} // verus!

verus! {

/// Two to the power `n`.
pub open spec fn pow2(n: nat) -> nat
    decreases n,
{
    if n == 0 {
        1nat
    } else {
        2 * pow2((n - 1) as nat)
    }
}

/// The value of a bit string read most-significant bit first.
pub open spec fn bits_value(bits: Seq<bool>) -> nat
    decreases bits.len(),
{
    if bits.len() == 0 {
        0nat
    } else {
        2 * bits_value(bits.drop_last()) + (if bits.last() {
            1nat
        } else {
            0nat
        })
    }
}

/// A bit string's value is below two to its length.
pub proof fn lemma_bits_value_bound(bits: Seq<bool>)
    ensures
        bits_value(bits) < pow2(bits.len()),
    decreases bits.len(),
{
    if bits.len() > 0 {
        lemma_bits_value_bound(bits.drop_last());
    }
}

/// The bytes a bit string packs into: eight bits per byte, most-significant
/// bit first; a trailing group of fewer than eight bits fills the high bits
/// of one final byte, with the low bits zero.
pub open spec fn pack_bits(bits: Seq<bool>) -> Seq<u8>
    decreases bits.len(),
{
    if bits.len() == 0 {
        Seq::empty()
    } else if bits.len() >= 8 {
        seq![bits_value(bits.take(8)) as u8] + pack_bits(bits.skip(8))
    } else {
        seq![(bits_value(bits) * pow2((8 - bits.len()) as nat)) as u8]
    }
}

/// Packs a bit sequence into bytes, eight bits per byte with the most
/// significant bit first; a trailing partial byte is shifted into the high
/// bits and zero-padded below.
#[verifier::rlimit(100)]
pub fn to_bytes(bit_vector: &Vec<bool>) -> (r: Vec<u8>)
    ensures
        r@ == pack_bits(bit_vector@),
{
    let bits = bit_vector;
    let n: usize = bits.len();
    let mut bytes: Vec<u8> = Vec::new();
    let mut byte: u8 = 0;
    let mut bit_count: usize = 0;
    let mut i: usize = 0;
    proof {
        assert(bits@.skip(0) =~= bits@);
        assert(Seq::<u8>::empty() + pack_bits(bits@) =~= pack_bits(bits@));
        assert(bits@.subrange(0, 0) =~= Seq::<bool>::empty());
    }
    while i < n
        invariant
            i <= n,
            n == bits@.len(),
            bit_count == i % 8,
            byte as nat == bits_value(bits@.subrange(i - bit_count, i as int)),
            byte < pow2(bit_count as nat),
            pack_bits(bits@) =~= bytes@ + pack_bits(bits@.skip(i - bit_count)),
        decreases n - i,
    {
        let ghost lo = i - bit_count;
        let ghost chunk = bits@.subrange(lo as int, i as int);
        proof {
            lemma_bits_value_bound(chunk);
            assert(bits@.subrange(lo as int, i + 1).drop_last() =~= chunk);
            assert(bits@.subrange(lo as int, i + 1).last() == bits@[i as int]);
            reveal_with_fuel(pow2, 9);
            assert(pow2(7) == 128);
            lemma_pow2_monotone(bit_count as nat, 7);
        }
        byte = byte * 2;
        if bits[i] {
            byte = byte + 1;
        }
        bit_count += 1;
        i += 1;
        if bit_count == 8 {
            bytes.push(byte);
            proof {
                let rest = bits@.skip(lo as int);
                assert(rest.len() >= 8);
                assert(rest.take(8) =~= bits@.subrange(lo as int, i as int));
                assert(rest.skip(8) =~= bits@.skip(i as int));
                assert(pack_bits(rest) == seq![bits_value(rest.take(8)) as u8] + pack_bits(
                    rest.skip(8),
                ));
                assert((bytes@.drop_last() + seq![byte]) =~= bytes@);
                assert((bytes@.drop_last() + (seq![bits_value(rest.take(8)) as u8] + pack_bits(
                    rest.skip(8),
                ))) =~= bytes@ + pack_bits(rest.skip(8)));
            }
            byte = 0;
            bit_count = 0;
            proof {
                assert(bits@.subrange(i as int, i as int) =~= Seq::<bool>::empty());
            }
        }
    }
    if bit_count > 0 {
        let ghost lo = i - bit_count;
        let ghost chunk = bits@.subrange(lo as int, i as int);
        let ghost v = bits_value(chunk);
        proof {
            lemma_bits_value_bound(chunk);
            assert(bits@.skip(lo as int) =~= chunk);
            assert(pow2(0) == 1);
            assert(v * pow2(0) == v * 1) by (nonlinear_arith)
                requires
                    pow2(0) == 1,
            ;
        }
        let mut k: usize = bit_count;
        while k < 8
            invariant
                bit_count <= k <= 8,
                v == bits_value(chunk),
                v < pow2(bit_count as nat),
                byte as nat == v * pow2((k - bit_count) as nat),
                0 < bit_count < 8,
                chunk.len() == bit_count,
            decreases 8 - k,
        {
            proof {
                let e = (k - bit_count) as nat;
                lemma_pow2_pos(e);
                assert(pow2(e + 1) == 2 * pow2(e));
                assert(v * pow2(e + 1) == 2 * (v * pow2(e))) by (nonlinear_arith);
                lemma_pow2_pos((e + 1) as nat);
                lemma_mul_lt(v, pow2(bit_count as nat), pow2((e + 1) as nat));
                lemma_pow2_adds(bit_count as nat, (e + 1) as nat);
                lemma_pow2_monotone((bit_count + e + 1) as nat, 8);
                reveal_with_fuel(pow2, 9);
                assert(pow2(8) == 256);
            }
            byte = byte * 2;
            k += 1;
        }
        let ghost oldb = bytes@;
        bytes.push(byte);
        proof {
            assert(pack_bits(chunk) == seq![(v * pow2((8 - chunk.len()) as nat)) as u8]);
            assert(pack_bits(chunk) =~= seq![byte]);
            assert(bytes@ =~= oldb + pack_bits(chunk));
            assert(pack_bits(bits@) =~= oldb + pack_bits(chunk));
            assert(bytes@ =~= pack_bits(bits@));
        }
    } else {
        proof {
            assert(bits@.skip(i as int) =~= Seq::<bool>::empty());
            assert(bytes@ + pack_bits(bits@.skip(i as int)) =~= bytes@);
            assert(bytes@ =~= pack_bits(bits@));
        }
    }
    bytes
}

/// Powers of two are positive.
proof fn lemma_pow2_pos(n: nat)
    ensures
        pow2(n) >= 1,
    decreases n,
{
    if n > 0 {
        lemma_pow2_pos((n - 1) as nat);
    }
}

/// Multiplying both sides of a strict bound by a positive factor keeps it
/// strict.
proof fn lemma_mul_lt(x: nat, b: nat, f: nat)
    requires
        x < b,
        f >= 1,
    ensures
        x * f < b * f,
{
    assert(x * f < b * f) by (nonlinear_arith)
        requires
            x < b,
            f >= 1,
    ;
}

/// Powers of two multiply by adding exponents.
proof fn lemma_pow2_adds(a: nat, b: nat)
    ensures
        pow2(a) * pow2(b) == pow2(a + b),
    decreases b,
{
    if b == 0 {
        assert(pow2(a) * pow2(0) == pow2(a) * 1) by (nonlinear_arith)
            requires
                pow2(0) == 1,
        ;
    } else {
        lemma_pow2_adds(a, (b - 1) as nat);
        let x = pow2((b - 1) as nat);
        assert(pow2(b) == 2 * x);
        assert(pow2(a) * (2 * x) == 2 * (pow2(a) * x)) by (nonlinear_arith);
        assert(pow2(a + b) == 2 * pow2((a + b - 1) as nat));
    }
}

/// Powers of two grow with the exponent.
proof fn lemma_pow2_monotone(a: nat, b: nat)
    requires
        a <= b,
    ensures
        pow2(a) <= pow2(b),
    decreases b,
{
    if a < b {
        lemma_pow2_monotone(a, (b - 1) as nat);
    }
}

} // verus!

verus! {

/// The prefix tree the pipeline builds for the input `s`.
pub open spec fn huff_tree_spec(s: Seq<char>) -> HuffmanNode {
    build_tree_spec(initial_nodes(freq_table_spec(s)))
}

/// The code table the pipeline derives for the input `s`.
pub open spec fn code_table_spec(s: Seq<char>) -> Seq<(char, Seq<bool>)> {
    code_entries(huff_tree_spec(s), Seq::empty())
}

/// The bit sequence that encodes `s` symbol by symbol through the code
/// table `entries`; a symbol without an entry contributes nothing.
pub open spec fn encode_bits(s: Seq<char>, entries: Seq<(char, Seq<bool>)>) -> Seq<bool>
    decreases s.len(),
{
    if s.len() == 0 {
        Seq::empty()
    } else {
        encode_bits(s.drop_last(), entries) + (match lookup_code(entries, s.last()) {
            Some(code) => code,
            None => Seq::empty(),
        })
    }
}

/// A non-empty input has a non-empty frequency table.
proof fn lemma_firsts_nonempty(s: Seq<char>)
    requires
        s.len() > 0,
    ensures
        firsts(s).len() > 0,
{
    lemma_count_at_index(s, 0);
    lemma_firsts_contains(s, s[0]);
}

/// Every symbol of the input is assigned a code by the pipeline's table.
pub proof fn lemma_all_syms_coded(s: Seq<char>, i: int)
    requires
        0 <= i < s.len(),
    ensures
        lookup_code(code_table_spec(s), s[i]) is Some,
{
    let c = s[i];
    let tbl = freq_table_spec(s);
    let ns = initial_nodes(tbl);
    let tree = huff_tree_spec(s);
    let es = code_table_spec(s);
    lemma_count_at_index(s, i);
    lemma_firsts_contains(s, c);
    let k = choose|k: int| 0 <= k < firsts(s).len() && firsts(s)[k] == c;
    assert(tbl[k].0 == c);
    lemma_table_index_count(tbl, c, k);
    lemma_initial_nodes_counts(tbl, c);
    lemma_firsts_nonempty(s);
    lemma_build_tree_preserves(ns, c);
    assert(tree.sym_count(c) >= 1);
    lemma_code_entries_sym_count(tree, Seq::empty(), c);
    lemma_entries_count_witness(es, c);
    lemma_lookup_some(es, c);
}

/// A positive entry symbol count exhibits an entry naming the symbol.
proof fn lemma_entries_count_witness(entries: Seq<(char, Seq<bool>)>, c: char)
    requires
        entries_sym_count(entries, c) >= 1,
    ensures
        exists|k: int| 0 <= k < entries.len() && (#[trigger] entries[k]).0 == c,
    decreases entries.len(),
{
    if entries.len() > 0 {
        if entries.last().0 == c {
            assert(entries[entries.len() - 1].0 == c);
        } else {
            lemma_entries_count_witness(entries.drop_last(), c);
            let k = choose|k: int|
                0 <= k < entries.drop_last().len() && (#[trigger] entries.drop_last()[k]).0 == c;
            assert(entries[k].0 == c);
        }
    }
}

} // verus!

verus! {

/// Compresses `data`: counts symbol frequencies, builds the prefix tree,
/// derives the code table, and encodes the input symbol by symbol. Returns
/// `None` exactly when the input is empty; otherwise the bit sequence and
/// the code table. An input made of one repeated symbol keeps the
/// degenerate one-leaf tree: its single code has length zero, and the
/// payload packs to no bytes.
pub fn compress(data: &str) -> (r: Option<(Vec<bool>, Vec<(char, Vec<bool>)>)>)
    ensures
        r is Some <==> data@.len() > 0,
        r matches Some((bits, codes)) ==> table_view(codes@) == code_table_spec(data@) && bits@
            == encode_bits(data@, code_table_spec(data@)),
{
    let n: usize = data.unicode_len();
    let mut chars: Vec<char> = Vec::new();
    for i in 0..n
        invariant
            n == data@.len(),
            chars@ == data@.take(i as int),
    {
        chars.push(data.get_char(i));
        proof {
            assert(chars@ =~= data@.take(i + 1));
        }
    }
    proof {
        assert(data@.take(n as int) =~= data@);
    }
    let frequencies = count_frequencies(&chars);
    if frequencies.len() == 0 {
        proof {
            if data@.len() > 0 {
                lemma_firsts_nonempty(data@);
                assert(freq_table_spec(data@).len() == firsts(data@).len());
            }
        }
        return None;
    }
    proof {
        lemma_sum_counts_freq(data@);
    }
    let tree = build_huffman_tree(&frequencies).unwrap();
    let mut codes: Vec<(char, Vec<bool>)> = Vec::new();
    generate_codes(&tree, Vec::new(), &mut codes);
    let ghost entries = code_table_spec(data@);
    proof {
        assert(table_view(Seq::<(char, Vec<bool>)>::empty()) =~= Seq::<(char, Seq<bool>)>::empty());
        assert(table_view(codes@) =~= entries);
    }
    let mut bits: Vec<bool> = Vec::new();
    proof {
        assert(encode_bits(data@.take(0), entries) =~= Seq::<bool>::empty());
    }
    for i in 0..n
        invariant
            n == data@.len(),
            chars@ == data@,
            table_view(codes@) == entries,
            entries == code_table_spec(data@),
            bits@ == encode_bits(data@.take(i as int), entries),
    {
        let ch: char = chars[i];
        match find_code(&codes, ch) {
            Some(k) => {
                let ghost code = codes@[k as int].1@;
                let m_end: usize = codes[k].1.len();
                let ghost bits0 = bits@;
                proof {
                    assert(bits0 + code.take(0) =~= bits0);
                }
                let mut m: usize = 0;
                while m < m_end
                    invariant
                        m <= m_end,
                        k < codes@.len(),
                        m_end == codes@[k as int].1@.len(),
                        code == codes@[k as int].1@,
                        bits@ == bits0 + code.take(m as int),
                    decreases m_end - m,
                {
                    let b: bool = codes[k].1[m];
                    bits.push(b);
                    proof {
                        assert(bits0 + code.take(m + 1) =~= (bits0 + code.take(m as int)).push(
                            code[m as int],
                        ));
                    }
                    m += 1;
                }
                proof {
                    assert(code.take(m_end as int) =~= code);
                    assert(data@.take(i + 1).drop_last() =~= data@.take(i as int));
                    assert(data@.take(i + 1).last() == data@[i as int]);
                    assert(bits@ =~= encode_bits(data@.take(i + 1), entries));
                }
            }
            None => {
                proof {
                    lemma_all_syms_coded(data@, i as int);
                }
                return None;
            }
        }
    }
    proof {
        assert(data@.take(n as int) =~= data@);
    }
    Some((bits, codes))
}

} // verus!

verus! {

/// The bytes of one code-table record: the symbol's code point reduced to
/// one byte, the code's bit length reduced to one byte, then the code's own
/// bits packed independently.
pub open spec fn record_bytes(e: (char, Seq<bool>)) -> Seq<u8> {
    seq![((e.0 as u32) % 256) as u8, (e.1.len() % 256) as u8] + pack_bits(e.1)
}

/// The serialized code table: each entry's record in table order, with no
/// count, delimiter, or terminator.
pub open spec fn table_bytes(entries: Seq<(char, Seq<bool>)>) -> Seq<u8>
    decreases entries.len(),
{
    if entries.len() == 0 {
        Seq::empty()
    } else {
        table_bytes(entries.drop_last()) + record_bytes(entries.last())
    }
}

/// Serializes the container: every code-table record in table order,
/// followed directly by the packed payload, with no delimiter between the
/// table section and the payload section.
pub fn container_bytes(codes: &Vec<(char, Vec<bool>)>, payload: &Vec<u8>) -> (r: Vec<u8>)
    ensures
        r@ == table_bytes(table_view(codes@)) + payload@,
{
    let ghost view = table_view(codes@);
    let mut out: Vec<u8> = Vec::new();
    proof {
        assert(view.take(0) =~= Seq::<(char, Seq<bool>)>::empty());
        assert(out@ =~= table_bytes(view.take(0)));
    }
    let n: usize = codes.len();
    for k in 0..n
        invariant
            n == codes@.len(),
            view == table_view(codes@),
            out@ == table_bytes(view.take(k as int)),
    {
        let ghost rec_start = out@;
        let ch: char = codes[k].0;
        let code_point: u32 = ch as u32;
        let ch_byte: u8 = (code_point % 256) as u8;
        let len_byte: u8 = (codes[k].1.len() % 256) as u8;
        out.push(ch_byte);
        out.push(len_byte);
        let code_bytes = to_bytes(&codes[k].1);
        let ghost mid = out@;
        let m_end: usize = code_bytes.len();
        let mut m: usize = 0;
        while m < m_end
            invariant
                m <= m_end,
                m_end == code_bytes@.len(),
                out@ == mid + code_bytes@.take(m as int),
            decreases m_end - m,
        {
            let b: u8 = code_bytes[m];
            out.push(b);
            proof {
                assert(mid + code_bytes@.take(m + 1) =~= (mid + code_bytes@.take(m as int)).push(
                    code_bytes@[m as int],
                ));
            }
            m += 1;
        }
        proof {
            assert(code_bytes@.take(m_end as int) =~= code_bytes@);
            assert(view[k as int] == (codes@[k as int].0, codes@[k as int].1@));
            assert(record_bytes(view[k as int]) =~= seq![ch_byte, len_byte] + code_bytes@);
            assert(view.take(k + 1).drop_last() =~= view.take(k as int));
            assert(view.take(k + 1).last() == view[k as int]);
            assert(out@ =~= table_bytes(view.take(k + 1)));
        }
    }
    proof {
        assert(view.take(n as int) =~= view);
    }
    let ghost table_done = out@;
    let p_end: usize = payload.len();
    let mut m: usize = 0;
    while m < p_end
        invariant
            m <= p_end,
            p_end == payload@.len(),
            out@ == table_done + payload@.take(m as int),
            table_done == table_bytes(view),
        decreases p_end - m,
    {
        let b: u8 = payload[m];
        out.push(b);
        proof {
            assert(table_done + payload@.take(m + 1) =~= (table_done + payload@.take(
                m as int,
            )).push(payload@[m as int]));
        }
        m += 1;
    }
    proof {
        assert(payload@.take(p_end as int) =~= payload@);
    }
    out
}

} // verus!

verus! {

/// No code in the table generated for an input is a prefix of another code
/// in that table: the generated code is prefix-free. For an input with at
/// least two distinct symbols the table has at least two entries and the
/// statement is substantial; with one entry it holds vacuously.
pub proof fn lemma_code_table_prefix_free(s: Seq<char>, i: int, j: int)
    requires
        0 <= i < code_table_spec(s).len(),
        0 <= j < code_table_spec(s).len(),
        i != j,
    ensures
        !code_table_spec(s)[i].1.is_prefix_of(code_table_spec(s)[j].1),
{
    lemma_code_entries_prefix_free(huff_tree_spec(s), Seq::empty(), i, j);
}

/// Whether a code table names each symbol at most once.
pub open spec fn entries_distinct(entries: Seq<(char, Seq<bool>)>) -> bool {
    forall|i: int, j: int|
        0 <= i < j < entries.len() ==> (#[trigger] entries[i]).0 != (#[trigger] entries[j]).0
}

/// The sum over the code table of each symbol's code length, weighted by
/// the symbol's frequency in `s`.
pub open spec fn weighted_sum(entries: Seq<(char, Seq<bool>)>, s: Seq<char>) -> nat
    decreases entries.len(),
{
    if entries.len() == 0 {
        0nat
    } else {
        count_in(s, entries[0].0) * entries[0].1.len() + weighted_sum(entries.drop_first(), s)
    }
}

/// An empty input weighs nothing.
proof fn lemma_weighted_sum_empty(entries: Seq<(char, Seq<bool>)>, s: Seq<char>)
    requires
        s.len() == 0,
    ensures
        weighted_sum(entries, s) == 0,
    decreases entries.len(),
{
    if entries.len() > 0 {
        assert(count_in(s, entries[0].0) == 0);
        assert(count_in(s, entries[0].0) * entries[0].1.len() == 0) by (nonlinear_arith)
            requires
                count_in(s, entries[0].0) == 0,
        ;
        lemma_weighted_sum_empty(entries.drop_first(), s);
    }
}

/// Dropping the last input symbol leaves the weighted sum unchanged when no
/// entry names that symbol.
proof fn lemma_weighted_sum_no_last(entries: Seq<(char, Seq<bool>)>, s: Seq<char>)
    requires
        s.len() > 0,
        forall|k: int| 0 <= k < entries.len() ==> (#[trigger] entries[k]).0 != s.last(),
    ensures
        weighted_sum(entries, s) == weighted_sum(entries, s.drop_last()),
    decreases entries.len(),
{
    if entries.len() > 0 {
        let rest = entries.drop_first();
        assert(entries[0].0 != s.last());
        assert forall|k: int| 0 <= k < rest.len() implies (#[trigger] rest[k]).0 != s.last() by {
            assert(rest[k] == entries[k + 1]);
        }
        lemma_weighted_sum_no_last(rest, s);
    }
}

/// Dropping the last input symbol lowers the weighted sum by exactly the
/// length of that symbol's code.
proof fn lemma_weighted_sum_last(entries: Seq<(char, Seq<bool>)>, s: Seq<char>, code: Seq<bool>)
    requires
        s.len() > 0,
        entries_distinct(entries),
        lookup_code(entries, s.last()) == Some(code),
    ensures
        weighted_sum(entries, s) == weighted_sum(entries, s.drop_last()) + code.len(),
    decreases entries.len(),
{
    let c = s.last();
    let rest = entries.drop_first();
    if entries[0].0 == c {
        assert(code == entries[0].1);
        assert(count_in(s, c) == count_in(s.drop_last(), c) + 1);
        assert((count_in(s.drop_last(), c) + 1) * code.len() == count_in(s.drop_last(), c)
            * code.len() + code.len()) by (nonlinear_arith);
        assert forall|k: int| 0 <= k < rest.len() implies (#[trigger] rest[k]).0 != c by {
            assert(rest[k] == entries[k + 1]);
            assert(entries[0].0 != entries[k + 1].0);
        }
        lemma_weighted_sum_no_last(rest, s);
    } else {
        assert(count_in(s, entries[0].0) == count_in(s.drop_last(), entries[0].0));
        assert forall|i: int, j: int|
            0 <= i < j < rest.len() implies (#[trigger] rest[i]).0 != (#[trigger] rest[j]).0 by {
            assert(rest[i] == entries[i + 1]);
            assert(rest[j] == entries[j + 1]);
        }
        lemma_weighted_sum_last(rest, s, code);
    }
}

/// The encoded payload of `s` is exactly as long as the weighted sum of the
/// table's code lengths, provided the table names each input symbol once.
pub proof fn lemma_encode_bits_length(s: Seq<char>, entries: Seq<(char, Seq<bool>)>)
    requires
        entries_distinct(entries),
        forall|i: int| 0 <= i < s.len() ==> lookup_code(entries, #[trigger] s[i]) is Some,
    ensures
        encode_bits(s, entries).len() == weighted_sum(entries, s),
    decreases s.len(),
{
    if s.len() == 0 {
        lemma_weighted_sum_empty(entries, s);
    } else {
        let d = s.drop_last();
        assert forall|i: int| 0 <= i < d.len() implies lookup_code(entries, #[trigger] d[i])
            is Some by {
            assert(d[i] == s[i]);
        }
        lemma_encode_bits_length(d, entries);
        assert(s[s.len() - 1] == s.last());
        let code = lookup_code(entries, s.last());
        lemma_weighted_sum_last(entries, s, code.unwrap());
    }
}

/// The table generated for an input names each symbol at most once.
pub proof fn lemma_code_table_distinct(s: Seq<char>)
    ensures
        entries_distinct(code_table_spec(s)),
{
    let tbl = freq_table_spec(s);
    let ns = initial_nodes(tbl);
    let tree = huff_tree_spec(s);
    let es = code_table_spec(s);
    assert forall|i: int, j: int|
        0 <= i < j < es.len() implies (#[trigger] es[i]).0 != (#[trigger] es[j]).0 by {
        if es[i].0 == es[j].0 {
            let c = es[i].0;
            lemma_entries_two_indices(es, c, i, j);
            lemma_code_entries_sym_count(tree, Seq::empty(), c);
            assert(tree.sym_count(c) >= 2);
            if tbl.len() == 0 {
                assert(ns.len() == 0);
                assert(tree == HuffmanNode::Leaf('\0', 0));
            } else {
                lemma_build_tree_preserves(ns, c);
                lemma_initial_nodes_counts(tbl, c);
                lemma_firsts_no_duplicates(s);
                assert forall|a: int, b: int|
                    0 <= a < b < tbl.len() implies (#[trigger] tbl[a]).0 != (#[trigger] tbl[b]).0 by {
                    assert(tbl[a].0 == firsts(s)[a]);
                    assert(tbl[b].0 == firsts(s)[b]);
                }
                lemma_table_distinct_count(tbl, c);
            }
        }
    }
}

/// The sum over all symbols of code length times frequency equals the bit
/// length of the encoded payload before packing.
pub proof fn lemma_payload_bit_length(s: Seq<char>)
    ensures
        encode_bits(s, code_table_spec(s)).len() == weighted_sum(code_table_spec(s), s),
{
    lemma_code_table_distinct(s);
    assert forall|i: int| 0 <= i < s.len() implies lookup_code(
        code_table_spec(s),
        #[trigger] s[i],
    ) is Some by {
        lemma_all_syms_coded(s, i);
    }
    lemma_encode_bits_length(s, code_table_spec(s));
}

/// Compressing the same input twice yields the same payload, both as bits
/// and as packed bytes: the contract of `compress` pins the payload as a
/// function of the input alone, and `to_bytes` pins the packing.
pub proof fn lemma_compress_deterministic(s: Seq<char>, b1: Seq<bool>, b2: Seq<bool>)
    requires
        b1 == encode_bits(s, code_table_spec(s)),
        b2 == encode_bits(s, code_table_spec(s)),
    ensures
        b1 == b2,
        pack_bits(b1) == pack_bits(b2),
{
}

} // verus!
