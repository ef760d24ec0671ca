//! The Huffman algorithm: character spectrum analysis, code-tree
//! construction, tree traversal, and prefix-code tables with encoding and
//! decoding of text to and from bit streams.

use vstd::prelude::*;
use vstd::string::{StrSliceExecFns, StringExecFns};

use crate::huffman::bitstream::{bit_of, to_bits, BitBuffer, BitStreamReader, BitStreamWriter};
use crate::strutil::push_char;

verus! {

// ---------------------------------------------------------------------------
// Character spectrum
// ---------------------------------------------------------------------------

/// How many times `c` occurs in `s`.
pub open spec fn occ(s: Seq<char>, c: char) -> int
    decreases s.len(),
{
    if s.len() == 0 {
        0
    } else {
        occ(s.drop_last(), c) + if s.last() == c {
            1int
        } else {
            0int
        }
    }
}

/// The distinct characters of `s`, in order of first appearance.
pub open spec fn distinct_chars(s: Seq<char>) -> Seq<char>
    decreases s.len(),
{
    if s.len() == 0 {
        Seq::empty()
    } else {
        let p = distinct_chars(s.drop_last());
        if p.contains(s.last()) {
            p
        } else {
            p.push(s.last())
        }
    }
}

/// Ordering of frequency bins: by count, then by character.
pub open spec fn bin_le(a: (char, usize), b: (char, usize)) -> bool {
    a.1 < b.1 || (a.1 == b.1 && a.0 as u32 <= b.0 as u32)
}

/// Where inserting into a bin sequence sorted by [`bin_le`] keeps it sorted:
/// after every bin that does not exceed `e`.
pub open spec fn sorted_insert_bin(s: Seq<(char, usize)>, e: (char, usize)) -> Seq<(char, usize)>
    decreases s.len(),
{
    if s.len() == 0 {
        seq![e]
    } else if bin_le(s[0], e) {
        seq![s[0]] + sorted_insert_bin(s.drop_first(), e)
    } else {
        seq![e] + s
    }
}

/// Insertion sort of frequency bins by [`bin_le`], stable.
pub open spec fn sort_bins(s: Seq<(char, usize)>) -> Seq<(char, usize)>
    decreases s.len(),
{
    if s.len() == 0 {
        Seq::empty()
    } else {
        sorted_insert_bin(sort_bins(s.drop_last()), s.last())
    }
}

/// The characters of a bin sequence, in order.
pub open spec fn bins_chars(bins: Seq<(char, usize)>) -> Seq<char> {
    Seq::new(bins.len(), |i: int| bins[i].0)
}

/// Whether `bins` is the frequency analysis of `s`: one bin per distinct
/// character of `s`, in order of first appearance, with its occurrence count.
pub open spec fn spectrum_is_analysis(bins: Seq<(char, usize)>, s: Seq<char>) -> bool {
    &&& bins_chars(bins) == distinct_chars(s)
    &&& forall|k: int| 0 <= k < bins.len() ==> #[trigger] bins[k].1 == occ(s, bins[k].0)
}

/// One element of the character sequence of a bin sequence.
pub proof fn lemma_bins_chars_index(bins: Seq<(char, usize)>, j: int)
    requires
        0 <= j < bins.len(),
    ensures
        bins_chars(bins)[j] == bins[j].0,
{
}

/// The distinct characters hold no character twice.
pub proof fn lemma_distinct_no_dup(s: Seq<char>)
    ensures
        forall|a: int, b: int|
            0 <= a < b < distinct_chars(s).len() ==> distinct_chars(s)[a] != distinct_chars(s)[b],
    decreases s.len(),
{
    if s.len() > 0 {
        lemma_distinct_no_dup(s.drop_last());
        let p = distinct_chars(s.drop_last());
        if !p.contains(s.last()) {
            assert forall|a: int, b: int|
                0 <= a < b < distinct_chars(s).len() implies distinct_chars(s)[a]
                != distinct_chars(s)[b] by {
                if b == p.len() {
                    if distinct_chars(s)[a] == s.last() {
                        assert(p[a] == s.last());
                        assert(p.contains(s.last()));
                    }
                }
            }
        }
    }
}

/// A character occurs in `s` exactly when it is among its distinct
/// characters; occurrence counts are never negative.
pub proof fn lemma_occ_distinct(s: Seq<char>, c: char)
    ensures
        occ(s, c) >= 0,
        distinct_chars(s).contains(c) <==> occ(s, c) > 0,
    decreases s.len(),
{
    if s.len() > 0 {
        lemma_occ_distinct(s.drop_last(), c);
        let p = distinct_chars(s.drop_last());
        if s.last() == c {
            if !p.contains(c) {
                assert(distinct_chars(s)[p.len() as int] == c);
            }
        } else {
            if p.contains(c) {
                let j = choose|j: int| 0 <= j < p.len() && p[j] == c;
                if !p.contains(s.last()) {
                    assert(distinct_chars(s)[j] == c);
                }
            }
            if distinct_chars(s).contains(c) {
                let j = choose|j: int|
                    0 <= j < distinct_chars(s).len() && distinct_chars(s)[j] == c;
                if !p.contains(s.last()) {
                    assert(j < p.len());
                    assert(p[j] == c);
                }
            }
        }
    }
}

/// Exec mirror of [`bin_le`].
fn bin_le_exec(a: &(char, usize), b: &(char, usize)) -> (r: bool)
    ensures
        r == bin_le(*a, *b),
{
    a.1 < b.1 || (a.1 == b.1 && (a.0 as u32) <= (b.0 as u32))
}

/// Stores a single frequency-bin, e.g. for the character 'r', how many times
/// 'r' appeared in a given input stream.
#[derive(Debug, Eq, PartialEq)]
pub struct CharSpectrum(pub Vec<(char, usize)>);

impl CharSpectrum {
    /// Constructor from a given input text stream.
    pub fn from_stream(stream: &str) -> (r: CharSpectrum)
        ensures
            spectrum_is_analysis(r.0@, stream@),
            total_freq(spectrum_nodes(r.0@)) <= stream@.len(),
    {
        let mut s = CharSpectrum(Vec::new());
        s.analyse_stream(stream);
        s
    }

    /// Analyses the given text stream and overwrites the internal char
    /// spectrum: one bin per distinct character, in order of first
    /// appearance, counting its occurrences.
    pub fn analyse_stream(&mut self, stream: &str)
        ensures
            spectrum_is_analysis(final(self).0@, stream@),
            total_freq(spectrum_nodes(final(self).0@)) <= stream@.len(),
    {
        let n = stream.unicode_len();
        let mut bins: Vec<(char, usize)> = Vec::new();
        let mut i: usize = 0;
        proof {
            assert(bins_chars(bins@) =~= distinct_chars(stream@.take(0)));
            assert(spectrum_nodes(bins@) =~= Seq::<NodeM>::empty());
        }
        while i < n
            invariant
                i <= n,
                n == stream@.len(),
                spectrum_is_analysis(bins@, stream@.take(i as int)),
                forall|k: int| 0 <= k < bins@.len() ==> #[trigger] bins@[k].1 <= i,
                total_freq(spectrum_nodes(bins@)) <= i,
            decreases n - i,
        {
            let ghost pre = bins@;
            let c = stream.get_char(i);
            let mut k: usize = 0;
            let mut found = false;
            while k < bins.len() && !found
                invariant
                    k <= bins@.len(),
                    bins@ == pre,
                    found ==> k < bins@.len() && bins@[k as int].0 == c,
                    !found ==> forall|j: int| 0 <= j < k ==> bins@[j].0 != c,
                decreases bins@.len() - k + (if found { 0int } else { 1int }),
            {
                if bins[k].0 == c {
                    found = true;
                } else {
                    k = k + 1;
                }
            }
            proof {
                assert(stream@.take(i + 1).drop_last() =~= stream@.take(i as int));
                assert(stream@.take(i + 1).last() == c);
                lemma_distinct_no_dup(stream@.take(i as int));
            }
            if found {
                proof {
                    lemma_bins_chars_index(pre, k as int);
                    assert(distinct_chars(stream@.take(i as int)).contains(c)) by {
                        assert(bins_chars(pre)[k as int] == c);
                    }
                }
                let (ch, cnt) = bins[k];
                bins.set(k, (ch, cnt + 1));
                proof {
                    let upd = pre.update(k as int, (ch, (cnt + 1) as usize));
                    assert(bins@ == upd);
                    assert(spectrum_nodes(pre).len() == pre.len());
                    assert(spectrum_nodes(bins@).len() == bins@.len());
                    assert forall|j: int| 0 <= j < spectrum_nodes(bins@).len() implies spectrum_nodes(
                        bins@,
                    )[j] == spectrum_nodes(pre).update(k as int, bin_node(bins@[k as int]))[j] by {
                        lemma_spectrum_nodes_index(pre, j);
                        lemma_spectrum_nodes_index(bins@, j);
                        if j != k {
                            assert(upd[j] == pre[j]);
                        } else {
                            assert(spectrum_nodes(pre).update(k as int, bin_node(bins@[k as int]))[j]
                                == bin_node(bins@[k as int]));
                        }
                    }
                    assert(spectrum_nodes(bins@) =~= spectrum_nodes(pre).update(
                        k as int,
                        bin_node(bins@[k as int]),
                    ));
                    lemma_spectrum_nodes_index(pre, k as int);
                    lemma_total_freq_update(
                        spectrum_nodes(pre),
                        k as int,
                        bin_node(bins@[k as int]),
                    );
                    assert(freq_m(bin_node(bins@[k as int])) == cnt + 1);
                    assert(freq_m(spectrum_nodes(pre)[k as int]) == cnt);
                    assert(total_freq(spectrum_nodes(bins@)) <= i + 1);
                    assert forall|j: int| 0 <= j < bins@.len() implies bins_chars(bins@)[j]
                        == bins_chars(pre)[j] by {
                        lemma_bins_chars_index(bins@, j);
                        lemma_bins_chars_index(pre, j);
                        if j != k {
                            assert(upd[j] == pre[j]);
                        }
                    }
                    assert(bins_chars(bins@) =~= bins_chars(pre));
                    assert forall|j: int| 0 <= j < bins@.len() implies #[trigger] bins@[j].1 == occ(
                        stream@.take(i + 1),
                        bins@[j].0,
                    ) by {
                        lemma_bins_chars_index(pre, j);
                        lemma_bins_chars_index(pre, k as int);
                        if j != k {
                            assert(upd[j] == pre[j]);
                            assert(pre[j].0 != c) by {
                                if pre[j].0 == c {
                                    assert(bins_chars(pre)[j] == c);
                                    assert(bins_chars(pre)[k as int] == c);
                                }
                            }
                        } else {
                            assert(upd[j] == (ch, (cnt + 1) as usize));
                            assert(pre[k as int].0 == c);
                        }
                    }
                }
            } else {
                proof {
                    assert(!distinct_chars(stream@.take(i as int)).contains(c)) by {
                        if distinct_chars(stream@.take(i as int)).contains(c) {
                            let j = choose|j: int|
                                0 <= j < bins_chars(pre).len() && bins_chars(pre)[j] == c;
                            lemma_bins_chars_index(pre, j);
                            assert(pre[j].0 == c);
                        }
                    }
                    lemma_occ_distinct(stream@.take(i as int), c);
                }
                bins.push((c, 1));
                proof {
                    let pu = pre.push((c, 1));
                    assert(bins@ == pu);
                    assert(spectrum_nodes(pre).len() == pre.len());
                    assert(spectrum_nodes(bins@).len() == bins@.len());
                    assert forall|j: int| 0 <= j < spectrum_nodes(bins@).len() implies spectrum_nodes(
                        bins@,
                    )[j] == spectrum_nodes(pre).insert(pre.len() as int, bin_node((c, 1usize)))[j] by {
                        lemma_spectrum_nodes_index(bins@, j);
                        if j < pre.len() {
                            lemma_spectrum_nodes_index(pre, j);
                            assert(pu[j] == pre[j]);
                            assert(spectrum_nodes(pre).insert(
                                pre.len() as int,
                                bin_node((c, 1usize)),
                            )[j] == spectrum_nodes(pre)[j]);
                        } else {
                            assert(pu[j] == (c, 1usize));
                            assert(spectrum_nodes(pre).insert(
                                pre.len() as int,
                                bin_node((c, 1usize)),
                            )[j] == bin_node((c, 1usize)));
                        }
                    }
                    assert(spectrum_nodes(bins@) =~= spectrum_nodes(pre).insert(
                        pre.len() as int,
                        bin_node((c, 1usize)),
                    ));
                    lemma_total_freq_insert(
                        spectrum_nodes(pre),
                        spectrum_nodes(pre).len() as int,
                        bin_node((c, 1usize)),
                    );
                    assert(total_freq(spectrum_nodes(bins@)) <= i + 1);
                    assert(distinct_chars(stream@.take(i + 1)) == distinct_chars(
                        stream@.take(i as int),
                    ).push(c));
                    assert forall|j: int| 0 <= j < bins@.len() implies bins_chars(bins@)[j]
                        == distinct_chars(stream@.take(i + 1))[j] by {
                        lemma_bins_chars_index(bins@, j);
                        if j < pre.len() {
                            assert(pu[j] == pre[j]);
                            lemma_bins_chars_index(pre, j);
                            assert(distinct_chars(stream@.take(i as int)).push(c)[j]
                                == distinct_chars(stream@.take(i as int))[j]);
                        } else {
                            assert(pu[j] == (c, 1usize));
                            assert(distinct_chars(stream@.take(i as int)).push(c)[j] == c);
                        }
                    }
                    assert(bins_chars(bins@) =~= distinct_chars(stream@.take(i + 1)));
                    assert forall|j: int| 0 <= j < bins@.len() implies #[trigger] bins@[j].1 == occ(
                        stream@.take(i + 1),
                        bins@[j].0,
                    ) by {
                        if j < pre.len() {
                            assert(pu[j] == pre[j]);
                            assert(pre[j].0 != c) by {
                                if pre[j].0 == c {
                                    lemma_bins_chars_index(pre, j);
                                    assert(bins_chars(pre)[j] == c);
                                }
                            }
                        } else {
                            assert(pu[j] == (c, 1usize));
                        }
                    }
                }
            }
            i = i + 1;
        }
        proof {
            assert(stream@.take(n as int) =~= stream@);
        }
        self.0 = bins;
    }

    /// Sorts the internal array of char-frequency-bins ascending, by count
    /// and, among equal counts, by character.
    pub fn sort(&mut self)
        ensures
            final(self).0@ == sort_bins(old(self).0@),
    {
        let n = self.0.len();
        let mut out: Vec<(char, usize)> = Vec::new();
        let mut i: usize = 0;
        proof {
            assert(sort_bins(self.0@.take(0)) =~= Seq::<(char, usize)>::empty());
        }
        while i < n
            invariant
                i <= n,
                n == self.0@.len(),
                out@ == sort_bins(self.0@.take(i as int)),
            decreases n - i,
        {
            let e = self.0[i];
            let ghost base = out@;
            let mut k: usize = 0;
            proof {
                assert(base.skip(0) =~= base);
                assert(base.take(0) + sorted_insert_bin(base.skip(0), e) =~= sorted_insert_bin(
                    base,
                    e,
                ));
            }
            while k < out.len() && bin_le_exec(&out[k], &e)
                invariant
                    k <= base.len(),
                    out@ == base,
                    sorted_insert_bin(base, e) == base.take(k as int) + sorted_insert_bin(
                        base.skip(k as int),
                        e,
                    ),
                decreases base.len() - k,
            {
                proof {
                    assert(base.skip(k as int)[0] == base[k as int]);
                    assert(base.skip(k as int).drop_first() =~= base.skip(k + 1));
                    assert(base.take(k as int).push(base[k as int]) =~= base.take(k + 1));
                    assert(base.take(k as int) + (seq![base.skip(k as int)[0]]
                        + sorted_insert_bin(base.skip(k + 1), e)) =~= base.take(k + 1)
                        + sorted_insert_bin(base.skip(k + 1), e));
                }
                k = k + 1;
            }
            proof {
                if k < base.len() {
                    assert(sorted_insert_bin(base.skip(k as int), e) =~= seq![e] + base.skip(
                        k as int,
                    ));
                } else {
                    assert(base.skip(k as int) =~= Seq::<(char, usize)>::empty());
                }
                assert(sorted_insert_bin(base, e) =~= base.insert(k as int, e));
                assert(self.0@.take(i + 1).drop_last() =~= self.0@.take(i as int));
                assert(self.0@.take(i + 1).last() == e);
            }
            out.insert(k, e);
            i = i + 1;
        }
        proof {
            assert(self.0@.take(n as int) =~= self.0@);
        }
        self.0 = out;
    }
}

// ---------------------------------------------------------------------------
// The code tree
// ---------------------------------------------------------------------------

/// One single node of the Huffman binary tree.
#[derive(Debug, PartialEq)]
pub enum CtTreeNode {
    /// A leaf/entry with a bin out of the `CharSpectrum`.
    Bin(char, usize),
    /// A hierarchy/sorting node with sum of contained bin-sums.
    Hierarchy(usize, Option<Box<CtTreeNode>>, Option<Box<CtTreeNode>>),
}

/// Model of a tree node: a leaf bin, or an inner node with its frequency sum
/// and up to one left and one right child (each a sequence of length zero or
/// one).
pub enum NodeM {
    Bin(char, int),
    Hier(int, Seq<NodeM>, Seq<NodeM>),
}

/// The model of a child slot.
pub open spec fn child_model(o: Option<Box<CtTreeNode>>) -> Seq<NodeM>
    decreases o, 0nat,
{
    match o {
        Option::Some(b) => seq![node_model(*b)],
        Option::None => Seq::empty(),
    }
}

/// The model of a node.
pub open spec fn node_model(n: CtTreeNode) -> NodeM
    decreases n, 1nat,
{
    match n {
        CtTreeNode::Bin(c, f) => NodeM::Bin(c, f as int),
        CtTreeNode::Hierarchy(f, l, r) => NodeM::Hier(f as int, child_model(l), child_model(r)),
    }
}

/// The models of a node sequence.
pub open spec fn models_of(v: Seq<CtTreeNode>) -> Seq<NodeM> {
    Seq::new(v.len(), |i: int| node_model(v[i]))
}

/// The leaf node of one spectrum bin.
pub open spec fn bin_node(b: (char, usize)) -> NodeM {
    NodeM::Bin(b.0, b.1 as int)
}

/// The leaf nodes of a spectrum's bins.
pub open spec fn spectrum_nodes(bins: Seq<(char, usize)>) -> Seq<NodeM> {
    Seq::new(bins.len(), |i: int| bin_node(bins[i]))
}

/// One element of the model sequence of a node sequence.
pub proof fn lemma_models_of_index(v: Seq<CtTreeNode>, j: int)
    requires
        0 <= j < v.len(),
    ensures
        models_of(v)[j] == node_model(v[j]),
{
}

/// One leaf node of a spectrum.
pub proof fn lemma_spectrum_nodes_index(bins: Seq<(char, usize)>, j: int)
    requires
        0 <= j < bins.len(),
    ensures
        spectrum_nodes(bins)[j] == bin_node(bins[j]),
{
}

/// The frequency of a model node.
pub open spec fn freq_m(n: NodeM) -> int {
    match n {
        NodeM::Bin(_, f) => f,
        NodeM::Hier(f, _, _) => f,
    }
}

/// The merge of two nodes: an inner node carrying their frequency sum.
pub open spec fn merge_node(l: NodeM, r: NodeM) -> NodeM {
    NodeM::Hier(freq_m(l) + freq_m(r), seq![l], seq![r])
}

/// How many leading nodes of `s` have a frequency below `f`.
pub open spec fn find_pos(f: int, s: Seq<NodeM>) -> int
    decreases s.len(),
{
    if s.len() == 0 {
        0
    } else if freq_m(s[0]) < f {
        1 + find_pos(f, s.drop_first())
    } else {
        0
    }
}

/// One merge step: the first two nodes are merged and the result is inserted
/// behind the nodes of lower frequency.
pub open spec fn merge_once(v: Seq<NodeM>) -> Seq<NodeM>
    recommends
        v.len() >= 2,
{
    let merged = merge_node(v[0], v[1]);
    let rest = v.subrange(2, v.len() as int);
    rest.insert(find_pos(freq_m(merged), rest), merged)
}

/// The Huffman tree of a node sequence: repeated merging until one node is
/// left.
pub open spec fn huffman_tree(v: Seq<NodeM>) -> NodeM
    decreases v.len()
        when v.len() >= 1
        via huffman_tree_decreases
{
    if v.len() == 1 {
        v[0]
    } else {
        huffman_tree(merge_once(v))
    }
}

#[via_fn]
proof fn huffman_tree_decreases(v: Seq<NodeM>) {
    if v.len() > 1 {
        let merged = merge_node(v[0], v[1]);
        let rest = v.subrange(2, v.len() as int);
        lemma_find_pos_bounds(freq_m(merged), rest);
    }
}

/// The insertion position lies inside the sequence.
pub proof fn lemma_find_pos_bounds(f: int, s: Seq<NodeM>)
    ensures
        0 <= find_pos(f, s) <= s.len(),
    decreases s.len(),
{
    if s.len() > 0 && freq_m(s[0]) < f {
        lemma_find_pos_bounds(f, s.drop_first());
    }
}

/// The total frequency of a node sequence.
pub open spec fn total_freq(s: Seq<NodeM>) -> int
    decreases s.len(),
{
    if s.len() == 0 {
        0
    } else {
        freq_m(s[0]) + total_freq(s.drop_first())
    }
}

/// A total frequency is no less than any single member, all frequencies
/// being non-negative.
pub proof fn lemma_total_freq_parts(s: Seq<NodeM>)
    requires
        forall|k: int| 0 <= k < s.len() ==> freq_m(#[trigger] s[k]) >= 0,
    ensures
        total_freq(s) >= 0,
        forall|k: int| 0 <= k < s.len() ==> freq_m(#[trigger] s[k]) <= total_freq(s),
    decreases s.len(),
{
    if s.len() > 0 {
        assert(forall|k: int|
            0 <= k < s.drop_first().len() ==> freq_m(#[trigger] s.drop_first()[k]) >= 0);
        lemma_total_freq_parts(s.drop_first());
        assert forall|k: int| 0 <= k < s.len() implies freq_m(#[trigger] s[k]) <= total_freq(s) by {
            if k > 0 {
                assert(s.drop_first()[k - 1] == s[k]);
            }
        }
    }
}

/// Inserting a node adds its frequency to the total.
pub proof fn lemma_total_freq_insert(s: Seq<NodeM>, i: int, x: NodeM)
    requires
        0 <= i <= s.len(),
    ensures
        total_freq(s.insert(i, x)) == total_freq(s) + freq_m(x),
    decreases i,
{
    if i == 0 {
        assert(s.insert(0, x).drop_first() =~= s);
    } else {
        assert(s.insert(i, x)[0] == s[0]);
        assert(s.insert(i, x).drop_first() =~= s.drop_first().insert(i - 1, x));
        lemma_total_freq_insert(s.drop_first(), i - 1, x);
    }
}

/// Replacing a node changes the total by the frequency difference.
pub proof fn lemma_total_freq_update(s: Seq<NodeM>, i: int, x: NodeM)
    requires
        0 <= i < s.len(),
    ensures
        total_freq(s.update(i, x)) == total_freq(s) - freq_m(s[i]) + freq_m(x),
    decreases i,
{
    if i == 0 {
        assert(s.update(0, x)[0] == x);
        assert(s.update(0, x).drop_first() =~= s.drop_first());
    } else {
        assert(s.update(i, x)[0] == s[0]);
        assert(s.update(i, x).drop_first() =~= s.drop_first().update(i - 1, x));
        lemma_total_freq_update(s.drop_first(), i - 1, x);
    }
}

impl CtTreeNode {
    /// A leaf node for one frequency bin.
    pub fn bin(c: char, f: usize) -> (r: CtTreeNode)
        ensures
            r == CtTreeNode::Bin(c, f),
    {
        CtTreeNode::Bin(c, f)
    }

    /// Merges two nodes under a new hierarchy node carrying their frequency
    /// sum.
    pub fn hierarchy(left: CtTreeNode, right: CtTreeNode) -> (r: CtTreeNode)
        requires
            left.frequency_spec() + right.frequency_spec() <= usize::MAX,
        ensures
            node_model(r) == merge_node(node_model(left), node_model(right)),
            r.frequency_spec() == left.frequency_spec() + right.frequency_spec(),
    {
        let f = left.frequency() + right.frequency();
        let r = CtTreeNode::Hierarchy(f, Some(Box::new(left)), Some(Box::new(right)));
        r
    }

    /// The node's frequency, as the model has it.
    pub open spec fn frequency_spec(&self) -> int {
        freq_m(node_model(*self))
    }

    /// The frequency of this node: a bin's count, or a hierarchy's sum.
    pub fn frequency(&self) -> (r: usize)
        ensures
            r == self.frequency_spec(),
    {
        match self {
            CtTreeNode::Bin(_, cnt) => *cnt,
            CtTreeNode::Hierarchy(sum, _, _) => *sum,
        }
    }

    /// How many leading nodes of `node_vec` have a lower frequency than this
    /// node.
    pub fn find_position_in(&self, node_vec: &[CtTreeNode]) -> (r: usize)
        ensures
            r == find_pos(self.frequency_spec(), models_of(node_vec@)),
    {
        let ghost ms = models_of(node_vec@);
        let freq = self.frequency();
        let mut n_el: usize = 0;
        let len = node_vec.len();
        let mut stop = false;
        proof {
            assert(ms.skip(0) =~= ms);
        }
        while n_el < len && !stop
            invariant
                n_el <= len,
                len == node_vec@.len(),
                ms == models_of(node_vec@),
                freq == self.frequency_spec(),
                find_pos(freq as int, ms) == n_el + (if stop {
                    0int
                } else {
                    find_pos(freq as int, ms.skip(n_el as int))
                }),
                stop ==> find_pos(freq as int, ms) == n_el,
            decreases len - n_el + (if stop { 0int } else { 1int }),
        {
            proof {
                assert(ms.skip(n_el as int)[0] == ms[n_el as int]);
                assert(ms[n_el as int] == node_model(node_vec@[n_el as int]));
                assert(ms.skip(n_el as int).drop_first() =~= ms.skip(n_el + 1));
            }
            if freq > node_vec[n_el].frequency() {
                n_el = n_el + 1;
            } else {
                stop = true;
            }
        }
        proof {
            if !stop {
                assert(ms.skip(n_el as int) =~= Seq::<NodeM>::empty());
            }
        }
        n_el
    }

    /// Whether this is a hierarchy node with the given frequency sum.
    pub fn test_hierarchy(&self, test_f: usize) -> (r: bool)
        ensures
            r == (node_model(*self) is Hier && self.frequency_spec() == test_f),
    {
        match self {
            CtTreeNode::Hierarchy(freq, _, _) => test_f == *freq,
            _ => false,
        }
    }

    /// Whether this is a bin node with the given character and count.
    pub fn test_bin(&self, test_c: char, test_f: usize) -> (r: bool)
        ensures
            r == (node_model(*self) == NodeM::Bin(test_c, test_f as int)),
    {
        match self {
            CtTreeNode::Bin(c, f) => test_c == *c && test_f == *f,
            _ => false,
        }
    }
}

/// Huffman binary tree.
#[derive(Debug)]
pub struct CtBinaryTree {
    /// The actual binary data tree.
    pub node: Box<CtTreeNode>,
}

impl CtBinaryTree {
    /// Wraps a root node.
    pub fn from_node(node: CtTreeNode) -> (r: CtBinaryTree)
        ensures
            node_model(*r.node) == node_model(node),
    {
        CtBinaryTree { node: Box::new(node) }
    }

    /// Builds the Huffman tree of a character spectrum by repeatedly merging
    /// the two front nodes and inserting the merge behind the nodes of lower
    /// frequency; an empty spectrum is refused.
    pub fn from_spectrum(cs: CharSpectrum) -> (r: Result<CtBinaryTree, String>)
        requires
            total_freq(spectrum_nodes(cs.0@)) <= usize::MAX,
        ensures
            r is Ok <==> cs.0@.len() > 0,
            r is Ok ==> node_model(*(r->Ok_0).node) == huffman_tree(spectrum_nodes(cs.0@)),
            r is Err ==> (r->Err_0)@ == "CtBinaryTree::from(CharSpectrum) - empty CharSpectrum!"@,
    {
        let ghost bins0 = spectrum_nodes(cs.0@);
        if cs.0.len() == 0 {
            return Err(String::from_str("CtBinaryTree::from(CharSpectrum) - empty CharSpectrum!"));
        }
        let spectrum = cs.0;
        let mut v_cs: Vec<CtTreeNode> = Vec::new();
        let mut i: usize = 0;
        let n = spectrum.len();
        proof {
            assert(models_of(v_cs@) =~= spectrum_nodes(spectrum@.take(0)));
        }
        while i < n
            invariant
                i <= n,
                n == spectrum@.len(),
                models_of(v_cs@) == spectrum_nodes(spectrum@.take(i as int)),
            decreases n - i,
        {
            let ghost pre = v_cs@;
            let (c, f) = spectrum[i];
            let node = CtTreeNode::bin(c, f);
            v_cs.push(node);
            proof {
                assert(c == spectrum@[i as int].0 && f == spectrum@[i as int].1);
                assert(v_cs@ == pre.push(CtTreeNode::Bin(c, f)));
                assert(models_of(pre).len() == pre.len());
                assert(spectrum_nodes(spectrum@.take(i as int)).len() == i);
                assert(pre.len() == i);
                assert(models_of(v_cs@).len() == i + 1);
                assert(spectrum_nodes(spectrum@.take(i + 1)).len() == i + 1);
                assert forall|j: int| 0 <= j < v_cs@.len() implies models_of(v_cs@)[j]
                    == spectrum_nodes(spectrum@.take(i + 1))[j] by {
                    lemma_models_of_index(v_cs@, j);
                    lemma_spectrum_nodes_index(spectrum@.take(i + 1), j);
                    if j < pre.len() {
                        assert(pre.push(CtTreeNode::Bin(c, f))[j] == pre[j]);
                        lemma_models_of_index(pre, j);
                        lemma_spectrum_nodes_index(spectrum@.take(i as int), j);
                        assert(spectrum@.take(i + 1)[j] == spectrum@.take(i as int)[j]);
                    } else {
                        assert(pre.push(CtTreeNode::Bin(c, f))[j] == CtTreeNode::Bin(c, f));
                        assert(spectrum@.take(i + 1)[j] == spectrum@[i as int]);
                    }
                }
                assert(models_of(v_cs@) =~= spectrum_nodes(spectrum@.take(i + 1)));
            }
            i = i + 1;
        }
        proof {
            assert(spectrum@.take(n as int) =~= spectrum@);
            assert(models_of(v_cs@) == bins0);
        }
        while v_cs.len() > 1
            invariant
                v_cs@.len() >= 1,
                huffman_tree(bins0) == huffman_tree(models_of(v_cs@)),
                total_freq(models_of(v_cs@)) == total_freq(bins0),
                total_freq(bins0) <= usize::MAX,
            decreases v_cs@.len(),
        {
            let ghost v0 = v_cs@;
            let ghost ms = models_of(v_cs@);
            proof {
                assert forall|k: int| 0 <= k < ms.len() implies freq_m(#[trigger] ms[k]) >= 0 by {
                    lemma_models_of_index(v0, k);
                }
                lemma_total_freq_parts(ms);
            }
            let left = v_cs.remove(0);
            let right = v_cs.remove(0);
            proof {
                assert(v_cs@ == v0.remove(0).remove(0));
                assert forall|j: int| 0 <= j < v_cs@.len() implies models_of(v_cs@)[j]
                    == ms.subrange(2, ms.len() as int)[j] by {
                    lemma_models_of_index(v_cs@, j);
                    assert(v0.remove(0).remove(0)[j] == v0.remove(0)[j + 1]);
                    assert(v0.remove(0)[j + 1] == v0[j + 2]);
                    lemma_models_of_index(v0, j + 2);
                    assert(ms.subrange(2, ms.len() as int)[j] == ms[j + 2]);
                }
                assert(models_of(v_cs@) =~= ms.subrange(2, ms.len() as int));
                assert(ms.drop_first()[0] == ms[1]);
                assert(ms.drop_first().drop_first() =~= ms.subrange(2, ms.len() as int));
                assert forall|k: int| 0 <= k < ms.subrange(2, ms.len() as int).len() implies freq_m(
                    #[trigger] ms.subrange(2, ms.len() as int)[k],
                ) >= 0 by {
                    assert(ms.subrange(2, ms.len() as int)[k] == ms[k + 2]);
                }
                lemma_total_freq_parts(ms.subrange(2, ms.len() as int));
                assert(ms.len() == v0.len());
                assert(total_freq(ms) == freq_m(ms[0]) + total_freq(ms.drop_first()));
                assert(total_freq(ms.drop_first()) == freq_m(ms.drop_first()[0]) + total_freq(
                    ms.drop_first().drop_first(),
                ));
                assert(total_freq(ms.subrange(2, ms.len() as int)) >= 0);
                assert(freq_m(ms[0]) + freq_m(ms[1]) <= total_freq(ms));
                assert(left == v0[0]);
                assert(right == v0.remove(0)[0]);
                assert(v0.remove(0)[0] == v0[1]);
                lemma_models_of_index(v0, 0);
                lemma_models_of_index(v0, 1);
                assert(node_model(left) == ms[0]);
                assert(node_model(right) == ms[1]);
            }
            let n_node = CtTreeNode::hierarchy(left, right);
            let pos = n_node.find_position_in(v_cs.as_slice());
            proof {
                lemma_find_pos_bounds(n_node.frequency_spec(), models_of(v_cs@));
            }
            let ghost rest = models_of(v_cs@);
            let ghost merged = node_model(n_node);
            let ghost before_insert = v_cs@;
            v_cs.insert(pos, n_node);
            proof {
                assert(v_cs@ == before_insert.insert(pos as int, n_node));
                assert forall|j: int| 0 <= j < v_cs@.len() implies models_of(v_cs@)[j]
                    == rest.insert(pos as int, merged)[j] by {
                    lemma_models_of_index(v_cs@, j);
                    if j < pos {
                        assert(before_insert.insert(pos as int, n_node)[j] == before_insert[j]);
                        assert(rest.insert(pos as int, merged)[j] == rest[j]);
                        lemma_models_of_index(before_insert, j);
                    } else if j == pos {
                        assert(before_insert.insert(pos as int, n_node)[j] == n_node);
                        assert(rest.insert(pos as int, merged)[j] == merged);
                    } else {
                        assert(before_insert.insert(pos as int, n_node)[j] == before_insert[j - 1]);
                        assert(rest.insert(pos as int, merged)[j] == rest[j - 1]);
                        lemma_models_of_index(before_insert, j - 1);
                    }
                }
                assert(models_of(v_cs@) =~= rest.insert(pos as int, merged));
                assert(merge_once(ms) =~= rest.insert(pos as int, merged));
                lemma_total_freq_insert(rest, pos as int, merged);
                assert(freq_m(merged) == freq_m(ms[0]) + freq_m(ms[1]));
                assert(total_freq(rest) == total_freq(ms.subrange(2, ms.len() as int)));
                assert(total_freq(models_of(v_cs@)) == total_freq(bins0));
                assert(huffman_tree(ms) == huffman_tree(merge_once(ms)));
            }
        }
        let ghost vfin = v_cs@;
        let root = v_cs.remove(0);
        proof {
            assert(root == vfin[0]);
            lemma_models_of_index(vfin, 0);
        }
        Ok(CtBinaryTree::from_node(root))
    }

    /// A depth-first iterator over the tree.
    pub fn iter<'r>(&'r self) -> (r: CtBinaryTreeIter<'r>)
        ensures
            r.wf(),
            r.idx == 0,
            r.last_code == 0,
            entries_match(r.entries@, dfs(node_model(*self.node), 0, true)),
    {
        CtBinaryTreeIter::from_tree(self)
    }
}

// ---------------------------------------------------------------------------
// Depth-first traversal with path codes
// ---------------------------------------------------------------------------

/// One traversal entry: a node, the code of the path that reaches it (left
/// edges append a zero bit, right edges a one), and whether it is the root.
pub struct DfsEnt {
    pub node: NodeM,
    pub code: u8,
    pub root: bool,
}

/// The depth-first order of a tree: each node before its left, then its right
/// subtree.
pub open spec fn dfs(n: NodeM, code: u8, root: bool) -> Seq<DfsEnt>
    decreases n,
{
    seq![DfsEnt { node: n, code, root }] + (match n {
        NodeM::Bin(_, _) => Seq::<DfsEnt>::empty(),
        NodeM::Hier(_, ls, rs) => (if ls.len() > 0 {
            dfs(ls[0], (code << 1) as u8, false)
        } else {
            Seq::<DfsEnt>::empty()
        }) + (if rs.len() > 0 {
            dfs(rs[0], ((code << 1) | 1) as u8, false)
        } else {
            Seq::<DfsEnt>::empty()
        }),
    })
}

/// Whether the gathered entry triples describe the traversal `d`.
pub open spec fn entries_match(es: Seq<(&CtTreeNode, u8, bool)>, d: Seq<DfsEnt>) -> bool {
    &&& es.len() == d.len()
    &&& forall|k: int| 0 <= k < es.len() ==> {
        &&& node_model(*(#[trigger] es[k]).0) == d[k].node
        &&& es[k].1 == d[k].code
        &&& es[k].2 == d[k].root
    }
}

/// Gathers the depth-first traversal of `node` behind `out`.
fn collect_dfs<'r>(
    node: &'r CtTreeNode,
    code: u8,
    root: bool,
    out: &mut Vec<(&'r CtTreeNode, u8, bool)>,
)
    ensures
        final(out)@.len() == old(out)@.len() + dfs(node_model(*node), code, root).len(),
        forall|k: int| 0 <= k < old(out)@.len() ==> final(out)@[k] == old(out)@[k],
        entries_match(
            final(out)@.skip(old(out)@.len() as int),
            dfs(node_model(*node), code, root),
        ),
    decreases *node,
{
    let ghost base = out@.len() as int;
    let ghost d = dfs(node_model(*node), code, root);
    out.push((node, code, root));
    match node {
        CtTreeNode::Bin(_, _) => {
            proof {
                assert(out@.skip(base) =~= seq![(node, code, root)]);
                assert(d =~= seq![DfsEnt { node: node_model(*node), code, root }]);
            }
        },
        CtTreeNode::Hierarchy(_, l, r) => {
            let ghost dl = if child_model(*l).len() > 0 {
                dfs(child_model(*l)[0], (code << 1) as u8, false)
            } else {
                Seq::<DfsEnt>::empty()
            };
            let ghost dr = if child_model(*r).len() > 0 {
                dfs(child_model(*r)[0], ((code << 1) | 1) as u8, false)
            } else {
                Seq::<DfsEnt>::empty()
            };
            let ghost after_push = out@;
            match l {
                Some(b) => {
                    proof {
                        assert(node_model(*(&**b)) == child_model(*l)[0]);
                    }
                    collect_dfs(&**b, code << 1, false, out);
                },
                None => {},
            }
            let ghost after_l = out@;
            match r {
                Some(b) => {
                    proof {
                        assert(node_model(*(&**b)) == child_model(*r)[0]);
                    }
                    collect_dfs(&**b, (code << 1) | 1, false, out);
                },
                None => {},
            }
            proof {
                assert(d =~= seq![DfsEnt { node: node_model(*node), code, root }] + dl + dr);
                assert(after_l.len() == base + 1 + dl.len());
                assert(out@.len() == base + 1 + dl.len() + dr.len());
                assert forall|k: int| 0 <= k < out@.skip(base).len() implies {
                    &&& node_model(*(#[trigger] out@.skip(base)[k]).0) == d[k].node
                    &&& out@.skip(base)[k].1 == d[k].code
                    &&& out@.skip(base)[k].2 == d[k].root
                } by {
                    assert(out@.skip(base)[k] == out@[base + k]);
                    if k == 0 {
                        assert(out@[base] == after_l[base]);
                        assert(after_l[base] == after_push[base]);
                        assert(after_push[base] == (node, code, root));
                        assert(d[0] == DfsEnt { node: node_model(*node), code, root });
                    } else if k < 1 + dl.len() {
                        assert(out@[base + k] == after_l[base + k]);
                        assert(after_l.skip(base + 1)[k - 1] == after_l[base + k]);
                        assert(d[k] == dl[k - 1]);
                    } else {
                        assert(out@.skip(after_l.len() as int)[k - 1 - dl.len()] == out@[base + k]);
                        assert(d[k] == dr[k - 1 - dl.len()]);
                    }
                }
            }
        },
    }
}

/// A depth-first iterator over a code tree, remembering the code of the last
/// leaf it visited.
#[derive(Debug)]
pub struct CtBinaryTreeIter<'r> {
    /// The traversal, precomputed: each node with its path code and whether
    /// it is the root.
    pub entries: Vec<(&'r CtTreeNode, u8, bool)>,
    /// The next entry to yield.
    pub idx: usize,
    /// The code of the last leaf yielded.
    pub last_code: u8,
}

impl<'r> CtBinaryTreeIter<'r> {
    /// Internal consistency.
    pub open spec fn wf(&self) -> bool {
        self.idx <= self.entries@.len()
    }

    /// Builds the iterator over a tree.
    pub fn from_tree(tree: &'r CtBinaryTree) -> (r: CtBinaryTreeIter<'r>)
        ensures
            r.wf(),
            r.idx == 0,
            r.last_code == 0,
            entries_match(r.entries@, dfs(node_model(*tree.node), 0, true)),
    {
        let mut entries: Vec<(&'r CtTreeNode, u8, bool)> = Vec::new();
        collect_dfs(&tree.node, 0, true, &mut entries);
        proof {
            assert(entries@.skip(0) =~= entries@);
        }
        CtBinaryTreeIter { entries, idx: 0, last_code: 0 }
    }

    /// Generates the code of the next node from its path, absent at the root
    /// or once the traversal is done.
    pub fn next_code(&self) -> (r: Option<u8>)
        requires
            self.wf(),
        ensures
            r == (if self.idx < self.entries@.len() && !self.entries@[self.idx as int].2 {
                Some(self.entries@[self.idx as int].1)
            } else {
                Option::<u8>::None
            }),
    {
        if self.idx < self.entries.len() && !self.entries[self.idx].2 {
            Some(self.entries[self.idx].1)
        } else {
            None
        }
    }

    /// The code of the last leaf the iterator yielded.
    pub fn last_code(&self) -> (r: u8)
        ensures
            r == self.last_code,
    {
        self.last_code
    }

    /// Only the first traversal entry is marked as the root, and it carries
    /// the starting node.
    pub proof fn lemma_dfs_roots(n: NodeM, code: u8, root: bool)
        ensures
            dfs(n, code, root).len() >= 1,
            dfs(n, code, root)[0] == (DfsEnt { node: n, code, root }),
            forall|k: int| 1 <= k < dfs(n, code, root).len() ==> !(#[trigger] dfs(
                n,
                code,
                root,
            )[k]).root,
        decreases n,
    {
        match n {
            NodeM::Bin(_, _) => {},
            NodeM::Hier(_, ls, rs) => {
                let dl = if ls.len() > 0 {
                    dfs(ls[0], (code << 1) as u8, false)
                } else {
                    Seq::<DfsEnt>::empty()
                };
                let dr = if rs.len() > 0 {
                    dfs(rs[0], ((code << 1) | 1) as u8, false)
                } else {
                    Seq::<DfsEnt>::empty()
                };
                if ls.len() > 0 {
                    Self::lemma_dfs_roots(ls[0], (code << 1) as u8, false);
                }
                if rs.len() > 0 {
                    Self::lemma_dfs_roots(rs[0], ((code << 1) | 1) as u8, false);
                }
                assert forall|k: int| 1 <= k < dfs(n, code, root).len() implies !(#[trigger] dfs(
                    n,
                    code,
                    root,
                )[k]).root by {
                    if k < 1 + dl.len() {
                        assert(dfs(n, code, root)[k] == dl[k - 1]);
                        if k == 1 {
                            assert(dl[0] == (DfsEnt {
                                node: ls[0],
                                code: (code << 1) as u8,
                                root: false,
                            }));
                        }
                    } else {
                        assert(dfs(n, code, root)[k] == dr[k - 1 - dl.len()]);
                        if k == 1 + dl.len() {
                            assert(dr[0] == (DfsEnt {
                                node: rs[0],
                                code: ((code << 1) | 1) as u8,
                                root: false,
                            }));
                        }
                    }
                }
            },
        }
    }

    /// The next node in depth-first order; at a leaf, the leaf's path code is
    /// remembered.
    pub fn next(&mut self) -> (r: Option<&'r CtTreeNode>)
        requires
            old(self).wf(),
        ensures
            final(self).wf(),
            final(self).entries == old(self).entries,
            if old(self).idx < old(self).entries@.len() {
                &&& r == Some(old(self).entries@[old(self).idx as int].0)
                &&& final(self).idx == old(self).idx + 1
                &&& final(self).last_code == (if node_model(
                    *old(self).entries@[old(self).idx as int].0,
                ) is Bin {
                    old(self).entries@[old(self).idx as int].1
                } else {
                    old(self).last_code
                })
            } else {
                &&& r is None
                &&& *final(self) == *old(self)
            },
    {
        if self.idx < self.entries.len() {
            let (node, code, _root) = self.entries[self.idx];
            self.idx = self.idx + 1;
            match node {
                CtTreeNode::Bin(_, _) => {
                    self.last_code = code;
                },
                _ => {},
            }
            Some(node)
        } else {
            None
        }
    }
}

// ---------------------------------------------------------------------------
// Prefix-code tables
// ---------------------------------------------------------------------------

/// How many bits the code needs: the position of its highest set bit, one at
/// least.
pub open spec fn count_bits_spec(code: u8) -> int {
    if code >= 128 {
        8
    } else if code >= 64 {
        7
    } else if code >= 32 {
        6
    } else if code >= 16 {
        5
    } else if code >= 8 {
        4
    } else if code >= 4 {
        3
    } else if code >= 2 {
        2
    } else {
        1
    }
}

/// Exec mirror of [`count_bits_spec`].
fn count_bits(code: u8) -> (r: usize)
    ensures
        r == count_bits_spec(code),
{
    if code >= 128 {
        8
    } else if code >= 64 {
        7
    } else if code >= 32 {
        6
    } else if code >= 16 {
        5
    } else if code >= 8 {
        4
    } else if code >= 4 {
        3
    } else if code >= 2 {
        2
    } else {
        1
    }
}

/// One prefix-code table entry.
#[derive(Clone, Copy, Debug, PartialEq, Eq, Structural)]
pub struct PrefixCodeEntry {
    /// Given letter, e.g. 'a'.
    pub letter: char,
    /// The derived code for this letter by using the Huffman binary tree.
    pub code: u8,
    /// How many bits are needed for the derived code of this letter.
    pub bits: usize,
}

impl PrefixCodeEntry {
    /// New type pattern as constructor for `PrefixCodeEntry`.
    pub fn new(letter: char, code: u8) -> (r: PrefixCodeEntry)
        ensures
            r == entry_spec(letter, code),
    {
        PrefixCodeEntry { letter, code, bits: count_bits(code) }
    }

    /// A fully spelt-out entry.
    pub fn test(letter: char, code: u8, bits: usize) -> (r: PrefixCodeEntry)
        ensures
            r.letter == letter,
            r.code == code,
            r.bits == bits,
    {
        PrefixCodeEntry { letter, code, bits }
    }
}

/// The entry of a letter with its derived code.
pub open spec fn entry_spec(letter: char, code: u8) -> PrefixCodeEntry {
    PrefixCodeEntry { letter, code, bits: count_bits_spec(code) as usize }
}

/// Ordering of table entries by code.
pub open spec fn code_le(a: PrefixCodeEntry, b: PrefixCodeEntry) -> bool {
    a.code <= b.code
}

/// Where inserting into an entry sequence sorted by code keeps it sorted:
/// after every entry whose code does not exceed `e`'s.
pub open spec fn sorted_insert_code(
    s: Seq<PrefixCodeEntry>,
    e: PrefixCodeEntry,
) -> Seq<PrefixCodeEntry>
    decreases s.len(),
{
    if s.len() == 0 {
        seq![e]
    } else if code_le(s[0], e) {
        seq![s[0]] + sorted_insert_code(s.drop_first(), e)
    } else {
        seq![e] + s
    }
}

/// Insertion sort of table entries by code, stable.
pub open spec fn sort_codes(s: Seq<PrefixCodeEntry>) -> Seq<PrefixCodeEntry>
    decreases s.len(),
{
    if s.len() == 0 {
        Seq::empty()
    } else {
        sorted_insert_code(sort_codes(s.drop_last()), s.last())
    }
}

/// The table entries that a traversal's leaves yield, in traversal order.
pub open spec fn bins_entries(d: Seq<DfsEnt>) -> Seq<PrefixCodeEntry>
    decreases d.len(),
{
    if d.len() == 0 {
        Seq::empty()
    } else {
        bins_entries(d.drop_last()) + (match d.last().node {
            NodeM::Bin(c, _) => seq![entry_spec(c, d.last().code)],
            NodeM::Hier(_, _, _) => Seq::<PrefixCodeEntry>::empty(),
        })
    }
}

/// The first index of `s` holding the letter `c`; the length when none does.
pub open spec fn idx_by_letter(s: Seq<PrefixCodeEntry>, c: char) -> int
    decreases s.len(),
{
    if s.len() == 0 {
        0
    } else if s[0].letter == c {
        0
    } else {
        1 + idx_by_letter(s.drop_first(), c)
    }
}

/// The first index of `s` holding the code `c`; the length when none does.
pub open spec fn idx_by_code(s: Seq<PrefixCodeEntry>, c: u8) -> int
    decreases s.len(),
{
    if s.len() == 0 {
        0
    } else if s[0].code == c {
        0
    } else {
        1 + idx_by_code(s.drop_first(), c)
    }
}

/// The first index of `s` holding the code `c` spelt with `bits` bits; the
/// length when none does.
pub open spec fn idx_by_code_bits(s: Seq<PrefixCodeEntry>, c: u8, bits: int) -> int
    decreases s.len(),
{
    if s.len() == 0 {
        0
    } else if s[0].code == c && s[0].bits == bits {
        0
    } else {
        1 + idx_by_code_bits(s.drop_first(), c, bits)
    }
}

/// One entry of the pair decoding.
pub proof fn lemma_pair_entries_index(data: Seq<u8>, j: int)
    requires
        0 <= j < data.len() / 2,
    ensures
        pair_entries(data)[j] == entry_spec(byte_char(data[2 * j]), data[2 * j + 1]),
{
}

/// Every entry a traversal yields fits eight bits.
pub proof fn lemma_bins_entries_bits(d: Seq<DfsEnt>)
    ensures
        forall|k: int| 0 <= k < bins_entries(d).len() ==> (#[trigger] bins_entries(d)[k]).bits
            <= 8,
    decreases d.len(),
{
    if d.len() > 0 {
        lemma_bins_entries_bits(d.drop_last());
        assert forall|k: int| 0 <= k < bins_entries(d).len() implies (#[trigger] bins_entries(
            d,
        )[k]).bits <= 8 by {
            if k < bins_entries(d.drop_last()).len() {
                assert(bins_entries(d)[k] == bins_entries(d.drop_last())[k]);
            }
        }
    }
}

/// Every pair entry fits eight bits.
pub proof fn lemma_pair_entries_bits(data: Seq<u8>)
    ensures
        forall|k: int| 0 <= k < pair_entries(data).len() ==> (#[trigger] pair_entries(data)[k]).bits
            <= 8,
{
    assert forall|k: int| 0 <= k < pair_entries(data).len() implies (#[trigger] pair_entries(
        data,
    )[k]).bits <= 8 by {
        lemma_pair_entries_index(data, k);
    }
}

/// One bit of a byte stream.
pub proof fn lemma_read_bits_index(stream: Seq<u8>, uu: int, j: int)
    requires
        0 <= j < read_bits(stream, uu).len(),
    ensures
        read_bits(stream, uu)[j] == bit_of(stream[j / 8], j % 8),
{
}

/// A first-index is never negative nor past the end.
pub proof fn lemma_idx_by_letter_bounds(s: Seq<PrefixCodeEntry>, c: char)
    ensures
        0 <= idx_by_letter(s, c) <= s.len(),
    decreases s.len(),
{
    if s.len() > 0 && s[0].letter != c {
        lemma_idx_by_letter_bounds(s.drop_first(), c);
    }
}

/// The bits of one entry's code, most significant of its `bits` bits first.
pub open spec fn encode_char_bits(e: PrefixCodeEntry) -> Seq<u8> {
    Seq::new(e.bits as nat, |j: int| bit_of(e.code, e.bits - 1 - j))
}

/// The bit stream of a text under a table, gathered left to right; the first
/// character without a table entry stops the encoding.
pub open spec fn spec_encode(
    table: Seq<PrefixCodeEntry>,
    text: Seq<char>,
    i: int,
    acc: Seq<u8>,
) -> Result<Seq<u8>, char>
    decreases text.len() - i when 0 <= i <= text.len()
{
    if i >= text.len() {
        Ok(acc)
    } else {
        let ix = idx_by_letter(table, text[i]);
        if ix < table.len() {
            spec_encode(table, text, i + 1, acc + encode_char_bits(table[ix]))
        } else {
            Err(text[i])
        }
    }
}

/// The message given for a letter without a table entry.
pub open spec fn no_entry_msg(c: char) -> Seq<char> {
    "no entry with letter '"@ + seq![c] + "'"@
}

/// The bits of a byte stream whose last byte has `uu` unused bits.
pub open spec fn read_bits(stream: Seq<u8>, uu: int) -> Seq<u8> {
    Seq::new(
        crate::huffman::bitstream::stream_bits(stream.len() as int, uu) as nat,
        |j: int| bit_of(stream[j / 8], j % 8),
    )
}

/// The text a bit stream decodes to under a table: bits are gathered most
/// significant first until they spell the code of an entry, which emits its
/// letter; eight gathered bits without a match are dropped.
pub open spec fn spec_decode(
    table: Seq<PrefixCodeEntry>,
    bits: Seq<u8>,
    i: int,
    val: u8,
    cnt: int,
    acc: Seq<char>,
) -> Seq<char>
    decreases bits.len() - i when 0 <= i <= bits.len()
{
    if i >= bits.len() {
        acc
    } else {
        let v2 = ((val << 1u8) | bits[i]) as u8;
        let c2 = cnt + 1;
        let ix = idx_by_code_bits(table, v2, c2);
        if ix < table.len() {
            spec_decode(table, bits, i + 1, 0, 0, acc.push(table[ix].letter))
        } else if c2 >= 8 {
            spec_decode(table, bits, i + 1, 0, 0, acc)
        } else {
            spec_decode(table, bits, i + 1, v2, c2, acc)
        }
    }
}

/// A prefix-code table: the letters with their derived codes, sorted by code.
#[derive(Clone, Debug, Default, PartialEq)]
pub struct PrefixCodeTable(pub Vec<PrefixCodeEntry>);

impl PrefixCodeTable {
    /// Every code of the table fits eight bits.
    pub open spec fn wf(&self) -> bool {
        forall|k: int| 0 <= k < self.0@.len() ==> (#[trigger] self.0@[k]).bits <= 8
    }

    /// The first entry with the given letter.
    pub fn get_by_char<'a>(&'a self, c: char) -> (r: Option<&'a PrefixCodeEntry>)
        ensures
            ({
                let ix = idx_by_letter(self.0@, c);
                if ix < self.0@.len() {
                    r == Some(&self.0@[ix])
                } else {
                    r is None
                }
            }),
    {
        let ghost s = self.0@;
        let n = self.0.len();
        let mut i: usize = 0;
        proof {
            assert(s.skip(0) =~= s);
        }
        while i < n
            invariant
                i <= n,
                n == s.len(),
                s == self.0@,
                idx_by_letter(s, c) == i + idx_by_letter(s.skip(i as int), c),
                forall|j: int| 0 <= j < i ==> (#[trigger] s[j]).letter != c,
            decreases n - i,
        {
            proof {
                assert(s.skip(i as int)[0] == s[i as int]);
                assert(s.skip(i as int).drop_first() =~= s.skip(i + 1));
            }
            if self.0[i].letter == c {
                return Some(&self.0[i]);
            }
            i = i + 1;
        }
        proof {
            assert(s.skip(n as int) =~= Seq::<PrefixCodeEntry>::empty());
        }
        None
    }

    /// The first entry with the given letter.
    pub fn entry_by_char<'a>(&'a self, c: char) -> (r: Option<&'a PrefixCodeEntry>)
        ensures
            ({
                let ix = idx_by_letter(self.0@, c);
                if ix < self.0@.len() {
                    r == Some(&self.0@[ix])
                } else {
                    r is None
                }
            }),
    {
        self.get_by_char(c)
    }

    /// The first entry with the given code.
    pub fn get_by_code<'a>(&'a self, c: u8) -> (r: Option<&'a PrefixCodeEntry>)
        ensures
            ({
                let ix = idx_by_code(self.0@, c);
                if ix < self.0@.len() {
                    r == Some(&self.0@[ix])
                } else {
                    r is None
                }
            }),
    {
        let ghost s = self.0@;
        let n = self.0.len();
        let mut i: usize = 0;
        proof {
            assert(s.skip(0) =~= s);
        }
        while i < n
            invariant
                i <= n,
                n == s.len(),
                s == self.0@,
                idx_by_code(s, c) == i + idx_by_code(s.skip(i as int), c),
            decreases n - i,
        {
            proof {
                assert(s.skip(i as int)[0] == s[i as int]);
                assert(s.skip(i as int).drop_first() =~= s.skip(i + 1));
            }
            if self.0[i].code == c {
                return Some(&self.0[i]);
            }
            i = i + 1;
        }
        proof {
            assert(s.skip(n as int) =~= Seq::<PrefixCodeEntry>::empty());
        }
        None
    }

    /// The first entry with the given code spelt with the given bit count.
    fn get_by_code_bits<'a>(&'a self, c: u8, bits: usize) -> (r: Option<&'a PrefixCodeEntry>)
        ensures
            ({
                let ix = idx_by_code_bits(self.0@, c, bits as int);
                if ix < self.0@.len() {
                    r == Some(&self.0@[ix])
                } else {
                    r is None
                }
            }),
    {
        let ghost s = self.0@;
        let n = self.0.len();
        let mut i: usize = 0;
        proof {
            assert(s.skip(0) =~= s);
        }
        while i < n
            invariant
                i <= n,
                n == s.len(),
                s == self.0@,
                idx_by_code_bits(s, c, bits as int) == i + idx_by_code_bits(
                    s.skip(i as int),
                    c,
                    bits as int,
                ),
            decreases n - i,
        {
            proof {
                assert(s.skip(i as int)[0] == s[i as int]);
                assert(s.skip(i as int).drop_first() =~= s.skip(i + 1));
            }
            if self.0[i].code == c && self.0[i].bits == bits {
                return Some(&self.0[i]);
            }
            i = i + 1;
        }
        proof {
            assert(s.skip(n as int) =~= Seq::<PrefixCodeEntry>::empty());
        }
        None
    }

    /// The code of a letter, if the table holds it.
    pub fn code(&self, c: char) -> (r: Option<u8>)
        ensures
            ({
                let ix = idx_by_letter(self.0@, c);
                if ix < self.0@.len() {
                    r == Some(self.0@[ix].code)
                } else {
                    r is None
                }
            }),
    {
        match self.get_by_char(c) {
            Some(e) => Some(e.code),
            None => None,
        }
    }

    /// The letter of a code, if the table holds it.
    pub fn letter(&self, c: u8) -> (r: Option<char>)
        ensures
            ({
                let ix = idx_by_code(self.0@, c);
                if ix < self.0@.len() {
                    r == Some(self.0@[ix].letter)
                } else {
                    r is None
                }
            }),
    {
        match self.get_by_code(c) {
            Some(e) => Some(e.letter),
            None => None,
        }
    }

    /// An iterator over the entries.
    pub fn iter<'a>(&'a self) -> (r: PrefixCodeTableIter<'a>)
        ensures
            r.table == &self.0,
            r.idx == 0,
    {
        PrefixCodeTableIter { table: &self.0, idx: 0 }
    }

    /// The table of a code tree: one entry per leaf, carrying the leaf's path
    /// code, sorted ascending by code.
    pub fn from_tree(tree: &CtBinaryTree) -> (r: PrefixCodeTable)
        ensures
            r.0@ == sort_codes(bins_entries(dfs(node_model(*tree.node), 0, true))),
            r.wf(),
    {
        let ghost d = dfs(node_model(*tree.node), 0, true);
        let mut table: Vec<PrefixCodeEntry> = Vec::new();
        let mut tree_iter = tree.iter();
        proof {
            assert(bins_entries(d.take(0)) =~= Seq::<PrefixCodeEntry>::empty());
        }
        loop
            invariant
                tree_iter.wf(),
                d == dfs(node_model(*tree.node), 0, true),
                entries_match(tree_iter.entries@, d),
                table@ == bins_entries(d.take(tree_iter.idx as int)),
            ensures
                table@ == bins_entries(d),
            decreases tree_iter.entries@.len() - tree_iter.idx,
        {
            let ghost idx0 = tree_iter.idx as int;
            match tree_iter.next() {
                Some(node) => {
                    let ghost pre = table@;
                    match node {
                        CtTreeNode::Bin(c, _f) => {
                            let e = PrefixCodeEntry::new(*c, tree_iter.last_code());
                            table.push(e);
                        },
                        _ => {},
                    }
                    proof {
                        assert(d.take(idx0 + 1).drop_last() =~= d.take(idx0));
                        assert(d.take(idx0 + 1).last() == d[idx0]);
                        assert(node_model(*node) == d[idx0].node);
                        match node_model(*node) {
                            NodeM::Bin(_, _) => {
                                assert(table@ =~= bins_entries(d.take(idx0 + 1)));
                            },
                            NodeM::Hier(_, _, _) => {
                                assert(table@ =~= bins_entries(d.take(idx0 + 1)));
                            },
                        }
                    }
                },
                None => {
                    proof {
                        assert(tree_iter.idx == d.len());
                        assert(d.take(d.len() as int) =~= d);
                    }
                    break;
                },
            }
        }
        let sorted = sort_entries_by_code(table);
        proof {
            lemma_bins_entries_bits(d);
            lemma_sort_codes_bits(bins_entries(d));
        }
        PrefixCodeTable(sorted)
    }

    /// The table read back from letter/code byte pairs, sorted ascending by
    /// code.
    pub fn from_bytes(data: &[u8]) -> (r: PrefixCodeTable)
        requires
            data@.len() % 2 == 0,
        ensures
            r.0@ == sort_codes(pair_entries(data@)),
            r.wf(),
    {
        let ghost pe = pair_entries(data@);
        let mut table: Vec<PrefixCodeEntry> = Vec::new();
        let mut i: usize = 0;
        let n = data.len();
        proof {
            assert(pe.take(0) =~= Seq::<PrefixCodeEntry>::empty());
        }
        while i + 1 < n
            invariant
                i % 2 == 0,
                i <= n,
                n == data@.len(),
                n % 2 == 0,
                pe == pair_entries(data@),
                table@ == pe.take(i as int / 2),
            decreases n - i,
        {
            let ghost pre = table@;
            let letter = byte_to_char(data[i]);
            let e = PrefixCodeEntry::new(letter, data[i + 1]);
            table.push(e);
            proof {
                assert(2 * (i as int / 2) == i as int);
                assert(pair_entries(data@).len() == data@.len() / 2);
                assert(pe.len() == data@.len() / 2);
                assert(pre.len() == i as int / 2);
                assert(i as int / 2 + 1 <= pe.len());
                lemma_pair_entries_index(data@, i as int / 2);
                assert(table@ == pre.push(e));
                assert forall|j: int| 0 <= j < table@.len() implies table@[j] == pe.take(
                    i as int / 2 + 1,
                )[j] by {
                    if j < pre.len() {
                        assert(pre.push(e)[j] == pre[j]);
                        assert(pe.take(i as int / 2)[j] == pe[j]);
                        assert(pe.take(i as int / 2 + 1)[j] == pe[j]);
                    } else {
                        assert(pre.push(e)[j] == e);
                        assert(pe.take(i as int / 2 + 1)[j] == pe[i as int / 2]);
                    }
                }
                assert(table@ =~= pe.take(i as int / 2 + 1));
            }
            i = i + 2;
        }
        proof {
            assert(i == n);
            assert(pe.take(pe.len() as int) =~= pe);
        }
        let ghost gathered = table@;
        let sorted = sort_entries_by_code(table);
        proof {
            assert(gathered == pe);
            assert forall|k: int| 0 <= k < pe.len() implies (#[trigger] pe[k]).bits <= 8 by {
                assert(pe[k] == gathered[k]);
            }
            lemma_sort_codes_bits(pe);
        }
        PrefixCodeTable(sorted)
    }

    /// The table's letter/code byte pairs, in table order; letters are taken
    /// modulo one byte.
    pub fn to_bytes(&self) -> (r: Vec<u8>)
        ensures
            r@.len() == 2 * self.0@.len(),
            forall|k: int| 0 <= k < self.0@.len() ==> {
                &&& r@[2 * k] == ((#[trigger] self.0@[k]).letter as u32) as u8
                &&& r@[2 * k + 1] == self.0@[k].code
            },
    {
        let mut data: Vec<u8> = Vec::new();
        let n = self.0.len();
        let mut i: usize = 0;
        while i < n
            invariant
                i <= n,
                n == self.0@.len(),
                data@.len() == 2 * i,
                forall|k: int| 0 <= k < i ==> {
                    &&& data@[2 * k] == ((#[trigger] self.0@[k]).letter as u32) as u8
                    &&& data@[2 * k + 1] == self.0@[k].code
                },
            decreases n - i,
        {
            let e = self.0[i];
            data.push(char_to_byte(e.letter));
            data.push(e.code);
            i = i + 1;
        }
        data
    }

    /// Encodes a text: each character's code, most significant bit first,
    /// packed into bytes; fails at the first character without an entry.
    pub fn text2stream(&self, text: &str) -> (r: Result<(Vec<u8>, u8), String>)
        requires
            self.wf(),
        ensures
            match spec_encode(self.0@, text@, 0, Seq::empty()) {
                Ok(bits) => {
                    &&& r is Ok
                    &&& packed_bits((r->Ok_0).0@, (r->Ok_0).1 as int, bits)
                },
                Err(c) => {
                    &&& r is Err
                    &&& (r->Err_0)@ == no_entry_msg(c)
                },
            },
    {
        let ghost table = self.0@;
        let ghost s = text@;
        let mut stream = BitStreamWriter::new();
        let n = text.unicode_len();
        let mut i: usize = 0;
        while i < n
            invariant
                i <= n,
                n == s.len(),
                s == text@,
                table == self.0@,
                self.wf(),
                stream.wf(),
                stream.bits().len() <= 8 * i,
                spec_encode(table, s, 0, Seq::empty()) == spec_encode(table, s, i as int, stream.bits()),
            decreases n - i,
        {
            let c = text.get_char(i);
            proof {
                lemma_idx_by_letter_bounds(table, c);
            }
            let e = match self.get_by_char(c) {
                Some(e) => *e,
                None => {
                    proof {
                        lemma_idx_by_letter_bounds(table, c);
                    }
                    let mut msg = String::from_str("no entry with letter '");
                    push_char(&mut msg, c);
                    msg.append("'");
                    proof {
                        assert(msg@ =~= no_entry_msg(c));
                    }
                    return Err(msg);
                },
            };
            proof {
                assert(c == s[i as int]);
                assert(idx_by_letter(table, c) < table.len());
                assert(e == table[idx_by_letter(table, c)]);
                assert(e.bits <= 8);
            }
            let bits = to_bits(e.code);
            let ghost before = stream.bits();
            let mut k: usize = 0;
            proof {
                assert(before + encode_char_bits(e).take(0) =~= before);
            }
            while k < e.bits
                invariant
                    k <= e.bits,
                    e.bits <= 8,
                    e == table[idx_by_letter(table, s[i as int])],
                    idx_by_letter(table, s[i as int]) < table.len(),
                    0 <= i < s.len(),
                    forall|j: int| 0 <= j < 8 ==> bits@[j] == bit_of(e.code, j),
                    stream.wf(),
                    stream.bits().len() == before.len() + k,
                    before.len() <= 8 * i,
                    stream.bits() =~= before + encode_char_bits(e).take(k as int),
                decreases e.bits - k,
            {
                let b = bits[e.bits - 1 - k];
                proof {
                    assert(encode_char_bits(e)[k as int] == bit_of(e.code, e.bits - 1 - k));
                    assert((before + encode_char_bits(e).take(k as int)).push(
                        bit_of(e.code, e.bits - 1 - k),
                    ) =~= before + encode_char_bits(e).take(k + 1));
                    assert(b == 0 || b == 1) by {
                        let cd = e.code;
                        let sh = (e.bits - 1 - k) as u8;
                        assert(bit_of(cd, e.bits - 1 - k) == ((cd >> sh) & 1));
                        assert((cd >> sh) & 1 == 0 || (cd >> sh) & 1 == 1) by (bit_vector);
                    }
                }
                stream.add_bit(b);
                k = k + 1;
            }
            proof {
                assert(encode_char_bits(e).take(e.bits as int) =~= encode_char_bits(e));
                assert(stream.bits() == before + encode_char_bits(e));
            }
            i = i + 1;
        }
        let ghost all_bits = stream.bits();
        let (data, uu) = stream.finalize();
        proof {
            assert(spec_encode(table, s, n as int, all_bits) == Ok::<Seq<u8>, char>(all_bits));
        }
        Ok((data, uu))
    }

    /// Decodes a bit stream back to text: bits are gathered most significant
    /// first until they spell an entry's code with its bit count, which emits
    /// the entry's letter; eight gathered bits without a match are dropped.
    pub fn stream2text(&self, stream: &[u8], uu_bits: u8) -> (r: String)
        requires
            uu_bits <= 8,
        ensures
            r@ == spec_decode(
                self.0@,
                read_bits(stream@, uu_bits as int),
                0,
                0,
                0,
                Seq::empty(),
            ),
    {
        let ghost table = self.0@;
        let ghost bits = read_bits(stream@, uu_bits as int);
        let mut out = String::new();
        let mut reader = BitStreamReader::new(stream, uu_bits);
        let mut buffer = BitBuffer::new();
        proof {
            assert(bits.len() == crate::huffman::bitstream::stream_bits(
                stream@.len() as int,
                uu_bits as int,
            ));
        }
        loop
            invariant
                reader.wf(),
                reader.stream@ == stream@,
                reader.last_bit == 8 - uu_bits,
                uu_bits <= 8,
                table == self.0@,
                bits == read_bits(stream@, uu_bits as int),
                reader.at() <= bits.len(),
                buffer.cnt < 8,
                spec_decode(table, bits, 0, 0, 0, Seq::empty()) == spec_decode(
                    table,
                    bits,
                    reader.at(),
                    buffer.val,
                    buffer.cnt as int,
                    out@,
                ),
            ensures
                out@ == spec_decode(table, bits, 0, 0, 0, Seq::empty()),
            decreases bits.len() - reader.at(),
        {
            let ghost at0 = reader.at();
            let ghost val0 = buffer.val;
            let ghost cnt0 = buffer.cnt as int;
            let b = match reader.next() {
                Some(b) => b,
                None => {
                    proof {
                        assert(reader.at() >= bits.len());
                    }
                    break;
                },
            };
            proof {
                lemma_read_bits_index(stream@, uu_bits as int, at0);
                assert(bits[at0] == b);
            }
            buffer.add_bit(b);
            match self.get_by_code_bits(buffer.val, buffer.cnt) {
                Some(e) => {
                    let letter = e.letter;
                    push_char(&mut out, letter);
                    buffer.reset();
                },
                None => {
                    if buffer.cnt >= 8 {
                        buffer.reset();
                    }
                },
            }
        }
        out
    }
}

/// Whether `bytes` with `uu` unused trailing bits packs exactly `bits`.
pub open spec fn packed_bits(bytes: Seq<u8>, uu: int, bits: Seq<u8>) -> bool {
    &&& 0 <= uu < 8
    &&& 8 * bytes.len() == bits.len() + uu
    &&& forall|j: int| #!
        [trigger bit_of(bytes[j / 8], j % 8)]
        0 <= j < bits.len() ==> bit_of(bytes[j / 8], j % 8) == bits[j]
    &&& forall|j: int| #!
        [trigger bit_of(bytes[j / 8], j % 8)]
        bits.len() <= j < 8 * bytes.len() ==> bit_of(bytes[j / 8], j % 8) == 0
}

/// The character a byte stands for.
pub open spec fn byte_char(b: u8) -> char {
    b as char
}

/// Exec mirror of [`byte_char`].
fn byte_to_char(b: u8) -> (r: char)
    ensures
        r == byte_char(b),
{
    b as char
}

/// A character's lowest byte.
fn char_to_byte(c: char) -> (r: u8)
    ensures
        r == (c as u32) as u8,
{
    (c as u32) as u8
}

/// The entries of letter/code byte pairs.
pub open spec fn pair_entries(data: Seq<u8>) -> Seq<PrefixCodeEntry> {
    Seq::new((data.len() / 2) as nat, |i: int| entry_spec(byte_char(data[2 * i]), data[2 * i + 1]))
}

/// Insertion sort by code of a gathered entry vector.
fn sort_entries_by_code(entries: Vec<PrefixCodeEntry>) -> (r: Vec<PrefixCodeEntry>)
    ensures
        r@ == sort_codes(entries@),
{
    let n = entries.len();
    let mut out: Vec<PrefixCodeEntry> = Vec::new();
    let mut i: usize = 0;
    proof {
        assert(sort_codes(entries@.take(0)) =~= Seq::<PrefixCodeEntry>::empty());
    }
    while i < n
        invariant
            i <= n,
            n == entries@.len(),
            out@ == sort_codes(entries@.take(i as int)),
        decreases n - i,
    {
        let e = entries[i];
        let ghost base = out@;
        let mut k: usize = 0;
        proof {
            assert(base.skip(0) =~= base);
            assert(base.take(0) + sorted_insert_code(base.skip(0), e) =~= sorted_insert_code(
                base,
                e,
            ));
        }
        while k < out.len() && out[k].code <= e.code
            invariant
                k <= base.len(),
                out@ == base,
                sorted_insert_code(base, e) == base.take(k as int) + sorted_insert_code(
                    base.skip(k as int),
                    e,
                ),
            decreases base.len() - k,
        {
            proof {
                assert(base.skip(k as int)[0] == base[k as int]);
                assert(base.skip(k as int).drop_first() =~= base.skip(k + 1));
                assert(base.take(k as int).push(base[k as int]) =~= base.take(k + 1));
                assert(base.take(k as int) + (seq![base.skip(k as int)[0]] + sorted_insert_code(
                    base.skip(k + 1),
                    e,
                )) =~= base.take(k + 1) + sorted_insert_code(base.skip(k + 1), e));
            }
            k = k + 1;
        }
        proof {
            if k < base.len() {
                assert(sorted_insert_code(base.skip(k as int), e) =~= seq![e] + base.skip(
                    k as int,
                ));
            } else {
                assert(base.skip(k as int) =~= Seq::<PrefixCodeEntry>::empty());
            }
            assert(sorted_insert_code(base, e) =~= base.insert(k as int, e));
            assert(entries@.take(i + 1).drop_last() =~= entries@.take(i as int));
            assert(entries@.take(i + 1).last() == e);
        }
        out.insert(k, e);
        i = i + 1;
    }
    proof {
        assert(entries@.take(n as int) =~= entries@);
    }
    out
}

/// Sorting keeps each entry, so a table whose entries all fit eight bits
/// keeps that property.
proof fn lemma_sort_codes_bits(s: Seq<PrefixCodeEntry>)
    requires
        forall|k: int| 0 <= k < s.len() ==> (#[trigger] s[k]).bits <= 8,
    ensures
        forall|k: int| 0 <= k < sort_codes(s).len() ==> (#[trigger] sort_codes(s)[k]).bits <= 8,
    decreases s.len(),
{
    if s.len() > 0 {
        assert(forall|k: int|
            0 <= k < s.drop_last().len() ==> (#[trigger] s.drop_last()[k]).bits <= 8);
        lemma_sort_codes_bits(s.drop_last());
        lemma_sorted_insert_bits(sort_codes(s.drop_last()), s.last());
    }
}

/// Inserting an entry that fits eight bits into entries that do keeps all of
/// them fitting.
proof fn lemma_sorted_insert_bits(s: Seq<PrefixCodeEntry>, e: PrefixCodeEntry)
    requires
        forall|k: int| 0 <= k < s.len() ==> (#[trigger] s[k]).bits <= 8,
        e.bits <= 8,
    ensures
        forall|k: int|
            0 <= k < sorted_insert_code(s, e).len() ==> (#[trigger] sorted_insert_code(s, e)[k]).bits
                <= 8,
    decreases s.len(),
{
    if s.len() > 0 && code_le(s[0], e) {
        assert(forall|k: int|
            0 <= k < s.drop_first().len() ==> (#[trigger] s.drop_first()[k]).bits <= 8);
        lemma_sorted_insert_bits(s.drop_first(), e);
        assert forall|k: int|
            0 <= k < sorted_insert_code(s, e).len() implies (#[trigger] sorted_insert_code(
            s,
            e,
        )[k]).bits <= 8 by {
            if k > 0 {
                assert(sorted_insert_code(s, e)[k] == sorted_insert_code(s.drop_first(), e)[k - 1]);
            }
        }
    }
}

/// One prefix-code table entry together with its letter's frequency.
#[derive(Clone, Copy, Debug, PartialEq, Eq, Structural)]
pub struct FreqPrefixCodeEntry {
    /// Given letter, e.g. 'a'.
    pub letter: char,
    /// Its calculated frequency (how many times it was counted).
    pub frequency: usize,
    /// The derived code for this letter by using the Huffman binary tree.
    pub code: u8,
    /// How many bits are needed for the derived code of this letter.
    pub bits: usize,
}

impl FreqPrefixCodeEntry {
    /// New type pattern as constructor.
    pub fn new(letter: char, frequency: usize, code: u8) -> (r: FreqPrefixCodeEntry)
        ensures
            r == (FreqPrefixCodeEntry {
                letter,
                frequency,
                code,
                bits: count_bits_spec(code) as usize,
            }),
    {
        FreqPrefixCodeEntry { letter, frequency, code, bits: count_bits(code) }
    }

    /// A fully spelt-out entry.
    pub fn test(letter: char, frequency: usize, code: u8, bits: usize) -> (r: FreqPrefixCodeEntry)
        ensures
            r == (FreqPrefixCodeEntry { letter, frequency, code, bits }),
    {
        FreqPrefixCodeEntry { letter, frequency, code, bits }
    }
}

/// The frequency-table entries that a traversal's leaves yield, in traversal
/// order.
pub open spec fn freq_entries(d: Seq<DfsEnt>) -> Seq<FreqPrefixCodeEntry>
    decreases d.len(),
{
    if d.len() == 0 {
        Seq::empty()
    } else {
        freq_entries(d.drop_last()) + (match d.last().node {
            NodeM::Bin(c, f) => seq![
                FreqPrefixCodeEntry {
                    letter: c,
                    frequency: f as usize,
                    code: d.last().code,
                    bits: count_bits_spec(d.last().code) as usize,
                },
            ],
            NodeM::Hier(_, _, _) => Seq::<FreqPrefixCodeEntry>::empty(),
        })
    }
}

/// The first index of `s` holding the letter `c`; the length when none does.
pub open spec fn freq_idx_by_letter(s: Seq<FreqPrefixCodeEntry>, c: char) -> int
    decreases s.len(),
{
    if s.len() == 0 {
        0
    } else if s[0].letter == c {
        0
    } else {
        1 + freq_idx_by_letter(s.drop_first(), c)
    }
}

/// A prefix-code table that keeps each letter's frequency beside its code,
/// in traversal order.
#[derive(Clone, Debug, Default, PartialEq)]
pub struct FreqPrefixCodeTable(pub Vec<FreqPrefixCodeEntry>);

impl FreqPrefixCodeTable {
    /// The first entry with the given letter.
    pub fn get<'a>(&'a self, c: &char) -> (r: Option<&'a FreqPrefixCodeEntry>)
        ensures
            ({
                let ix = freq_idx_by_letter(self.0@, *c);
                if ix < self.0@.len() {
                    r == Some(&self.0@[ix])
                } else {
                    r is None
                }
            }),
    {
        let ghost s = self.0@;
        let n = self.0.len();
        let mut i: usize = 0;
        proof {
            assert(s.skip(0) =~= s);
        }
        while i < n
            invariant
                i <= n,
                n == s.len(),
                s == self.0@,
                freq_idx_by_letter(s, *c) == i + freq_idx_by_letter(s.skip(i as int), *c),
            decreases n - i,
        {
            proof {
                assert(s.skip(i as int)[0] == s[i as int]);
                assert(s.skip(i as int).drop_first() =~= s.skip(i + 1));
            }
            if self.0[i].letter == *c {
                return Some(&self.0[i]);
            }
            i = i + 1;
        }
        proof {
            assert(s.skip(n as int) =~= Seq::<FreqPrefixCodeEntry>::empty());
        }
        None
    }

    /// The frequency table of a code tree whose root is a hierarchy node:
    /// one entry per leaf, with the leaf's frequency and path code, in
    /// traversal order.
    pub fn from_tree(tree: &CtBinaryTree) -> (r: FreqPrefixCodeTable)
        requires
            node_model(*tree.node) is Hier,
        ensures
            r.0@ == freq_entries(dfs(node_model(*tree.node), 0, true)),
    {
        let ghost d = dfs(node_model(*tree.node), 0, true);
        proof {
            CtBinaryTreeIter::lemma_dfs_roots(node_model(*tree.node), 0, true);
        }
        let mut table: Vec<FreqPrefixCodeEntry> = Vec::new();
        let mut tree_iter = tree.iter();
        proof {
            assert(freq_entries(d.take(0)) =~= Seq::<FreqPrefixCodeEntry>::empty());
        }
        loop
            invariant
                tree_iter.wf(),
                entries_match(tree_iter.entries@, d),
                d == dfs(node_model(*tree.node), 0, true),
                node_model(*tree.node) is Hier,
                d[0].node == node_model(*tree.node),
                forall|k: int| 1 <= k < d.len() ==> !(#[trigger] d[k]).root,
                table@ == freq_entries(d.take(tree_iter.idx as int)),
            ensures
                table@ == freq_entries(d),
            decreases tree_iter.entries@.len() - tree_iter.idx,
        {
            let ghost idx0 = tree_iter.idx as int;
            let code = tree_iter.next_code();
            match tree_iter.next() {
                Some(node) => {
                    match node {
                        CtTreeNode::Bin(c, f) => {
                            proof {
                                assert(node_model(*node) == d[idx0].node);
                                assert(!d[idx0].root) by {
                                    if idx0 == 0 {
                                        assert(d[0].node is Hier);
                                    }
                                }
                                assert(tree_iter.entries@[idx0].2 == d[idx0].root);
                            }
                            let cv = match code {
                                Some(cv) => cv,
                                None => {
                                    proof {
                                        assert(false);
                                    }
                                    vstd::pervasive::unreached()
                                },
                            };
                            let e = FreqPrefixCodeEntry::new(*c, *f, cv);
                            table.push(e);
                        },
                        _ => {},
                    }
                    proof {
                        assert(d.take(idx0 + 1).drop_last() =~= d.take(idx0));
                        assert(d.take(idx0 + 1).last() == d[idx0]);
                        assert(node_model(*node) == d[idx0].node);
                        match node_model(*node) {
                            NodeM::Bin(_, _) => {
                                assert(table@ =~= freq_entries(d.take(idx0 + 1)));
                            },
                            NodeM::Hier(_, _, _) => {
                                assert(table@ =~= freq_entries(d.take(idx0 + 1)));
                            },
                        }
                    }
                },
                None => {
                    proof {
                        assert(tree_iter.idx == d.len());
                        assert(d.take(d.len() as int) =~= d);
                    }
                    break;
                },
            }
        }
        FreqPrefixCodeTable(table)
    }
}

/// An iterator over a prefix-code table's entries.
#[derive(Debug, Clone)]
pub struct PrefixCodeTableIter<'a> {
    /// The entries.
    pub table: &'a Vec<PrefixCodeEntry>,
    /// The next entry to yield.
    pub idx: usize,
}

impl<'a> PrefixCodeTableIter<'a> {
    /// The next entry, in table order.
    pub fn next(&mut self) -> (r: Option<&'a PrefixCodeEntry>)
        ensures
            final(self).table == old(self).table,
            if old(self).idx < old(self).table@.len() {
                &&& r == Some(&old(self).table@[old(self).idx as int])
                &&& final(self).idx == old(self).idx + 1
            } else {
                &&& r is None
                &&& *final(self) == *old(self)
            },
    {
        if self.idx < self.table.len() {
            let val = &self.table[self.idx];
            self.idx = self.idx + 1;
            Some(val)
        } else {
            None
        }
    }
}

} // verus!
