//! The compression pipeline, step by step: frequency analysis, tree
//! construction, table derivation, and encoding and decoding of text.

use vstd::prelude::*;

use crate::huffman::algorithm::{
    bins_chars, bins_entries, dfs, distinct_chars, freq_entries, huffman_tree, lemma_bins_chars_index,
    lemma_find_pos_bounds, merge_once, node_model, occ, spec_decode, spec_encode, spectrum_is_analysis,
    spectrum_nodes, total_freq, CharSpectrum, CtBinaryTree, FreqPrefixCodeEntry, FreqPrefixCodeTable,
    NodeM, PrefixCodeTable,
};
use crate::huffman::command::CtInput;
use crate::huffman::types::{CompressedData, Header};
use crate::strutil::{dec_str, push_char, push_u64};

verus! {

/// The spectrum a text analyses to: its distinct characters in order of first
/// appearance, each with its occurrence count.
pub open spec fn spectrum_entry(s: Seq<char>, i: int) -> (char, usize) {
    (distinct_chars(s)[i], occ(s, distinct_chars(s)[i]) as usize)
}

/// The spectrum a text analyses to.
pub open spec fn spectrum_of(s: Seq<char>) -> Seq<(char, usize)> {
    Seq::new(distinct_chars(s).len(), |i: int| spectrum_entry(s, i))
}

/// The analysis of a text is its spectrum: the predicate determines the bins.
pub proof fn lemma_analysis_unique(bins: Seq<(char, usize)>, s: Seq<char>)
    requires
        spectrum_is_analysis(bins, s),
    ensures
        bins == spectrum_of(s),
{
    assert(bins_chars(bins).len() == bins.len());
    assert forall|k: int| 0 <= k < bins.len() implies bins[k] == spectrum_of(s)[k] by {
        lemma_bins_chars_index(bins, k);
        assert(bins[k].0 == distinct_chars(s)[k]);
        assert(bins[k].1 == occ(s, bins[k].0));
        crate::huffman::algorithm::lemma_occ_distinct(s, bins[k].0);
        assert(spectrum_of(s)[k] == spectrum_entry(s, k));
    }
    assert(bins =~= spectrum_of(s));
}

/// A text with a character has a distinct character.
pub proof fn lemma_distinct_nonempty(s: Seq<char>)
    requires
        s.len() > 0,
    ensures
        distinct_chars(s).len() > 0,
    decreases s.len(),
{
    if s.len() > 1 {
        lemma_distinct_nonempty(s.drop_last());
    }
}

/// Merging at least two nodes always yields a hierarchy node.
pub proof fn lemma_huffman_hier(v: Seq<NodeM>)
    requires
        v.len() >= 2,
    ensures
        huffman_tree(v) is Hier,
    decreases v.len(),
{
    let merged = crate::huffman::algorithm::merge_node(v[0], v[1]);
    let rest = v.subrange(2, v.len() as int);
    lemma_find_pos_bounds(crate::huffman::algorithm::freq_m(merged), rest);
    if v.len() == 2 {
        assert(rest =~= Seq::<NodeM>::empty());
        assert(merge_once(v) =~= seq![merged]);
        assert(huffman_tree(merge_once(v)) == merged);
    } else {
        lemma_huffman_hier(merge_once(v));
    }
}

/// One of the internal development steps: analyses the text's character
/// frequencies.
pub fn frequency_analysis(text: &str) -> (r: Result<CharSpectrum, String>)
    ensures
        r is Ok,
        (r->Ok_0).0@ == spectrum_of(text@),
        total_freq(spectrum_nodes((r->Ok_0).0@)) <= text@.len(),
        text@.len() <= usize::MAX,
{
    let n = vstd::string::StrSliceExecFns::unicode_len(text);
    let spectrum = CharSpectrum::from_stream(text);
    proof {
        assert(n <= usize::MAX);
        lemma_analysis_unique(spectrum.0@, text@);
    }
    Ok(spectrum)
}

/// One of the internal development steps: builds the Huffman tree of a
/// spectrum; an empty spectrum is refused.
pub fn create_huffman_tree(spectrum: CharSpectrum) -> (r: Result<CtBinaryTree, String>)
    requires
        total_freq(spectrum_nodes(spectrum.0@)) <= usize::MAX,
    ensures
        r is Ok <==> spectrum.0@.len() > 0,
        r is Ok ==> node_model(*(r->Ok_0).node) == huffman_tree(spectrum_nodes(spectrum.0@)),
        r is Err ==> (r->Err_0)@ == "CtBinaryTree::from(CharSpectrum) - empty CharSpectrum!"@,
{
    CtBinaryTree::from_spectrum(spectrum)
}

/// One of the internal development steps: derives the prefix-code table of a
/// tree.
pub fn create_prefix_table(tree: CtBinaryTree) -> (r: PrefixCodeTable)
    ensures
        r.0@ == crate::huffman::algorithm::sort_codes(
            bins_entries(dfs(node_model(*tree.node), 0, true)),
        ),
        r.wf(),
{
    PrefixCodeTable::from_tree(&tree)
}

/// One of the internal development steps: derives the frequency-keeping
/// prefix-code table of a tree whose root is a hierarchy node.
pub fn create_freq_prefix_table(tree: &CtBinaryTree) -> (r: FreqPrefixCodeTable)
    requires
        node_model(*tree.node) is Hier,
    ensures
        r.0@ == freq_entries(dfs(node_model(*tree.node), 0, true)),
{
    FreqPrefixCodeTable::from_tree(tree)
}

/// The prefix-code table of a text, from analysis to table; an empty text is
/// refused.
pub fn pfct_from_text(input: &str) -> (r: Result<PrefixCodeTable, String>)
    ensures
        r is Ok <==> input@.len() > 0,
        r is Ok ==> (r->Ok_0).0@ == crate::huffman::algorithm::sort_codes(
            bins_entries(
                dfs(huffman_tree(spectrum_nodes(spectrum_of(input@))), 0, true),
            ),
        ) && (r->Ok_0).wf(),
        r is Err ==> (r->Err_0)@ == "CtBinaryTree::from(CharSpectrum) - empty CharSpectrum!"@,
{
    let spec_r = frequency_analysis(input);
    let spec_v = match spec_r {
        Ok(v) => v,
        Err(e) => {
            proof {
                assert(false);
            }
            vstd::pervasive::unreached()
        },
    };
    proof {
        if input@.len() > 0 {
            lemma_distinct_nonempty(input@);
        }
        assert(spectrum_of(input@).len() == distinct_chars(input@).len());
    }
    let tree = match create_huffman_tree(spec_v) {
        Ok(t) => t,
        Err(e) => {
            return Err(e);
        },
    };
    Ok(create_prefix_table(tree))
}

/// Encoding method to transform text into an encoded, compressed bit stream
/// under the given table.
pub fn compress(table: PrefixCodeTable, text: &str) -> (r: Result<CompressedData, String>)
    requires
        table.wf(),
    ensures
        match spec_encode(table.0@, text@, 0, Seq::empty()) {
            Ok(bits) => {
                &&& r is Ok
                &&& (r->Ok_0).header.filename@ == Seq::<char>::empty()
                &&& (r->Ok_0).header.prefix_table == table
                &&& (r->Ok_0).header.data_bytes == (r->Ok_0).data@.len() as u32
                &&& crate::huffman::algorithm::packed_bits(
                    (r->Ok_0).data@,
                    (r->Ok_0).unused_bits as int,
                    bits,
                )
            },
            Err(c) => {
                &&& r is Err
                &&& (r->Err_0)@ == crate::huffman::algorithm::no_entry_msg(c)
            },
        },
{
    let encoded = table.text2stream(text);
    let (data, uu_bits) = match encoded {
        Ok(pair) => pair,
        Err(msg) => {
            return Err(msg);
        },
    };
    let data_bytes = data.len() as u32;
    Ok(
        CompressedData {
            header: Header { filename: String::new(), prefix_table: table, data_bytes },
            unused_bits: uu_bits,
            data,
        },
    )
}

/// Decoding method to transform an encoded, compressed bit stream back to
/// text.
pub fn decompress(cdata: &CompressedData) -> (r: String)
    requires
        cdata.unused_bits <= 8,
    ensures
        r@ == spec_decode(
            cdata.header.prefix_table.0@,
            crate::huffman::algorithm::read_bits(cdata.data@, cdata.unused_bits as int),
            0,
            0,
            0,
            Seq::empty(),
        ),
{
    cdata.header.prefix_table.stream2text(self_data(cdata), cdata.unused_bits)
}

/// The data slice of a compressed file.
fn self_data<'a>(cdata: &'a CompressedData) -> (r: &'a [u8])
    ensures
        r@ == cdata.data@,
{
    cdata.data.as_slice()
}

/// One line of the rendered table: the letter, its frequency, its code and
/// the code's bit count.
pub open spec fn entry_line(e: FreqPrefixCodeEntry) -> Seq<char> {
    seq![e.letter, ' '] + dec_str(e.frequency as int) + seq![' '] + dec_str(e.code as int) + seq![
        ' ',
    ] + dec_str(e.bits as int) + seq!['\n']
}

/// The rendering of a frequency table, one line per entry, in table order.
pub open spec fn render_table(es: Seq<FreqPrefixCodeEntry>) -> Seq<char>
    decreases es.len(),
{
    if es.len() == 0 {
        Seq::empty()
    } else {
        render_table(es.drop_last()) + entry_line(es.last())
    }
}

/// Main entry method for the compression-tool use case: analyses the input
/// text and renders its frequency-keeping prefix-code table, one line per
/// letter. A text of exactly one distinct character has no code tree and is
/// not accepted; an empty text is refused with an error.
pub fn compression_tool(input: CtInput) -> (r: Result<String, String>)
    requires
        distinct_chars(input.content@).len() != 1,
    ensures
        input.content@.len() == 0 ==> r is Err,
        r is Ok ==> r->Ok_0@ == render_table(
            freq_entries(
                dfs(huffman_tree(spectrum_nodes(spectrum_of(input.content@))), 0, true),
            ),
        ),
{
    let spectrum = match frequency_analysis(input.content.as_str()) {
        Ok(s) => s,
        Err(e) => {
            proof {
                assert(false);
            }
            vstd::pervasive::unreached()
        },
    };
    let ghost bins = spectrum.0@;
    let h_tree = match create_huffman_tree(spectrum) {
        Ok(t) => t,
        Err(e) => {
            return Err(e);
        },
    };
    proof {
        assert(spectrum_of(input.content@).len() == distinct_chars(input.content@).len());
        lemma_huffman_hier(spectrum_nodes(bins));
    }
    let table = create_freq_prefix_table(&h_tree);
    let ghost es = table.0@;
    let mut out = String::new();
    let n = table.0.len();
    let mut i: usize = 0;
    proof {
        assert(render_table(es.take(0)) =~= Seq::<char>::empty());
    }
    while i < n
        invariant
            i <= n,
            n == es.len(),
            es == table.0@,
            out@ == render_table(es.take(i as int)),
        decreases n - i,
    {
        let e = table.0[i];
        push_char(&mut out, e.letter);
        push_char(&mut out, ' ');
        push_u64(&mut out, e.frequency as u64);
        push_char(&mut out, ' ');
        push_u64(&mut out, e.code as u64);
        push_char(&mut out, ' ');
        push_u64(&mut out, e.bits as u64);
        push_char(&mut out, '\n');
        proof {
            assert(es.take(i + 1).drop_last() =~= es.take(i as int));
            assert(es.take(i + 1).last() == e);
            assert(out@ =~= render_table(es.take(i as int)) + entry_line(e));
        }
        i = i + 1;
    }
    proof {
        assert(es.take(n as int) =~= es);
    }
    Ok(out)
}

} // verus!
