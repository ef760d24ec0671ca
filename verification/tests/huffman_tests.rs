use cckit::huffman::algorithm::{
    CharSpectrum, CtTreeNode, FreqPrefixCodeEntry, PrefixCodeEntry, PrefixCodeTable,
};
use cckit::huffman::bitstream::{BitStreamReader, BitStreamWriter};
use cckit::huffman::command::{CtArgs, CtDirective, CtInput};
use cckit::huffman::steps::{
    compress, compression_tool, create_freq_prefix_table, create_huffman_tree,
    create_prefix_table, decompress, frequency_analysis, pfct_from_text,
};
use cckit::huffman::types::{switch_file_type, CompressedData, FileHeader, Header, FILE_CONST};

fn spec_opendsa() -> CharSpectrum {
    CharSpectrum(vec![
        ('z', 2),
        ('k', 7),
        ('m', 24),
        ('c', 32),
        ('u', 37),
        ('d', 42),
        ('l', 42),
        ('e', 120),
    ])
}

fn table_opendsa() -> PrefixCodeTable {
    let mut table: Vec<PrefixCodeEntry> = Vec::new();
    table.push(PrefixCodeEntry::new('e', 0));
    table.push(PrefixCodeEntry::new('u', 4));
    table.push(PrefixCodeEntry::new('d', 5));
    table.push(PrefixCodeEntry::new('l', 6));
    table.push(PrefixCodeEntry::new('c', 14));
    table.push(PrefixCodeEntry::new('m', 31));
    table.push(PrefixCodeEntry::new('z', 60));
    table.push(PrefixCodeEntry::new('k', 61));
    PrefixCodeTable(table)
}

#[test]
fn pfc_iter() {
    let table = table_opendsa();
    let mut table_iter = table.iter();
    assert_eq!(table_iter.next(), Some(&PrefixCodeEntry::new('e', 0)));
    assert_eq!(table_iter.next(), Some(&PrefixCodeEntry::new('u', 4)));
    assert_eq!(table_iter.next(), Some(&PrefixCodeEntry::new('d', 5)));
    assert_eq!(table_iter.next(), Some(&PrefixCodeEntry::new('l', 6)));
    assert_eq!(table_iter.next(), Some(&PrefixCodeEntry::new('c', 14)));
    assert_eq!(table_iter.next(), Some(&PrefixCodeEntry::new('m', 31)));
    assert_eq!(table_iter.next(), Some(&PrefixCodeEntry::new('z', 60)));
    assert_eq!(table_iter.next(), Some(&PrefixCodeEntry::new('k', 61)));
}

#[test]
fn pfc_to_bytes() {
    let table = table_opendsa();
    let data = table.to_bytes();
    assert_eq!(
        vec![
            'e' as u8, 0u8, 'u' as u8, 4u8, 'd' as u8, 5u8, 'l' as u8, 6u8, 'c' as u8, 14u8,
            'm' as u8, 31u8, 'z' as u8, 60u8, 'k' as u8, 61u8,
        ],
        data
    );
}

#[test]
fn pfc_to_bytes_and_back() {
    let table = table_opendsa();
    let data = table.to_bytes();
    let result = PrefixCodeTable::from_bytes(&data[..]);
    assert_eq!(table, result);
}

#[test]
fn pfc_text2stream() {
    let table = table_opendsa();
    let (stream, uu_bits) = table
        .text2stream("lude")
        .expect("PrefixCodeTable::text2stream() failed");
    // "lude" -> 6, 4, 5, 0 -> 110, 100, 101, 0 -> 0101001011
    // "lude" -> 01 0100.1011 -> 75, 1
    assert_eq!(stream, vec![75u8, 1u8]);
    assert_eq!(uu_bits, 6);
}

#[test]
fn bitstreamreader_simple() {
    let stream: Vec<u8> = vec![5, 6];
    let mut reader = BitStreamReader::new(&stream, 5u8);

    assert_eq!(reader.next(), Some(1));
    assert_eq!(reader.next(), Some(0));
    assert_eq!(reader.next(), Some(1));
    assert_eq!(reader.next(), Some(0));
    assert_eq!(reader.next(), Some(0));
    assert_eq!(reader.next(), Some(0));
    assert_eq!(reader.next(), Some(0));
    assert_eq!(reader.next(), Some(0));

    assert_eq!(reader.next(), Some(0));
    assert_eq!(reader.next(), Some(1));
    assert_eq!(reader.next(), Some(1));
    assert_eq!(reader.next(), None);
}

#[test]
fn bitstreamwriter_simple() {
    let mut writer = BitStreamWriter::new();

    writer.add_bit(1);
    writer.add_bit(1);
    writer.add_bit(1);
    writer.add_bit(1);
    writer.add_bit(0);
    writer.add_bit(0);
    writer.add_bit(0);
    writer.add_bit(0);

    writer.add_bit(0);
    writer.add_bit(0);
    writer.add_bit(0);
    writer.add_bit(0);
    writer.add_bit(0);
    writer.add_bit(0);
    writer.add_bit(1);
    // one bit missing

    let (stream, uu_bits) = writer.finalize();
    assert_eq!(stream, vec![15u8, 64u8]);
    assert_eq!(uu_bits, 1);
}

#[test]
fn lib_step_2() {
    let spec = spec_opendsa();
    let tree = create_huffman_tree(spec).expect("create_huffman_tree failed");
    let mut tree_iter = tree.iter();

    assert!(tree_iter.next().unwrap().test_hierarchy(306));
    assert_eq!(*tree_iter.next().unwrap(), CtTreeNode::Bin('e', 120));
    assert!(tree_iter.next().unwrap().test_hierarchy(186));
    assert!(tree_iter.next().unwrap().test_hierarchy(79));
    assert_eq!(*tree_iter.next().unwrap(), CtTreeNode::Bin('u', 37));
    assert_eq!(*tree_iter.next().unwrap(), CtTreeNode::Bin('d', 42));
    assert!(tree_iter.next().unwrap().test_hierarchy(107));
    assert!(tree_iter.next().unwrap().test_bin('l', 42));
    assert!(tree_iter.next().unwrap().test_hierarchy(65));
    assert!(tree_iter.next().unwrap().test_bin('c', 32));
    assert!(tree_iter.next().unwrap().test_hierarchy(33));
    assert!(tree_iter.next().unwrap().test_hierarchy(9));
    assert!(tree_iter.next().unwrap().test_bin('z', 2));
    assert!(tree_iter.next().unwrap().test_bin('k', 7));
    assert!(tree_iter.next().unwrap().test_bin('m', 24));
}

#[test]
fn lib_step_3() {
    let spec = spec_opendsa();
    let tree = create_huffman_tree(spec).expect("create_huffman_tree failed");
    let prefix_table = create_prefix_table(tree);

    let result = prefix_table.entry_by_char('c').expect("no entry 'c' found");
    assert_eq!(*result, PrefixCodeEntry::new('c', 14));
    let result = prefix_table.entry_by_char('d').expect("no entry 'd' found");
    assert_eq!(*result, PrefixCodeEntry::new('d', 5));
    let result = prefix_table.entry_by_char('e').expect("no entry 'e' found");
    assert_eq!(*result, PrefixCodeEntry::new('e', 0));
    let result = prefix_table.entry_by_char('k').expect("no entry 'k' found");
    assert_eq!(*result, PrefixCodeEntry::new('k', 61));
    let result = prefix_table.entry_by_char('l').expect("no entry 'l' found");
    assert_eq!(*result, PrefixCodeEntry::new('l', 6));
    let result = prefix_table.entry_by_char('m').expect("no entry 'm' found");
    assert_eq!(*result, PrefixCodeEntry::new('m', 31));
    let result = prefix_table.entry_by_char('u').expect("no entry 'u' found");
    assert_eq!(*result, PrefixCodeEntry::new('u', 4));
    let result = prefix_table.entry_by_char('z').expect("no entry 'z' found");
    assert_eq!(*result, PrefixCodeEntry::new('z', 60));
}

#[test]
fn step_2() {
    let spec = spec_opendsa();
    let tree = create_huffman_tree(spec).expect("create_huffman_tree failed");
    let mut tree_iter = tree.iter();

    assert!(tree_iter.next().unwrap().test_hierarchy(306));
    assert_eq!(*tree_iter.next().unwrap(), CtTreeNode::Bin('e', 120));
    assert!(tree_iter.next().unwrap().test_hierarchy(186));
    assert!(tree_iter.next().unwrap().test_hierarchy(79));
    assert_eq!(*tree_iter.next().unwrap(), CtTreeNode::Bin('u', 37));
    assert_eq!(*tree_iter.next().unwrap(), CtTreeNode::Bin('d', 42));
    assert!(tree_iter.next().unwrap().test_hierarchy(107));
    assert!(tree_iter.next().unwrap().test_bin('l', 42));
    assert!(tree_iter.next().unwrap().test_hierarchy(65));
    assert!(tree_iter.next().unwrap().test_bin('c', 32));
    assert!(tree_iter.next().unwrap().test_hierarchy(33));
    assert!(tree_iter.next().unwrap().test_hierarchy(9));
    assert!(tree_iter.next().unwrap().test_bin('z', 2));
    assert!(tree_iter.next().unwrap().test_bin('k', 7));
    assert!(tree_iter.next().unwrap().test_bin('m', 24));
}

#[test]
fn step_3() {
    let spec = spec_opendsa();
    let tree = create_huffman_tree(spec).expect("create_huffman_tree failed");
    let prefix_table = create_freq_prefix_table(&tree);

    let result = prefix_table.get(&'c').expect("no entry 'c' found");
    assert_eq!(*result, FreqPrefixCodeEntry::test('c', 32, 14, 4));
    let result = prefix_table.get(&'d').expect("no entry 'd' found");
    assert_eq!(*result, FreqPrefixCodeEntry::test('d', 42, 5, 3));
    let result = prefix_table.get(&'e').expect("no entry 'e' found");
    assert_eq!(*result, FreqPrefixCodeEntry::test('e', 120, 0, 1));
    let result = prefix_table.get(&'k').expect("no entry 'k' found");
    assert_eq!(*result, FreqPrefixCodeEntry::test('k', 7, 61, 6));
    let result = prefix_table.get(&'l').expect("no entry 'l' found");
    assert_eq!(*result, FreqPrefixCodeEntry::test('l', 42, 6, 3));
    let result = prefix_table.get(&'m').expect("no entry 'm' found");
    assert_eq!(*result, FreqPrefixCodeEntry::test('m', 24, 31, 5));
    let result = prefix_table.get(&'u').expect("no entry 'u' found");
    assert_eq!(*result, FreqPrefixCodeEntry::test('u', 37, 4, 3));
    let result = prefix_table.get(&'z').expect("no entry 'z' found");
    assert_eq!(*result, FreqPrefixCodeEntry::test('z', 2, 60, 6));
}

#[test]
fn header_to_bytes_1() {
    let header = Header {
        filename: String::new(),
        prefix_table: table_opendsa(),
        data_bytes: 1,
    };
    let output = header.to_bytes();
    assert_eq!(
        vec![
            0, 16, 0, 'e' as u8, 0u8, 'u' as u8, 4u8, 'd' as u8, 5u8, 'l' as u8, 6u8, 'c' as u8,
            14u8, 'm' as u8, 31u8, 'z' as u8, 60u8, 'k' as u8, 61u8, 1, 0, 0, 0,
        ],
        output
    );
}

#[test]
fn header_to_bytes_2() {
    let header = Header {
        filename: "test".to_string(),
        prefix_table: table_opendsa(),
        data_bytes: 256,
    };
    let output = header.to_bytes();
    assert_eq!(
        vec![
            4, 't' as u8, 'e' as u8, 's' as u8, 't' as u8, 16, 0, 'e' as u8, 0u8, 'u' as u8, 4u8,
            'd' as u8, 5u8, 'l' as u8, 6u8, 'c' as u8, 14u8, 'm' as u8, 31u8, 'z' as u8, 60u8,
            'k' as u8, 61u8, 0, 1, 0, 0,
        ],
        output
    );
}

#[test]
fn header_to_bytes_and_back() {
    let header = Header {
        filename: "testfile.txt".to_string(),
        prefix_table: table_opendsa(),
        data_bytes: 1,
    };

    let data = header.to_bytes();
    let output = Header::from_bytes(&data[..]);

    assert_eq!(header, output);
}

#[test]
fn header_to_vec() {
    let header = FileHeader {
        filename: String::new(),
        prefix_table: table_opendsa(),
    };
    let output = header.to_bytes();
    assert_eq!(
        vec![
            FILE_CONST, 0, 0, 16, 'e' as u8, 0u8, 'u' as u8, 4u8, 'd' as u8, 5u8, 'l' as u8, 6u8,
            'c' as u8, 14u8, 'm' as u8, 31u8, 'z' as u8, 60u8, 'k' as u8, 61u8,
        ],
        output
    );
}

#[test]
fn header_to_vec_and_back() {
    let header = FileHeader {
        filename: String::new(),
        prefix_table: table_opendsa(),
    };

    let data = header.to_bytes();
    let output = FileHeader::try_from_bytes(&data[..]).expect("FileHeader::try_from_bytes failed");

    assert_eq!(header, output);
}

#[test]
fn compress_and_decompress_roundtrip() {
    let table = table_opendsa();
    let cdata = compress(table, "lude").expect("compress() failed");
    assert_eq!(cdata.header.data_bytes, 2);
    assert_eq!(cdata.unused_bits, 6);
    let text = decompress(&cdata);
    assert_eq!(text, "lude".to_string());
}

#[test]
fn compress_refuses_letters_outside_the_table() {
    let table = table_opendsa();
    let err = compress(table, "ax").expect_err("no entry expected");
    assert_eq!(err, "no entry with letter 'a'".to_string());
}

#[test]
fn frequency_analysis_counts_occurrences() {
    let spectrum = frequency_analysis("abbcccddddeeeeeffffff").expect("frequency_analysis failed");
    assert_eq!(
        spectrum.0,
        vec![('a', 1), ('b', 2), ('c', 3), ('d', 4), ('e', 5), ('f', 6)]
    );
}

#[test]
fn spectrum_sort_orders_by_count_then_letter() {
    let mut spectrum = CharSpectrum(vec![('l', 42), ('e', 120), ('d', 42), ('z', 2)]);
    spectrum.sort();
    assert_eq!(spectrum.0, vec![('z', 2), ('d', 42), ('l', 42), ('e', 120)]);
}

#[test]
fn pfct_from_text_refuses_empty_text() {
    assert!(pfct_from_text("").is_err());
    assert!(pfct_from_text("abc").is_ok());
}

#[test]
fn compression_tool_renders_the_table() {
    let input = CtInput {
        content: "aab".to_string(),
    };
    let out = compression_tool(input).expect("compression_tool failed");
    assert_eq!(out, "a 2 0 1\nb 1 1 1\n".to_string());
}

#[test]
fn directive_needs_exactly_one_of_pack_and_unpack() {
    let err = CtDirective::from_args(CtArgs {
        pack: None,
        unpack: None,
        of: None,
    })
    .expect_err("neither given");
    assert_eq!(err, "argument error: specifiy either 'pack' or 'unpack'".to_string());
    let ok = CtDirective::from_args(CtArgs {
        pack: Some("a.txt".to_string()),
        unpack: None,
        of: None,
    })
    .expect("pack given");
    match ok {
        CtDirective::Pack(name, of) => {
            assert_eq!(name, "a.txt".to_string());
            assert_eq!(of, None);
        },
        _ => panic!("expected a pack directive"),
    }
}

#[test]
fn switch_file_type_swaps_the_ending() {
    assert_eq!(switch_file_type("input.txt"), "input.cpd".to_string());
    assert_eq!(switch_file_type("input.cpd"), "input.txt".to_string());
}

#[test]
fn compressed_data_to_file_bytes_frames_the_content() {
    let table = table_opendsa();
    let cdata = compress(table, "lude").expect("compress() failed");
    let bytes = cdata.to_file_bytes().expect("to_file_bytes failed");
    assert_eq!(bytes[0], FILE_CONST);
    let hdr = cdata.header.to_bytes();
    assert_eq!(bytes[1] as usize, hdr.len());
    assert_eq!(&bytes[5..5 + hdr.len()], &hdr[..]);
    assert_eq!(&bytes[5 + hdr.len()..], &cdata.data[..]);
    let broken = CompressedData {
        header: Header {
            filename: String::new(),
            prefix_table: table_opendsa(),
            data_bytes: 3,
        },
        unused_bits: 0,
        data: vec![1, 2],
    };
    assert!(broken.to_file_bytes().is_err());
}

#[test]
fn compressed_file_bytes_read_back() {
    let table = table_opendsa();
    let cdata = compress(table, "lude").expect("compress() failed");
    let bytes = cdata.to_file_bytes().expect("to_file_bytes failed");
    let back = CompressedData::from_file_bytes(&bytes).expect("from_file_bytes failed");
    assert_eq!(back.header, cdata.header);
    assert_eq!(back.data, cdata.data);
    assert_eq!(back.unused_bits, 0);
    assert!(CompressedData::from_file_bytes(&[9, 9, 9, 9, 9]).is_err());
}
