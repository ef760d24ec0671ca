use cckit::wc::command::{CcWcArgs, CcWcArgsCommand};
use cckit::wc::counts::{bytes, ccwc, chars, format_output, lines, words};
use cckit::wc::iterators::WordIterator;

#[test]
fn arg_iter_test() {
    let cmd = CcWcArgsCommand("ccwc -c test.txt");
    let mut iter = cmd.into_iter();
    assert_eq!(iter.next(), Some("ccwc"));
    assert_eq!(iter.next(), Some("-c"));
    assert_eq!(iter.next(), Some("test.txt"));
}

#[test]
fn args_from_only_filename() {
    let args = CcWcArgs::from("ccwc test.txt");
    assert_eq!(args.bytes, false);
    assert_eq!(args.chars, false);
    assert_eq!(args.lines, false);
    assert_eq!(args.words, false);
    assert_eq!(args.file, Some(String::from("test.txt")));
}

#[test]
fn args_from_flags() {
    let args = CcWcArgs::from("ccwc -w test.txt");
    assert_eq!(args.bytes, false);
    assert_eq!(args.chars, false);
    assert_eq!(args.lines, false);
    assert_eq!(args.words, true);

    let args = CcWcArgs::from("ccwc -l test.txt");
    assert_eq!(args.bytes, false);
    assert_eq!(args.chars, false);
    assert_eq!(args.lines, true);
    assert_eq!(args.words, false);

    let args = CcWcArgs::from("ccwc -cw test.txt");
    assert_eq!(args.bytes, true);
    assert_eq!(args.chars, false);
    assert_eq!(args.lines, false);
    assert_eq!(args.words, true);
}

#[test]
fn worditer_simple_line() {
    let text: &str = "This is a simple, single line of text.";
    let iter = WordIterator::new(text);
    assert_eq!(iter.count(), 8);
}

#[test]
fn worditer_special_characters() {
    let text: &str = "\u{feff}This is a simple,\nvery simple\t line of text.";
    let iter = WordIterator::new(text);
    assert_eq!(iter.count(), 9);
}

#[test]
fn count_functions_on_a_small_text() {
    let text = "one two\nthree four\n";
    assert_eq!(lines(text), 2);
    assert_eq!(words(text), 4);
    assert_eq!(bytes(text), 19);
    assert_eq!(chars(text), 19);
}

#[test]
fn line_runs_count_once() {
    assert_eq!(lines("a\n\n\nb\n"), 2);
    assert_eq!(lines(""), 0);
    assert_eq!(lines("no newline"), 0);
}

#[test]
fn multibyte_text_has_more_bytes_than_chars() {
    let text = "h\u{e9}h\u{e9}";
    assert_eq!(chars(text), 4);
    assert_eq!(bytes(text), 6);
}

#[test]
fn format_output_pads_to_the_width() {
    assert_eq!(format_output(&vec![7145, 58164, 342190], 6), "  7145  58164 342190".to_string());
    assert_eq!(format_output(&vec![5], 1), "5".to_string());
}

#[test]
fn ccwc_selects_and_formats_counts() {
    let args = CcWcArgs::from("ccwc -c file.txt");
    assert_eq!(ccwc(&args, "one two\nthree four\n"), "19 file.txt".to_string());
    let args = CcWcArgs::from("ccwc -lw file.txt");
    assert_eq!(ccwc(&args, "one two\nthree four\n"), "2 4 file.txt".to_string());
    let args = CcWcArgs {
        bytes: false,
        chars: false,
        lines: false,
        words: false,
        file: None,
    };
    assert_eq!(ccwc(&args, "one two\nthree four\n"), " 2  4 19".to_string());
}
