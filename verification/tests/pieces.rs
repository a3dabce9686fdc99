use untry::collect::{same_bytes, select, MacroUse};
use untry::error::Error;
use untry::order::{check_sequence, sort_spans};
use untry::position::{locate, multi_line_starts, Position};
use untry::resolve::{resolve, skip_backward, skip_forward};
use untry::scan::{append_range, blank, has_trigger, opener};
use untry::span::Span;
use untry::splice::rewrite;

fn sp(lo: usize, hi: usize) -> Span {
    Span { lo, hi }
}

#[test]
fn trigger_is_a_plain_substring_search() {
    assert!(has_trigger(b"try!"));
    assert!(has_trigger(b"x = try!(y)"));
    assert!(has_trigger(b"// try! in a comment"));
    assert!(has_trigger(b"ttry!"));
    assert!(!has_trigger(b""));
    assert!(!has_trigger(b"try"));
    assert!(!has_trigger(b"try !"));
    assert!(!has_trigger(b"tr y!try"));
}

#[test]
fn blanks_and_openers() {
    assert!(blank(b' ') && blank(b'\n') && blank(b'\t'));
    assert!(!blank(b'\r') && !blank(b'a'));
    assert!(opener(b'(') && opener(b'{'));
    assert!(!opener(b'[') && !opener(b')'));
}

#[test]
fn append_range_copies_the_range() {
    let mut out = b"ab".to_vec();
    append_range(&mut out, b"0123456", 2, 5);
    assert_eq!(out, b"ab234".to_vec());
    append_range(&mut out, b"0123456", 3, 3);
    assert_eq!(out, b"ab234".to_vec());
}

#[test]
fn skipping_stops_at_the_bounds() {
    assert_eq!(skip_forward(b"  \t\nx ", 0, 6), 4);
    assert_eq!(skip_forward(b"    ", 1, 3), 3);
    assert_eq!(skip_forward(b"x", 0, 1), 0);
    assert_eq!(skip_backward(b"ab  \n", 0, 5), 2);
    assert_eq!(skip_backward(b"    ", 1, 4), 1);
    assert_eq!(skip_backward(b"ab", 0, 2), 2);
}

#[test]
fn argument_is_trimmed_at_both_ends_only() {
    let source = b"try!( \n\t f(a,\n   b) \t\n )";
    let arg = resolve(source, sp(0, source.len())).unwrap();
    assert_eq!(&source[arg.lo..arg.hi], b"f(a,\n   b)");
    assert_eq!(arg, sp(9, 19));
}

#[test]
fn argument_of_plain_invocations() {
    assert_eq!(resolve(b"try!(x)", sp(0, 7)), Ok(sp(5, 6)));
    assert_eq!(resolve(b"try!{x}", sp(0, 7)), Ok(sp(5, 6)));
    assert_eq!(resolve(b"try! \n (x)", sp(0, 10)), Ok(sp(8, 9)));
    assert_eq!(resolve(b"ab try!(x) cd", sp(3, 10)), Ok(sp(8, 9)));
    assert_eq!(resolve(b"try!()", sp(0, 6)), Ok(sp(5, 5)));
    assert_eq!(resolve(b"try!(  )", sp(0, 8)), Ok(sp(7, 7)));
}

#[test]
fn missing_delimiter_is_a_bug() {
    assert_eq!(resolve(b"try!", sp(0, 4)), Err(Error::Bug(b"try!".to_vec())));
    assert_eq!(resolve(b"try![x]", sp(0, 7)), Err(Error::Bug(b"try![x]".to_vec())));
    assert_eq!(resolve(b"try! x", sp(0, 6)), Err(Error::Bug(b"try! x".to_vec())));
    assert_eq!(resolve(b"try!(  ", sp(0, 7)), Err(Error::Bug(b"try!(  ".to_vec())));
    assert_eq!(resolve(b"try!   ", sp(0, 7)), Err(Error::Bug(b"try!   ".to_vec())));
    assert_eq!(resolve(b"xtry", sp(1, 4)), Err(Error::Bug(b"try".to_vec())));
    assert_eq!(resolve(b"xtry", sp(2, 2)), Err(Error::Bug(Vec::new())));
}

#[test]
fn messages() {
    assert_eq!(
        Error::Bug(b"try! x".to_vec()).message(),
        b"BUG: couldn't parse the delimiters of: try! x".to_vec()
    );
    assert_eq!(Error::Parse.message(), b"parse error".to_vec());
}

#[test]
fn sorting_is_by_start_and_stable() {
    let sorted = sort_spans(&vec![sp(8, 9), sp(3, 4), sp(8, 8), sp(0, 2), sp(3, 3)]);
    assert_eq!(sorted, vec![sp(0, 2), sp(3, 4), sp(3, 3), sp(8, 9), sp(8, 8)]);
    assert_eq!(sort_spans(&vec![]), vec![]);
}

#[test]
fn sequence_check() {
    assert!(check_sequence(&vec![], 0));
    assert!(check_sequence(&vec![sp(0, 2), sp(2, 5)], 5));
    assert!(!check_sequence(&vec![sp(0, 2), sp(2, 5)], 4));
    assert!(!check_sequence(&vec![sp(0, 3), sp(2, 5)], 5));
    assert!(!check_sequence(&vec![sp(2, 5), sp(0, 2)], 5));
    assert!(!check_sequence(&vec![sp(3, 2)], 5));
}

#[test]
fn rewrite_splices_every_span() {
    let source = b"a(try!(f(x)));";
    assert_eq!(rewrite(source, &vec![sp(2, 12)]), Ok(b"a(f(x)?);".to_vec()));
    let source = b"try!(a) + try!{ b } - c";
    assert_eq!(
        rewrite(source, &vec![sp(10, 19), sp(0, 7)]),
        Ok(b"a? + b? - c".to_vec())
    );
    assert_eq!(rewrite(source, &vec![]), Ok(source.to_vec()));
}

#[test]
fn rewrite_peels_one_layer() {
    let source = b"try!(try!(f()))";
    assert_eq!(rewrite(source, &vec![sp(0, 15)]), Ok(b"try!(f())?".to_vec()));
}

#[test]
fn rewrite_reports_the_first_bad_span() {
    let source = b"try!(a) try!+ try!-";
    assert_eq!(
        rewrite(source, &vec![sp(14, 19), sp(8, 13), sp(0, 7)]),
        Err(Error::Bug(b"try!+".to_vec()))
    );
}

#[test]
fn lines_and_columns() {
    let text = b"ab\ncd\n\nef";
    assert_eq!(locate(text, 0), Position { line: 1, col: 0 });
    assert_eq!(locate(text, 2), Position { line: 1, col: 2 });
    assert_eq!(locate(text, 3), Position { line: 2, col: 0 });
    assert_eq!(locate(text, 6), Position { line: 3, col: 0 });
    assert_eq!(locate(text, 8), Position { line: 4, col: 1 });
    assert_eq!(locate(text, 9), Position { line: 4, col: 2 });
}

#[test]
fn columns_count_characters() {
    let text = "é€x".as_bytes();
    assert_eq!(locate(text, 2), Position { line: 1, col: 1 });
    assert_eq!(locate(text, 5), Position { line: 1, col: 2 });
    assert_eq!(locate(text, 6), Position { line: 1, col: 3 });
}

#[test]
fn multi_line_spans_are_listed_in_order() {
    let text = b"try!(\na)\ntry!(b)\n  try!(c\n)";
    let spans = vec![sp(19, 27), sp(9, 16), sp(0, 8)];
    assert_eq!(
        multi_line_starts(text, &spans),
        vec![Position { line: 1, col: 0 }, Position { line: 4, col: 2 }]
    );
    assert!(sp(0, 8).spans_lines(text));
    assert!(!sp(9, 16).spans_lines(text));
    assert!(!sp(6, 8).spans_lines(text));
}

fn mac(path: &[&str], file: &str, lo: usize, hi: usize) -> MacroUse {
    MacroUse {
        path: path.iter().map(|s| s.as_bytes().to_vec()).collect(),
        file: file.as_bytes().to_vec(),
        span: sp(lo, hi),
    }
}

#[test]
fn only_plain_try_of_this_file_is_selected() {
    assert!(mac(&["try"], "a.rs", 0, 7).names_try(b"a.rs"));
    assert!(!mac(&["try"], "b.rs", 0, 7).names_try(b"a.rs"));
    assert!(!mac(&["std", "try"], "a.rs", 0, 7).names_try(b"a.rs"));
    assert!(!mac(&["tri"], "a.rs", 0, 7).names_try(b"a.rs"));
    assert!(!mac(&["trys"], "a.rs", 0, 7).names_try(b"a.rs"));
    assert!(!mac(&[], "a.rs", 0, 7).names_try(b"a.rs"));
    let uses = vec![
        mac(&["println"], "a.rs", 0, 10),
        mac(&["try"], "a.rs", 20, 27),
        mac(&["try"], "a/b.rs", 3, 9),
        mac(&["try"], "a.rs", 12, 19),
    ];
    assert_eq!(select(&uses, b"a.rs"), vec![sp(20, 27), sp(12, 19)]);
    assert_eq!(select(&vec![], b"a.rs"), vec![]);
}

#[test]
fn byte_strings_compare() {
    assert!(same_bytes(b"", b""));
    assert!(same_bytes(b"abc", b"abc"));
    assert!(!same_bytes(b"abc", b"abd"));
    assert!(!same_bytes(b"abc", b"ab"));
}
