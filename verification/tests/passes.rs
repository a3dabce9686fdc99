use untry::engine::{untry, Engine, Parsed};
use untry::error::Error;
use untry::position::Position;
use untry::span::Span;

/// Finds the outermost `try!(..)` and `try!{..}` by counting delimiters, as
/// a parser would report them.
fn outermost(buffer: &Vec<u8>) -> Parsed {
    let mut spans = Vec::new();
    let mut i = 0;
    while i + 4 <= buffer.len() {
        if &buffer[i..i + 4] == b"try!" {
            let mut j = i + 4;
            let mut depth = 0usize;
            let mut end = None;
            while j < buffer.len() {
                match buffer[j] {
                    b'(' | b'{' => depth += 1,
                    b')' | b'}' => {
                        depth -= 1;
                        if depth == 0 {
                            end = Some(j + 1);
                            break;
                        }
                    }
                    _ => {}
                }
                j += 1;
            }
            match end {
                Some(hi) => {
                    spans.push(Span { lo: i, hi });
                    i = hi;
                }
                None => return Parsed::Failure,
            }
        } else {
            i += 1;
        }
    }
    Parsed::Spans(spans)
}

fn nothing(_: &Vec<u8>) -> Parsed {
    Parsed::Spans(Vec::new())
}

fn failing(_: &Vec<u8>) -> Parsed {
    Parsed::Failure
}

#[test]
fn single_flat_occurrence() {
    let e = untry(b"a(try!(f(x)));".to_vec(), outermost).unwrap();
    assert_eq!(e.buffer, b"a(f(x)?);".to_vec());
    assert!(e.modified);
    assert!(e.done);
    assert!(e.warnings.is_empty());
}

#[test]
fn nested_occurrence_takes_two_passes() {
    let source = b"try!(try!(f()))".to_vec();
    let first = Engine::start(source.clone());
    assert!(!first.done);
    let spans = match outermost(&first.buffer) {
        Parsed::Spans(s) => s,
        Parsed::Failure => panic!("the source is balanced"),
    };
    assert_eq!(spans, vec![Span { lo: 0, hi: 15 }]);
    let second = first.feed(Parsed::Spans(spans)).unwrap();
    assert_eq!(second.buffer, b"try!(f())?".to_vec());
    assert!(!second.done);
    let third = second.feed(outermost(&b"try!(f())?".to_vec())).unwrap();
    assert_eq!(third.buffer, b"f()??".to_vec());
    assert!(third.done);

    let e = untry(source, outermost).unwrap();
    assert_eq!(e.buffer, b"f()??".to_vec());
    assert!(e.modified);
}

#[test]
fn three_levels_and_a_neighbour() {
    let e = untry(b"let a = try!{ try!(try!(g(1))) }; try!(h());".to_vec(), outermost).unwrap();
    assert_eq!(e.buffer, b"let a = g(1)???; h()?;".to_vec());
}

#[test]
fn multi_line_invocation_gives_one_warning() {
    let source = b"fn f() {\n    let x = try!(\n        g(1,\n          2)\n    );\n}\n".to_vec();
    let e = untry(source, outermost).unwrap();
    assert!(e.modified);
    assert_eq!(e.warnings, vec![Position { line: 2, col: 12 }]);
    assert_eq!(
        e.buffer,
        b"fn f() {\n    let x = g(1,\n          2)?;\n}\n".to_vec()
    );
    let again = untry(e.buffer.clone(), outermost).unwrap();
    assert!(again.warnings.is_empty());
    assert!(!again.modified);
    assert_eq!(again.buffer, e.buffer);
}

#[test]
fn warnings_come_from_the_first_pass_only() {
    let source = b"try!(a);\ntry!(try!(\nb))".to_vec();
    let e = untry(source, outermost).unwrap();
    assert_eq!(e.buffer, b"a?;\nb??".to_vec());
    assert_eq!(e.warnings, vec![Position { line: 2, col: 0 }]);
}

#[test]
fn running_again_changes_nothing() {
    for source in [
        &b"a(try!(f(x)));"[..],
        &b"try!(try!(f()))"[..],
        &b"no macro here"[..],
        &b"x = try!{ y };"[..],
    ] {
        let once = untry(source.to_vec(), outermost).unwrap();
        let twice = untry(once.buffer.clone(), outermost).unwrap();
        assert_eq!(twice.buffer, once.buffer);
        assert!(!twice.modified);
        assert!(twice.warnings.is_empty());
    }
}

#[test]
fn text_without_the_name_is_done_at_once() {
    let e = Engine::start(b"fn main() {}".to_vec());
    assert!(e.done);
    assert!(!e.modified);
    let e = untry(b"fn main() {}".to_vec(), failing).unwrap();
    assert_eq!(e.buffer, b"fn main() {}".to_vec());
    assert!(!e.modified);
}

#[test]
fn name_in_a_comment_is_left_alone() {
    let source = b"// try!(x) is old\nfn main() {}\n".to_vec();
    let e = untry(source.clone(), nothing).unwrap();
    assert_eq!(e.buffer, source);
    assert!(!e.modified);
    assert!(e.done);
    assert!(e.warnings.is_empty());
}

#[test]
fn parse_failure_is_handed_on() {
    assert_eq!(untry(b"try!(".to_vec(), failing), Err(Error::Parse));
    let e = Engine::start(b"try!(x)".to_vec());
    assert_eq!(e.feed(Parsed::Failure), Err(Error::Parse));
}

#[test]
fn malformed_invocation_is_rejected() {
    let source = b"a; try! x; b".to_vec();
    let e = Engine::start(source.clone());
    let spans = vec![Span { lo: 3, hi: 9 }];
    assert!(e.accepts(&spans));
    assert_eq!(
        e.feed(Parsed::Spans(spans)),
        Err(Error::Bug(b"try! x".to_vec()))
    );
}

#[test]
fn a_later_malformed_invocation_fails_the_whole_pass() {
    let source = b"try!(a) try!".to_vec();
    let found = |_: &Vec<u8>| Parsed::Spans(vec![Span { lo: 8, hi: 12 }, Span { lo: 0, hi: 7 }]);
    assert_eq!(untry(source, found), Err(Error::Bug(b"try!".to_vec())));
}

#[test]
fn accepts_tells_spans_that_fit() {
    let e = Engine::start(b"try!(a) try!(b)".to_vec());
    assert!(e.accepts(&vec![Span { lo: 8, hi: 15 }, Span { lo: 0, hi: 7 }]));
    assert!(e.accepts(&vec![]));
    assert!(!e.accepts(&vec![Span { lo: 0, hi: 16 }]));
    assert!(!e.accepts(&vec![Span { lo: 7, hi: 0 }]));
    assert!(!e.accepts(&vec![Span { lo: 0, hi: 9 }, Span { lo: 8, hi: 15 }]));
}

#[test]
fn empty_span_list_ends_the_engine() {
    let e = Engine::start(b"\"try!\"".to_vec());
    assert!(!e.done);
    let e = e.feed(Parsed::Spans(vec![])).unwrap();
    assert!(e.done);
    assert!(!e.modified);
    assert_eq!(e.buffer, b"\"try!\"".to_vec());
}
