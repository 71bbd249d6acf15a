use sexp_pretty::printer::{parse_and_format, PrettyPrinter};
use sexp_pretty::reader::SexpError;
use sexp_pretty::sexp::Sexp;

fn breaks(text: &str) -> usize {
    text.matches('\n').count()
}

#[test]
fn stray_close_is_marked_as_error() {
    assert_eq!(Sexp::of_str(")").unwrap().to_string(), "(ERROR)");
    assert_eq!(Sexp::of_str("  ) tail").unwrap().to_string(), "(ERROR)");
}

#[test]
fn unterminated_and_blank_inputs_fail() {
    assert_eq!(Sexp::of_str("(a (b c)").unwrap_err(), SexpError::ParseError);
    assert_eq!(Sexp::of_str("").unwrap_err(), SexpError::ParseError);
    assert_eq!(Sexp::of_str(" \n\t ").unwrap_err(), SexpError::ParseError);
}

#[test]
fn invalid_utf8_atom_is_a_decode_error() {
    assert_eq!(Sexp::of_bytes(&[0xff]).unwrap_err(), SexpError::TextDecodeError);
    assert_eq!(Sexp::of_bytes(&[b'(', b'a', b' ', 0xc3, b')']).unwrap_err(), SexpError::TextDecodeError);
    assert_eq!(Sexp::of_bytes(&[b'(', 0xc3, 0xa9, b')']).unwrap().to_string(), "(\u{e9})");
}

#[test]
fn size_counts_atom_bytes_only() {
    assert_eq!(Sexp::of_str("(ab (cde) f)").unwrap().size(), 6);
    assert_eq!(Sexp::of_str("()").unwrap().size(), 0);
    assert_eq!(Sexp::of_str("\u{e9}t\u{e9}").unwrap().size(), 5);
    assert_eq!(Sexp::Nil.size(), 0);
    let list = Sexp::List(vec![Sexp::Atom("abc".to_string()), Sexp::Nil, Sexp::Atom("de".to_string())]);
    assert_eq!(list.size(), 5);
    assert_eq!(list.saturated_size(), 5);
}

#[test]
fn empty_lists_and_trailing_input() {
    assert_eq!(Sexp::of_str("()").unwrap().to_string(), "()");
    assert_eq!(Sexp::of_str("(a ())").unwrap().to_string(), "(a ())");
    assert_eq!(Sexp::of_str("(a) b c").unwrap().to_string(), "(a)");
    assert_eq!(Sexp::Nil.to_string(), "");
}

#[test]
fn atoms_are_copied_verbatim() {
    let text = "(x.y-z name: \u{e9}t\u{e9} 42)";
    assert_eq!(Sexp::of_str(text).unwrap().to_string(), text);
    match Sexp::of_str("  hello-world ").unwrap() {
        Sexp::Atom(s) => assert_eq!(s, "hello-world"),
        _ => panic!("expected an atom"),
    }
}

#[test]
fn narrow_width_breaks_children() {
    let input = "(define (square x) (multiply x x) (add one two three))";
    assert_eq!(
        parse_and_format(input, 20, 1).unwrap(),
        "(define\n (square x)\n (multiply\n  x\n  x)\n (add\n  one\n  two\n  three))"
    );
    assert_eq!(
        parse_and_format(input, 20, 2).unwrap(),
        "(define\n  (square x)\n  (multiply\n    x\n    x)\n  (add\n    one\n    two\n    three))"
    );
    assert_eq!(parse_and_format(input, 150, 1).unwrap(), input);
    assert_eq!(parse_and_format("(a (b", 20, 1).unwrap_err(), SexpError::ParseError);
}

#[test]
fn running_width_carries_across_siblings() {
    let sexp = Sexp::of_str("(a (b c) (d e))").unwrap();
    assert_eq!(sexp_pretty::printer::format(&sexp, 6, 1), "(a\n (b c)\n (d\n  e))");
}

#[test]
fn printer_state_carries_between_calls() {
    let sexp = Sexp::of_str("(a b)").unwrap();
    let mut printer = PrettyPrinter::with_limits(4, 1);
    let mut out = String::new();
    printer.pp(&sexp, &mut out);
    assert_eq!(out, "(a b)");
    printer.pp(&sexp, &mut out);
    assert_eq!(out, "(a b)(a\n b)");
    let mut fresh = PrettyPrinter::new();
    let mut other = String::new();
    fresh.pp(&sexp, &mut other);
    assert_eq!(other, "(a b)");
}

#[test]
fn reformatting_is_stable() {
    let inputs = [
        "(define (square x) (multiply x x) (add one two three))",
        "(a (b c) (d e))",
        "(source (file tree))",
        "(caf\u{e9} (na\u{ef}ve x) \u{3bb}: (\u{1f600} y))",
    ];
    for input in inputs.iter() {
        for width in [6u32, 20, 150].iter() {
            let once = parse_and_format(input, *width, 1).unwrap();
            let twice = parse_and_format(&once, *width, 1).unwrap();
            assert_eq!(once, twice);
        }
    }
}

#[test]
fn wider_output_usually_has_fewer_breaks() {
    let input = "(define (square x) (multiply x x) (add one two three))";
    let narrow = parse_and_format(input, 20, 1).unwrap();
    let wide = parse_and_format(input, 40, 1).unwrap();
    assert!(breaks(&wide) <= breaks(&narrow));
    assert_eq!(breaks(&narrow), 8);
}

#[test]
fn widening_can_add_a_break() {
    let input = "((dddd (ccc) ((bb) (dddd)) a))";
    assert_eq!(parse_and_format(input, 19, 1).unwrap(), "((dddd (ccc)\n  ((bb) (dddd)) a))");
    assert_eq!(parse_and_format(input, 20, 1).unwrap(), "((dddd (ccc)\n  ((bb)\n   (dddd)) a))");
}
