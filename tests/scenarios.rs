use sexp_pretty::sexp::Sexp;

#[test]
fn test_error_sexpr() {
    assert_eq!(Sexp::of_str(&"(sexp (").is_err(), true,);
}

#[test]
fn test_single_sexpr() {
    assert_eq!(
        Sexp::of_str(&"source_file").unwrap().to_string(),
        r#"source_file"#.trim().to_string()
    );
}

#[test]
fn test_sibling_sexpr() {
    assert_eq!(
        Sexp::of_str(&"(source file)").unwrap().to_string(),
        r#"(source file)"#.trim().to_string()
    );
    assert_eq!(
        Sexp::of_str(&"(source file tree)").unwrap().to_string(),
        r#"(source file tree)"#.trim().to_string()
    );
}

#[test]
fn test_nested_sexpr() {
    assert_eq!(
        Sexp::of_str(&"(source (file))").unwrap().to_string(),
        r#"(source (file))"#.trim().to_string()
    );
}

#[test]
fn test_nested_sibling_sexpr() {
    assert_eq!(
        Sexp::of_str(&"(source (file tree))").unwrap().to_string(),
        r#"(source (file tree))"#.trim().to_string()
    );
}

#[test]
fn test_field_sexpr() {
    assert_eq!(
        Sexp::of_str(&"(source file: test)").unwrap().to_string(),
        r#"(source file: test)"#.trim().to_string()
    );
}

#[test]
fn test_pretty_printing_sexpr() {
        let sexp = Sexp::of_str(
            &"



(source_file    
  (expression
    (function_call
      (qualified_function_name
        (expression
          (term
            (atom
              (unquoted_atom))))
        (atom
          (unquoted_atom)))
      (expression
        (term
          (integer)))
      (expression
        (function_call
          (qualified_function_name
            (expression
              (term
                (atom
                  (unquoted_atom))))
            (atom
              (unquoted_atom)))
          (expression
            (term
              (integer)))
          (expression
            (term
              (integer)))
          (expression   
            (term
              (integer))))))))

",
        )
        .unwrap();
        println!("{}", sexp.to_string());
        assert_eq!(
            sexp.to_string(),
            r#"(source_file
 (expression
  (function_call
   (qualified_function_name (expression (term (atom (unquoted_atom)))) (atom (unquoted_atom)))
   (expression (term (integer)))
   (expression
    (function_call
     (qualified_function_name (expression (term (atom (unquoted_atom)))) (atom (unquoted_atom)))
     (expression (term (integer)))
     (expression (term (integer)))
     (expression (term (integer))))))))"#
                .to_string()
        );
}
