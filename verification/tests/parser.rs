use vectool::calc::Expression;
use vectool::calc::ParseError;
use vectool::calc::VecExpression;
use vectool::calc::expr;
use vectool::calc::vec_expr;
use vectool::calc::word;

#[test]
fn test_word() {
    assert_eq!(
        word("kissa."),
        Ok((".".to_string(), VecExpression::Word("kissa".to_string())))
    );
}

#[test]
fn test_vecexpr() {
    assert_eq!(
        vec_expr("kissa."),
        Ok((".".to_string(), VecExpression::Word("kissa".to_string())))
    );
    assert_eq!(
        vec_expr("kissa + koira."),
        Ok((
            ".".to_string(),
            VecExpression::Add(
                Box::new(VecExpression::Word("kissa".to_string())),
                Box::new(VecExpression::Word("koira".to_string()))
            )
        ))
    );
}

#[test]
fn test_expr() {
    assert_eq!(
        expr("kissa + koira."),
        Ok((
            ".".to_string(),
            Expression::NN(VecExpression::Add(
                Box::new(VecExpression::Word("kissa".to_string())),
                Box::new(VecExpression::Word("koira".to_string()))
            ))
        ))
    );
    assert_eq!(
        expr("kissa + koira <> kala - hevonen."),
        Ok((
            ".".to_string(),
            Expression::Distance(
                VecExpression::Add(
                    Box::new(VecExpression::Word("kissa".to_string())),
                    Box::new(VecExpression::Word("koira".to_string()))
                ),
                VecExpression::Sub(
                    Box::new(VecExpression::Word("kala".to_string())),
                    Box::new(VecExpression::Word("hevonen".to_string()))
                )
            )
        ))
    );
}

#[test]
fn test_word_rejects_empty() {
    assert_eq!(word("."), Err(ParseError));
    assert_eq!(word("  ."), Err(ParseError));
    assert_eq!(word("123."), Err(ParseError));
}

#[test]
fn test_whitespace_variants() {
    let spaced = vec_expr("kissa+koira.");
    let tight = vec_expr("kissa  +   koira.");
    assert_eq!(spaced, tight);
    assert_eq!(
        spaced,
        Ok((
            ".".to_string(),
            VecExpression::Add(
                Box::new(VecExpression::Word("kissa".to_string())),
                Box::new(VecExpression::Word("koira".to_string()))
            )
        ))
    );
}

#[test]
fn test_left_associative_fold() {
    assert_eq!(
        vec_expr("a + b - c."),
        Ok((
            ".".to_string(),
            VecExpression::Sub(
                Box::new(VecExpression::Add(
                    Box::new(VecExpression::Word("a".to_string())),
                    Box::new(VecExpression::Word("b".to_string()))
                )),
                Box::new(VecExpression::Word("c".to_string()))
            )
        ))
    );
}

#[test]
fn test_dangling_operator_left_unconsumed() {
    assert_eq!(
        vec_expr("kissa + ."),
        Ok((
            "+ .".to_string(),
            VecExpression::Word("kissa".to_string())
        ))
    );
}

#[test]
fn test_accented_words() {
    assert_eq!(
        word("h\u{e4}n."),
        Ok((".".to_string(), VecExpression::Word("h\u{e4}n".to_string())))
    );
}

#[test]
fn test_words_of_expression() {
    let (_, e) = expr("kissa + koira <> kala.").unwrap();
    let ws = e.words();
    assert_eq!(
        ws,
        vec![
            "kissa".to_string(),
            "koira".to_string(),
            "kala".to_string()
        ]
    );
}
