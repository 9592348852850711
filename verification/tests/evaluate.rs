use vectool::calc::eval;
use vectool::calc::vec_expr;
use vectool::model::Model;

fn bits(xs: &[f64]) -> Vec<u64> {
    xs.iter().map(|x| x.to_bits()).collect()
}

fn make_model(entries: &[(&str, &[f64])]) -> Model {
    let dim = entries[0].1.len();
    let mut m = Model::new(dim);
    for (w, v) in entries {
        m.insert(w.to_string(), bits(v));
    }
    m
}

fn toy_model() -> Model {
    make_model(&[
        ("a", &[1.0, 0.0]),
        ("b", &[0.0, 1.0]),
        ("c", &[1.0, 1.0]),
    ])
}

#[test]
fn test_eval_flattens_signs_left_to_right() {
    let m = toy_model();
    let (_, e) = vec_expr("a + b - c.").unwrap();
    assert_eq!(eval(&e, &m), Ok(vec![(true, 0), (true, 1), (false, 2)]));
}

#[test]
fn test_eval_of_sum_concatenates_operand_terms() {
    let m = toy_model();
    let (_, left) = vec_expr("a - b.").unwrap();
    let (_, right) = vec_expr("c.").unwrap();
    let (_, whole) = vec_expr("a - b + c.").unwrap();
    let mut expected = eval(&left, &m).unwrap();
    expected.extend(eval(&right, &m).unwrap());
    assert_eq!(eval(&whole, &m), Ok(expected));
}

#[test]
fn test_eval_reports_same_word_as_direct_lookup() {
    let m = toy_model();
    let (_, e) = vec_expr("a + x + y.").unwrap();
    // the leftmost word a direct lookup sequence would reject
    assert_eq!(eval(&e, &m), Err("x".to_string()));
    assert_eq!(m.index_of(&"x".to_string()), None);
}

#[test]
fn test_eval_of_difference_flips_nested_signs() {
    let m = toy_model();
    // `a - b + c` folds left: `(a - b) + c`, so only `b` is negated
    let (_, e) = vec_expr("a - b + c.").unwrap();
    assert_eq!(eval(&e, &m), Ok(vec![(true, 0), (false, 1), (true, 2)]));
}
