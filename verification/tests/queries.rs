use vectool::model::Model;
use vectool::query::NN_COUNT;
use vectool::query::QueryError;
use vectool::query::QueryPlan;
use vectool::query::prepare_query;
use vectool::query::rank_neighbors;

fn bits(xs: &[f64]) -> Vec<u64> {
    xs.iter().map(|x| x.to_bits()).collect()
}

fn floats(xs: &[u64]) -> Vec<f64> {
    xs.iter().map(|x| f64::from_bits(*x)).collect()
}

fn make_model(entries: &[(&str, &[f64])]) -> Model {
    let dim = entries[0].1.len();
    let mut m = Model::new(dim);
    for (w, v) in entries {
        m.insert(w.to_string(), bits(v));
    }
    m
}

fn dot(a: &[f64], b: &[f64]) -> f64 {
    a.iter().zip(b.iter()).map(|(x, y)| x * y).sum()
}

fn norm(a: &[f64]) -> f64 {
    dot(a, a).sqrt()
}

/// The linear combination a query plan stands for, summed left to right.
fn combine(m: &Model, terms: &[(bool, usize)]) -> Vec<f64> {
    let dim = m.dim;
    let mut acc = vec![0.0f64; dim];
    for (sign, i) in terms {
        let v = floats(&m.vecs[*i]);
        for d in 0..dim {
            if *sign {
                acc[d] += v[d];
            } else {
                acc[d] -= v[d];
            }
        }
    }
    acc
}

/// One cosine score per store entry, as the search expects them.
fn cosine_scores(m: &Model, q: &[f64]) -> Vec<u64> {
    let nq = norm(q);
    let mut scores = Vec::new();
    for i in 0..m.len() {
        let v = floats(&m.vecs[i]);
        scores.push((dot(q, &v) / norm(&v) / nq).to_bits());
    }
    scores
}

fn toy_model() -> Model {
    make_model(&[
        ("cat", &[1.0, 1.0, 0.0]),
        ("dog", &[-1.0, 1.0, 0.0]),
        ("king", &[1.0, 0.0, 1.0]),
        ("man", &[1.0, 0.0, 0.0]),
        ("woman", &[0.0, 1.0, 0.0]),
        ("queen", &[0.0, 1.0, 1.0]),
    ])
}

#[test]
fn test_analogy_query_ranks_queen_first() {
    let m = toy_model();
    let plan = prepare_query("king - man + woman", &m).unwrap();
    match plan {
        QueryPlan::Neighbors { terms, words } => {
            assert_eq!(
                words,
                vec!["king".to_string(), "man".to_string(), "woman".to_string()]
            );
            let q = combine(&m, &terms);
            assert_eq!(q, vec![0.0, 1.0, 1.0]);
            let ranked = rank_neighbors(&m, &cosine_scores(&m, &q), &words);
            assert_eq!(ranked[0].1, "queen");
            assert!(!ranked[0].2);
            assert!((f64::from_bits(ranked[0].0) - 1.0).abs() < 1e-12);
        }
        _ => panic!("expected a neighbour query"),
    }
}

#[test]
fn test_sum_query_returns_ten_marked_neighbors() {
    // a store without "fish" but with plenty of other words
    let m = make_model(&[
        ("cat", &[1.0, 0.0]),
        ("dog", &[0.0, 1.0]),
        ("cow", &[1.0, 1.0]),
        ("horse", &[2.0, 1.0]),
        ("mouse", &[1.0, 2.0]),
        ("hen", &[-1.0, 1.0]),
        ("pig", &[3.0, 1.0]),
        ("sheep", &[1.0, 3.0]),
        ("goat", &[2.0, 3.0]),
        ("duck", &[3.0, 2.0]),
        ("crow", &[-1.0, -1.0]),
        ("bee", &[0.5, 0.5]),
    ]);
    let plan = prepare_query("cat + dog", &m).unwrap();
    match plan {
        QueryPlan::Neighbors { terms, words } => {
            let q = combine(&m, &terms);
            let ranked = rank_neighbors(&m, &cosine_scores(&m, &q), &words);
            assert_eq!(ranked.len(), NN_COUNT);
            for (_, w, marked) in &ranked {
                assert_eq!(*marked, w == "cat" || w == "dog");
            }
            assert!(ranked.iter().any(|e| e.1 == "cat"));
            assert!(ranked.iter().any(|e| e.1 == "dog"));
        }
        _ => panic!("expected a neighbour query"),
    }
}

#[test]
fn test_distance_query_reports_cosine_and_euclidean() {
    let m = make_model(&[("cat", &[1.0, 0.0]), ("dog", &[0.0, 1.0])]);
    let plan = prepare_query("cat <> dog", &m).unwrap();
    match plan {
        QueryPlan::Distance { left, right } => {
            let x = combine(&m, &left);
            let y = combine(&m, &right);
            let cosine = dot(&x, &y) / norm(&x) / norm(&y);
            let diff: Vec<f64> = x.iter().zip(y.iter()).map(|(a, b)| a - b).collect();
            let euclidean = norm(&diff);
            assert!(cosine.abs() < 1e-12);
            assert!((euclidean - 2.0f64.sqrt()).abs() < 1e-12);
        }
        _ => panic!("expected a distance query"),
    }
}

#[test]
fn test_unknown_word_rejects_whole_query() {
    let m = toy_model();
    assert_eq!(
        prepare_query("cat + unicorn", &m),
        Err(QueryError::UnknownWord("unicorn".to_string()))
    );
    // the leftmost missing word is the one reported
    assert_eq!(
        prepare_query("unicorn + dragon", &m),
        Err(QueryError::UnknownWord("unicorn".to_string()))
    );
}

#[test]
fn test_syntax_errors() {
    let m = toy_model();
    assert_eq!(prepare_query("", &m), Err(QueryError::SyntaxError));
    assert_eq!(prepare_query("cat ++ dog", &m), Err(QueryError::SyntaxError));
    assert_eq!(prepare_query("cat <>", &m), Err(QueryError::SyntaxError));
    assert_eq!(prepare_query("cat & dog", &m), Err(QueryError::SyntaxError));
}

#[test]
fn test_query_words_validated_before_ranking() {
    let m = toy_model();
    // a query whose first side is fine but whose second side is unknown
    assert_eq!(
        prepare_query("cat <> unicorn", &m),
        Err(QueryError::UnknownWord("unicorn".to_string()))
    );
}
