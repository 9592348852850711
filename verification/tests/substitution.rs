use vectool::model::Model;
use vectool::query::ANALOGY_COUNT;
use vectool::search::top_k;
use vectool::subst::Substitutions;
use vectool::subst::eligible_pairs;
use vectool::subst::join_words;
use vectool::subst::split_words;
use vectool::subst::substitute_line;
use vectool::subst::substitute_token;

fn bits(xs: &[f64]) -> Vec<u64> {
    xs.iter().map(|x| x.to_bits()).collect()
}

fn floats(xs: &[u64]) -> Vec<f64> {
    xs.iter().map(|x| f64::from_bits(*x)).collect()
}

fn make_model(entries: &[(&str, &[f64])]) -> Model {
    let dim = entries[0].1.len();
    let mut m = Model::new(dim);
    for (w, v) in entries {
        m.insert(w.to_string(), bits(v));
    }
    m
}

fn dot(a: &[f64], b: &[f64]) -> f64 {
    a.iter().zip(b.iter()).map(|(x, y)| x * y).sum()
}

fn norm(a: &[f64]) -> f64 {
    dot(a, a).sqrt()
}

fn cosine_scores(m: &Model, q: &[f64]) -> Vec<u64> {
    let nq = norm(q);
    let mut scores = Vec::new();
    for i in 0..m.len() {
        let v = floats(&m.vecs[i]);
        scores.push((dot(q, &v) / norm(&v) / nq).to_bits());
    }
    scores
}

/// The ranked neighbour lists for one token, one per eligible pair: the
/// top entries against the analogy vector `token - a + b`.
fn rankings_for(m: &Model, token: &str, pairs: &[(usize, usize)]) -> Vec<Vec<(u64, String)>> {
    let mut out = Vec::new();
    let ti = m.index_of(&token.to_string());
    for (ia, ib) in pairs {
        match ti {
            None => out.push(Vec::new()),
            Some(t) => {
                let vt = floats(&m.vecs[t]);
                let va = floats(&m.vecs[*ia]);
                let vb = floats(&m.vecs[*ib]);
                let analogy: Vec<f64> = (0..m.dim).map(|d| vt[d] - va[d] + vb[d]).collect();
                out.push(top_k(m, &cosine_scores(m, &analogy), ANALOGY_COUNT));
            }
        }
    }
    out
}

fn toy_model() -> Model {
    make_model(&[
        ("king", &[1.0, 0.0, 1.0]),
        ("man", &[1.0, 0.0, 0.0]),
        ("woman", &[0.0, 1.0, 0.0]),
        ("queen", &[0.0, 1.0, 1.0]),
        ("cat", &[1.0, 1.0, 0.0]),
    ])
}

#[test]
fn test_map_hit_is_verbatim_regardless_of_store() {
    let m = toy_model();
    let mut subs = Substitutions::new();
    subs.insert("he".to_string(), "she".to_string());
    let pairs = eligible_pairs(&subs, &m);
    assert_eq!(pairs, Vec::new());
    let ranked = rankings_for(&m, "he", &pairs);
    let r = substitute_token(&"he".to_string(), &subs, &m, &pairs, &ranked);
    assert_eq!(r, "she");
}

#[test]
fn test_token_absent_everywhere_is_kept() {
    let m = toy_model();
    let mut subs = Substitutions::new();
    subs.insert("man".to_string(), "woman".to_string());
    let pairs = eligible_pairs(&subs, &m);
    let ranked = rankings_for(&m, "zebra", &pairs);
    let r = substitute_token(&"zebra".to_string(), &subs, &m, &pairs, &ranked);
    assert_eq!(r, "zebra");
}

#[test]
fn test_analogy_replaces_king_with_queen() {
    let m = toy_model();
    let mut subs = Substitutions::new();
    subs.insert("man".to_string(), "woman".to_string());
    let pairs = eligible_pairs(&subs, &m);
    assert_eq!(pairs.len(), 1);
    let ranked = rankings_for(&m, "king", &pairs);
    let r = substitute_token(&"king".to_string(), &subs, &m, &pairs, &ranked);
    assert_eq!(r, "queen");
}

#[test]
fn test_below_threshold_keeps_token() {
    // every candidate other than the excluded words scores under 0.6
    let m = make_model(&[
        ("king", &[1.0, 0.0]),
        ("man", &[0.0, 1.0]),
        ("woman", &[0.0, -1.0]),
        ("far", &[-1.0, 0.3]),
    ]);
    let mut subs = Substitutions::new();
    subs.insert("man".to_string(), "woman".to_string());
    let pairs = eligible_pairs(&subs, &m);
    let ranked = rankings_for(&m, "king", &pairs);
    let r = substitute_token(&"king".to_string(), &subs, &m, &pairs, &ranked);
    assert_eq!(r, "king");
}

#[test]
fn test_substitute_line_rewrites_each_token() {
    let m = toy_model();
    let mut subs = Substitutions::new();
    subs.insert("man".to_string(), "woman".to_string());
    let pairs = eligible_pairs(&subs, &m);
    let line = "king and man".to_string();
    let tokens = split_words(&line);
    assert_eq!(tokens, vec!["king", "and", "man"]);
    let ranked: Vec<Vec<Vec<(u64, String)>>> = tokens
        .iter()
        .map(|t| rankings_for(&m, t, &pairs))
        .collect();
    let r = substitute_line(&line, &subs, &m, &pairs, &ranked);
    assert_eq!(r, "queen and woman");
}

#[test]
fn test_split_and_join_preserve_shape() {
    let line = "a  b ".to_string();
    let toks = split_words(&line);
    assert_eq!(toks, vec!["a", "", "b", ""]);
    assert_eq!(join_words(&toks), "a  b ");
}

#[test]
fn test_insert_replaces_value_in_place() {
    let mut subs = Substitutions::new();
    subs.insert("a".to_string(), "x".to_string());
    subs.insert("b".to_string(), "y".to_string());
    subs.insert("a".to_string(), "z".to_string());
    assert_eq!(
        subs.pairs,
        vec![
            ("a".to_string(), "z".to_string()),
            ("b".to_string(), "y".to_string())
        ]
    );
    assert_eq!(subs.lookup(&"a".to_string()), Some("z".to_string()));
    assert_eq!(subs.lookup(&"c".to_string()), None);
}
