use vectool::model::Model;
use vectool::score::SIM_THRESHOLD_BITS;
use vectool::score::ZERO_BITS;
use vectool::score::score_le;
use vectool::score::score_lt;
use vectool::search::nearest;
use vectool::search::top_k;
use vectool::search::top_k_indices;

fn bits(xs: &[f64]) -> Vec<u64> {
    xs.iter().map(|x| x.to_bits()).collect()
}

fn make_model(entries: &[(&str, &[f64])]) -> Model {
    let dim = entries[0].1.len();
    let mut m = Model::new(dim);
    for (w, v) in entries {
        m.insert(w.to_string(), bits(v));
    }
    m
}

#[test]
fn test_threshold_bits_are_zero_point_six() {
    assert_eq!(0.6f64.to_bits(), SIM_THRESHOLD_BITS);
    assert_eq!(0.0f64.to_bits(), ZERO_BITS);
}

#[test]
fn test_score_order_matches_float_order() {
    let vals = [-2.5f64, -0.0, 0.0, 0.25, 0.6, 1.0, 7.5e300];
    for a in vals {
        for b in vals {
            assert_eq!(score_lt(a.to_bits(), b.to_bits()), a < b);
            assert_eq!(score_le(a.to_bits(), b.to_bits()), a <= b);
        }
    }
    // NaN sorts below every number
    let nan = f64::NAN.to_bits();
    assert!(score_lt(nan, (-1.0e9f64).to_bits()));
    assert!(!score_lt((-1.0e9f64).to_bits(), nan));
    assert!(!score_lt(nan, nan));
}

#[test]
fn test_top_k_sorted_non_increasing() {
    let scores = bits(&[0.1, 0.9, -0.5, 0.9, 0.3, 0.0]);
    let idxs = top_k_indices(&scores, 4);
    assert_eq!(idxs, vec![1, 3, 4, 0]);
    for w in idxs.windows(2) {
        let a = f64::from_bits(scores[w[0]]);
        let b = f64::from_bits(scores[w[1]]);
        assert!(a >= b);
    }
}

#[test]
fn test_top_k_larger_than_store_returns_all_once() {
    let scores = bits(&[0.1, 0.9, -0.5]);
    let idxs = top_k_indices(&scores, 10);
    assert_eq!(idxs.len(), 3);
    let mut seen = idxs.clone();
    seen.sort();
    assert_eq!(seen, vec![0, 1, 2]);
    assert_eq!(idxs, vec![1, 0, 2]);
}

#[test]
fn test_top_k_pairs_words_with_scores() {
    let m = make_model(&[("a", &[1.0, 0.0]), ("b", &[0.0, 1.0]), ("c", &[1.0, 1.0])]);
    let scores = bits(&[0.2, 0.8, 0.5]);
    let r = top_k(&m, &scores, 2);
    assert_eq!(
        r,
        vec![
            (0.8f64.to_bits(), "b".to_string()),
            (0.5f64.to_bits(), "c".to_string())
        ]
    );
}

#[test]
fn test_top_k_ties_broken_by_store_order() {
    let scores = bits(&[0.5, 0.5, 0.5]);
    let idxs = top_k_indices(&scores, 2);
    assert_eq!(idxs, vec![0, 1]);
}

#[test]
fn test_nearest_absent_word_passes_through() {
    let m = make_model(&[("kissa", &[1.0, 0.0])]);
    let r = nearest(&m, &"lohik\u{e4}\u{e4}rme".to_string(), &None);
    assert_eq!(r, "lohik\u{e4}\u{e4}rme");
}

#[test]
fn test_nearest_excludes_word_itself() {
    // the scores `nearest` ranks by: dot with the query word's vector over
    // the candidate's norm; the word itself always scores highest but is
    // never a candidate
    let m = make_model(&[
        ("kissa", &[1.0, 0.0]),
        ("koira", &[0.8, 0.6]),
        ("talo", &[-1.0, 0.0]),
    ]);
    let scores = bits(&[1.0, 0.8, -1.0]);
    let r = nearest(&m, &"kissa".to_string(), &Some(scores));
    assert_eq!(r, "koira");
}

#[test]
fn test_nearest_no_positive_candidate_keeps_word() {
    let m = make_model(&[("kissa", &[1.0, 0.0]), ("talo", &[-1.0, 0.0])]);
    let scores = bits(&[1.0, -1.0]);
    let r = nearest(&m, &"kissa".to_string(), &Some(scores));
    assert_eq!(r, "kissa");
}
