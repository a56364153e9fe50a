use wordvector::dictionary::Dictionary;
use wordvector::matrix::Matrix;
use wordvector::utils::doc_parse;
use wordvector::wordvector::{dictionary, distance_matrix, mean_length, wm_plan, CompareError, Distance};

fn model() -> Vec<(&'static str, i64, Vec<f32>)> {
    vec![
        ("намело", 0, vec![0.09620774f32, 0.57043445, 0.25864983, 0.56875455, 0.013802886, 0.18820941, 0.6235244, 0.9685433, 0.33947492, 0.30321276]),
        ("сугробы", 1, vec![0.536739f32, 0.42155814, 0.12513518, 0.86498487, 0.2764778, 0.86605155, 0.47319448, 0.09259939, 0.013579607, 0.1396333]),
        ("у", 2, vec![0.1208024f32, 0.48896742, 0.72400975, 0.45157206, 0.9912764, 0.334648, 0.04849291, 0.972154, 0.53880787, 0.47627044]),
        ("нашего", 3, vec![0.13930714f32, 0.22024155, 0.8076284, 0.6289493, 0.18162072, 0.34256923, 0.14036989, 0.995613, 0.269382, 0.175102]),
        ("крыльца", 4, vec![0.032780647f32, 0.15684962, 0.8428451, 0.3130175, 0.7753111, 0.07664311, 0.4615686, 0.7738153, 0.9659138, 0.2086786]),
    ]
}

fn word_index(word: &str) -> Option<i64> {
    model().into_iter().find(|entry| entry.0 == word).map(|entry| entry.1)
}

fn word_to_vector(word: &str) -> Option<Vec<f32>> {
    model().into_iter().find(|entry| entry.0 == word).map(|entry| entry.2)
}

fn lookup(doc: &[&str]) -> Vec<Option<i64>> {
    doc.iter().map(|word| word_index(word)).collect()
}

fn words_distance(word1: &str, word2: &str) -> Option<f32> {
    let vec1 = word_to_vector(word1)?;
    let vec2 = word_to_vector(word2)?;
    let distance: f32 = vec1.iter()
        .zip(vec2.iter())
        .map(|(&v1, v2)| v1 - v2)
        .map(|v| v * v)
        .sum();

    Some(distance.sqrt())
}

fn calc(doc_bow1: &[f32], doc_bow2: &[f32], distance_matrix: &[f32]) -> f32 {
    doc_bow1[1] * doc_bow2[2] * distance_matrix[2 * 4 + 3]
}

fn wm_distance(doc1: &[&str], doc2: &[&str]) -> Result<f32, CompareError> {
    match wm_plan(doc1, &lookup(doc1), doc2, &lookup(doc2))? {
        Distance::One => Ok(1.0),
        Distance::Solve(plan) => {
            let matrix: Matrix<f32> = distance_matrix(&plan.dict, &plan.dict1, &plan.dict2, words_distance);
            let bow1: Vec<f32> = plan.bow1.counts.iter().map(|&bow| bow as f32 / plan.bow1.length as f32).collect();
            let bow2: Vec<f32> = plan.bow2.counts.iter().map(|&bow| bow as f32 / plan.bow2.length as f32).collect();
            Ok(calc(&bow1, &bow2, matrix.as_slice()))
        }
    }
}

#[test]
fn test_wordvector_dictionary() {
    let doc = doc_parse("намело сугробы за калиткой");

    let exist_dict = dictionary(&doc, &lookup(&doc));

    let expected_dict = Dictionary::with_extend(&doc_parse("намело сугробы"));

    assert_eq!(exist_dict, expected_dict, "check dict");
}

#[test]
fn test_wordvector_wm_distance() {
    let exist_distance = match wm_distance(
        &doc_parse("намело сугробы"),
        &doc_parse("сугробы у крыльца")
    ) {
        Ok(distance) => distance,
        Err(err) => {
            assert!(false, "failed to calc distance {:?}", err);
            0.0f32
        }
    };
    let expected_distance = 0.28105024f32;

    assert_eq!(exist_distance, expected_distance, "check distance");
}

#[test]
fn vocabulary_keeps_the_order_of_first_sight() {
    let doc = ["у", "за", "сугробы", "у", "намело"];

    let dict = dictionary(&doc, &lookup(&doc));

    assert_eq!(dict.len(), 3);
    assert_eq!(dict.word_index("у"), Some(0));
    assert_eq!(dict.word_index("сугробы"), Some(1));
    assert_eq!(dict.word_index("намело"), Some(2));
    assert_eq!(dict.word_index("за"), None);
}

#[test]
fn plan_fails_without_known_words() {
    let known = ["намело", "сугробы"];
    let unknown = ["за", "калиткой"];
    let nothing: [&str; 0] = [];

    for (doc1, doc2) in [(&known[..], &unknown[..]), (&unknown[..], &known[..]), (&known[..], &nothing[..]), (&nothing[..], &nothing[..])] {
        match wm_plan(doc1, &lookup(doc1), doc2, &lookup(doc2)) {
            Err(err) => assert_eq!(err, CompareError::EmptyVocabulary),
            Ok(_) => panic!("a plan without a vocabulary"),
        }
    }
}

#[test]
fn plan_of_one_word_is_distance_one() {
    let doc1 = ["сугробы", "за", "сугробы"];
    let doc2 = ["калиткой", "сугробы"];

    assert!(matches!(wm_plan(&doc1, &lookup(&doc1), &doc2, &lookup(&doc2)), Ok(Distance::One)));
    assert_eq!(wm_distance(&doc1, &doc2), Ok(1.0f32));
}

#[test]
fn plan_holds_vocabularies_and_shares() {
    let doc1 = doc_parse("намело сугробы");
    let doc2 = doc_parse("сугробы у крыльца");

    let plan = match wm_plan(&doc1, &lookup(&doc1), &doc2, &lookup(&doc2)) {
        Ok(Distance::Solve(plan)) => plan,
        other => panic!("no plan: {:?}", other),
    };

    assert_eq!(plan.dict.iter(), vec!["крыльца", "намело", "сугробы", "у"]);
    assert_eq!(plan.dict, Dictionary::with_extend(&["намело", "сугробы", "у", "крыльца"]));
    assert_eq!(plan.dict1.word_index("намело"), Some(0));
    assert_eq!(plan.dict1.word_index("сугробы"), Some(1));
    assert_eq!(plan.dict2.word_index("сугробы"), Some(0));
    assert_eq!(plan.dict2.word_index("у"), Some(1));
    assert_eq!(plan.dict2.word_index("крыльца"), Some(2));
    assert_eq!(plan.bow1.counts, [0, 1, 1, 0]);
    assert_eq!(plan.bow1.length, 2);
    assert_eq!(plan.bow2.counts, [1, 0, 1, 1]);
    assert_eq!(plan.bow2.length, 3);
}

#[test]
fn plan_counts_unknown_tokens_in_the_length() {
    let doc1 = ["намело", "за", "сугробы", "за"];
    let doc2 = ["у", "калиткой"];

    let plan = match wm_plan(&doc1, &lookup(&doc1), &doc2, &lookup(&doc2)) {
        Ok(Distance::Solve(plan)) => plan,
        other => panic!("no plan: {:?}", other),
    };

    assert_eq!(plan.dict.iter(), vec!["намело", "сугробы", "у"]);
    assert_eq!(plan.bow1.counts, [1, 1, 0]);
    assert_eq!(plan.bow1.length, 4);
    assert_eq!(plan.bow2.counts, [0, 0, 1]);
    assert_eq!(plan.bow2.length, 2);
}

#[test]
fn distance_matrix_fills_cross_document_cells_only() {
    let dict1 = Dictionary::with_extend(&["a", "b"]);
    let dict2 = Dictionary::with_extend(&["b", "c"]);
    let dict = dict1.join(&dict2);

    let matrix: Matrix<i64> = distance_matrix(&dict, &dict1, &dict2, |word1: &str, word2: &str| {
        Some(10 * word1.len() as i64 + (word1.as_bytes()[0] as i64 - 96) * 100 + (word2.as_bytes()[0] as i64 - 96))
    });

    assert_eq!(matrix.size(), 3);
    assert_eq!(matrix.as_slice(), [0i64, 112, 113, 0, 212, 213, 0, 0, 0]);
}

#[test]
fn distance_matrix_keeps_the_default_without_a_distance() {
    let dict1 = Dictionary::with_extend(&["намело", "сугробы"]);
    let dict2 = Dictionary::with_extend(&["сугробы", "у", "крыльца"]);
    let dict = dict1.join(&dict2);

    let matrix: Matrix<f32> = distance_matrix(&dict, &dict1, &dict2, |word1: &str, word2: &str| {
        if word2 == "у" { None } else { words_distance(word1, word2) }
    });
    let rows = matrix.as_matrix();

    assert_eq!(rows[0], [0.0f32, 0.0, 0.0, 0.0]);
    assert_eq!(rows[3], [0.0f32, 0.0, 0.0, 0.0]);
    assert_eq!(rows[1][1], 0.0f32);
    assert_eq!(rows[1][3], 0.0f32);
    assert_eq!(rows[2][3], 0.0f32);
    assert_eq!(rows[1][2], 1.331586f32);
    assert_eq!(rows[2][2], 0.0f32);
    assert!(rows[1][0] > 0.0f32);
    assert!(rows[2][0] > 0.0f32);
}

#[test]
fn mean_length_is_the_number_of_tokens() {
    assert_eq!(mean_length(&[true, false, true]), Ok(3));
    assert_eq!(mean_length(&[false, false, false, true]), Ok(4));
    assert_eq!(mean_length(&[true]), Ok(1));
}

#[test]
fn mean_length_fails_without_a_vector() {
    assert_eq!(mean_length(&[]), Err(CompareError::EmptyDoc));
    assert_eq!(mean_length(&[false, false]), Err(CompareError::EmptyDoc));
}

#[test]
fn errors_have_their_words() {
    assert_eq!(CompareError::EmptyVocabulary.message(), "empty dictionary");
    assert_eq!(CompareError::EmptyBow.message(), "empty doc bow");
    assert_eq!(CompareError::EmptyDoc.message(), "empty doc");
}
