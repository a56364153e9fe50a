use wordvector::dictionary::Dictionary;

fn shares_of(dict: &Dictionary, doc: &[&str]) -> Option<Vec<f32>> {
    let shares = dict.bow_normalized(doc)?;
    let normalizer = shares.length as f32;
    Some(shares.counts.iter().map(|&bow| bow as f32 / normalizer).collect())
}

#[test]
fn test_dictionary_doc_to_bow() {
    let dict = Dictionary::with_extend(&["крыльца", "намело", "нашего", "сугробы", "у"]);

    let text = ["намело", "сугробы", "намело", "вдвойне", "у", "крыльца", "намело", "намело", "за", "крыльца"];

    let exist = dict.doc_to_bow(&text);

    assert_eq!(exist, [2, 4, 0, 1, 1], "check doc to bow");
}

#[test]
fn test_dictionary_bow_normalized() {
    let dict = Dictionary::with_extend(&["крыльца", "намело", "нашего", "сугробы", "у"]);

    {
        let text = ["намело", "сугробы", "намело", "вдвойне", "у", "крыльца", "намело", "намело", "за", "крыльца"];

        if let Some(exist) = shares_of(&dict, &text) {
            assert_eq!(exist, [0.2f32, 0.4, 0.0, 0.1, 0.1], "check bow normalize");
        } else {
            assert!(false, "failed to get bow normalized");
        }
    }

    {
        let text = ["в", "бананово", "лимонном", "сингапуре", "в", "буре"];

        if let Some(exist) = shares_of(&dict, &text) {
            assert_eq!(exist, [0.0f32, 0.0, 0.0, 0.0, 0.0], "check whole empty bow normalize");
        } else {
            assert!(false, "failed to get bow normalized");
        }
    }

    {
        let text: Vec<&str> = Vec::new();

        if let Some(_) = shares_of(&dict, &text) {
            assert!(false, "failed to check empty bow");
        } else {
            assert!(true, "right checking empty bow");
        }
    }
}

#[test]
fn bow_is_as_long_as_the_dictionary() {
    let dict = Dictionary::with_extend(&["b", "a", "c"]);
    assert_eq!(dict.doc_to_bow(&[]).len(), dict.len());
    assert_eq!(dict.doc_to_bow(&["a", "x", "a"]).len(), dict.len());

    let empty = Dictionary::default();
    assert_eq!(empty.doc_to_bow(&["a", "b"]), Vec::<i64>::new());
}

#[test]
fn bow_counts_add_up_to_the_known_tokens() {
    let dict = Dictionary::with_extend(&["крыльца", "намело", "нашего", "сугробы", "у"]);
    let text = ["намело", "сугробы", "намело", "вдвойне", "у", "крыльца", "намело", "намело", "за", "крыльца"];

    let shares = dict.bow_normalized(&text).unwrap();

    assert_eq!(shares.counts, [2, 4, 0, 1, 1]);
    assert_eq!(shares.length, 10);
    assert_eq!(shares.counts.iter().sum::<i64>(), 8);
}

#[test]
fn bow_of_unknown_words_is_zero_not_missing() {
    let dict = Dictionary::with_extend(&["крыльца", "намело", "нашего", "сугробы", "у"]);
    let text = ["в", "бананово", "лимонном", "сингапуре", "в", "буре"];

    let shares = dict.bow_normalized(&text).unwrap();

    assert_eq!(shares.counts, [0, 0, 0, 0, 0]);
    assert_eq!(shares.length, 6);
    assert!(dict.bow_normalized(&[]).is_none());
}

#[test]
fn bow_follows_the_indices_not_the_order_of_words() {
    let mut dict = Dictionary::default();
    dict.insert("b");
    dict.insert("a");

    assert_eq!(dict.doc_to_bow(&["a", "a", "b", "a"]), [1, 3]);

    dict.reindex();

    assert_eq!(dict.doc_to_bow(&["a", "a", "b", "a"]), [3, 1]);
}
