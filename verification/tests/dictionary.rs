use wordvector::dictionary::Dictionary;

#[test]
fn test_dictionary() {
    {
        let dict = Dictionary::default();

        assert_eq!(dict.len(), 0, "check zero length");
        assert_eq!(dict.is_empty(), true, "check empty");
    }
}

#[test]
fn test_dictionary_insert() {
    let mut dict = Dictionary::default();

    {
        let word = "other".to_string();

        dict.insert("hello");
        dict.insert("мои");
        dict.insert(&16.to_string());
        dict.insert("друзья");
        dict.insert("мои");
        dict.insert("други");
        dict.insert(&word);

        assert_eq!(word, "other", "check borrow");
    }

    assert_eq!(dict.len(), 6, "check length");
    assert_eq!(dict.is_empty(), false, "check empty");
}

#[test]
fn test_dictionary_extend() {
    let mut dict = Dictionary::default();

    let mut dict2 = Dictionary::default();
    dict2.insert("намело");
    dict2.insert("сугробы");

    dict.extend(&dict2.iter());
    dict.extend(&["hello", "мои", "друзья", "мои", "други"]);

    assert_eq!(dict.len(), 6, "check length");
    assert_eq!(dict.is_empty(), false, "check empty");
}

#[test]
fn test_dictionary_new_extend() {
    let dict = Dictionary::with_extend(&["hello", "мои", "друзья", "мои", "други"]);

    assert_eq!(dict.len(), 4, "check length");
    assert_eq!(dict.is_empty(), false, "check empty");
}

#[test]
fn test_dictionary_conains() {
    let dict = Dictionary::with_extend(&["hello", "мои", "друзья", "мои", "други"]);

    assert!(dict.contains("друзья"));
    assert!(!dict.contains("враги"));
}

#[test]
fn test_dictionary_join() {
    let dict = Dictionary::with_extend(&["намело", "сугробы", "у", "нашего", "крыльца"]);
    let dict2 = Dictionary::with_extend(&["стонет", "стужа", "и", "намело", "сугробы"]);

    let exist = dict.join(&dict2);

    let mut expected = Dictionary::with_extend(&[
        "сугробы", "крыльца", "нашего", "намело",
        "у", "стужа", "стонет", "и"
    ]);

    expected.reindex();

    assert_eq!(exist, expected, "check join");

    assert!(exist.contains("и"))
}

#[test]
fn test_dictionary_word_index() {
    let dict = Dictionary::with_extend(&["намело", "сугробы", "у", "нашего", "крыльца"]);

    {
        let exist_index = match dict.word_index("нашего") {
            Some(index) => index,
            None => -1,
        };
        let expected_index: i64 = 2;

        assert_eq!(exist_index, expected_index, "check index");
    }

    {
        let exist_index = match dict.word_index("unknown") {
            Some(index) => index,
            None => -1,
        };
        let expected_index: i64 = -1;

        assert_eq!(exist_index, expected_index, "check unknown index");
    }
}

#[test]
fn insert_gives_the_next_free_index() {
    let mut dict = Dictionary::default();

    dict.insert("мои");
    dict.insert("hello");
    dict.insert("други");

    assert_eq!(dict.word_index("мои"), Some(0));
    assert_eq!(dict.word_index("hello"), Some(1));
    assert_eq!(dict.word_index("други"), Some(2));
    assert_eq!(dict.word_index("друзья"), None);
}

#[test]
fn insert_twice_is_insert_once() {
    let mut once = Dictionary::default();
    once.insert("a");
    once.insert("b");

    let mut twice = Dictionary::default();
    twice.insert("a");
    twice.insert("b");
    twice.insert("b");
    twice.insert("a");

    assert_eq!(twice.len(), 2);
    assert_eq!(once, twice);
    assert_eq!(twice.word_index("a"), Some(0));
    assert_eq!(twice.word_index("b"), Some(1));
}

#[test]
fn reindex_numbers_the_words_in_ascending_order() {
    let mut dict = Dictionary::default();
    dict.extend(&["сугробы", "крыльца", "нашего", "намело", "у"]);

    assert_eq!(dict.word_index("сугробы"), Some(0));
    assert_eq!(dict.word_index("у"), Some(4));

    dict.reindex();

    assert_eq!(dict.word_index("крыльца"), Some(0));
    assert_eq!(dict.word_index("намело"), Some(1));
    assert_eq!(dict.word_index("нашего"), Some(2));
    assert_eq!(dict.word_index("сугробы"), Some(3));
    assert_eq!(dict.word_index("у"), Some(4));
    assert_eq!(dict.len(), 5);

    dict.insert("и");

    assert_eq!(dict.word_index("и"), Some(5));
}

#[test]
fn iter_gives_the_words_in_ascending_order() {
    let dict = Dictionary::with_extend(&["b", "c", "a", "b", "ab"]);

    assert_eq!(dict.iter(), vec!["a", "ab", "b", "c"]);
    assert_eq!(Dictionary::default().iter(), Vec::<&str>::new());
}

#[test]
fn join_does_not_depend_on_the_order() {
    let a = Dictionary::with_extend(&["намело", "сугробы", "у", "нашего", "крыльца"]);
    let b = Dictionary::with_extend(&["стонет", "стужа", "и", "намело", "сугробы"]);

    let ab = a.join(&b);
    let ba = b.join(&a);

    assert_eq!(ab, ba);
    assert_eq!(ab.len(), 8);
    assert_eq!(ab.iter(), vec!["и", "крыльца", "намело", "нашего", "стонет", "стужа", "сугробы", "у"]);
    for (position, word) in ab.iter().into_iter().enumerate() {
        assert_eq!(ab.word_index(word), Some(position as i64));
    }
    assert_eq!(a.len(), 5);
    assert_eq!(b.len(), 5);
}

#[test]
fn join_reindexes_what_was_not() {
    let mut a = Dictionary::default();
    a.insert("z");
    a.insert("y");
    let b = Dictionary::default();

    let joined = a.join(&b);

    assert_eq!(a.word_index("z"), Some(0));
    assert_eq!(joined.word_index("y"), Some(0));
    assert_eq!(joined.word_index("z"), Some(1));
    assert_eq!(b.join(&b), Dictionary::default());
}

#[test]
fn dictionaries_differ_by_words_and_by_indices() {
    let mut a = Dictionary::default();
    a.insert("x");
    a.insert("y");
    let mut b = Dictionary::default();
    b.insert("y");
    b.insert("x");
    let mut c = Dictionary::default();
    c.insert("x");

    assert_ne!(a, b);
    assert_ne!(a, c);
    assert_ne!(c, Dictionary::default());

    b.reindex();

    assert_eq!(a, b);
}
