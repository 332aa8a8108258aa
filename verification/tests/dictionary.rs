use phrase_dict::kv::KVDictionary;
use phrase_dict::phrase::Phrase;

fn ph(text: &str, freq: u32, last_used: u64) -> Phrase {
    Phrase::new(text.to_string(), freq, Some(last_used))
}

const SYL: [u16; 2] = [0x2A4, 0x16D];

#[test]
fn create_new_dictionary_in_memory_and_query() {
    let mut dict = KVDictionary::<()>::new_in_memory();
    dict.add_phrase(&SYL, ph("dict", 1, 2)).unwrap();
    assert_eq!(vec![ph("dict", 1, 2)], dict.lookup_first_n_phrases(&SYL, 1));
}

#[test]
fn create_new_dictionary_in_memory_all_entries() {
    let mut dict = KVDictionary::<()>::new_in_memory();
    dict.add_phrase(&SYL, ph("dict", 1, 2)).unwrap();
    dict.add_phrase(&SYL, ph("dict2", 1, 2)).unwrap();
    dict.add_phrase(&SYL, ph("dict3", 1, 2)).unwrap();
    assert_eq!(
        vec![ph("dict", 1, 2), ph("dict2", 1, 2), ph("dict3", 1, 2)],
        dict.entries_iter().into_iter().map(|it| it.1).collect::<Vec<_>>()
    );
}

#[test]
fn create_new_dictionary_in_memory_add_remove_entries() {
    let mut dict = KVDictionary::<()>::new_in_memory();
    dict.add_phrase(&SYL, ph("dict", 1, 2)).unwrap();
    dict.add_phrase(&SYL, ph("dict2", 1, 2)).unwrap();
    dict.add_phrase(&SYL, ph("dict3", 1, 2)).unwrap();
    dict.remove_phrase(&SYL, "dict3").unwrap();
    assert_eq!(
        vec![ph("dict", 1, 2), ph("dict2", 1, 2)],
        dict.entries_iter().into_iter().map(|it| it.1).collect::<Vec<_>>()
    );
}

#[test]
fn create_new_dictionary_empty_and_query() {
    let mut dict = KVDictionary::new(());
    dict.add_phrase(&SYL, ph("dict", 1, 2)).unwrap();
    assert_eq!(vec![ph("dict", 1, 2)], dict.lookup_first_n_phrases(&SYL, 1));
}

#[test]
fn duplicate_add_is_rejected_and_one_entry_remains() {
    let mut dict = KVDictionary::<()>::new_in_memory();
    assert!(dict.add_phrase(&SYL, ph("dict", 1, 2)).is_ok());
    assert!(dict.add_phrase(&SYL, ph("dict", 5, 9)).is_err());
    let found = dict.lookup_first_n_phrases(&SYL, 10);
    assert_eq!(vec![ph("dict", 1, 2)], found);
}

#[test]
fn update_phrase_upserts_unconditionally() {
    let mut dict = KVDictionary::<()>::new_in_memory();
    dict.update_phrase(&SYL, ph("dict", 1, 2), 7, 40).unwrap();
    assert_eq!(vec![ph("dict", 7, 40)], dict.lookup_first_n_phrases(&SYL, 1));
    dict.update_phrase(&SYL, ph("dict", 7, 40), 9, 41).unwrap();
    assert_eq!(vec![ph("dict", 9, 41)], dict.lookup_first_n_phrases(&SYL, 1));
}

#[test]
fn lookup_truncates_to_first_n() {
    let mut dict = KVDictionary::<()>::new_in_memory();
    dict.add_phrase(&SYL, ph("a", 1, 2)).unwrap();
    dict.add_phrase(&SYL, ph("b", 1, 2)).unwrap();
    dict.add_phrase(&SYL, ph("c", 1, 2)).unwrap();
    assert_eq!(2, dict.lookup_first_n_phrases(&SYL, 2).len());
    assert_eq!(3, dict.lookup_first_n_phrases(&SYL, 10).len());
    assert_eq!(0, dict.lookup_first_n_phrases(&SYL, 0).len());
}

#[test]
fn scenario_add_three_remove_one() {
    let mut dict = KVDictionary::<()>::new_in_memory();
    dict.add_phrase(&SYL, ph("dict", 1, 2)).unwrap();
    dict.add_phrase(&SYL, ph("dict2", 1, 2)).unwrap();
    dict.add_phrase(&SYL, ph("dict3", 1, 2)).unwrap();
    let all: Vec<(Vec<u16>, Phrase)> = dict.entries();
    assert_eq!(
        vec![
            (SYL.to_vec(), ph("dict", 1, 2)),
            (SYL.to_vec(), ph("dict2", 1, 2)),
            (SYL.to_vec(), ph("dict3", 1, 2)),
        ],
        all
    );
    dict.remove_phrase(&SYL, "dict3").unwrap();
    assert_eq!(
        vec![(SYL.to_vec(), ph("dict", 1, 2)), (SYL.to_vec(), ph("dict2", 1, 2))],
        dict.entries()
    );
    assert_eq!(vec![ph("dict", 1, 2)], dict.lookup_first_n_phrases(&SYL, 1));
}

#[test]
fn entries_are_sorted_across_keys() {
    let mut dict = KVDictionary::<()>::new_in_memory();
    let low: [u16; 1] = [3];
    let high: [u16; 1] = [9];
    dict.add_phrase(&high, ph("z", 1, 2)).unwrap();
    dict.add_phrase(&low, ph("b", 1, 2)).unwrap();
    dict.add_phrase(&low, ph("a", 1, 2)).unwrap();
    let keys: Vec<(Vec<u16>, String)> =
        dict.entries().into_iter().map(|e| (e.0, e.1.phrase)).collect();
    assert_eq!(
        vec![
            (vec![3u16], "a".to_string()),
            (vec![3u16], "b".to_string()),
            (vec![9u16], "z".to_string()),
        ],
        keys
    );
}

#[test]
fn take_and_set_keep_overlay_state() {
    let mut dict = KVDictionary::new(());
    dict.add_phrase(&SYL, ph("dict", 1, 2)).unwrap();
    let store = dict.take();
    assert!(store.is_some());
    dict.set(());
    assert_eq!(vec![ph("dict", 1, 2)], dict.lookup_first_n_phrases(&SYL, 1));
}

#[test]
fn from_raw_parts_keeps_overlay_state() {
    let mut inner = KVDictionary::<()>::new_in_memory();
    inner.add_phrase(&SYL, ph("dict", 1, 2)).unwrap();
    let dict = KVDictionary::from_raw_parts((), inner);
    assert_eq!(vec![ph("dict", 1, 2)], dict.lookup_first_n_phrases(&SYL, 1));
}
