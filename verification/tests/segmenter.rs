use pinyin_hmm::segment::{contains_word, dp, pysplict};
use pinyin_hmm::vocab::syllable_vocabulary;

fn words(list: &[&str]) -> Vec<String> {
    list.iter().map(|s| s.to_string()).collect()
}

fn splits(list: &[&[&str]]) -> Vec<Vec<String>> {
    list.iter().map(|s| words(s)).collect()
}

#[test]
fn vocabulary_size_and_order() {
    let vocab = syllable_vocabulary();
    assert_eq!(vocab.len(), 679);
    assert_eq!(vocab[0], "ba");
    assert_eq!(vocab[1], "bo");
    assert_eq!(vocab[28], "bua");
    assert_eq!(vocab[29], "pa");
    assert_eq!(vocab[666], "wua");
    assert_eq!(
        vocab[667..].to_vec(),
        words(&["a", "o", "e", "ai", "ei", "ao", "ou", "er", "an", "en", "ang", "yue"])
    );
}

#[test]
fn vocabulary_has_no_duplicates() {
    let vocab = syllable_vocabulary();
    for i in 0..vocab.len() {
        for j in (i + 1)..vocab.len() {
            assert_ne!(vocab[i], vocab[j]);
        }
    }
}

#[test]
fn vocabulary_entries_are_short_lowercase() {
    for s in syllable_vocabulary() {
        assert!(!s.is_empty() && s.len() <= 6);
        assert!(s.chars().all(|c| c.is_ascii_lowercase()));
    }
}

#[test]
fn vocabulary_membership() {
    let vocab = syllable_vocabulary();
    assert!(contains_word(&vocab, &"zhuang".to_string()));
    assert!(contains_word(&vocab, &"yi".to_string()));
    assert!(contains_word(&vocab, &"er".to_string()));
    assert!(!contains_word(&vocab, &"xian".to_string()));
    assert!(!contains_word(&vocab, &"n".to_string()));
    assert!(!contains_word(&vocab, &"".to_string()));
}

#[test]
fn segment_nihao() {
    let vocab = syllable_vocabulary();
    assert_eq!(
        pysplict("nihao", &vocab),
        splits(&[&["ni", "ha", "o"], &["ni", "hao"]])
    );
}

#[test]
fn segment_xian() {
    let vocab = syllable_vocabulary();
    assert_eq!(pysplict("xian", &vocab), splits(&[&["xi", "an"]]));
}

#[test]
fn segment_single_syllable() {
    let vocab = syllable_vocabulary();
    assert_eq!(pysplict("a", &vocab), splits(&[&["a"]]));
}

#[test]
fn segment_empty_input() {
    let vocab = syllable_vocabulary();
    assert_eq!(pysplict("", &vocab), Vec::<Vec<String>>::new());
}

#[test]
fn segment_without_legal_split() {
    let vocab = syllable_vocabulary();
    assert_eq!(pysplict("qqq", &vocab), Vec::<Vec<String>>::new());
    assert_eq!(pysplict("xyz", &vocab), Vec::<Vec<String>>::new());
    assert_eq!(pysplict("nih", &vocab), Vec::<Vec<String>>::new());
}

#[test]
fn segment_zhongguo() {
    let vocab = syllable_vocabulary();
    assert_eq!(
        pysplict("zhongguo", &vocab),
        splits(&[&["zhong", "gu", "o"], &["zhong", "guo"]])
    );
}

#[test]
fn segment_orders_shorter_first_syllable_first() {
    let vocab = syllable_vocabulary();
    assert_eq!(
        pysplict("xiexie", &vocab),
        splits(&[
            &["xi", "e", "xi", "e"],
            &["xi", "e", "xie"],
            &["xie", "xi", "e"],
            &["xie", "xie"],
        ])
    );
    assert_eq!(
        pysplict("zhuang", &vocab),
        splits(&[&["zhu", "ang"], &["zhuang"]])
    );
    assert_eq!(pysplict("anan", &vocab), splits(&[&["a", "nan"], &["an", "an"]]));
}

#[test]
fn segment_malformed_input_gives_nothing() {
    let vocab = syllable_vocabulary();
    assert!(pysplict("NIHAO", &vocab).is_empty());
    assert!(pysplict("ni hao", &vocab).is_empty());
    assert!(pysplict("ni3hao", &vocab).is_empty());
    assert!(pysplict("你好", &vocab).is_empty());
    assert!(pysplict("ni好", &vocab).is_empty());
}

#[test]
fn segments_concatenate_to_the_input() {
    let vocab = syllable_vocabulary();
    for w in ["nihao", "zhongguo", "xiexie", "shuangyuan", "women", "anan"] {
        let all = pysplict(w, &vocab);
        assert!(!all.is_empty());
        for s in &all {
            assert_eq!(s.concat(), w);
            for syllable in s {
                assert!(vocab.contains(syllable));
            }
        }
        for i in 0..all.len() {
            for j in (i + 1)..all.len() {
                assert_ne!(all[i], all[j]);
            }
        }
    }
}

#[test]
fn segment_over_another_word_list() {
    let list = words(&["", "a", "b", "ab", "好"]);
    assert_eq!(pysplict("ab", &list), splits(&[&["a", "b"], &["ab"]]));
    assert_eq!(pysplict("a好b", &list), splits(&[&["a", "好", "b"]]));
    assert!(pysplict("", &list).is_empty());
    assert!(pysplict("abc", &list).is_empty());
}

#[test]
fn dp_appends_behind_what_is_there() {
    let vocab = syllable_vocabulary();
    let mut res = splits(&[&["wo"]]);
    dp(&mut res, "yue", &vocab, &words(&["ni"]));
    assert_eq!(
        res,
        splits(&[&["wo"], &["ni", "yu", "e"], &["ni", "yue"]])
    );
    dp(&mut res, "", &vocab, &words(&["ni"]));
    assert_eq!(res.len(), 3);
}
