use pinyin_hmm::corpus::{chars_of, extract_sequences, is_cjk_char, string_of};
use pinyin_hmm::tally::{first_counts, first_occurrences, Tally};
use pinyin_hmm::train::{
    count_emission, count_init, count_trans, pinyin_states, place_key, with_readings, TrainError,
};
use regex::Regex;

fn words(list: &[&str]) -> Vec<String> {
    list.iter().map(|s| s.to_string()).collect()
}

#[test]
fn ideographs_are_told_apart() {
    assert!(is_cjk_char('\u{4e00}'));
    assert!(is_cjk_char('\u{9fa5}'));
    assert!(is_cjk_char('你'));
    assert!(!is_cjk_char('\u{4dff}'));
    assert!(!is_cjk_char('\u{9fa6}'));
    assert!(!is_cjk_char('a'));
    assert!(!is_cjk_char('，'));
}

#[test]
fn characters_and_strings() {
    assert_eq!(chars_of("a你b"), vec!['a', '你', 'b']);
    assert_eq!(chars_of(""), Vec::<char>::new());
    let chars = vec!['a', '你', '好', 'b'];
    assert_eq!(string_of(&chars, 1, 3), "你好");
    assert_eq!(string_of(&chars, 0, 4), "a你好b");
    assert_eq!(string_of(&chars, 2, 2), "");
}

#[test]
fn sequences_are_runs_of_two_or_more_ideographs() {
    assert_eq!(
        extract_sequences("你好，世界！a中b国人"),
        words(&["你好", "世界", "国人"])
    );
    assert_eq!(extract_sequences(""), Vec::<String>::new());
    assert_eq!(extract_sequences("中"), Vec::<String>::new());
    assert_eq!(extract_sequences("abc def"), Vec::<String>::new());
    assert_eq!(extract_sequences("中a国b人"), Vec::<String>::new());
    assert_eq!(extract_sequences("中国人"), words(&["中国人"]));
    assert_eq!(extract_sequences("x中国"), words(&["中国"]));
    assert_eq!(extract_sequences("中国x"), words(&["中国"]));
    assert_eq!(
        extract_sequences("\u{4e00}\u{9fa5}\u{9fa6}\u{4e00}\u{4dff}\u{9fa5}\u{4e00}"),
        words(&["\u{4e00}\u{9fa5}", "\u{9fa5}\u{4e00}"])
    );
}

#[test]
fn sequences_agree_with_the_pattern() {
    let pattern = Regex::new("[\u{4e00}-\u{9fa5}]{2,}").unwrap();
    for text in [
        "今天天气很好，我们去公园玩吧。OK？好！",
        "一二三，四。五六\n七八九十",
        "no ideographs at all",
        "中a国人b民c大会堂",
        "",
        "龥龥\u{9fa6}龥",
        "　全角　空格　你好　",
    ] {
        let expected: Vec<String> =
            pattern.find_iter(text).map(|m| m.as_str().to_string()).collect();
        assert_eq!(extract_sequences(text), expected);
    }
}

#[test]
fn tally_counts_keys() {
    let keys: Vec<u64> = vec![7, 3, 7, 7, 0, 3, u64::MAX];
    let tally = Tally::of(&keys);
    assert_eq!(tally.count(7), 3);
    assert_eq!(tally.count(3), 2);
    assert_eq!(tally.count(0), 1);
    assert_eq!(tally.count(u64::MAX), 1);
    assert_eq!(tally.count(5), 0);
    assert_eq!(first_occurrences(&keys), vec![0, 1, 4, 6]);
    assert_eq!(first_counts(&keys), vec![(0, 3), (1, 2), (4, 1), (6, 1)]);
    assert_eq!(first_counts(&Vec::new()), Vec::<(usize, usize)>::new());
    assert_eq!(Tally::of(&Vec::new()).count(1), 0);
}

#[test]
fn opening_characters_are_counted() {
    assert_eq!(
        count_init(&words(&["你好", "我们", "", "你们好", "我", "他"])),
        vec![('你', 2), ('我', 2), ('他', 1)]
    );
    assert_eq!(count_init(&Vec::new()), Vec::<(char, usize)>::new());
    assert_eq!(count_init(&words(&["", ""])), Vec::<(char, usize)>::new());
}

#[test]
fn neighbours_are_counted() {
    assert_eq!(
        count_trans(&words(&["你好", "", "你们好"])),
        vec![
            (Some('你'), None, 2, 2),
            (Some('好'), Some('你'), 1, 2),
            (None, Some('好'), 2, 2),
            (Some('们'), Some('你'), 1, 2),
            (Some('好'), Some('们'), 1, 1),
        ]
    );
    assert_eq!(
        count_trans(&words(&["好"])),
        vec![(Some('好'), None, 1, 1), (None, Some('好'), 1, 1)]
    );
    assert_eq!(
        count_trans(&words(&["好好好"])),
        vec![
            (Some('好'), None, 1, 1),
            (Some('好'), Some('好'), 2, 3),
            (None, Some('好'), 1, 3),
        ]
    );
    assert!(count_trans(&words(&["", ""])).is_empty());
}

#[test]
fn neighbours_are_shared_among_what_follows_the_same_place() {
    let counts = count_trans(&words(&["你好", "你们"]));
    assert_eq!(
        counts,
        vec![
            (Some('你'), None, 2, 2),
            (Some('好'), Some('你'), 1, 2),
            (None, Some('好'), 1, 1),
            (Some('们'), Some('你'), 1, 2),
            (None, Some('们'), 1, 1),
        ]
    );
    let share = |post: Option<char>, pre: Option<char>| {
        let c = counts.iter().find(|c| c.0 == post && c.1 == pre).unwrap();
        (c.2 as f64 / c.3 as f64).ln()
    };
    assert_eq!(share(Some('好'), Some('你')), (0.5f64).ln());
    assert_eq!(share(None, Some('好')), 0.0);
    assert_eq!(share(Some('你'), None), 0.0);
}

#[test]
fn neighbour_counts_add_up() {
    let seqs = words(&["今天天气", "天气很好", "很好很好", "今天"]);
    let counts = count_trans(&seqs);
    let pairs: usize = seqs.iter().map(|s| s.chars().count() + 1).sum();
    assert_eq!(counts.iter().map(|c| c.2).sum::<usize>(), pairs);
    for (_, pre, count, total) in &counts {
        let same: usize = counts.iter().filter(|c| c.1 == *pre).map(|c| c.2).sum();
        assert_eq!(*total, same);
        assert!(1 <= *count && count <= total);
    }
    for i in 0..counts.len() {
        for j in (i + 1)..counts.len() {
            assert!((counts[i].0, counts[i].1) != (counts[j].0, counts[j].1));
        }
    }
}

#[test]
fn characters_are_counted_with_their_readings() {
    assert_eq!(
        count_emission(&words(&["你好", "你", "", "好好你"])),
        Ok(vec![
            ('你', "ni".to_string(), 3, 3),
            ('好', "hao".to_string(), 3, 3),
        ])
    );
    assert_eq!(
        count_emission(&words(&["中国"])),
        Ok(vec![
            ('中', "zhong".to_string(), 1, 1),
            ('国', "guo".to_string(), 1, 1),
        ])
    );
    assert_eq!(count_emission(&Vec::new()), Ok(Vec::new()));
}

#[test]
fn a_character_without_reading_stops_the_count() {
    assert_eq!(
        count_emission(&words(&["你好", "a你", "b"])),
        Err(TrainError::NoReading('a'))
    );
    assert_eq!(
        count_emission(&words(&["，"])),
        Err(TrainError::NoReading('，'))
    );
}

#[test]
fn readings_are_attached() {
    let counted = vec![
        ('你', 3, Some("ni".to_string())),
        ('好', 1, Some("hao".to_string())),
    ];
    assert_eq!(
        with_readings(&counted),
        Ok(vec![
            ('你', "ni".to_string(), 3, 3),
            ('好', "hao".to_string(), 1, 1),
        ])
    );
    let counted = vec![
        ('你', 3, Some("ni".to_string())),
        ('x', 2, None),
        ('y', 1, None),
    ];
    assert_eq!(with_readings(&counted), Err(TrainError::NoReading('x')));
    assert_eq!(with_readings(&Vec::new()), Ok(Vec::new()));
}

#[test]
fn candidates_are_grouped_by_syllable() {
    let keys = vec![
        ('你', "ni".to_string()),
        ('好', "hao".to_string()),
        ('尼', "ni".to_string()),
        ('你', "ni".to_string()),
        ('绿', "lü".to_string()),
        ('号', "hao".to_string()),
        ('泥', "ni".to_string()),
    ];
    assert_eq!(
        pinyin_states(&Vec::new(), &keys),
        vec![
            ("ni".to_string(), "你尼泥".to_string()),
            ("hao".to_string(), "好号".to_string()),
            ("lü".to_string(), "绿".to_string()),
        ]
    );
    assert_eq!(
        pinyin_states(&Vec::new(), &Vec::new()),
        Vec::<(String, String)>::new()
    );
}

#[test]
fn candidates_are_added_to_the_lists_that_are_there() {
    let earlier = vec![
        ("hao".to_string(), "号耗".to_string()),
        ("wo".to_string(), "我".to_string()),
        ("ni".to_string(), "泥".to_string()),
    ];
    let keys = vec![
        ('你', "ni".to_string()),
        ('好', "hao".to_string()),
        ('号', "hao".to_string()),
        ('们', "men".to_string()),
        ('泥', "ni".to_string()),
        ('尼', "ni".to_string()),
    ];
    assert_eq!(
        pinyin_states(&earlier, &keys),
        vec![
            ("hao".to_string(), "号耗好".to_string()),
            ("wo".to_string(), "我".to_string()),
            ("ni".to_string(), "泥你尼".to_string()),
            ("men".to_string(), "们".to_string()),
        ]
    );
    assert_eq!(pinyin_states(&earlier, &Vec::new()), earlier);
    let once = pinyin_states(&earlier, &keys);
    assert_eq!(pinyin_states(&once, &keys), once);
}

#[test]
fn places_have_keys() {
    assert_eq!(place_key(Some('你'), "EOS"), "你");
    assert_eq!(place_key(None, "EOS"), "EOS");
    assert_eq!(place_key(None, "BOS"), "BOS");
}
