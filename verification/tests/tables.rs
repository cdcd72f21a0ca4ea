use pinyin_hmm::params::{
    single_char, syllable_code, ParamError, Params, BOS, EOS, MAX_SYLLABLE_LEN, MIN_LOG,
};

#[test]
fn floor_constant() {
    assert_eq!(MIN_LOG, -1_000_000_000_000_000);
    assert_eq!(MAX_SYLLABLE_LEN, 8);
}

#[test]
fn empty_tables_give_the_floor() {
    let p = Params::new();
    assert_eq!(p.init_score('你'), MIN_LOG);
    assert_eq!(p.trans_score('好', '你'), MIN_LOG);
    assert_eq!(p.eos_score('好'), MIN_LOG);
    assert_eq!(p.emiss_score('你', "ni"), MIN_LOG);
    assert_eq!(p.candidates("ni"), Vec::<char>::new());
}

#[test]
fn stored_values_are_read_back() {
    let mut p = Params::new();
    assert_eq!(p.set_init('你', -12), Ok(()));
    assert_eq!(p.set_trans('好', '你', -34), Ok(()));
    assert_eq!(p.set_eos('好', -56), Ok(()));
    assert_eq!(p.set_emiss('你', "ni", -78), Ok(()));
    assert_eq!(p.init_score('你'), -12);
    assert_eq!(p.trans_score('好', '你'), -34);
    assert_eq!(p.eos_score('好'), -56);
    assert_eq!(p.emiss_score('你', "ni"), -78);
    assert_eq!(p.init_score('好'), MIN_LOG);
    assert_eq!(p.trans_score('你', '好'), MIN_LOG);
    assert_eq!(p.eos_score('你'), MIN_LOG);
    assert_eq!(p.emiss_score('你', "hao"), MIN_LOG);
    assert_eq!(p.emiss_score('好', "ni"), MIN_LOG);
    assert_eq!(p.set_init('你', -13), Ok(()));
    assert_eq!(p.init_score('你'), -13);
}

#[test]
fn keys_do_not_collide() {
    let mut p = Params::new();
    let chars = ['\u{0}', 'a', '你', '好', '\u{9fa5}', '\u{10ffff}'];
    let syllables = ["a", "z", "ba", "ab", "zhuang", "zzzzzzzz", "aaaaaaaa"];
    let mut v: i64 = -1;
    for &c in &chars {
        assert_eq!(p.set_init(c, v), Ok(()));
        assert_eq!(p.set_eos(c, v - 1), Ok(()));
        v -= 2;
        for &d in &chars {
            assert_eq!(p.set_trans(c, d, v), Ok(()));
            v -= 1;
        }
        for s in syllables {
            assert_eq!(p.set_emiss(c, s, v), Ok(()));
            v -= 1;
        }
    }
    let mut v: i64 = -1;
    for &c in &chars {
        assert_eq!(p.init_score(c), v);
        assert_eq!(p.eos_score(c), v - 1);
        v -= 2;
        for &d in &chars {
            assert_eq!(p.trans_score(c, d), v);
            v -= 1;
        }
        for s in syllables {
            assert_eq!(p.emiss_score(c, s), v);
            v -= 1;
        }
    }
}

#[test]
fn values_out_of_range_are_refused() {
    let mut p = Params::new();
    assert_eq!(p.set_init('你', 1), Err(ParamError::OutOfRange));
    assert_eq!(p.set_init('你', MIN_LOG - 1), Err(ParamError::OutOfRange));
    assert_eq!(p.set_trans('好', '你', i64::MAX), Err(ParamError::OutOfRange));
    assert_eq!(p.set_eos('好', i64::MIN), Err(ParamError::OutOfRange));
    assert_eq!(p.set_emiss('你', "ni", 5), Err(ParamError::OutOfRange));
    assert_eq!(p.init_score('你'), MIN_LOG);
    assert_eq!(p.set_init('你', 0), Ok(()));
    assert_eq!(p.set_eos('你', MIN_LOG), Ok(()));
    assert_eq!(p.init_score('你'), 0);
    assert_eq!(p.set_init('你', 7), Err(ParamError::OutOfRange));
    assert_eq!(p.init_score('你'), 0);
}

#[test]
fn bad_syllables_are_refused() {
    let mut p = Params::new();
    for s in ["", "Ni", "n1", "ni hao", "你", "zhuangzhu"] {
        assert_eq!(p.set_emiss('你', s, -1), Err(ParamError::BadSyllable));
        assert_eq!(p.add_state(s, '你'), Err(ParamError::BadSyllable));
        assert_eq!(p.emiss_score('你', s), MIN_LOG);
        assert!(p.candidates(s).is_empty());
    }
    assert_eq!(p.set_emiss('你', "", 5), Err(ParamError::BadSyllable));
    assert_eq!(p.set_emiss('你', "zhuangzh", -1), Ok(()));
}

#[test]
fn candidates_keep_order_without_repetition() {
    let mut p = Params::new();
    for c in ['你', '尼', '你', '泥', '尼', '你'] {
        assert_eq!(p.add_state("ni", c), Ok(()));
    }
    assert_eq!(p.add_state("hao", '好'), Ok(()));
    assert_eq!(p.candidates("ni"), vec!['你', '尼', '泥']);
    assert_eq!(p.candidates("hao"), vec!['好']);
    assert_eq!(p.candidates("n"), Vec::<char>::new());
}

#[test]
fn syllable_codes() {
    assert_eq!(syllable_code("a"), Some(1));
    assert_eq!(syllable_code("z"), Some(26));
    assert_eq!(syllable_code("aa"), Some(28));
    assert_eq!(syllable_code("ba"), Some(55));
    assert_eq!(syllable_code("ni"), Some(14 * 27 + 9));
    assert_eq!(syllable_code("zzzzzzzz"), Some(282429536480));
    assert_eq!(syllable_code(""), None);
    assert_eq!(syllable_code("aaaaaaaaa"), None);
    assert_eq!(syllable_code("A"), None);
    assert_eq!(syllable_code("a`"), None);
    assert_eq!(syllable_code("a{"), None);
    assert_eq!(syllable_code("é"), None);
}

#[test]
fn single_characters() {
    assert_eq!(single_char("你"), Some('你'));
    assert_eq!(single_char("a"), Some('a'));
    assert_eq!(single_char(""), None);
    assert_eq!(single_char("你好"), None);
    assert_eq!(single_char("EOS"), None);
}

#[test]
fn stored_keys_are_understood() {
    assert_eq!(BOS, "BOS");
    assert_eq!(EOS, "EOS");
    let mut p = Params::new();
    assert_eq!(p.store_init("你", -1), Ok(()));
    assert_eq!(p.store_trans("好", "你", -2), Ok(()));
    assert_eq!(p.store_trans("EOS", "好", -3), Ok(()));
    assert_eq!(p.store_trans("你", "BOS", -4), Ok(()));
    assert_eq!(p.store_emiss("你", "ni", -5), Ok(()));
    assert_eq!(p.store_states("ni", "你尼你泥"), Ok(()));
    assert_eq!(p.store_states("ni", "尼妮"), Ok(()));
    assert_eq!(p.store_states("hao", ""), Ok(()));
    assert_eq!(p.init_score('你'), -1);
    assert_eq!(p.trans_score('好', '你'), -2);
    assert_eq!(p.eos_score('好'), -3);
    assert_eq!(p.eos_score('你'), MIN_LOG);
    assert_eq!(p.init_score('好'), MIN_LOG);
    assert_eq!(p.emiss_score('你', "ni"), -5);
    assert_eq!(p.candidates("ni"), vec!['你', '尼', '泥', '妮']);
    assert_eq!(p.candidates("hao"), Vec::<char>::new());
}

#[test]
fn stored_keys_that_are_refused() {
    let mut p = Params::new();
    assert_eq!(p.store_init("", -1), Err(ParamError::BadKey));
    assert_eq!(p.store_init("你好", -1), Err(ParamError::BadKey));
    assert_eq!(p.store_init("你好", 1), Err(ParamError::BadKey));
    assert_eq!(p.store_init("你", 1), Err(ParamError::OutOfRange));
    assert_eq!(p.store_trans("EOS", "BOS", -1), Err(ParamError::BadKey));
    assert_eq!(p.store_trans("BOS", "你", -1), Err(ParamError::BadKey));
    assert_eq!(p.store_trans("你", "EOS", -1), Err(ParamError::BadKey));
    assert_eq!(p.store_trans("你好", "你", -1), Err(ParamError::BadKey));
    assert_eq!(p.store_trans("", "你", -1), Err(ParamError::BadKey));
    assert_eq!(p.store_trans("EOS", "你", 1), Err(ParamError::OutOfRange));
    assert_eq!(p.store_trans("你", "BOS", 1), Err(ParamError::OutOfRange));
    assert_eq!(p.store_trans("好", "你", 1), Err(ParamError::OutOfRange));
    assert_eq!(p.store_emiss("你好", "ni", -1), Err(ParamError::BadKey));
    assert_eq!(p.store_emiss("你好", "", -1), Err(ParamError::BadKey));
    assert_eq!(p.store_emiss("你", "lü", -1), Err(ParamError::BadSyllable));
    assert_eq!(p.store_emiss("你", "ni", 1), Err(ParamError::OutOfRange));
    assert_eq!(p.store_states("lü", "绿"), Err(ParamError::BadSyllable));
    assert_eq!(p.init_score('你'), MIN_LOG);
    assert_eq!(p.eos_score('你'), MIN_LOG);
    assert_eq!(p.trans_score('好', '你'), MIN_LOG);
    assert!(p.candidates("lü").is_empty());
}
