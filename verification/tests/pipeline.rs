use pinyin_hmm::decode::DecodeError;
use pinyin_hmm::hmm::{Translation, HMM};
use pinyin_hmm::params::Params;

fn tables() -> Params {
    let mut p = Params::new();
    for (s, chars) in [
        ("ni", "你尼"),
        ("hao", "好号"),
        ("ha", "哈"),
        ("o", "哦"),
        ("a", "啊阿"),
        ("zhong", "中重"),
        ("guo", "国果"),
        ("gu", "古"),
        ("zhu", "住"),
        ("ang", "昂"),
        ("zhuang", "装状"),
    ] {
        for c in chars.chars() {
            p.add_state(s, c).unwrap();
        }
    }
    p.set_init('你', -10).unwrap();
    p.set_init('尼', -30).unwrap();
    p.set_init('中', -5).unwrap();
    p.set_init('状', -2).unwrap();
    p.set_init('阿', -9).unwrap();
    p.set_emiss('你', "ni", -1).unwrap();
    p.set_emiss('尼', "ni", -2).unwrap();
    p.set_emiss('好', "hao", -3).unwrap();
    p.set_emiss('号', "hao", -4).unwrap();
    p.set_emiss('中', "zhong", -1).unwrap();
    p.set_emiss('国', "guo", -1).unwrap();
    p.set_trans('好', '你', -5).unwrap();
    p.set_trans('号', '你', -50).unwrap();
    p.set_trans('好', '尼', -6).unwrap();
    p.set_trans('号', '尼', -1).unwrap();
    p.set_trans('国', '中', -1).unwrap();
    p.set_eos('好', -7).unwrap();
    p.set_eos('号', -8).unwrap();
    p.set_eos('国', -1).unwrap();
    p
}

fn results(list: &[&str]) -> Result<Translation, DecodeError> {
    Ok(Translation {
        results: list.iter().map(|s| s.to_string()).collect(),
        degenerate: false,
    })
}

#[test]
fn trans_nihao() {
    let hmm = HMM::new(tables());
    let out = hmm.trans("nihao").unwrap();
    assert_eq!(out.results, vec!["你哈哦", "你好", "尼号"]);
    assert_eq!(out.results[1].chars().count(), 2);
    assert!(!out.degenerate);
}

#[test]
fn trans_zhongguo() {
    let hmm = HMM::new(tables());
    assert_eq!(hmm.trans("zhongguo"), results(&["中古哦", "中国", "中果"]));
    assert_eq!(hmm.trans("zhongguo"), hmm.trans("zhongguo"));
}

#[test]
fn trans_two_splits_interleave() {
    let hmm = HMM::new(tables());
    let out = hmm.trans("zhuang").unwrap();
    assert_eq!(out.results, vec!["住昂", "状", "装"]);
    assert!(out.degenerate);
}

#[test]
fn trans_single_syllable() {
    let hmm = HMM::new(tables());
    assert_eq!(hmm.trans("a"), results(&["阿", "啊"]));
}

#[test]
fn trans_empty_input() {
    let hmm = HMM::new(tables());
    assert_eq!(hmm.trans(""), results(&[]));
    assert_eq!(HMM::new(Params::new()).trans(""), results(&[]));
}

#[test]
fn trans_without_legal_split() {
    let hmm = HMM::new(tables());
    assert_eq!(hmm.trans("qqq"), results(&[]));
    assert_eq!(hmm.trans("xyz"), results(&[]));
    assert_eq!(hmm.trans("NIHAO"), results(&[]));
    assert_eq!(hmm.trans("ni hao"), results(&[]));
    assert_eq!(hmm.trans("你好"), results(&[]));
}

#[test]
fn trans_syllable_without_candidates() {
    let hmm = HMM::new(tables());
    assert_eq!(
        hmm.trans("nimen"),
        Err(DecodeError::UnknownSyllableState("men".to_string()))
    );
    assert_eq!(
        hmm.trans("xian"),
        Err(DecodeError::UnknownSyllableState("xi".to_string()))
    );
    assert_eq!(
        HMM::new(Params::new()).trans("a"),
        Err(DecodeError::UnknownSyllableState("a".to_string()))
    );
}

#[test]
fn trans_is_the_same_for_the_same_tables() {
    let one = HMM::new(tables());
    let two = HMM::new(tables());
    for code in ["nihao", "zhongguo", "zhuang", "a", "", "qqq", "nimen"] {
        assert_eq!(one.trans(code), two.trans(code));
        assert_eq!(one.trans(code), one.trans(code));
    }
}

#[test]
fn model_knows_its_syllables() {
    let hmm = HMM::new(Params::new());
    assert!(hmm.is_syllable("ni"));
    assert!(hmm.is_syllable("zhuang"));
    assert!(hmm.is_syllable("a"));
    assert!(!hmm.is_syllable(""));
    assert!(!hmm.is_syllable("xian"));
    assert!(!hmm.is_syllable("nihao"));
    assert_eq!(hmm.syllables().len(), 679);
    assert_eq!(hmm.params().candidates("ni"), Vec::<char>::new());
}
