use pinyin_hmm::decode::{decode, DecodeError, Decoded, TOP_K};
use pinyin_hmm::params::{Params, MIN_LOG};
use pinyin_hmm::rank::{by_rank, rank_scores};
use std::cmp::Ordering;

fn words(list: &[&str]) -> Vec<String> {
    list.iter().map(|s| s.to_string()).collect()
}

fn ranked(list: &[&str]) -> Vec<(usize, String)> {
    list.iter().enumerate().map(|(k, s)| (k, s.to_string())).collect()
}

fn nihao_tables() -> Params {
    let mut p = Params::new();
    for c in ['你', '尼'] {
        p.add_state("ni", c).unwrap();
    }
    for c in ['好', '号'] {
        p.add_state("hao", c).unwrap();
    }
    p.set_init('你', -10).unwrap();
    p.set_init('尼', -30).unwrap();
    p.set_emiss('你', "ni", -1).unwrap();
    p.set_emiss('尼', "ni", -2).unwrap();
    p.set_emiss('好', "hao", -3).unwrap();
    p.set_emiss('号', "hao", -4).unwrap();
    p.set_trans('好', '你', -5).unwrap();
    p.set_trans('号', '你', -50).unwrap();
    p.set_trans('好', '尼', -6).unwrap();
    p.set_trans('号', '尼', -1).unwrap();
    p.set_eos('好', -7).unwrap();
    p.set_eos('号', -8).unwrap();
    p
}

fn score(p: &Params, seg: &[String], path: &[char]) -> i128 {
    let mut total = p.init_score(path[0]) as i128 + p.emiss_score(path[0], &seg[0]) as i128;
    for i in 1..seg.len() {
        total += p.emiss_score(path[i], &seg[i]) as i128;
        total += p.trans_score(path[i], path[i - 1]) as i128;
    }
    total + p.eos_score(path[seg.len() - 1]) as i128
}

fn all_paths(p: &Params, seg: &[String]) -> Vec<Vec<char>> {
    let mut paths: Vec<Vec<char>> = vec![Vec::new()];
    for s in seg {
        let mut longer = Vec::new();
        for path in &paths {
            for c in p.candidates(s) {
                let mut next = path.clone();
                next.push(c);
                longer.push(next);
            }
        }
        paths = longer;
    }
    paths
}

#[test]
fn decode_two_syllables() {
    let p = nihao_tables();
    let seg = words(&["ni", "hao"]);
    let d = decode(&p, &seg).unwrap();
    assert_eq!(d.candidates, ranked(&["你好", "尼号"]));
    assert!(!d.degenerate);
    assert_eq!(score(&p, &seg, &['你', '好']), -26);
    assert_eq!(score(&p, &seg, &['尼', '号']), -45);
}

#[test]
fn decode_top_score_is_the_maximum_over_all_paths() {
    let mut p = nihao_tables();
    for c in ['哈', '蛤', '铪'] {
        p.add_state("ha", c).unwrap();
    }
    for c in ['哦', '噢'] {
        p.add_state("o", c).unwrap();
    }
    p.set_emiss('哈', "ha", -2).unwrap();
    p.set_emiss('蛤', "ha", -9).unwrap();
    p.set_trans('哈', '尼', -3).unwrap();
    p.set_trans('蛤', '你', -1).unwrap();
    p.set_trans('铪', '你', -4).unwrap();
    p.set_emiss('噢', "o", -6).unwrap();
    p.set_trans('噢', '蛤', -2).unwrap();
    p.set_trans('哦', '哈', -8).unwrap();
    p.set_eos('哦', -3).unwrap();
    for seg in [
        words(&["ni", "ha", "o"]),
        words(&["ni", "hao"]),
        words(&["hao", "ni", "ha"]),
        words(&["o"]),
        words(&["ha", "ha", "ha", "ha"]),
    ] {
        let d = decode(&p, &seg).unwrap();
        let paths = all_paths(&p, &seg);
        let best = paths.iter().map(|q| score(&p, &seg, q)).max().unwrap();
        let top: Vec<char> = d.candidates[0].1.chars().collect();
        assert_eq!(score(&p, &seg, &top), best);
        assert_eq!(d.candidates.len(), p.candidates(&seg[seg.len() - 1]).len());
        for (k, (rank, text)) in d.candidates.iter().enumerate() {
            assert_eq!(*rank, k);
            let chars: Vec<char> = text.chars().collect();
            assert_eq!(chars.len(), seg.len());
            assert!(paths.contains(&chars));
            let ending_alike = paths
                .iter()
                .filter(|q| q[seg.len() - 1] == chars[seg.len() - 1])
                .map(|q| score(&p, &seg, q))
                .max()
                .unwrap();
            assert_eq!(score(&p, &seg, &chars), ending_alike);
            if k > 0 {
                let before: Vec<char> = d.candidates[k - 1].1.chars().collect();
                assert!(score(&p, &seg, &before) >= score(&p, &seg, &chars));
            }
        }
    }
}

#[test]
fn decode_single_syllable() {
    let mut p = Params::new();
    for c in ['啊', '阿', '呵'] {
        p.add_state("a", c).unwrap();
    }
    p.set_init('啊', -100).unwrap();
    p.set_init('阿', -50).unwrap();
    p.set_emiss('啊', "a", -10).unwrap();
    p.set_emiss('阿', "a", -20).unwrap();
    p.set_emiss('呵', "a", -5).unwrap();
    p.set_eos('啊', -1).unwrap();
    p.set_eos('阿', -70).unwrap();
    p.set_eos('呵', -2).unwrap();
    let seg = words(&["a"]);
    let d = decode(&p, &seg).unwrap();
    assert_eq!(d.candidates, ranked(&["啊", "阿", "呵"]));
    assert!(!d.degenerate);
    assert_eq!(score(&p, &seg, &['啊']), -111);
    assert_eq!(score(&p, &seg, &['阿']), -140);
    assert_eq!(score(&p, &seg, &['呵']), MIN_LOG as i128 - 7);
}

#[test]
fn decode_first_best_predecessor_wins_a_tie() {
    let mut p = Params::new();
    for c in ['甲', '乙', '丙'] {
        p.add_state("ba", c).unwrap();
    }
    p.add_state("bo", '丁').unwrap();
    p.set_init('甲', -5).unwrap();
    p.set_init('乙', -3).unwrap();
    p.set_init('丙', -3).unwrap();
    p.set_trans('丁', '甲', -1).unwrap();
    p.set_trans('丁', '乙', -3).unwrap();
    p.set_trans('丁', '丙', -3).unwrap();
    let d = decode(&p, &words(&["ba", "bo"])).unwrap();
    assert_eq!(d.candidates, ranked(&["甲丁"]));
    p.set_trans('丁', '甲', -2).unwrap();
    let d = decode(&p, &words(&["ba", "bo"])).unwrap();
    assert_eq!(d.candidates, ranked(&["乙丁"]));
}

#[test]
fn decode_equal_final_scores_keep_candidate_order() {
    let mut p = Params::new();
    for c in ['丙', '甲', '乙', '丁'] {
        p.add_state("ba", c).unwrap();
    }
    p.set_init('甲', -4).unwrap();
    p.set_init('乙', -4).unwrap();
    p.set_init('丁', -1).unwrap();
    p.set_init('丙', -4).unwrap();
    let d = decode(&p, &words(&["ba"])).unwrap();
    assert_eq!(d.candidates, ranked(&["丁", "丙", "甲", "乙"]));
}

#[test]
fn decode_unknown_syllable() {
    let p = nihao_tables();
    assert_eq!(
        decode(&p, &words(&["ni", "men"])),
        Err(DecodeError::UnknownSyllableState("men".to_string()))
    );
    assert_eq!(
        decode(&p, &words(&["wo", "men"])),
        Err(DecodeError::UnknownSyllableState("wo".to_string()))
    );
    assert_eq!(
        decode(&p, &words(&["ni", "HAO"])),
        Err(DecodeError::UnknownSyllableState("HAO".to_string()))
    );
    assert_eq!(
        decode(&Params::new(), &words(&["a"])),
        Err(DecodeError::UnknownSyllableState("a".to_string()))
    );
}

#[test]
fn decode_empty_sequence() {
    let p = nihao_tables();
    assert_eq!(
        decode(&p, &Vec::new()),
        Ok(Decoded { candidates: Vec::new(), degenerate: false })
    );
}

#[test]
fn decode_keeps_the_best_hundred() {
    assert_eq!(TOP_K, 100);
    let mut p = Params::new();
    p.add_state("ni", '你').unwrap();
    let chars: Vec<char> = (0..150u32).map(|n| char::from_u32(0x4e00 + n).unwrap()).collect();
    for (n, &c) in chars.iter().enumerate() {
        p.add_state("hao", c).unwrap();
        p.set_emiss(c, "hao", -(((n * 37) % 150) as i64) - 1).unwrap();
    }
    let d = decode(&p, &words(&["ni", "hao"])).unwrap();
    assert_eq!(d.candidates.len(), 100);
    for (k, (rank, text)) in d.candidates.iter().enumerate() {
        assert_eq!(*rank, k);
        let n = (0..150).find(|n| (n * 37) % 150 == k).unwrap();
        assert_eq!(*text, format!("你{}", chars[n]));
    }
    let d = decode(&p, &words(&["hao"])).unwrap();
    assert_eq!(d.candidates.len(), 100);
    let d = decode(&p, &words(&["hao", "ni"])).unwrap();
    assert_eq!(d.candidates.len(), 1);
}

#[test]
fn decode_warns_when_every_score_is_made_of_floors() {
    let mut p = Params::new();
    p.add_state("ni", '你').unwrap();
    p.add_state("ni", '尼').unwrap();
    p.add_state("hao", '好').unwrap();
    let d = decode(&p, &words(&["ni", "hao"])).unwrap();
    assert!(d.degenerate);
    assert_eq!(d.candidates, ranked(&["你好"]));
    p.set_init('你', MIN_LOG).unwrap();
    assert!(decode(&p, &words(&["ni", "hao"])).unwrap().degenerate);
    p.set_trans('好', '尼', -1).unwrap();
    let d = decode(&p, &words(&["ni", "hao"])).unwrap();
    assert!(!d.degenerate);
    assert_eq!(d.candidates, ranked(&["尼好"]));
    assert!(decode(&p, &words(&["ni"])).unwrap().degenerate);
}

#[test]
fn decode_twice_gives_the_same() {
    let p = nihao_tables();
    let seg = words(&["ni", "hao", "ni"]);
    assert_eq!(decode(&p, &seg), decode(&p, &seg));
    assert_eq!(decode(&nihao_tables(), &seg), decode(&p, &seg));
}

#[test]
fn decode_long_sequence_of_floors() {
    let mut p = Params::new();
    p.add_state("a", '啊').unwrap();
    p.add_state("a", '阿').unwrap();
    let seg: Vec<String> = (0..1000).map(|_| "a".to_string()).collect();
    let d = decode(&p, &seg).unwrap();
    assert!(d.degenerate);
    assert_eq!(d.candidates.len(), 2);
    assert_eq!(d.candidates[0].1.chars().count(), 1000);
    assert!(d.candidates[0].1.chars().all(|c| c == '啊'));
    assert_eq!(d.candidates[1].1.chars().last(), Some('阿'));
}

#[test]
fn rank_scores_orders_best_first() {
    assert_eq!(rank_scores(&vec![5, 7, 7, 1]), vec![1, 2, 0, 3]);
    assert_eq!(rank_scores(&vec![-3, -2, -1]), vec![2, 1, 0]);
    assert_eq!(rank_scores(&vec![0, 0, 0]), vec![0, 1, 2]);
    assert_eq!(rank_scores(&vec![i128::MIN, i128::MAX]), vec![1, 0]);
    assert_eq!(rank_scores(&Vec::new()), Vec::<usize>::new());
}

#[test]
fn by_rank_compares_score_then_index() {
    assert_eq!(by_rank(&(5, 0), &(3, 1)), Ordering::Less);
    assert_eq!(by_rank(&(3, 0), &(5, 1)), Ordering::Greater);
    assert_eq!(by_rank(&(4, 0), &(4, 1)), Ordering::Less);
    assert_eq!(by_rank(&(4, 2), &(4, 1)), Ordering::Greater);
    assert_eq!(by_rank(&(4, 2), &(4, 2)), Ordering::Equal);
}
