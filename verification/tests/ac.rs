use std::collections::BTreeMap;

use m6algs::ac::TrieTree;

fn index_map<'a>(keys: &Vec<&'a str>, text: &str) -> BTreeMap<&'a str, Vec<usize>> {
    let tree = TrieTree::new(keys);
    let lists = tree.index_of(text);
    let mut map = BTreeMap::new();
    for (k, l) in keys.iter().zip(lists.into_iter()) {
        map.insert(*k, l);
    }
    map
}

fn expected<'a>(pairs: &[(&'a str, Vec<usize>)]) -> BTreeMap<&'a str, Vec<usize>> {
    let mut map = BTreeMap::new();
    for (k, v) in pairs {
        map.insert(*k, v.clone());
    }
    map
}

#[test]
fn ac_automaton_works() {
    let mut result = index_map(&vec!["bcd", "cdfkcdf", "cde", "abcdef", "abhab"], "bcabcdebcedfabcdefababkabhabk");

    assert_eq!(
        result,
        expected(&[
            ("bcd", vec![3, 13]),
            ("cdfkcdf", vec![]),
            ("cde", vec![4, 14]),
            ("abcdef", vec![12]),
            ("abhab", vec![23]),
        ])
    );

    result = index_map(&vec!["she", "shr", "say", "he", "her"], "one day she say her has eaten many shrimps");

    assert_eq!(
        result,
        expected(&[("she", vec![8]), ("he", vec![9, 16]), ("say", vec![12]), ("her", vec![16]), ("shr", vec![35])])
    );

    result = index_map(&vec!["你好", "你好棒", "今天"], "你好，今天你看起来好棒");
    assert_eq!(result, expected(&[("你好", vec![0]), ("今天", vec![9]), ("你好棒", vec![])]));
}

#[test]
fn ac_repeated_and_empty_keys() {
    let keys = vec!["aa", "", "a", "aa"];
    let tree = TrieTree::new(&keys);
    let r = tree.index_of("aaaa");
    assert_eq!(r[0], vec![0, 1, 2]);
    assert_eq!(r[1], Vec::<usize>::new());
    assert_eq!(r[2], vec![0, 1, 2, 3]);
    assert_eq!(r[3], vec![0, 1, 2]);
    assert_eq!(tree.index_of(""), vec![vec![], vec![], vec![], vec![]]);
}

#[test]
fn ac_agrees_with_naive_search() {
    let keys = vec!["ab", "b", "bab", "abab", "ba", "aab"];
    let text = "abababbaabbabababaab";
    let r = TrieTree::new(&keys).index_of(text);
    for (j, k) in keys.iter().enumerate() {
        let naive: Vec<usize> = (0..=text.len() - k.len()).filter(|&p| &text[p..p + k.len()] == *k).collect();
        assert_eq!(r[j], naive);
    }
}
