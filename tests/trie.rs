use crawdad::{CrawdadError, Trie};

fn all_matches(trie: &Trie, text: &str) -> Vec<(u32, usize)> {
    let mut mapped = vec![];
    trie.map_text(text, &mut mapped);
    let mut matches = vec![];
    for i in 0..mapped.len() {
        let mut searcher = trie.common_prefix_searcher(&mapped[i..]);
        while let Some(m) = searcher.next() {
            matches.push((m.value(), i + m.end()));
        }
    }
    matches
}

#[test]
fn test_exact_match() {
    let keys = vec!["世界", "世界中", "世直し", "直し中"];
    let trie = Trie::from_keys(&keys).unwrap();
    for (i, key) in keys.iter().enumerate() {
        assert_eq!(trie.exact_match(key), Some(i as u32));
    }
    assert_eq!(trie.exact_match("世"), None);
    assert_eq!(trie.exact_match("日本"), None);
    assert_eq!(trie.exact_match("世界中で"), None);
    assert_eq!(trie.exact_match("直し"), None);
}

#[test]
fn test_common_prefix_search() {
    let keys = vec!["世界", "世界中", "世直し", "直し中"];
    let trie = Trie::from_keys(&keys).unwrap();

    let mut mapped = vec![];
    trie.map_text("世界中で世直し中", &mut mapped);

    let mut matches = vec![];
    for i in 0..mapped.len() {
        let mut searcher = trie.common_prefix_searcher(&mapped[i..]);
        while let Some(m) = searcher.next() {
            matches.push((m.value(), i + m.end()));
        }
    }
    assert_eq!(matches, vec![(0, 2), (1, 3), (2, 7), (3, 8)]);
}

#[test]
fn scenario_world_and_people() {
    let keys = vec!["世界", "世界中", "国民"];
    let trie = Trie::from_keys(&keys).unwrap();
    assert_eq!(trie.exact_match("世界中"), Some(1));
    assert_eq!(trie.exact_match("日本"), None);
    assert_eq!(all_matches(&trie, "国民が世界中にて"), vec![(2, 2), (0, 5), (1, 6)]);
}

#[test]
fn records_keep_their_values() {
    let records = vec![("世界", 2), ("世界中", 3), ("国民", 2)];
    let trie = Trie::from_records(&records).unwrap();
    assert_eq!(trie.exact_match("世界"), Some(2));
    assert_eq!(trie.exact_match("世界中"), Some(3));
    assert_eq!(trie.exact_match("国民"), Some(2));
    assert_eq!(trie.exact_match("国"), None);
}

#[test]
fn construction_failures() {
    let empty: Vec<&str> = vec![];
    assert_eq!(Trie::from_keys(&empty).err(), Some(CrawdadError::EmptyInput));
    assert_eq!(Trie::from_keys(&["b", "a"]).err(), Some(CrawdadError::UnsortedInput));
    assert_eq!(Trie::from_keys(&["a", "a"]).err(), Some(CrawdadError::DuplicateKey));
    assert_eq!(Trie::from_keys(&[""]).err(), Some(CrawdadError::EmptyKey));
    assert_eq!(Trie::from_keys(&["a", ""]).err(), Some(CrawdadError::EmptyKey));
    assert_eq!(
        Trie::from_records(&[("a", 1), ("b", 0x8000_0000)]).err(),
        Some(CrawdadError::CapacityExceeded)
    );
    assert_eq!(Trie::from_records(&[("a", 0x7fff_ffff)]).unwrap().exact_match("a"), Some(0x7fff_ffff));
    assert_eq!(Trie::from_keys(&["ab", "a"]).err(), Some(CrawdadError::UnsortedInput));
    assert_eq!(Trie::from_keys(&["a", "b", "b", "a"]).err(), Some(CrawdadError::DuplicateKey));
    assert!(!CrawdadError::EmptyKey.message().is_empty());
}

fn sample_keys() -> Vec<String> {
    let mut keys = vec![];
    let alphabet = ['a', 'b', 'c', 'é', '日', '本'];
    let mut state = 7u32;
    for _ in 0..400 {
        state = state.wrapping_mul(1664525).wrapping_add(1013904223);
        let len = 1 + (state >> 28) as usize % 6;
        let mut s = String::new();
        let mut st = state;
        for _ in 0..len {
            st = st.wrapping_mul(22695477).wrapping_add(1);
            s.push(alphabet[(st >> 24) as usize % alphabet.len()]);
        }
        keys.push(s);
    }
    keys.sort();
    keys.dedup();
    keys
}

#[test]
fn round_trip_on_many_keys() {
    let keys = sample_keys();
    let refs: Vec<&str> = keys.iter().map(|s| s.as_str()).collect();
    let trie = Trie::from_keys(&refs).unwrap();
    for (i, k) in keys.iter().enumerate() {
        assert_eq!(trie.exact_match(k), Some(i as u32));
    }
    for probe in ["", "x", "日本語", "aaaaaaaaaaaa", "ébc日z"] {
        let expected = keys.iter().position(|k| k == probe).map(|i| i as u32);
        assert_eq!(trie.exact_match(probe), expected);
    }
    for k in keys.iter() {
        let mut longer = k.clone();
        longer.push('a');
        let expected = keys.iter().position(|x| *x == longer).map(|i| i as u32);
        assert_eq!(trie.exact_match(&longer), expected);
    }
}

#[test]
fn prefix_search_matches_brute_force() {
    let keys = sample_keys();
    let refs: Vec<&str> = keys.iter().map(|s| s.as_str()).collect();
    let trie = Trie::from_keys(&refs).unwrap();
    let text = "abé日本cabbaé本日ca";
    let chars: Vec<char> = text.chars().collect();
    let mut expected = vec![];
    for i in 0..chars.len() {
        for (v, k) in keys.iter().enumerate() {
            let kc: Vec<char> = k.chars().collect();
            if i + kc.len() <= chars.len() && chars[i..i + kc.len()] == kc[..] {
                expected.push((v as u32, i + kc.len()));
            }
        }
    }
    expected.sort_by_key(|&(v, e)| (e - keys[v as usize].chars().count(), e));
    let got = all_matches(&trie, text);
    assert_eq!(got, expected);
}

#[test]
fn building_twice_gives_same_answers() {
    let keys = sample_keys();
    let refs: Vec<&str> = keys.iter().map(|s| s.as_str()).collect();
    let t1 = Trie::from_keys(&refs).unwrap();
    let t2 = Trie::from_keys(&refs).unwrap();
    for k in keys.iter() {
        assert_eq!(t1.exact_match(k), t2.exact_match(k));
    }
    for text in ["abé日本cab", "日本日本", "zzz"] {
        assert_eq!(all_matches(&t1, text), all_matches(&t2, text));
    }
}

#[test]
fn unmappable_characters_end_the_match() {
    let trie = Trie::from_keys(&["ab", "abc"]).unwrap();
    let mut mapped = vec![Some(99)];
    trie.map_text("axbc", &mut mapped);
    assert_eq!(mapped.len(), 4);
    assert_eq!(mapped[1], None);
    assert!(mapped[0].is_some());
    assert_eq!(all_matches(&trie, "abxabc"), vec![(0, 2), (0, 5), (1, 6)]);
    assert_eq!(trie.exact_match("axb"), None);
}

#[test]
fn statistics() {
    let trie = Trie::from_keys(&["世界", "世界中", "国民"]).unwrap();
    assert!(trie.num_elems() >= 7);
    assert!(trie.num_vacants() < trie.num_elems());
    assert!(trie.heap_bytes() >= trie.num_elems() * 8);
}

#[test]
fn records_with_rank_values_match_keys() {
    let keys = vec!["a", "ab", "b", "日本", "日本語"];
    let records: Vec<(&str, u32)> = keys.iter().enumerate().map(|(i, k)| (*k, i as u32)).collect();
    let t1 = Trie::from_keys(&keys).unwrap();
    let t2 = Trie::from_records(&records).unwrap();
    for probe in ["a", "ab", "abc", "b", "日", "日本", "日本語", "x", ""] {
        assert_eq!(t1.exact_match(probe), t2.exact_match(probe));
    }
}

#[test]
fn records_sharing_values_build() {
    let records = vec![("世界", 2), ("世界中", 3), ("国民", 2)];
    assert!(Trie::from_records(&records).is_ok());
}
