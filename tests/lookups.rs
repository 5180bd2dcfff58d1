use trie::{insert, lookup, Trie};

fn listing(t: &Trie) -> Vec<String> {
    let mut it = t.iter();
    let mut out = Vec::new();
    while let Some(s) = it.next() {
        out.push(s);
    }
    out
}

#[test]
fn paths_scenario() {
    let mut t = Trie::new();
    t.insert("/usr/share");
    t.insert("/etc");

    assert!(!t.prefix("/usr/share/dict/words"));
    assert!(!t.prefix("doc"));
    assert!(t.prefix("/usr/sha"));
    assert!(!t.prefix("/usr/shat/stuff"));
    assert!(t.prefix("/etc"));
    assert!(!t.prefix("/etc/"));

    assert!(!t.contains("/usr/share/dict/words"));
    assert!(!t.contains("doc"));
    assert!(t.contains("/usr/share"));
    assert!(!t.contains("/usr/shat/stuff"));
    assert!(t.contains("/etc"));
    assert!(!t.contains("/etc/"));

    assert_eq!(listing(&t), vec!["/etc".to_string(), "/usr/share".to_string()]);
}

#[test]
fn more_paths_are_listed_in_order() {
    let mut t = Trie::new();
    t.insert("/usr/share");
    t.insert("/etc");
    t.insert("/herp/derp");
    t.insert("/usr/lib");
    t.insert("/etc/openvpn");
    assert_eq!(
        listing(&t),
        vec!["/etc", "/etc/openvpn", "/herp/derp", "/usr/lib", "/usr/share"]
    );
    assert!(t.prefix("/etc/"));
    assert!(t.contains("/etc"));
    assert!(!t.contains("/etc/"));
    assert!(!t.contains("/usr"));
    assert!(t.prefix("/usr"));
}

#[test]
fn inserted_string_is_found() {
    let words = ["a", "abc", "héllo", "日本語", "x y z", ""];
    let mut t = Trie::new();
    for w in words.iter() {
        t.insert(w);
        assert!(t.contains(w));
        assert!(t.prefix(w));
    }
    for w in words.iter() {
        assert!(t.contains(w));
    }
}

#[test]
fn every_prefix_of_a_stored_string_is_a_prefix() {
    let mut t = Trie::new();
    t.insert("hello");
    for p in ["", "h", "he", "hel", "hell", "hello"] {
        assert!(t.prefix(p), "{}", p);
    }
    assert!(!t.prefix("hellox"));
    assert!(!t.prefix("help"));
    assert!(!t.contains("hell"));
    assert!(t.contains("hello"));
}

#[test]
fn empty_string_on_empty_tree() {
    let t = Trie::new();
    assert!(t.prefix(""));
    assert!(!t.contains(""));
    assert!(!t.prefix("a"));
    assert!(!t.contains("a"));
    assert!(listing(&t).is_empty());
}

#[test]
fn empty_string_stored_only_when_inserted() {
    let mut t = Trie::new();
    t.insert("abc");
    assert!(!t.contains(""));
    assert!(t.prefix(""));
    t.insert("");
    assert!(t.contains(""));
    assert_eq!(listing(&t), vec!["", "abc"]);
}

#[test]
fn inserting_twice_changes_nothing() {
    let mut once = Trie::new();
    once.insert("car");
    once.insert("cart");
    let mut twice = Trie::new();
    twice.insert("car");
    twice.insert("cart");
    twice.insert("car");
    twice.insert("cart");
    assert_eq!(listing(&once), listing(&twice));
    for q in ["", "c", "ca", "car", "cart", "carts", "d"] {
        assert_eq!(once.contains(q), twice.contains(q));
        assert_eq!(once.prefix(q), twice.prefix(q));
    }
}

#[test]
fn listing_is_complete_whatever_the_insertion_order() {
    let words = ["tea", "ten", "to", "inn", "in", "i", "A"];
    let mut forward = Trie::new();
    for w in words.iter() {
        forward.insert(w);
    }
    let mut backward = Trie::new();
    for w in words.iter().rev() {
        backward.insert(w);
    }
    let out = listing(&forward);
    assert_eq!(out, listing(&backward));
    assert_eq!(out.len(), words.len());
    for w in words.iter() {
        assert_eq!(out.iter().filter(|s| s == w).count(), 1);
    }
}

#[test]
fn listing_is_in_character_code_order() {
    let mut t = Trie::new();
    for w in ["b", "ab", "a", "é", "z", "B", "aa", ""] {
        t.insert(w);
    }
    let out = listing(&t);
    assert_eq!(out, vec!["", "B", "a", "aa", "ab", "b", "z", "é"]);
    let mut sorted = out.clone();
    sorted.sort();
    assert_eq!(out, sorted);
}

#[test]
fn unrelated_strings_are_not_found() {
    let mut t = Trie::new();
    t.insert("/usr");
    t.insert("/etc");
    assert!(!t.contains("x"));
    assert!(!t.prefix("x"));
    assert!(!t.contains("usr"));
    assert!(!t.prefix("usr"));
    assert!(!t.prefix("étc"));
}

#[test]
fn walks_are_independent_and_restartable() {
    let mut t = Trie::new();
    t.insert("one");
    t.insert("two");
    let mut a = t.iter();
    let mut b = t.iter();
    assert_eq!(a.next(), Some("one".to_string()));
    assert_eq!(b.next(), Some("one".to_string()));
    assert_eq!(a.next(), Some("two".to_string()));
    assert_eq!(a.next(), None);
    assert_eq!(a.next(), None);
    assert_eq!(b.next(), Some("two".to_string()));
    assert_eq!(listing(&t), vec!["one", "two"]);
}

#[test]
fn long_string_is_walked_without_trouble() {
    let long: String = std::iter::repeat('q').take(5000).collect();
    let mut t = Trie::new();
    t.insert(&long);
    t.insert("q");
    assert!(t.contains(&long));
    assert!(t.prefix(&long[..2500]));
    assert!(!t.contains(&long[..2500]));
    assert_eq!(listing(&t), vec!["q".to_string(), long]);
}

#[test]
fn character_level_insert_and_lookup() {
    let mut t = Trie::new();
    let word: Vec<char> = "añb".chars().collect();
    insert(&mut t, &word);
    assert!(lookup(&t, &word, false));
    assert!(lookup(&t, &word, true));
    let head: Vec<char> = "añ".chars().collect();
    assert!(lookup(&t, &head, true));
    assert!(!lookup(&t, &head, false));
    assert!(lookup(&t, &Vec::new(), true));
    assert!(!lookup(&t, &Vec::new(), false));
    let other: Vec<char> = "ab".chars().collect();
    assert!(!lookup(&t, &other, true));
    assert!(t.contains("añb"));
}
