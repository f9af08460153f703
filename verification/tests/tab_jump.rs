use zellij_core::tab_jump::assign_tab_hints;

#[test]
fn test_typical_tab_names() {
    let names = ["fish", "nvim", "htop"];
    let hints = assign_tab_hints(&names);
    assert_eq!(hints[0], Some('f'));
    assert_eq!(hints[1], Some('n'));
    assert_eq!(hints[2], Some('h'));
    // all distinct
    let non_none: Vec<char> = hints.into_iter().flatten().collect();
    assert_eq!(non_none.len(), 3);
    let set: std::collections::HashSet<char> = non_none.into_iter().collect();
    assert_eq!(set.len(), 3);
}

#[test]
fn test_all_same_first_letter() {
    // All start with 'f' - second pass should find other chars
    let names = ["fish", "foo", "far"];
    let hints = assign_tab_hints(&names);
    // first gets 'f', second and third need fallback chars from name or pool
    assert_eq!(hints[0], Some('f'));
    // second tab "foo" -> 'o' (second char)
    assert_eq!(hints[1], Some('o'));
    // third tab "far" -> 'a'
    assert_eq!(hints[2], Some('a'));
    let non_none: Vec<char> = hints.into_iter().flatten().collect();
    let set: std::collections::HashSet<char> = non_none.into_iter().collect();
    assert_eq!(set.len(), 3);
}

#[test]
fn test_empty_names_fall_back_to_pool() {
    let names = ["", "", ""];
    let hints = assign_tab_hints(&names);
    // No alpha chars in name -> falls through to digit/letter pool
    assert_eq!(hints[0], Some('1'));
    assert_eq!(hints[1], Some('2'));
    assert_eq!(hints[2], Some('3'));
}

#[test]
fn test_more_tabs_than_unique_hints() {
    // 37 tabs all named "" -> pool exhausted after 36 (9 digits + 26 letters + '0')
    // Actually pool has 36 chars (1-9=9, 0=1, a-z=26 -> 36 total)
    let names: Vec<&str> = std::iter::repeat("").take(37).collect();
    let hints = assign_tab_hints(&names);
    let non_none_count = hints.iter().filter(|h| h.is_some()).count();
    // 36 unique hints available (digits 1-9, 0, a-z)
    assert_eq!(non_none_count, 36);
    assert_eq!(hints[36], None);
}

#[test]
fn no_two_tabs_share_a_hint() {
    let names = ["abc", "abc", "abc", "ABC", "1abc", "zebra", "", "über", "日本"];
    let hints = assign_tab_hints(&names);
    let mut seen = Vec::new();
    for hint in hints.iter().flatten() {
        assert!(!seen.contains(hint));
        seen.push(*hint);
    }
    assert_eq!(seen.len(), names.len());
    assert_eq!(seen, vec!['a', 'c', '1', '2', '3', 'z', '4', 'b', '5']);
}

#[test]
fn no_tabs_need_no_hints() {
    assert!(assign_tab_hints(&[]).is_empty());
}
