use arena_alloc::{Manager, MyString};

fn manager() -> Manager {
    Manager::new(4096).expect("arena large enough")
}

fn text(s: &MyString) -> String {
    String::from_utf8(s.as_bytes().to_vec()).unwrap()
}

#[test]
fn push_and_push_str_append_utf8() {
    let mut m = manager();
    let mut s = MyString::from_str("alma", &mut m).unwrap();
    s.push_str("\nkecske", &mut m).unwrap();
    s.push('\n', &mut m).unwrap();
    for c in ['b', 'é', 'k', 'a'] {
        s.push(c, &mut m).unwrap();
    }
    assert_eq!(text(&s), "alma\nkecske\nbéka");
    assert_eq!(s.len(), "alma\nkecske\nbéka".len());
}

#[test]
fn insert_at_char_boundaries() {
    let mut m = manager();
    let mut s = MyString::from_str("🚀aá中a🚀中", &mut m).unwrap();
    s.insert(4, 'k', &mut m).unwrap();
    s.insert_str(11, "(inserted)", &mut m).unwrap();
    assert_eq!(text(&s), "🚀kaá中(inserted)a🚀中");
}

#[test]
fn remove_takes_a_whole_character() {
    let mut m = manager();
    let mut s = MyString::from_str("aá中🚀b", &mut m).unwrap();
    assert_eq!(s.remove(3), '中');
    assert_eq!(text(&s), "aá🚀b");
    assert_eq!(s.remove(3), '🚀');
    assert_eq!(s.remove(0), 'a');
    assert_eq!(text(&s), "áb");
}

#[test]
fn pop_takes_characters_from_the_end() {
    let mut m = manager();
    let mut s = MyString::from_str("x🚀中á", &mut m).unwrap();
    assert_eq!(s.pop(), Some('á'));
    assert_eq!(s.pop(), Some('中'));
    assert_eq!(s.pop(), Some('🚀'));
    assert_eq!(s.pop(), Some('x'));
    assert_eq!(s.pop(), None);
    assert!(s.is_empty());
}

#[test]
fn truncate_to_a_boundary() {
    let mut m = manager();
    let mut s = MyString::from_str("héllo", &mut m).unwrap();
    s.truncate(3);
    assert_eq!(text(&s), "hé");
}

#[test]
fn with_capacity_then_fill() {
    let mut m = manager();
    let mut s = MyString::with_capacity(8, &mut m).unwrap();
    assert!(s.is_empty());
    s.push_str("abc", &mut m).unwrap();
    assert_eq!(text(&s), "abc");
    let e = MyString::new();
    assert_eq!(e.len(), 0);
    s.release(&mut m);
}
