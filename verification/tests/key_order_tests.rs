use accman::key_order::{compare_keys, KeyOrder};

#[test]
fn keys_compare_as_strings_do() {
    let keys = ["", "a", "A", "a0", "aa", "ab", "b", "google0", "google1", "é", "ée", "~", "日本"];
    for a in keys {
        for b in keys {
            let expected = if a < b {
                KeyOrder::Before
            } else if a == b {
                KeyOrder::Same
            } else {
                KeyOrder::After
            };
            assert_eq!(compare_keys(a, b), expected, "{:?} and {:?}", a, b);
        }
    }
}

#[test]
fn a_proper_prefix_comes_first() {
    assert_eq!(compare_keys("mail", "mailbox"), KeyOrder::Before);
    assert_eq!(compare_keys("mailbox", "mail"), KeyOrder::After);
    assert_eq!(compare_keys("", "a"), KeyOrder::Before);
    assert_eq!(compare_keys("", ""), KeyOrder::Same);
}
