use emend_lt::dict::Dictionary;
use emend_lt::fsa::Cfsa2;
use emend_lt::speller::Speller;

/// A two-word automaton: the root holds a final terminal arc for `a`,
/// then one for `b` that is the node's last arc.
fn two_words() -> Vec<u8> {
    let mut b = vec![0x5c, 0x66, 0x73, 0x61, 0xc6, 0, 0, 0];
    b.extend_from_slice(&[0xC0, 0, 0x20, b'a', 0, 0x60, b'b', 0]);
    b
}

#[test]
fn arc_walk_of_a_node() {
    let f = Cfsa2::parse(&two_words()).unwrap();
    let root = f.root_node();
    assert_eq!(root, 2);
    let first = f.get_first_arc(root);
    assert_eq!(first, 2);
    assert_eq!(f.get_arc_label(first), b'a');
    let next = f.get_next_arc(first);
    assert_eq!(next, 5);
    assert_eq!(f.get_arc_label(next), b'b');
    assert_eq!(f.get_next_arc(next), 0);
    assert_eq!(f.get_arc(root, b'a'), first);
    assert_eq!(f.get_arc(root, b'b'), next);
    assert_eq!(f.get_arc(root, b'c'), 0);
    assert!(f.is_arc_final(first));
    assert!(f.is_arc_terminal(next));
}

#[test]
fn next_arc_is_the_offset_past_the_arc() {
    let f = Cfsa2::parse(&[0x5c, 0x66, 0x73, 0x61, 0xc6, 0, 0, 0, 0x81, 0xC1]).unwrap();
    assert_eq!(f.get_next_arc(0), 1);
}

#[test]
fn speller_and_dictionary_agree() {
    let bytes = two_words();
    let s = Speller::load(&bytes, "").unwrap();
    let d = Dictionary::load(&bytes, "").unwrap();
    for w in ["a", "b", "c", "ab", "ba"] {
        assert_eq!(s.is_in_dictionary(w), d.contains(w));
    }
    assert!(d.contains("a"));
    assert!(d.contains("b"));
    assert!(!d.contains("c"));
    assert!(!d.contains("ab"));
}
