use mkcbt::order::{path_precedes, sort_paths};

fn paths(names: &[&str]) -> Vec<Vec<u8>> {
    names.iter().map(|name| name.as_bytes().to_vec()).collect()
}

#[test]
fn paths_are_sorted_byte_by_byte() {
    let sorted = sort_paths(paths(&["dir/b.png", "dir/a.png", "dir/c.avif", "dir/B.png"]));
    assert_eq!(sorted, paths(&["dir/B.png", "dir/a.png", "dir/b.png", "dir/c.avif"]));
}

#[test]
fn shorter_path_stands_before_its_extensions() {
    let sorted = sort_paths(paths(&["d/10.png", "d/1.png", "d/1", "d/2.png", "d/"]));
    assert_eq!(sorted, paths(&["d/", "d/1", "d/1.png", "d/10.png", "d/2.png"]));
}

#[test]
fn sorting_keeps_every_path() {
    let sorted = sort_paths(paths(&["b", "a", "b", "", "a", "b"]));
    assert_eq!(sorted, paths(&["", "a", "a", "b", "b", "b"]));
    assert_eq!(sort_paths(Vec::new()), Vec::<Vec<u8>>::new());
    assert_eq!(sort_paths(paths(&["only"])), paths(&["only"]));
}

#[test]
fn sorting_agrees_with_the_order_of_byte_strings() {
    let mut state = 12345u32;
    let mut input: Vec<Vec<u8>> = Vec::new();
    for _ in 0..200 {
        let mut path = Vec::new();
        state = state.wrapping_mul(1103515245).wrapping_add(12345);
        let len = (state >> 16) % 6;
        for _ in 0..len {
            state = state.wrapping_mul(1103515245).wrapping_add(12345);
            path.push((state >> 16) as u8);
        }
        input.push(path);
    }
    let mut expected = input.clone();
    expected.sort();
    assert_eq!(sort_paths(input.clone()), expected);
    assert_eq!(sort_paths(expected.clone()), expected);
    expected.reverse();
    let mut again = input;
    again.sort();
    assert_eq!(sort_paths(expected), again);
}

#[test]
fn precedes_is_the_dictionary_order() {
    assert!(path_precedes(b"", b""));
    assert!(path_precedes(b"", b"a"));
    assert!(!path_precedes(b"a", b""));
    assert!(path_precedes(b"a", b"a"));
    assert!(path_precedes(b"a", b"ab"));
    assert!(!path_precedes(b"ab", b"a"));
    assert!(path_precedes(b"ab", b"b"));
    assert!(!path_precedes(b"b", b"ab"));
    assert!(path_precedes(b"a\x7f", b"a\x80"));
    assert!(!path_precedes(b"a\xff", b"a\x00"));
}
