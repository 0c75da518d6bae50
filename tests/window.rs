use cooccur::window::{get_by_isize, left_nbhood, nbhood_by_iter, right_nbhood, RANGE};

fn words(ws: &[&str]) -> Vec<String> {
    ws.iter().map(|w| w.to_string()).collect()
}

fn entries(es: &[(&str, i32)]) -> Vec<(String, i32)> {
    es.iter().map(|(w, d)| (w.to_string(), *d)).collect()
}

#[test]
fn middle_position_windows() {
    let s = words(&["a", "b", "c", "d"]);
    assert_eq!(left_nbhood(&s, 1), entries(&[("a", 1)]));
    assert_eq!(right_nbhood(&s, 1), entries(&[("c", -1), ("d", -2)]));
}

#[test]
fn start_of_sentence_has_no_left_neighbours() {
    let s = words(&["a", "b", "c", "d"]);
    assert!(left_nbhood(&s, 0).is_empty());
    assert_eq!(right_nbhood(&s, 0), entries(&[("b", -1), ("c", -2), ("d", -3)]));
}

#[test]
fn end_of_sentence_has_no_right_neighbours() {
    let s = words(&["a", "b", "c", "d"]);
    assert!(right_nbhood(&s, 3).is_empty());
    assert_eq!(left_nbhood(&s, 3), entries(&[("a", 3), ("b", 2), ("c", 1)]));
}

#[test]
fn windows_are_capped_at_range() {
    let s = words(&["a", "b", "c", "d", "e", "f", "g", "h"]);
    assert_eq!(RANGE, 3);
    assert_eq!(left_nbhood(&s, 4), entries(&[("b", 3), ("c", 2), ("d", 1)]));
    assert_eq!(right_nbhood(&s, 4), entries(&[("f", -1), ("g", -2), ("h", -3)]));
    for i in 0..s.len() {
        let l = left_nbhood(&s, i);
        let r = right_nbhood(&s, i);
        assert!(l.len() <= 3 && r.len() <= 3);
        assert!(l.iter().all(|(_, d)| (1..=3).contains(d)));
        assert!(r.iter().all(|(_, d)| (-3..=-1).contains(d)));
        for (w, d) in l.iter().chain(r.iter()) {
            let p = i as i64 - *d as i64;
            assert!(p >= 0 && (p as usize) < s.len());
            assert_eq!(&s[p as usize], w);
        }
    }
}

#[test]
fn single_word_sentence_has_empty_windows() {
    let s = words(&["alone"]);
    assert!(left_nbhood(&s, 0).is_empty());
    assert!(right_nbhood(&s, 0).is_empty());
}

#[test]
fn signed_lookup() {
    let s = words(&["x", "y"]);
    assert_eq!(get_by_isize(&s, -1), None);
    assert_eq!(get_by_isize(&s, 0), Some(&"x".to_string()));
    assert_eq!(get_by_isize(&s, 1), Some(&"y".to_string()));
    assert_eq!(get_by_isize(&s, 2), None);
}

#[test]
fn neighbourhood_over_any_offsets() {
    let s = words(&["a", "b", "c", "d", "e"]);
    assert_eq!(nbhood_by_iter(&s, 2, -2, 3), entries(&[("a", 2), ("b", 1), ("c", 0), ("d", -1), ("e", -2)]));
    assert!(nbhood_by_iter(&s, 2, 3, 3).is_empty());
    assert!(nbhood_by_iter(&s, 2, 5, 1).is_empty());
}
