use teleora::statement::complement::{complement_indices, ComplementIndices};

#[test]
fn complement_of_sorted_indices() {
    assert_eq!(complement_indices(&[1, 3], 5), vec![0, 2, 4]);
    assert_eq!(complement_indices(&[], 3), vec![0, 1, 2]);
    assert_eq!(complement_indices(&[0, 1, 2], 3), vec![]);
    assert_eq!(complement_indices(&[], 0), vec![]);
}

#[test]
fn complement_consumes_indices_in_order() {
    assert_eq!(complement_indices(&[3, 1], 5), vec![0, 1, 2, 4]);
}

#[test]
fn iterator_yields_the_same_positions() {
    let indices = [0, 2, 5];
    let mut it = ComplementIndices::new(&indices, 7);
    let mut got = Vec::new();
    while let Some(i) = it.next() {
        got.push(i);
    }
    assert_eq!(got, complement_indices(&indices, 7));
    assert_eq!(got, vec![1, 3, 4, 6]);
    assert_eq!(it.next(), None);
}
