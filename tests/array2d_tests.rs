use dense_array::array2d::{Array2D, Coord2D};

fn collect(a: &Array2D<i32>) -> Vec<(Coord2D, i32)> {
    let mut out = Vec::new();
    let mut it = a.iter();
    while let Some((c, v)) = it.next() {
        out.push((c, *v));
    }
    out
}

#[test]
fn example_set_then_read_back() {
    let mut a: Array2D<i32> = Array2D::new_with(3, 2, 0);
    a.set(Coord2D::from((1, 0)), 5);
    assert_eq!(*a.at(Coord2D::new(1, 0)), 5);
    assert_eq!(a.data(), &[0, 5, 0, 0, 0, 0]);
    let coords: Vec<(usize, usize)> = collect(&a).iter().map(|(c, _)| (c.x, c.y)).collect();
    assert_eq!(coords, vec![(0, 0), (1, 0), (2, 0), (0, 1), (1, 1), (2, 1)]);
    let values: Vec<i32> = collect(&a).iter().map(|(_, v)| *v).collect();
    assert_eq!(values, vec![0, 5, 0, 0, 0, 0]);
}

#[test]
fn new_fills_with_default() {
    let a: Array2D<u8> = Array2D::new(4, 3);
    assert_eq!(a.width(), 4);
    assert_eq!(a.height(), 3);
    assert_eq!(a.data().len(), 12);
    assert!(a.data().iter().all(|v| *v == 0));
}

#[test]
fn coord_conversions() {
    assert_eq!(Coord2D::from((3, 4)), Coord2D { x: 3, y: 4 });
    assert_eq!(Coord2D::from([3, 4]), Coord2D::new(3, 4));
    let c: Coord2D = (7, 1).into();
    assert_eq!(c, Coord2D::new(7, 1));
}

#[test]
fn set_changes_only_one_cell() {
    let mut a: Array2D<i32> = Array2D::new_with(4, 3, 1);
    a.set(Coord2D::new(3, 2), 9);
    for y in 0..3 {
        for x in 0..4 {
            let expected = if (x, y) == (3, 2) { 9 } else { 1 };
            assert_eq!(*a.at(Coord2D::new(x, y)), expected);
        }
    }
    assert_eq!(a.data()[3 + 4 * 2], 9);
}

#[test]
fn at_mut_writes_through() {
    let mut a: Array2D<i32> = Array2D::new_with(2, 2, 0);
    *a.at_mut(Coord2D::new(0, 1)) = 42;
    assert_eq!(a.data(), &[0, 0, 42, 0]);
}

#[test]
fn data_mut_writes_in_row_major_order() {
    let mut a: Array2D<i32> = Array2D::new_with(3, 2, 0);
    a.data_mut()[4] = 8;
    assert_eq!(*a.at(Coord2D::new(1, 1)), 8);
}

#[test]
fn iteration_covers_every_cell_once_in_order() {
    let mut a: Array2D<i32> = Array2D::new_with(4, 3, 0);
    for y in 0..3 {
        for x in 0..4 {
            a.set(Coord2D::new(x, y), (10 * y + x) as i32);
        }
    }
    let all = collect(&a);
    assert_eq!(all.len(), 12);
    for (i, (c, v)) in all.iter().enumerate() {
        assert_eq!(*c, Coord2D::new(i % 4, i / 4));
        assert_eq!(*v, (10 * c.y + c.x) as i32);
    }
}

#[test]
fn iteration_restarts_and_stays_ended() {
    let a: Array2D<i32> = Array2D::new_with(2, 1, 3);
    assert_eq!(collect(&a).len(), 2);
    assert_eq!(collect(&a).len(), 2);
    let mut it = a.iter();
    assert!(it.next().is_some());
    assert!(it.next().is_some());
    assert!(it.next().is_none());
    assert!(it.next().is_none());
}

#[test]
fn empty_array_yields_nothing() {
    let a: Array2D<i32> = Array2D::new_with(0, 5, 1);
    assert_eq!(a.data().len(), 0);
    assert!(a.iter().next().is_none());
    let mut b: Array2D<i32> = Array2D::new_with(3, 0, 1);
    assert!(b.iter_mut().next().is_none());
}

#[test]
fn iter_mut_markers_read_back() {
    let mut a: Array2D<i32> = Array2D::new_with(3, 4, -1);
    let mut seen = Vec::new();
    {
        let mut it = a.iter_mut();
        let mut k = 0;
        while let Some((c, v)) = it.next() {
            assert_eq!(*v, -1);
            *v = 100 + k;
            seen.push((c, 100 + k));
            k += 1;
        }
    }
    assert_eq!(seen.len(), 12);
    for (i, (c, m)) in seen.iter().enumerate() {
        assert_eq!(*c, Coord2D::new(i % 3, i / 3));
        assert_eq!(*a.at(*c), *m);
    }
}

#[test]
fn iter_mut_references_held_together() {
    let mut a: Array2D<i32> = Array2D::new_with(2, 2, 0);
    {
        let mut it = a.iter_mut();
        let (_, r0) = it.next().unwrap();
        let (_, r1) = it.next().unwrap();
        let (_, r2) = it.next().unwrap();
        let (_, r3) = it.next().unwrap();
        *r3 = 4;
        *r1 = 2;
        *r0 = 1;
        *r2 = 3;
        assert!(it.next().is_none());
    }
    assert_eq!(a.data(), &[1, 2, 3, 4]);
}

#[test]
fn sub_extracts_rectangle() {
    let mut a: Array2D<i32> = Array2D::new_with(4, 3, 0);
    for y in 0..3 {
        for x in 0..4 {
            a.set(Coord2D::new(x, y), (10 * y + x) as i32);
        }
    }
    let s = a.sub(Coord2D::new(1, 1), 2, 2);
    assert_eq!(s.width(), 2);
    assert_eq!(s.height(), 2);
    assert_eq!(s.data(), &[11, 12, 21, 22]);
}

#[test]
fn sub_is_independent_copy() {
    let a: Array2D<String> = Array2D::new_with(2, 2, "a".to_string());
    let mut s = a.sub(Coord2D::new(0, 0), 2, 1);
    s.set(Coord2D::new(0, 0), "b".to_string());
    assert_eq!(a.at(Coord2D::new(0, 0)), "a");
    assert_eq!(s.at(Coord2D::new(0, 0)), "b");
    assert_eq!(s.at(Coord2D::new(1, 0)), "a");
}

#[test]
fn copy_blits_and_leaves_rest() {
    let mut a: Array2D<i32> = Array2D::new_with(4, 3, 0);
    let mut src: Array2D<i32> = Array2D::new_with(2, 2, 0);
    src.set(Coord2D::new(0, 0), 1);
    src.set(Coord2D::new(1, 0), 2);
    src.set(Coord2D::new(0, 1), 3);
    src.set(Coord2D::new(1, 1), 4);
    a.copy(&src, Coord2D::new(2, 1));
    assert_eq!(a.data(), &[0, 0, 0, 0, 0, 0, 1, 2, 0, 0, 3, 4]);
}

#[test]
fn sub_copy_round_trip() {
    let mut a: Array2D<i32> = Array2D::new_with(5, 4, 0);
    for y in 0..4 {
        for x in 0..5 {
            a.set(Coord2D::new(x, y), (x * 7 + y * 3) as i32);
        }
    }
    let part = a.sub(Coord2D::new(1, 2), 3, 2);
    let mut b: Array2D<i32> = Array2D::new_with(5, 4, -5);
    b.copy(&part, Coord2D::new(1, 2));
    for y in 0..4 {
        for x in 0..5 {
            let c = Coord2D::new(x, y);
            let inside = (1..4).contains(&x) && (2..4).contains(&y);
            if inside {
                assert_eq!(b.at(c), a.at(c));
            } else {
                assert_eq!(*b.at(c), -5);
            }
        }
    }
}

#[test]
fn copy_of_whole_array() {
    let src: Array2D<i32> = Array2D::new_with(3, 2, 6);
    let mut a: Array2D<i32> = Array2D::new_with(3, 2, 1);
    a.copy(&src, Coord2D::new(0, 0));
    assert_eq!(a.data(), &[6, 6, 6, 6, 6, 6]);
}
