use dense_array::array2d::{Array2D, Coord2D};
use dense_array::array3d::{Array3D, Coord3D};

#[test]
fn new3_fills_with_default() {
    let a: Array3D<i64> = Array3D::new(2, 3, 4);
    assert_eq!((a.width(), a.height(), a.depth()), (2, 3, 4));
    assert_eq!(a.data().len(), 24);
    assert!(a.data().iter().all(|v| *v == 0));
}

#[test]
fn coord3_conversions() {
    assert_eq!(Coord3D::from((1, 2, 3)), Coord3D { x: 1, y: 2, z: 3 });
    assert_eq!(Coord3D::from([1, 2, 3]), Coord3D::new(1, 2, 3));
}

#[test]
fn set3_then_read_back() {
    let mut a: Array3D<i32> = Array3D::new_with(2, 3, 2, 0);
    a.set(Coord3D::new(1, 2, 1), 7);
    assert_eq!(*a.at(Coord3D::new(1, 2, 1)), 7);
    assert_eq!(a.data()[1 + 2 * 2 + 2 * 3 * 1], 7);
    let nonzero = a.data().iter().filter(|v| **v != 0).count();
    assert_eq!(nonzero, 1);
    *a.at_mut(Coord3D::new(0, 0, 1)) = 3;
    assert_eq!(a.data()[6], 3);
    a.data_mut()[0] = 5;
    assert_eq!(*a.at(Coord3D::new(0, 0, 0)), 5);
}

#[test]
fn iteration3_order() {
    let a: Array3D<i32> = Array3D::new_with(2, 2, 2, 0);
    let mut coords = Vec::new();
    let mut it = a.iter();
    while let Some((c, _)) = it.next() {
        coords.push((c.x, c.y, c.z));
    }
    assert_eq!(
        coords,
        vec![
            (0, 0, 0),
            (1, 0, 0),
            (0, 1, 0),
            (1, 1, 0),
            (0, 0, 1),
            (1, 0, 1),
            (0, 1, 1),
            (1, 1, 1)
        ]
    );
    assert!(it.next().is_none());
}

#[test]
fn iteration3_values_match_cells() {
    let mut a: Array3D<i32> = Array3D::new_with(3, 2, 2, 0);
    a.set(Coord3D::new(2, 1, 1), 9);
    let mut it = a.iter();
    let mut n = 0;
    while let Some((c, v)) = it.next() {
        assert_eq!(*v, *a.at(c));
        n += 1;
    }
    assert_eq!(n, 12);
}

#[test]
fn empty3_yields_nothing() {
    let mut a: Array3D<i32> = Array3D::new_with(2, 2, 0, 1);
    assert!(a.iter().next().is_none());
    assert!(a.iter_mut().next().is_none());
}

#[test]
fn iter_mut3_markers_read_back() {
    let mut a: Array3D<i32> = Array3D::new_with(2, 3, 2, 0);
    let mut seen = Vec::new();
    {
        let mut it = a.iter_mut();
        let mut k = 1;
        while let Some((c, v)) = it.next() {
            *v = k;
            seen.push((c, k));
            k += 1;
        }
    }
    assert_eq!(seen.len(), 12);
    for (c, m) in seen {
        assert_eq!(*a.at(c), m);
    }
    assert_eq!(a.data(), &[1, 2, 3, 4, 5, 6, 7, 8, 9, 10, 11, 12]);
}

#[test]
fn copy_2d_touches_one_plane_footprint() {
    let mut a: Array3D<i32> = Array3D::new_with(3, 3, 3, 0);
    let src: Array2D<i32> = Array2D::new_with(2, 2, 1);
    a.copy_2d(&src, Coord3D::new(1, 0, 1));
    for z in 0..3 {
        for y in 0..3 {
            for x in 0..3 {
                let inside = z == 1 && (1..3).contains(&x) && y < 2;
                let expected = if inside { 1 } else { 0 };
                assert_eq!(*a.at(Coord3D::new(x, y, z)), expected);
            }
        }
    }
}

#[test]
fn copy_2d_places_source_cells() {
    let mut a: Array3D<i32> = Array3D::new_with(3, 2, 2, 0);
    let mut src: Array2D<i32> = Array2D::new_with(2, 2, 0);
    src.set(Coord2D::new(0, 0), 1);
    src.set(Coord2D::new(1, 0), 2);
    src.set(Coord2D::new(0, 1), 3);
    src.set(Coord2D::new(1, 1), 4);
    a.copy_2d(&src, Coord3D::new(1, 0, 1));
    assert_eq!(a.data(), &[0, 0, 0, 0, 0, 0, 0, 1, 2, 0, 3, 4]);
}

#[test]
fn copy_2d_empty_source_is_no_op() {
    let mut a: Array3D<i32> = Array3D::new_with(2, 2, 2, 5);
    let src: Array2D<i32> = Array2D::new_with(2, 0, 1);
    a.copy_2d(&src, Coord3D::new(0, 0, 7));
    assert!(a.data().iter().all(|v| *v == 5));
}
