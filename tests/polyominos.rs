use polytiles::polyominos::{generate_all_polyominos, Polyomino, adjacent_coords};
use polytiles::symmetry::Symmetry;

fn find_global_poly(catalog: &[Polyomino], coords: Vec<(i8, i8)>) -> &Polyomino {
    for poly in catalog.iter() {
        if poly.coords().to_vec() == coords {
            return poly;
        }
    }
    panic!();
}

#[test]
fn test_coord_sort() {
    let test = vec![(0, 1), (1, 0), (0, 0)];
    let sorted = vec![(0, 0), (0, 1), (1, 0)];

    let poly = Polyomino::new(&test);
    assert_eq!(poly.coords.to_vec(), sorted);

    let test = vec![(1, 0), (0, 0), (0, 2), (0, 1)];
    let sorted = vec![(0, 0), (0, 1), (0, 2), (1, 0)];

    let poly = Polyomino::new(&test);
    assert_eq!(poly.coords.to_vec(), sorted);

    let test = vec![(0, 0)];
    let sorted = vec![(0, 0)];

    let poly = Polyomino::new(&test);
    assert_eq!(poly.coords.to_vec(), sorted);
}

#[test]
fn test_flips() {
    // X
    // XXX
    let leg = vec![(0, 0), (0, 1), (1, 1), (2, 1)];

    //   X
    // XXX
    let h_leg = vec![(-2, 1), (-1, 1), (0, 0), (0, 1)];

    // XXX
    // X
    let v_leg = vec![(0, 0), (0, 1), (1, 0), (2, 0)];

    // XXX
    //   X
    let hv_leg = vec![(0, 0), (1, 0), (2, 0), (2, 1)];

    // XX
    //  X
    //  X
    let d_leg = vec![(0, 0), (1, 0), (1, 1), (1, 2)];

    //  X
    //  X
    // XX
    let hd_leg = vec![(-1, 2), (0, 0), (0, 1), (0, 2)];

    // XX
    // X
    // X
    let vd_leg = vec![(0, 0), (0, 1), (0, 2), (1, 0)];

    // X
    // X
    // XX
    let hvd_leg = vec![(0, 0), (0, 1), (0, 2), (1, 2)];

    let poly = Polyomino::new(&leg);
    let mut h_poly = poly.clone();
    let mut v_poly = poly.clone();
    let mut hv_poly = poly.clone();
    let mut d_poly = poly.clone();
    let mut hd_poly = poly.clone();
    let mut vd_poly = poly.clone();
    let mut hvd_poly = poly.clone();
    h_poly.apply_flips(Symmetry::from_flips(true, false, false));
    v_poly.apply_flips(Symmetry::from_flips(false, true, false));
    hv_poly.apply_flips(Symmetry::from_flips(true, true, false));
    d_poly.apply_flips(Symmetry::from_flips(false, false, true));
    hd_poly.apply_flips(Symmetry::from_flips(true, false, true));
    vd_poly.apply_flips(Symmetry::from_flips(false, true, true));
    hvd_poly.apply_flips(Symmetry::from_flips(true, true, true));

    assert_eq!(h_poly.coords.to_vec(), h_leg);
    assert_eq!(v_poly.coords.to_vec(), v_leg);
    assert_eq!(hv_poly.coords.to_vec(), hv_leg);
    assert_eq!(d_poly.coords.to_vec(), d_leg);
    assert_eq!(hd_poly.coords.to_vec(), hd_leg);
    assert_eq!(vd_poly.coords.to_vec(), vd_leg);
    assert_eq!(hvd_poly.coords.to_vec(), hvd_leg);

    let all_poly = vec![poly, h_poly, v_poly, hv_poly, d_poly, hd_poly, vd_poly, hvd_poly];
    let transforms = all_poly[0].compute_transforms(&all_poly).unwrap();
    let index = Symmetry::from_flips(false, false, false).into_index();
    let h_index = Symmetry::from_flips(true, false, false).into_index();
    let v_index = Symmetry::from_flips(false, true, false).into_index();
    let hv_index = Symmetry::from_flips(true, true, false).into_index();
    let d_index = Symmetry::from_flips(false, false, true).into_index();
    let hd_index = Symmetry::from_flips(true, false, true).into_index();
    let vd_index = Symmetry::from_flips(false, true, true).into_index();
    let hvd_index = Symmetry::from_flips(true, true, true).into_index();
    assert_eq!(transforms[index], 0);
    assert_eq!(transforms[h_index], 1);
    assert_eq!(transforms[v_index], 2);
    assert_eq!(transforms[hv_index], 3);
    assert_eq!(transforms[d_index], 4);
    assert_eq!(transforms[hd_index], 5);
    assert_eq!(transforms[vd_index], 6);
    assert_eq!(transforms[hvd_index], 7);
}

#[test]
fn test_to_string() {
    // X
    // XX
    //  X
    let test = vec![(0, 0), (0, 1), (1, 1), (1, 2)];
    let output = "@ \n##\n #\n";

    let poly = Polyomino::new(&test);
    assert_eq!(poly.to_string(), output);
}

#[test]
fn test_transform() {
    let catalog = generate_all_polyominos(4);
    // X
    // X
    // XX
    let original = find_global_poly(&catalog, vec![(0, 0), (0, 1), (0, 2), (1, 2)]);

    //  X
    //  X
    // XX
    let h_flip = find_global_poly(&catalog, vec![(-1, 2), (0, 0), (0, 1), (0, 2)]);

    assert_eq!(original.transform(Symmetry::from_flips(true, false, false), &catalog), h_flip);
    assert_eq!(h_flip.transform(Symmetry::from_flips(true, false, false), &catalog), original);

    // XX
    // X
    // X
    let v_flip = find_global_poly(&catalog, vec![(0, 0), (0, 1), (0, 2), (1, 0)]);

    assert_eq!(original.transform(Symmetry::from_flips(false, true, false), &catalog), v_flip);
    assert_eq!(v_flip.transform(Symmetry::from_flips(false, true, false), &catalog), original);

    // XXX
    //   X
    let d_flip = find_global_poly(&catalog, vec![(0, 0), (1, 0), (2, 0), (2, 1)]);

    assert_eq!(original.transform(Symmetry::from_flips(false, false, true), &catalog), d_flip);
    assert_eq!(d_flip.transform(Symmetry::from_flips(false, false, true), &catalog), original);
}

#[test]
fn test_comparison() {
    let small_tall = Polyomino::new(&vec![(0, 0), (0, 1)]);
    let big_square = Polyomino::new(&vec![(0, 0), (0, 1), (1, 0), (1, 1)]);
    assert_eq!(small_tall < big_square, true, "{:?} < {:?}", small_tall, big_square);

    let small_flat = Polyomino::new(&vec![(0, 0), (1, 0)]);
    assert_eq!(small_tall < small_flat, true, "{:?} < {:?}", small_tall, small_flat);

    let mut all = vec![small_flat.clone(), big_square.clone(), small_tall.clone()];
    all.sort_by(|a, b| a.partial_cmp(b).unwrap());
    assert_eq!(all, vec![small_tall, small_flat, big_square]);

    //  XX
    // XX
    let zig_wide = Polyomino::new(&vec![(-1, 1), (0, 0), (0, 1), (1, 0)]);

    //  X
    // XX
    // X
    let zig_tall = Polyomino::new(&vec![(-1, 1), (-1, 2), (0, 0), (0, 1)]);
    assert_eq!(zig_tall < zig_wide, true, "{:?} < {:?}", zig_tall, zig_wide);
}

#[test]
fn catalog_has_every_free_shape_up_to_four_cells_once() {
    let catalog = generate_all_polyominos(4);
    let count = |n: usize| catalog.iter().filter(|p| p.coords().len() == n).count();
    assert_eq!(count(1), 1);
    assert_eq!(count(2), 2);
    assert_eq!(count(3), 6);
    assert_eq!(count(4), 19);
    for i in 0..catalog.len() {
        for j in (i + 1)..catalog.len() {
            assert!(catalog[i] < catalog[j]);
        }
    }
}

#[test]
fn identity_transform_keeps_every_catalog_shape() {
    let catalog = generate_all_polyominos(4);
    for (i, p) in catalog.iter().enumerate() {
        assert_eq!(p.symmetries[0], i);
        assert_eq!(p.transform(Symmetry::from_index(0), &catalog), p);
    }
}

#[test]
fn composed_transforms_match_the_table() {
    let catalog = generate_all_polyominos(4);
    for p in catalog.iter() {
        for i in 0..8 {
            let a = Symmetry::from_index(i);
            // Four quarter turns and two mirrors give back the shape.
            assert_eq!(p.transform(a.rotate(4), &catalog), p.transform(a, &catalog));
            assert_eq!(p.transform(a.mirror_horizontal().mirror_horizontal(), &catalog), p.transform(a, &catalog));
            let once = p.transform(a, &catalog);
            let back = once.transform(Symmetry::from_flips(true, false, false), &catalog);
            assert_eq!(back, p.transform(a.mirror_horizontal(), &catalog));
            let turned = once.transform(Symmetry::from_index(0).rotate(1), &catalog);
            assert_eq!(turned, p.transform(a.rotate(1), &catalog));
        }
    }
}

#[test]
fn small_catalogs() {
    let one = generate_all_polyominos(1);
    assert_eq!(one.len(), 1);
    assert_eq!(one[0].coords().to_vec(), vec![(0, 0)]);
    let two = generate_all_polyominos(2);
    assert_eq!(two.len(), 3);
    assert_eq!(two[1].coords().to_vec(), vec![(0, 0), (0, 1)]);
    assert_eq!(two[2].coords().to_vec(), vec![(0, 0), (1, 0)]);
}

#[test]
fn adjacent_coords_stay_in_the_growth_region() {
    let mut adj = adjacent_coords(&[(0, 0)]);
    adj.sort();
    assert_eq!(adj, vec![(0, 1), (1, 0)]);
    let mut adj = adjacent_coords(&[(0, 0), (1, 0)]);
    adj.sort();
    assert_eq!(adj, vec![(0, 1), (1, 1), (2, 0)]);
}

#[test]
fn size_and_equality_ignore_the_table() {
    let catalog = generate_all_polyominos(4);
    let fresh = Polyomino::new(&vec![(0, 1), (0, 0)]);
    assert_eq!(fresh.size(), 2);
    assert_eq!(&fresh, &catalog[1]);
    assert!(fresh.symmetries.is_empty());
    let mut flat = fresh.clone();
    flat.apply_flips(Symmetry::from_flips(false, false, true));
    assert_eq!(flat.coords().to_vec(), vec![(0, 0), (1, 0)]);
}
