use polytiles::symmetry::Symmetry;

#[test]
fn index_round_trip() {
    for i in 0..8 {
        assert_eq!(Symmetry::from_index(i).into_index(), i);
    }
    assert_eq!(Symmetry::from_flips(true, false, false).into_index(), 1);
    assert_eq!(Symmetry::from_flips(false, true, false).into_index(), 2);
    assert_eq!(Symmetry::from_flips(false, false, true).into_index(), 4);
    assert_eq!(Symmetry::from_flips(true, true, true).into_index(), 7);
    assert_eq!(Symmetry::all_symmetries().len(), 8);
}

#[test]
fn rotations_and_mirrors_return_home() {
    for i in 0..8 {
        let s = Symmetry::from_index(i);
        assert_eq!(s.rotate(1).rotate(1).rotate(1).rotate(1), s);
        assert_eq!(s.rotate(4), s);
        assert_eq!(s.rotate(-1), s.rotate(3));
        assert_eq!(s.rotate(-5), s.rotate(3));
        assert_eq!(s.mirror_horizontal().mirror_horizontal(), s);
        assert_eq!(s.mirror_vertical().mirror_vertical(), s);
    }
}

#[test]
fn single_steps() {
    let id = Symmetry::from_flips(false, false, false);
    assert_eq!(id.rotate(1), Symmetry::from_flips(false, true, true));
    assert_eq!(id.rotate(2), Symmetry::from_flips(true, true, false));
    assert_eq!(id.mirror_horizontal(), Symmetry::from_flips(true, false, false));
    let d = Symmetry::from_flips(false, false, true);
    assert_eq!(d.mirror_horizontal(), Symmetry::from_flips(false, true, true));
    assert_eq!(d.mirror_vertical(), Symmetry::from_flips(true, false, true));
}
