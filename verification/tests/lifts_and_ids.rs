use lambda_microegg::{DeBruijnIndex, DeBruijnLevel, EGraph, Lift};

#[test]
fn de_bruijn_index_becomes_a_level_inside_its_context() {
    let index = DeBruijnIndex::new(0);
    assert_eq!(index.get(), 0);
    assert_eq!(index.to_level(3).map(|level| level.get()), Some(2));
    assert_eq!(DeBruijnIndex::new(2).to_level(3).map(|level| level.get()), Some(0));
    assert!(DeBruijnIndex::new(3).to_level(3).is_none());
    assert!(DeBruijnIndex::new(usize::MAX).to_level(3).is_none());
    assert_eq!(DeBruijnLevel::new(4).get(), 4);
    assert_eq!(DeBruijnIndex::from(5).get(), 5);
    assert_eq!(DeBruijnLevel::from(6).get(), 6);
}

#[test]
fn packed_lift_limit() {
    let last = Lift::select(7, 6);
    assert_eq!(last.cod(), 7);
    assert_eq!(last.dom(), 1);
    assert!(last.get(6));
    assert!(!last.get(0));
    assert_eq!(Lift::identity(7).compose(&last), last);
    assert_eq!(std::mem::size_of::<Lift>(), 1);
}

#[test]
fn lift_bits_list_the_kept_variables() {
    assert_eq!(Lift::identity(3).bits(), "111");
    assert_eq!(Lift::select(3, 1).bits(), "010");
    assert_eq!(Lift::identity(0).bits(), "");
}

#[test]
fn composing_with_identities_changes_nothing() {
    let l = Lift::select(4, 2);
    assert_eq!(Lift::identity(4).compose(&l), l);
    assert_eq!(l.compose(&Lift::identity(1)), l);
}

#[test]
fn fat_ids_hide_identity_lifts() {
    let mut eg = EGraph::new();
    let atom = eg.atom("a", 0);
    let variable = eg.var(1, 0);
    assert_eq!(atom.show(), "e0");
    assert_eq!(variable.show(), "e1");
    assert_eq!(atom.in_context(1).unwrap().show(), "l_0(e0)");
    assert_eq!(std::mem::size_of::<lambda_microegg::Id>(), 4);
}

#[test]
fn context_extension_and_restriction_follow_dependencies() {
    let mut eg = EGraph::new();
    let x = eg.var(1, 0);
    let x_in_three = x.in_context(3).unwrap();
    assert_eq!(x_in_three.lift().bits(), "100");
    assert_eq!(x_in_three.in_context(1), Some(x));

    let newest = eg.var(3, 2);
    assert!(newest.in_context(2).is_none());

    let constant = eg.atom("c", 3);
    assert_eq!(constant.lift().bits(), "000");
    assert!(constant.in_context(0).is_some());
}
