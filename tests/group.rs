use interval_kit::group::group::{Group, ThreeGroup, Vierergruppe};

trait IterateGroup
where
    Self: Sized + Group,
{
    fn all() -> Vec<Self>;
}

impl IterateGroup for bool {
    fn all() -> Vec<Self> {
        vec![false, true]
    }
}

impl IterateGroup for ThreeGroup {
    fn all() -> Vec<Self> {
        vec![ThreeGroup::E, ThreeGroup::A, ThreeGroup::B]
    }
}

impl IterateGroup for Vierergruppe {
    fn all() -> Vec<Self> {
        vec![
            Vierergruppe::E,
            Vierergruppe::A,
            Vierergruppe::B,
            Vierergruppe::C,
        ]
    }
}

impl IterateGroup for i8 {
    fn all() -> Vec<Self> {
        (i8::MIN..=i8::MAX).collect()
    }
}

fn group_test<G: IterateGroup + std::fmt::Debug>() {
    let elements = G::all();
    for g in elements {
        assert_eq!(G::identity().op(g), g);
        assert_eq!(g.op(G::identity()), g);
        assert_eq!(g.op(g.inverse()), G::identity());
        assert_eq!(g.inverse().op(g), G::identity());
    }
}

fn commutativity_test<G: IterateGroup + std::fmt::Debug>() {
    let elements = G::all();
    for a in elements.iter().cloned() {
        for b in elements.iter().cloned() {
            assert_eq!(a.op(b), b.op(a));
        }
    }
}

fn associativity_test<G: IterateGroup + std::fmt::Debug>() {
    let elements = G::all();
    for a in elements.iter().cloned() {
        for b in elements.iter().cloned() {
            for c in elements.iter().cloned() {
                assert_eq!(a.op(b).op(c), a.op(b.op(c)));
            }
        }
    }
}

#[test]
fn c2() {
    group_test::<bool>();
}

#[test]
fn c2_size() {
    assert_eq!(2, bool::all().len())
}

#[test]
fn c2_commutes() {
    commutativity_test::<bool>();
}

#[test]
fn c3() {
    group_test::<ThreeGroup>();
}

#[test]
fn c3_size() {
    assert_eq!(3, ThreeGroup::all().len())
}

#[test]
fn c3_commutes() {
    commutativity_test::<ThreeGroup>();
}

#[test]
fn group_vierergruppe() {
    group_test::<Vierergruppe>();
}

#[test]
fn vierergruppe_size() {
    assert_eq!(4, Vierergruppe::all().len())
}

#[test]
fn vierergruppe_commutes() {
    commutativity_test::<Vierergruppe>();
}

#[test]
fn c256() {
    group_test::<i8>();
}

#[test]
fn c256_size() {
    assert_eq!(256, i8::all().len())
}

#[test]
fn c256_commutes() {
    commutativity_test::<i8>();
}

#[test]
fn small_groups_associate() {
    associativity_test::<bool>();
    associativity_test::<ThreeGroup>();
    associativity_test::<Vierergruppe>();
}

#[test]
fn klein_products() {
    assert_eq!(Vierergruppe::A.op(Vierergruppe::B), Vierergruppe::C);
    assert_eq!(Vierergruppe::C.op(Vierergruppe::B), Vierergruppe::A);
    assert_eq!(ThreeGroup::A.op(ThreeGroup::A), ThreeGroup::B);
    assert_eq!(127i8.op(1), -128);
    assert_eq!((-128i8).inverse(), -128);
}
