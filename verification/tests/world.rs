use gml::world::{resolve, With, World, ALL, FIRST_ID, NOONE, OTHER, SELF};

#[test]
fn instances_get_rising_ids_from_the_first_id_on() {
    let mut world = World::new();
    assert!(!world.is_full());
    let a = world.create_instance(0);
    let b = world.create_instance(0);
    let c = world.create_instance(7);
    assert_eq!((a, b, c), (100001, 100002, 100003));
    assert_eq!(FIRST_ID, 100001);
    assert_eq!(world.find(b), Some(1));
    assert_eq!(world.find(100004), None);
}

#[test]
fn ids_are_not_given_out_again() {
    let mut world = World::new();
    let a = world.create_instance(0);
    let b = world.create_instance(0);
    assert!(world.destroy(a));
    assert!(!world.destroy(5));
    assert_eq!(world.find(a), Some(0));
    world.free_destroyed();
    assert_eq!(world.find(a), None);
    assert_eq!(world.find(b), Some(0));
    let c = world.create_instance(0);
    assert_eq!(c, 100003);
    assert_eq!(world.iterate(With::All), vec![b, c]);
}

#[test]
fn with_runs_over_the_living_instances_of_its_set_in_their_order() {
    let mut world = World::new();
    let a = world.create_instance(1);
    let b = world.create_instance(2);
    let c = world.create_instance(1);
    assert_eq!(world.iterate(With::All), vec![a, b, c]);
    assert_eq!(world.iterate(With::Class(1)), vec![a, c]);
    assert_eq!(world.iterate(With::Class(3)), Vec::<i32>::new());
    assert_eq!(world.iterate(With::Single(b)), vec![b]);
    assert_eq!(world.iterate(With::NoOne), Vec::<i32>::new());
    world.destroy(a);
    assert_eq!(world.iterate(With::All), vec![b, c]);
    assert_eq!(world.iterate(With::Class(1)), vec![c]);
    assert_eq!(world.iterate(With::Single(a)), Vec::<i32>::new());
}

#[test]
fn a_value_stands_for_a_set_of_instances() {
    assert_eq!(resolve(100001, 100005, 100006), With::Single(100001));
    assert_eq!(resolve(100000, 100005, 100006), With::Class(100000));
    assert_eq!(resolve(0, 100005, 100006), With::Class(0));
    assert_eq!(resolve(SELF, 100005, 100006), With::Single(100005));
    assert_eq!(resolve(OTHER, 100005, 100006), With::Single(100006));
    assert_eq!(resolve(ALL, 100005, 100006), With::All);
    assert_eq!(resolve(NOONE, 100005, 100006), With::NoOne);
    assert_eq!(resolve(-5, 100005, 100006), With::NoOne);
}

/// `with (noone)` runs its body for no instance, and `with (self)` for
/// the instance itself alone.
#[test]
fn with_noone_and_with_self() {
    let mut world = World::new();
    let own = world.create_instance(0);
    let other = world.create_instance(0);
    assert_eq!(world.iterate(resolve(NOONE, own, other)), Vec::<i32>::new());
    assert_eq!(world.iterate(resolve(SELF, own, other)), vec![own]);
    assert_eq!(world.iterate(resolve(OTHER, own, other)), vec![other]);
}
