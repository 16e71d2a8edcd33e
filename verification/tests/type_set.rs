use type_chart::chart::Type;
use type_chart::type_set::TypeSet;

#[test]
fn a_new_set_is_empty() {
    let set = TypeSet::new();
    assert_eq!(set.len(), 0);
    for t in Type::all() {
        assert!(!set.contains(t));
    }
}

#[test]
fn insert_adds_a_member_once() {
    let mut set = TypeSet::new();
    set.insert(Type::Fire);
    assert_eq!(set.len(), 1);
    assert!(set.contains(Type::Fire));
    assert!(!set.contains(Type::Ice));
    set.insert(Type::Fire);
    assert_eq!(set.len(), 1);
    set.insert(Type::Nature);
    set.insert(Type::Metal);
    assert_eq!(set.len(), 3);
    assert!(set.contains(Type::Nature));
    assert!(set.contains(Type::Metal));
}

#[test]
fn a_set_holds_at_most_all_twelve() {
    let mut set = TypeSet::new();
    for (count, t) in Type::all().iter().enumerate() {
        set.insert(*t);
        assert_eq!(set.len(), count + 1);
    }
    for t in Type::all() {
        set.insert(t);
    }
    assert_eq!(set.len(), 12);
}

#[test]
fn clear_removes_every_member() {
    let mut set = TypeSet::new();
    set.insert(Type::Dark);
    set.insert(Type::Light);
    set.clear();
    assert_eq!(set.len(), 0);
    assert!(!set.contains(Type::Dark));
    assert!(!set.contains(Type::Light));
    set.insert(Type::Psi);
    assert_eq!(set.len(), 1);
}
