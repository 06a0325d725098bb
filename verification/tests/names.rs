use datalog::ast::is_constant_name;
use datalog::binding::Binding;
use datalog::name_pool::NamePool;

#[test]
fn is_constant() {
    assert!(is_constant_name("name"));
    assert!(!is_constant_name("Name"));
    assert!(!is_constant_name("_"));
    assert!(!is_constant_name("_9"));
}

#[test]
fn parser_is_constant() {
    assert!(is_constant_name("name"));
    assert!(!is_constant_name("Name"));
    assert!(!is_constant_name("_"));
    assert!(!is_constant_name("_9"));
}

#[test]
fn interning_is_stable() {
    let mut pool = NamePool::new();
    let a = pool.add_name("anakin");
    let b = pool.add_name("padme");
    assert_eq!(a, 0);
    assert_eq!(b, 1);
    // Interning the same name again yields the same id and does not grow
    // the pool; distinct names got distinct ids in first-seen order.
    assert_eq!(pool.add_name("anakin"), a);
    assert_eq!(pool.add_name("padme"), b);
    assert_eq!(pool.len(), 2);
    assert_eq!(pool.get(0).as_str(), "anakin");
    assert_eq!(pool.get(1).as_str(), "padme");
}

#[test]
fn binding_slots() {
    let mut binding = Binding::new();
    assert_eq!(binding.len(), 0);
    // Slot assignment: one slot per distinct value, in first-seen order.
    assert_eq!(binding.insert(7), 0);
    assert_eq!(binding.insert(9), 1);
    assert_eq!(binding.insert(7), 0);
    assert_eq!(binding.len(), 2);
    assert_eq!(binding.get(0), 7);
    assert_eq!(binding.get(1), 9);
    assert_eq!(binding.iter(), vec![(0, 7), (1, 9)]);
}
