use ltr::{DynamicEventReplay, EventReplay, MockEvent, MockPath, RelativePath, ScheduledStep};

fn mock(bits: &[bool]) -> MockPath {
    let mut p = MockPath::empty();
    for &b in bits {
        p.push(MockEvent(b));
    }
    p
}

fn bits(p: &MockPath) -> Vec<bool> {
    (0..p.len()).map(|i| p.get(i).unwrap().0).collect()
}

#[test]
fn mock_path_push_and_get() {
    let p = mock(&[true, false, true]);
    assert_eq!(bits(&p), vec![true, false, true]);
    assert_eq!(p.get(3), None);
}

#[test]
fn mock_path_prefix() {
    let a = mock(&[true, false]);
    let b = mock(&[true, false, true]);
    let c = mock(&[false]);
    assert!(a.is_prefix_of(&b));
    assert!(!b.is_prefix_of(&a));
    assert!(!c.is_prefix_of(&b));
    assert!(MockPath::empty().is_prefix_of(&c));
    assert!(a.is_prefix_of(&a));
}

#[test]
fn mock_path_extend_with_slice() {
    let mut a = mock(&[true]);
    a.extend_with_slice(&[MockEvent(false), MockEvent(false)]);
    assert_eq!(bits(&a), vec![true, false, false]);
}

#[test]
fn mock_path_children_extend_by_each_variant() {
    let a = mock(&[false]);
    let kids = a.children();
    assert_eq!(kids.len(), 2);
    assert_eq!(bits(&kids[0]), vec![false, true]);
    assert_eq!(bits(&kids[1]), vec![false, false]);
    assert_eq!(bits(&a), vec![false]);
}

#[test]
fn mock_path_clone_keeps_events() {
    let a = mock(&[true, true, false]);
    let b = a.clone();
    assert_eq!(bits(&b), bits(&a));
    assert_eq!(a, b);
}

#[test]
fn relative_path_steps() {
    let mut r = RelativePath::new_from(3, &[1, 0, 1]);
    assert_eq!(r.generation(), 3);
    assert_eq!(r.as_slice(), &[1, 0, 1]);
    r.push(0);
    assert_eq!(r.as_slice(), &[1, 0, 1, 0]);
    r.extend_with_slice(&[1, 1, 1]);
    assert_eq!(r.len(), 7);
    r.rebase(5);
    assert_eq!(r.generation(), 5);
    assert_eq!(r.as_slice(), &[1, 0, 1, 1, 1]);
    let e = RelativePath::new(9);
    assert_eq!(e.len(), 0);
}

#[test]
fn relative_path_prefix_ignores_generation() {
    let a = RelativePath::new_from(0, &[1, 0]);
    let b = RelativePath::new_from(7, &[1, 0, 0]);
    assert!(a.is_prefix_of(&b));
    assert!(!b.is_prefix_of(&a));
    assert!(!RelativePath::new_from(0, &[0]).is_prefix_of(&b));
}

#[test]
fn scheduled_step_accessors() {
    let s = ScheduledStep::new(vec![1u8, 2], "meta");
    assert_eq!(s.path(), &vec![1u8, 2]);
    assert_eq!(*s.meta(), "meta");
}

#[test]
fn relative_path_push_keeps_generation() {
    let mut r = RelativePath::new(4);
    r.push(1);
    r.extend_with_slice(&[0, 1]);
    assert_eq!(r.generation(), 4);
    assert_eq!(r.as_slice(), &[1, 0, 1]);
    let e = <RelativePath as EventReplay>::empty();
    assert_eq!(e.generation(), 0);
    assert_eq!(e.len(), 0);
}
