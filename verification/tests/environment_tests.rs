use kot::ast::Typing;
use kot::environment::Environment;

#[test]
fn environment_shadowing() {
    // frames [outer{x:1}, inner{x:2}]: get sees the inner binding; after a
    // pop it sees the outer one again
    let mut env = Environment::new();
    let x = "x".to_string();
    let _ = env.set(x.clone(), Typing::Int64(1));
    env.push();
    let _ = env.set(x.clone(), Typing::Int64(2));
    assert_eq!(env.get(&x), Some(&Typing::Int64(2)));
    env.pop();
    assert_eq!(env.get(&x), Some(&Typing::Int64(1)));
}

#[test]
fn environment_set_returns_previous_binding() {
    let mut env = Environment::new();
    let x = "x".to_string();
    assert_eq!(env.set(x.clone(), Typing::Int64(1)), None);
    assert_eq!(env.set(x.clone(), Typing::Int64(2)), Some(Typing::Int64(1)));
    assert_eq!(env.get(&x), Some(&Typing::Int64(2)));
}

#[test]
fn environment_offset_addressing() {
    // offset 0 is the innermost frame; larger offsets count outward
    let mut env = Environment::new();
    let x = "x".to_string();
    let _ = env.set(x.clone(), Typing::Int64(10));
    env.push();
    let _ = env.set(x.clone(), Typing::Int64(20));
    assert_eq!(env.get_offset(&x, 0), Some(&Typing::Int64(20)));
    assert_eq!(env.get_offset(&x, 1), Some(&Typing::Int64(10)));
    assert!(env.contains_offset(&x, 0));
    assert!(env.contains_offset(&x, 1));
    let y = "y".to_string();
    assert_eq!(env.get_offset(&y, 1), None);
    assert!(!env.contains_offset(&y, 0));

    // set through an offset writes the outer frame, leaving the inner alone
    let _ = env.set_offset(x.clone(), Typing::Int64(11), 1);
    assert_eq!(env.get_offset(&x, 1), Some(&Typing::Int64(11)));
    assert_eq!(env.get_offset(&x, 0), Some(&Typing::Int64(20)));
}

#[test]
fn environment_remove() {
    let mut env = Environment::new();
    let x = "x".to_string();
    let _ = env.set(x.clone(), Typing::Int64(5));
    assert_eq!(env.remove(&x), Some(Typing::Int64(5)));
    assert_eq!(env.remove(&x), None);
    assert_eq!(env.get(&x), None);
    assert!(!env.contains(&x));
}

#[test]
fn environment_remove_offset_targets_one_frame() {
    let mut env = Environment::new();
    let x = "x".to_string();
    let _ = env.set(x.clone(), Typing::Int64(1));
    env.push();
    let _ = env.set(x.clone(), Typing::Int64(2));
    // deleting in the outer frame leaves the inner binding in place
    assert_eq!(env.remove_offset(&x, 1), Some(Typing::Int64(1)));
    assert_eq!(env.get(&x), Some(&Typing::Int64(2)));
    env.pop();
    assert_eq!(env.get(&x), None);
}

#[test]
fn environment_contains_searches_all_frames() {
    let mut env = Environment::new();
    let outer = "outer".to_string();
    let _ = env.set(outer.clone(), Typing::Boolean(true));
    env.push();
    assert!(env.contains(&outer));
    assert_eq!(env.get(&outer), Some(&Typing::Boolean(true)));
    assert_eq!(env.depth(), 2);
}
