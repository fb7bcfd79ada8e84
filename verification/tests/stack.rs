use containers::stack::Stack;

#[test]
fn stack_test_new() {
    let stack: Stack<i32> = Stack::new();
    assert!(stack.is_empty());
}

#[test]
fn test_push() {
    let mut stack: Stack<i32> = Stack::new();
    stack.push(123);
    assert!(!stack.is_empty());
}

#[test]
fn test_peek() {
    let mut stack: Stack<i32> = Stack::new();
    stack.push(1);
    stack.push(2);
    stack.push(3);
    assert_eq!(stack.peek(), Some(&3));
}

#[test]
fn stack_test_pop() {
    let mut stack: Stack<i32> = Stack::new();
    stack.push(1);
    stack.push(2);
    stack.push(3);
    assert_eq!(stack.pop(), Some(3));
    assert_eq!(stack.pop(), Some(2));
    assert_eq!(stack.pop(), Some(1));
}

#[test]
fn test_iter() {
    let mut stack: Stack<i32> = Stack::new();
    stack.push(1);
    stack.push(2);
    stack.push(3);
    let mut it = stack.iter();
    assert_eq!(it.next(), Some(&1));
    assert_eq!(it.next(), Some(&2));
    assert_eq!(it.next(), Some(&3));
    assert_eq!(it.next(), None);
}

#[test]
fn stack_scenario_peek_pop_empty() {
    let mut stack: Stack<i32> = Stack::new();
    stack.push(1);
    stack.push(2);
    stack.push(3);
    assert_eq!(stack.peek(), Some(&3));
    assert_eq!(stack.pop(), Some(3));
    assert_eq!(stack.pop(), Some(2));
    assert_eq!(stack.pop(), Some(1));
    assert!(stack.is_empty());
}

#[test]
fn stack_empty_pop_leaves_empty() {
    let mut stack: Stack<i32> = Stack::new();
    assert_eq!(stack.pop(), None);
    assert!(stack.is_empty());
    assert_eq!(stack.peek(), None);
}

#[test]
fn stack_size_accounting() {
    let mut stack: Stack<i32> = Stack::new();
    let k: usize = 8;
    let j: usize = 3;
    for v in 0..k {
        stack.push(v as i32);
    }
    for _ in 0..j {
        stack.pop();
    }
    let mut n: usize = 0;
    let mut it = stack.iter();
    while it.next().is_some() {
        n += 1;
    }
    assert_eq!(n, k - j);
}

#[test]
fn stack_is_empty_idempotent() {
    let mut stack: Stack<i32> = Stack::new();
    assert_eq!(stack.is_empty(), stack.is_empty());
    stack.push(5);
    assert!(!stack.is_empty());
    assert!(!stack.is_empty());
    assert_eq!(stack.peek(), stack.peek());
}

#[test]
fn stack_owned_elements() {
    let mut stack: Stack<String> = Stack::new();
    stack.push(String::from("oldest"));
    stack.push(String::from("newest"));
    assert_eq!(stack.peek(), Some(&String::from("newest")));
    let mut it = stack.iter();
    assert_eq!(it.next(), Some(&String::from("oldest")));
    assert_eq!(it.next(), Some(&String::from("newest")));
    assert_eq!(it.next(), None);
    assert_eq!(stack.pop(), Some(String::from("newest")));
    assert_eq!(stack.pop(), Some(String::from("oldest")));
    assert_eq!(stack.pop(), None);
}

#[test]
fn stack_iteration_restartable() {
    let mut stack: Stack<i32> = Stack::new();
    stack.push(10);
    stack.push(20);
    let mut first = stack.iter();
    assert_eq!(first.next(), Some(&10));
    let mut second = stack.iter();
    assert_eq!(second.next(), Some(&10));
    assert_eq!(first.next(), Some(&20));
    assert_eq!(first.next(), None);
    assert_eq!(second.next(), Some(&20));
}
