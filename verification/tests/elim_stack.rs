use cs431::elim_stack::base::{elim_index, get_random_elim_index, ELIM_SIZE};
use cs431::elim_stack::{ElimStack, PopAttempt, PushAttempt};
use cs431::lockfree::Stack;

#[test]
fn elim_stack_push_pop() {
    let mut stack: ElimStack<i32, Stack<i32>> = ElimStack::new(Stack::new());
    assert!(stack.is_empty());
    assert!(matches!(stack.try_push(1, 0), PushAttempt::Pushed));
    assert!(matches!(stack.try_push(2, 3), PushAttempt::Pushed));
    assert!(!stack.is_empty());
    assert!(matches!(stack.try_pop(5), PopAttempt::Popped(Some(2))));
    assert!(matches!(stack.try_pop(5), PopAttempt::Popped(Some(1))));
    assert!(matches!(stack.try_pop(5), PopAttempt::Popped(None)));
    assert!(stack.is_empty());
}

#[test]
fn elim_index_is_in_range() {
    let mut rng = rand::rng();
    for _ in 0..1000 {
        assert!(get_random_elim_index(&mut rng) < ELIM_SIZE);
    }
}


#[test]
fn elim_index_is_the_word_modulo_the_slots() {
    assert_eq!(elim_index(0), 0);
    assert_eq!(elim_index(17), 1);
    assert_eq!(elim_index(u64::MAX), 15);
}
