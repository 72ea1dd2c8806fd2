use elevator_control::queue::Queue;
use elevator_control::request::{QueueElement, Request};

#[test]
fn empty_queue() {
    let mut e_queue = Queue::new(10);
    assert_eq!(e_queue.is_empty(), true);
    assert_eq!(e_queue.pop(), None);
}

#[test]
fn push_then_pop() {
    let mut queue = Queue::new(10);
    let req = Request::Cab(8);
    queue.push_unique(req.clone());
    assert_eq!(queue.is_empty(), false);
    assert_eq!(queue.pop(), Some(req));
    assert_eq!(queue.is_empty(), true);
}

#[test]
fn push_peek_pop() {
    let mut queue = Queue::new(10);
    let req = Request::Cab(8);
    queue.push_unique(req.clone());
    assert_eq!(queue.is_empty(), false);
    assert_eq!(queue.peek(), Some(req.clone()));
    assert_eq!(queue.is_empty(), false);
    assert_eq!(queue.pop(), Some(req.clone()));
    assert_eq!(queue.is_empty(), true);
}

#[test]
fn push_push_peek_pop() {
    let mut queue = Queue::new(10);
    let req1 = Request::Cab(8);
    let req2 = Request::Cab(10);

    queue.push_unique(req1.clone());
    assert_eq!(queue.peek(), Some(req1.clone()));
    queue.push_unique(req2.clone());
    assert_eq!(queue.peek(), Some(req1.clone()));
    assert_eq!(queue.pop(), Some(req1.clone()));
    assert_eq!(queue.is_empty(), false);
}

#[test]
fn push_push_retain_one() {
    let mut queue = Queue::new(10);
    let req_retained = Request::Cab(8);
    let req_removed = Request::Cab(10);

    queue.push_unique(req_retained.clone());
    queue.push_unique(req_removed.clone());

    let removed = queue.retain(|x| { x.target() == 8 });
    assert_eq!(removed, vec![req_removed]);
    assert_eq!(queue.peek(), Some(req_retained));
}

#[test]
fn push_push_clear() {
    let mut queue = Queue::new(10);
    let req1 = Request::Cab(8);
    let req2 = Request::Cab(10);

    queue.push_unique(req1.clone());
    queue.push_unique(req2.clone());
    assert_eq!(queue.is_empty(), false);

    queue.clear();
    assert_eq!(queue.is_empty(), true);
    assert_eq!(queue.pop(), None);
}

fn drain(queue: &mut Queue) -> Vec<Request> {
    let mut out = Vec::new();
    while let Some(request) = queue.pop() {
        out.push(request);
    }
    out
}

#[test]
fn new_queue_has_size_zero() {
    let queue = Queue::new(3);
    assert_eq!(queue.size(), 0);
    assert_eq!(queue.peek(), None);
}

#[test]
fn push_on_empty_then_pop_returns_the_request() {
    let mut queue = Queue::new(1);
    let request = Request::Hall(2, 1);
    assert_eq!(queue.push_unique(request), true);
    assert_eq!(queue.size(), 1);
    assert_eq!(queue.pop(), Some(request));
    assert_eq!(queue.size(), 0);
}

#[test]
fn queue_without_room_refuses_every_push() {
    let mut queue = Queue::new(0);
    assert_eq!(queue.push_unique(Request::Cab(1)), false);
    assert_eq!(queue.is_empty(), true);
    assert_eq!(queue.pop(), None);
}

#[test]
fn second_push_of_a_request_is_refused() {
    let mut queue = Queue::new(4);
    assert_eq!(queue.push_unique(Request::Cab(3)), true);
    assert_eq!(queue.size(), 1);
    assert_eq!(queue.push_unique(Request::Cab(3)), false);
    assert_eq!(queue.size(), 1);
    assert_eq!(drain(&mut queue), vec![Request::Cab(3)]);
}

#[test]
fn duplicate_is_refused_anywhere_in_the_queue() {
    let mut queue = Queue::new(4);
    assert!(queue.push_unique(Request::Hall(1, 1)));
    assert!(queue.push_unique(Request::Cab(1)));
    assert!(queue.push_unique(Request::Hall(1, 255)));
    assert_eq!(queue.push_unique(Request::Hall(1, 1)), false);
    assert_eq!(queue.push_unique(Request::Cab(1)), false);
    assert_eq!(queue.size(), 3);
}

#[test]
fn full_queue_refuses_a_new_request() {
    let mut queue = Queue::new(2);
    assert!(queue.push_unique(Request::Hall(1, 1)));
    assert!(queue.push_unique(Request::Hall(2, 1)));
    assert_eq!(queue.push_unique(Request::Hall(1, 255)), false);
    assert_eq!(queue.size(), 2);
    assert_eq!(drain(&mut queue), vec![Request::Hall(1, 1), Request::Hall(2, 1)]);
}

#[test]
fn pop_makes_room_again() {
    let mut queue = Queue::new(1);
    assert!(queue.push_unique(Request::Cab(1)));
    assert!(!queue.push_unique(Request::Cab(2)));
    assert_eq!(queue.pop(), Some(Request::Cab(1)));
    assert!(queue.push_unique(Request::Cab(2)));
    assert!(queue.holds(&Request::Cab(2)));
    assert!(!queue.holds(&Request::Cab(1)));
}

#[test]
fn requests_leave_in_the_order_of_their_arrival() {
    let mut queue = Queue::new(8);
    let mut served = Vec::new();
    assert!(queue.push_unique(Request::Cab(5)));
    assert!(queue.push_unique(Request::Cab(1)));
    served.push(queue.pop().unwrap());
    assert!(queue.push_unique(Request::Hall(3, 1)));
    assert!(!queue.push_unique(Request::Cab(1)));
    assert!(queue.push_unique(Request::Cab(5)));
    served.push(queue.pop().unwrap());
    served.extend(drain(&mut queue));
    assert_eq!(
        served,
        vec![Request::Cab(5), Request::Cab(1), Request::Hall(3, 1), Request::Cab(5)]
    );
    assert_eq!(queue.pop(), None);
}

#[test]
fn retain_everything_changes_nothing() {
    let mut queue = Queue::new(4);
    queue.push_unique(Request::Cab(1));
    queue.push_unique(Request::Hall(2, 1));
    queue.push_unique(Request::Cab(3));
    let removed = queue.retain(|_| true);
    assert_eq!(removed, Vec::<Request>::new());
    assert_eq!(queue.size(), 3);
    assert_eq!(
        drain(&mut queue),
        vec![Request::Cab(1), Request::Hall(2, 1), Request::Cab(3)]
    );
}

#[test]
fn retain_nothing_empties_the_queue() {
    let mut queue = Queue::new(4);
    queue.push_unique(Request::Cab(1));
    queue.push_unique(Request::Hall(2, 1));
    queue.push_unique(Request::Cab(3));
    let removed = queue.retain(|_| false);
    assert_eq!(removed, vec![Request::Cab(1), Request::Hall(2, 1), Request::Cab(3)]);
    assert_eq!(queue.is_empty(), true);
    assert_eq!(queue.pop(), None);
    assert_eq!(queue.push_unique(Request::Cab(1)), true);
    assert_eq!(queue.peek(), Some(Request::Cab(1)));
}

#[test]
fn retain_keeps_the_order_on_both_sides() {
    let mut queue = Queue::new(8);
    for floor in [4u8, 1, 6, 3, 2, 5] {
        queue.push_unique(Request::Cab(floor));
    }
    let removed = queue.retain(|request| request.target() % 2 == 0);
    assert_eq!(removed, vec![Request::Cab(1), Request::Cab(3), Request::Cab(5)]);
    assert_eq!(
        drain(&mut queue),
        vec![Request::Cab(4), Request::Cab(6), Request::Cab(2)]
    );
}

#[test]
fn retain_on_an_empty_queue_returns_nothing() {
    let mut queue = Queue::new(2);
    let removed = queue.retain(|_| false);
    assert_eq!(removed, Vec::<Request>::new());
    assert_eq!(queue.is_empty(), true);
}

#[test]
fn retain_removes_head_and_tail() {
    let mut queue = Queue::new(4);
    queue.push_unique(Request::Cab(1));
    queue.push_unique(Request::Cab(2));
    queue.push_unique(Request::Cab(3));
    let removed = queue.retain(|request| request.target() == 2);
    assert_eq!(removed, vec![Request::Cab(1), Request::Cab(3)]);
    assert_eq!(queue.peek(), Some(Request::Cab(2)));
    assert_eq!(queue.size(), 1);
    assert!(queue.push_unique(Request::Cab(1)));
    assert_eq!(drain(&mut queue), vec![Request::Cab(2), Request::Cab(1)]);
}

#[test]
fn clear_keeps_the_capacity() {
    let mut queue = Queue::new(1);
    queue.push_unique(Request::Cab(1));
    queue.clear();
    assert_eq!(queue.push_unique(Request::Cab(2)), true);
    assert_eq!(queue.push_unique(Request::Cab(3)), false);
}

#[test]
fn queue_element_holds_its_request() {
    let element = QueueElement::new(Request::Hall(3, 255));
    assert_eq!(element.request, Request::Hall(3, 255));
}
