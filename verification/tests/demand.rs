use std::cell::RefCell;
use std::rc::Rc;

use mtdynamic::controller::{Builder, Controller};
use mtdynamic::demand::{Letterbox, Request, ROUND_SIZE};

struct Recorder {
    threads: i32,
    rounds: Rc<RefCell<Vec<Vec<f32>>>>,
}

impl Controller<f32> for Recorder {
    fn recommended_threads(&self) -> i32 {
        self.threads
    }

    fn evolves_to(&self, scores: Vec<f32>, next: Self) -> bool {
        scores.len() == ROUND_SIZE && next.threads == self.threads + 1
    }

    fn advances_to(&self, next: Self) -> bool {
        next.threads == self.threads
    }

    fn evolve(&mut self, scores: Vec<f32>) {
        self.rounds.borrow_mut().push(scores);
        self.threads += 1;
    }

    fn num_threads(&mut self) -> i32 {
        self.threads
    }
}

struct RecorderBuilder;

impl Builder<i32> for RecorderBuilder {
    fn build(&self, max_threads: i32) -> i32 {
        max_threads
    }
}

#[test]
fn builder_builds() {
    assert_eq!(RecorderBuilder.build(8), 8);
}

#[test]
fn demand_builds_controller_once() {
    let rounds = Rc::new(RefCell::new(Vec::new()));
    let made = Rc::new(RefCell::new(0));
    let (r2, m2) = (rounds.clone(), made.clone());
    let mut lb = Letterbox::new(move |req: Request| {
        *m2.borrow_mut() += 1;
        Recorder { threads: req.max_threads, rounds: r2.clone() }
    });
    assert_eq!(lb.try_get_demand(Request { region_uid: 1, max_threads: 8 }), 8);
    assert_eq!(lb.try_get_demand(Request { region_uid: 1, max_threads: 99 }), 8);
    assert_eq!(*made.borrow(), 1);
    assert_eq!(lb.get_demand(1), 8);
    assert_eq!(lb.try_get_demand(Request { region_uid: 2, max_threads: 4 }), 4);
    assert_eq!(*made.borrow(), 2);
}

#[test]
fn demand_evolves_after_a_round() {
    let rounds = Rc::new(RefCell::new(Vec::new()));
    let r2 = rounds.clone();
    let mut lb = Letterbox::new(move |req: Request| Recorder { threads: req.max_threads, rounds: r2.clone() });
    lb.try_get_demand(Request { region_uid: 3, max_threads: 16 });
    for i in 0..ROUND_SIZE - 1 {
        lb.update(3, i as f32);
        assert!(rounds.borrow().is_empty());
    }
    lb.update(3, 19.0);
    assert_eq!(rounds.borrow().len(), 1);
    let expected: Vec<f32> = (0..ROUND_SIZE).map(|i| i as f32).collect();
    assert_eq!(rounds.borrow()[0], expected);
    assert_eq!(lb.get_demand(3), 17);
    for i in 0..ROUND_SIZE {
        lb.update(3, i as f32);
    }
    assert_eq!(rounds.borrow().len(), 2);
}

#[test]
fn serve_sets_up_then_updates() {
    let rounds = Rc::new(RefCell::new(Vec::new()));
    let r2 = rounds.clone();
    let mut lb = Letterbox::new(move |req: Request| Recorder { threads: req.max_threads, rounds: r2.clone() });
    let req = Request { region_uid: 9, max_threads: 4 };
    // A new region is set up; its first score is not kept.
    assert_eq!(lb.serve(req, 1.0), 4);
    for i in 0..ROUND_SIZE - 1 {
        assert_eq!(lb.serve(req, i as f32), 4);
    }
    assert!(rounds.borrow().is_empty());
    // The score that completes a round makes the controller evolve first.
    assert_eq!(lb.serve(req, 0.5), 5);
    assert_eq!(rounds.borrow().len(), 1);
    assert_eq!(rounds.borrow()[0].len(), ROUND_SIZE);
}

/// A controller that hands out one more thread on every request.
struct Turner {
    next: i32,
}

impl Controller<f32> for Turner {
    fn recommended_threads(&self) -> i32 {
        self.next
    }

    fn advances_to(&self, next: Self) -> bool {
        next.next == self.next + 1
    }

    fn evolves_to(&self, _scores: Vec<f32>, next: Self) -> bool {
        next.next == self.next
    }

    fn evolve(&mut self, _scores: Vec<f32>) {}

    fn num_threads(&mut self) -> i32 {
        let r = self.next;
        self.next += 1;
        r
    }
}

#[test]
fn demand_keeps_the_region_controller() {
    let mut lb = Letterbox::new(|req: Request| Turner { next: req.max_threads });
    assert_eq!(lb.try_get_demand(Request { region_uid: 5, max_threads: 2 }), 2);
    assert_eq!(lb.get_demand(5), 3);
    assert_eq!(lb.try_get_demand(Request { region_uid: 5, max_threads: 2 }), 4);
    assert_eq!(lb.serve(Request { region_uid: 5, max_threads: 2 }, 1.0), 5);
    // Another region has its own controller.
    assert_eq!(lb.try_get_demand(Request { region_uid: 6, max_threads: 10 }), 10);
    assert_eq!(lb.get_demand(5), 6);
}
