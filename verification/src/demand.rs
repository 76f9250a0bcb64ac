use vstd::prelude::*;

use std::collections::HashMap;

use crate::controller::Controller;

verus! {

/// The number of scores a region collects before its controller evolves.
pub const ROUND_SIZE: usize = 20;

/// A request for the thread count of one region of a program.
#[derive(Clone, Copy, Debug, PartialEq, Eq, Structural)]
pub struct Request {
    pub region_uid: i32,
    pub max_threads: i32,
}

/// The letterbox of a controller server: for each region, the scores that
/// arrived since its controller last evolved, and the controller itself,
/// made by `build` when the region first asks for a thread count.
#[verifier::reject_recursive_types(Score)]
#[verifier::reject_recursive_types(Ctrl)]
pub struct Letterbox<Score, Ctrl, F> where F: Fn(Request) -> Ctrl {
    build: F,
    letterbox: HashMap<i32, (Vec<Score>, Ctrl)>,
}

impl<Score, Ctrl: Controller<Score>, F: Fn(Request) -> Ctrl> Letterbox<Score, Ctrl, F> {
    /// The scores waiting in the letterbox, by region.
    pub closed spec fn pending(&self) -> Map<i32, Seq<Score>> {
        Map::new(|uid: i32| self.letterbox@.contains_key(uid), |uid: i32| self.letterbox@[uid].0@)
    }

    /// The controllers in the letterbox, by region.
    pub closed spec fn controllers(&self) -> Map<i32, Ctrl> {
        Map::new(|uid: i32| self.letterbox@.contains_key(uid), |uid: i32| self.letterbox@[uid].1)
    }

    /// The function that makes the controller of a new region.
    pub closed spec fn builder(&self) -> F {
        self.build
    }

    /// `build` can make a controller for every request.
    pub closed spec fn builds(&self) -> bool {
        forall|req: Request| #[trigger] self.build.requires((req,))
    }

    /// An empty letterbox whose controllers `build` makes.
    pub fn new(build: F) -> (lb: Self)
        requires
            forall|req: Request| #[trigger] build.requires((req,)),
        ensures
            lb.pending() == Map::<i32, Seq<Score>>::empty(),
            lb.controllers() == Map::<i32, Ctrl>::empty(),
            lb.builder() == build,
            lb.builds(),
    {
        let lb = Letterbox { build, letterbox: HashMap::new() };
        assert(lb.pending() =~= Map::<i32, Seq<Score>>::empty());
        assert(lb.controllers() =~= Map::<i32, Ctrl>::empty());
        lb
    }

    /// Whether the letterbox holds the region `region_uid`.
    pub fn holds_region(&self, region_uid: i32) -> (r: bool)
        ensures
            r == self.pending().contains_key(region_uid),
            r == self.controllers().contains_key(region_uid),
    {
        broadcast use vstd::std_specs::hash::group_hash_axioms;

        self.letterbox.contains_key(&region_uid)
    }

    /// The thread count for the region of `req`, as its controller
    /// recommends it.  When the letterbox does not hold the region yet, its
    /// controller is first made by the builder from `req`, with no scores.
    /// The scores and controllers of all other regions stay as they were.
    pub fn try_get_demand(&mut self, req: Request) -> (r: i32)
        requires
            old(self).builds(),
        ensures
            final(self).builds(),
            final(self).builder() == old(self).builder(),
            final(self).pending() == (if old(self).pending().contains_key(req.region_uid) {
                old(self).pending()
            } else {
                old(self).pending().insert(req.region_uid, Seq::empty())
            }),
            final(self).controllers().dom() == old(self).controllers().dom().insert(req.region_uid),
            forall|uid: i32|
                uid != req.region_uid && old(self).controllers().contains_key(uid) ==> #[trigger] final(self).controllers()[uid] == old(self).controllers()[uid],
            old(self).controllers().contains_key(req.region_uid) ==> {
                let ctrl = old(self).controllers()[req.region_uid];
                &&& r == ctrl.recommended_threads()
                &&& ctrl.advances_to(final(self).controllers()[req.region_uid])
            },
            !old(self).controllers().contains_key(req.region_uid) ==> exists|built: Ctrl|
                #[trigger] old(self).builder().ensures((req,), built) && r == built.recommended_threads()
                    && built.advances_to(final(self).controllers()[req.region_uid]),
    {
        broadcast use vstd::std_specs::hash::group_hash_axioms;

        let uid = req.region_uid;
        let ghost held = self.letterbox@.contains_key(uid);
        if !self.letterbox.contains_key(&uid) {
            let controller = (self.build)(req);
            self.letterbox.insert(uid, (Vec::new(), controller));
        }
        let ghost mid = self.letterbox@;
        let (scores, mut controller) = self.letterbox.remove(&uid).unwrap();
        let threads = controller.num_threads();
        self.letterbox.insert(uid, (scores, controller));
        proof {
            assert(self.pending() =~= (if old(self).pending().contains_key(req.region_uid) {
                old(self).pending()
            } else {
                old(self).pending().insert(req.region_uid, Seq::empty())
            }));
            assert(self.controllers().dom() =~= old(self).controllers().dom().insert(req.region_uid));
            assert(self.controllers()[uid] == controller);
            if !held {
                assert(old(self).builder().ensures((req,), mid[uid].1));
            }
        }
        threads
    }

    /// The thread count for a region the letterbox holds: the one its
    /// controller recommends.  The scores and the other controllers stay as
    /// they were.
    pub fn get_demand(&mut self, region_uid: i32) -> (r: i32)
        requires
            old(self).builds(),
            old(self).pending().contains_key(region_uid),
        ensures
            final(self).builds(),
            final(self).builder() == old(self).builder(),
            final(self).pending() == old(self).pending(),
            final(self).controllers().dom() == old(self).controllers().dom(),
            forall|uid: i32|
                uid != region_uid && old(self).controllers().contains_key(uid) ==> #[trigger] final(self).controllers()[uid] == old(self).controllers()[uid],
            r == old(self).controllers()[region_uid].recommended_threads(),
            old(self).controllers()[region_uid].advances_to(final(self).controllers()[region_uid]),
    {
        broadcast use vstd::std_specs::hash::group_hash_axioms;

        let (scores, mut controller) = self.letterbox.remove(&region_uid).unwrap();
        let threads = controller.num_threads();
        self.letterbox.insert(region_uid, (scores, controller));
        proof {
            assert(self.controllers()[region_uid] == controller);
            assert(self.pending() =~= old(self).pending());
            assert(self.controllers().dom() =~= old(self).controllers().dom());
        }
        threads
    }

    /// Adds a score for a region the letterbox holds.  When the region has
    /// collected a round of scores, its controller evolves on the round and
    /// the region starts a new one; otherwise its controller stays as it
    /// is.  The other regions stay as they were.
    pub fn update(&mut self, region_uid: i32, score: Score)
        requires
            old(self).builds(),
            old(self).pending().contains_key(region_uid),
        ensures
            final(self).builds(),
            final(self).builder() == old(self).builder(),
            final(self).pending() == old(self).pending().insert(
                region_uid,
                if old(self).pending()[region_uid].len() + 1 >= ROUND_SIZE {
                    Seq::empty()
                } else {
                    old(self).pending()[region_uid].push(score)
                },
            ),
            final(self).controllers().dom() == old(self).controllers().dom(),
            forall|uid: i32|
                uid != region_uid && old(self).controllers().contains_key(uid) ==> #[trigger] final(self).controllers()[uid] == old(self).controllers()[uid],
            old(self).pending()[region_uid].len() + 1 < ROUND_SIZE ==> final(self).controllers()[region_uid]
                == old(self).controllers()[region_uid],
            old(self).pending()[region_uid].len() + 1 >= ROUND_SIZE ==> exists|round: Vec<Score>|
                round@ == old(self).pending()[region_uid].push(score) && #[trigger] old(self).controllers()[region_uid].evolves_to(round, final(self).controllers()[region_uid]),
    {
        broadcast use vstd::std_specs::hash::group_hash_axioms;

        let (mut scores, mut controller) = self.letterbox.remove(&region_uid).unwrap();
        let ghost before = controller;
        scores.push(score);
        let ghost full = scores@;
        let ghost mut round = scores;
        if scores.len() >= ROUND_SIZE {
            let mut scores_swap: Vec<Score> = Vec::with_capacity(ROUND_SIZE);
            std::mem::swap(&mut scores, &mut scores_swap);
            proof {
                round = scores_swap;
            }
            controller.evolve(scores_swap);
        }
        let ghost after = controller;
        self.letterbox.insert(region_uid, (scores, controller));
        proof {
            assert(self.pending() =~= old(self).pending().insert(
                region_uid,
                if old(self).pending()[region_uid].len() + 1 >= ROUND_SIZE {
                    Seq::empty()
                } else {
                    old(self).pending()[region_uid].push(score)
                },
            ));
            assert(self.controllers().dom() =~= old(self).controllers().dom());
            assert(self.controllers()[region_uid] == after);
            if full.len() >= ROUND_SIZE {
                assert(round@ == full);
                assert(before.evolves_to(round, after));
                assert(before == old(self).controllers()[region_uid]);
                assert(full == old(self).pending()[region_uid].push(score));
                assert(round@ == old(self).pending()[region_uid].push(score) && old(self).controllers()[region_uid].evolves_to(
                    round,
                    self.controllers()[region_uid],
                ));
            }
        }
    }

    /// Serves one message of a program: a score for the region of `req`.
    /// Where the letterbox holds the region, the score is added (as `update`
    /// does) and the thread count its controller then recommends is
    /// returned; a region the letterbox does not hold yet is set up (as
    /// `try_get_demand` does) and the score is not kept.
    pub fn serve(&mut self, req: Request, score: Score) -> (r: i32)
        requires
            old(self).builds(),
        ensures
            final(self).builds(),
            final(self).builder() == old(self).builder(),
            final(self).controllers().dom() == old(self).controllers().dom().insert(req.region_uid),
            forall|uid: i32|
                uid != req.region_uid && old(self).controllers().contains_key(uid) ==> #[trigger] final(self).controllers()[uid] == old(self).controllers()[uid],
            old(self).pending().contains_key(req.region_uid) ==> {
                let waiting = old(self).pending()[req.region_uid];
                let ctrl = old(self).controllers()[req.region_uid];
                &&& final(self).pending() == old(self).pending().insert(
                    req.region_uid,
                    if waiting.len() + 1 >= ROUND_SIZE {
                        Seq::empty()
                    } else {
                        waiting.push(score)
                    },
                )
                &&& waiting.len() + 1 < ROUND_SIZE ==> r == ctrl.recommended_threads() && ctrl.advances_to(
                    final(self).controllers()[req.region_uid],
                )
                &&& waiting.len() + 1 >= ROUND_SIZE ==> exists|round: Vec<Score>, next: Ctrl|
                    round@ == waiting.push(score) && #[trigger] ctrl.evolves_to(round, next) && r
                        == next.recommended_threads() && next.advances_to(final(self).controllers()[req.region_uid])
            },
            !old(self).pending().contains_key(req.region_uid) ==> {
                &&& final(self).pending() == old(self).pending().insert(req.region_uid, Seq::empty())
                &&& exists|built: Ctrl|
                    #[trigger] old(self).builder().ensures((req,), built) && r == built.recommended_threads()
                        && built.advances_to(final(self).controllers()[req.region_uid])
            },
    {
        if self.holds_region(req.region_uid) {
            self.update(req.region_uid, score);
            let ghost mid = self.controllers()[req.region_uid];
            let r = self.get_demand(req.region_uid);
            proof {
                if old(self).pending()[req.region_uid].len() + 1 >= ROUND_SIZE {
                    let round = choose|round: Vec<Score>|
                        round@ == old(self).pending()[req.region_uid].push(score) && #[trigger] old(self).controllers()[req.region_uid].evolves_to(round, mid);
                    assert(old(self).controllers()[req.region_uid].evolves_to(round, mid));
                }
                assert(old(self).controllers().dom().insert(req.region_uid) =~= old(self).controllers().dom());
            }
            r
        } else {
            self.try_get_demand(req)
        }
    }
}

} // verus!
