//! Coverage-differential bisection: given a parent input and a mutated child
//! that triggered new coverage, isolate the shortest byte range of the child
//! whose presence reproduces the child's coverage.
//!
//! The executor lives outside the library, so the search is a state machine:
//! the driver runs the current probe input against the target, classifies the
//! observed coverage against the parent's and the child's fingerprints, and
//! feeds the class (and a fresh perturbation byte) back into the machine.
//! The machine is a function of the parent, the child and the fed events, so
//! two identical runs isolate the identical range.

use crate::bytes::clone_bytes;
use crate::bytes::subrange_vec;
use vstd::prelude::*;

verus! {

/// How a probe's coverage fingerprint compares to the two references.
#[derive(Debug, Clone, Copy, PartialEq, Eq, Structural)]
pub enum CoverageClass {
    /// Equal to the child's fingerprint.
    MatchesChild,
    /// Equal to the parent's fingerprint.
    MatchesParent,
    /// Equal to neither.
    Other,
}

/// The current stage of the bisection.
#[derive(Debug, Clone, Copy, PartialEq, Eq, Structural)]
pub enum DeltaPhase {
    /// Copying child bytes over the parent until the child coverage appears.
    FindRight,
    /// Perturbing bytes after the anchor until one is irrelevant.
    ExtendRight,
    /// Perturbing bytes before the right bound until the parent coverage
    /// reappears.
    ExtendLeft,
    /// The range is settled.
    Done,
}

/// The mathematical state of the search.
pub struct DeltaModel {
    pub parent: Seq<u8>,
    pub child: Seq<u8>,
    pub test: Seq<u8>,
    pub idx: int,
    pub saved: u8,
    pub left: int,
    pub right: int,
    pub phase: DeltaPhase,
    pub min_tl: int,
    pub max_tl: int,
}

/// End of the right-extension window.
pub open spec fn right_bound_model(m: DeltaModel) -> int {
    if m.left + m.max_tl <= m.child.len() {
        m.left + m.max_tl
    } else {
        m.child.len() as int
    }
}

/// The perturbation used while searching left: a fresh byte where the probe
/// already matches the parent, the parent's byte otherwise.
pub open spec fn perturb_left_model(test: Seq<u8>, parent: Seq<u8>, i: int, byte: u8) -> u8 {
    if i >= parent.len() || test[i] == parent[i] {
        byte
    } else {
        parent[i]
    }
}

/// Entering the right-extension stage after the anchor was found.
pub open spec fn enter_extend_right_model(m: DeltaModel, byte: u8) -> DeltaModel {
    if m.right < right_bound_model(m) && m.right < m.test.len() {
        DeltaModel {
            idx: m.right,
            saved: m.test[m.right],
            test: m.test.update(m.right, byte),
            phase: DeltaPhase::ExtendRight,
            ..m
        }
    } else {
        enter_extend_left_model(m, byte)
    }
}

/// Entering the left-extension stage.
pub open spec fn enter_extend_left_model(m: DeltaModel, byte: u8) -> DeltaModel {
    let lo = if m.right > m.max_tl {
        m.right - m.max_tl
    } else {
        0
    };
    if lo < m.right {
        DeltaModel {
            idx: lo,
            saved: m.test[lo],
            test: m.test.update(lo, perturb_left_model(m.test, m.parent, lo, byte)),
            phase: DeltaPhase::ExtendLeft,
            ..m
        }
    } else {
        DeltaModel { phase: DeltaPhase::Done, ..m }
    }
}

/// One transition of the search on an observed coverage class and a fresh
/// perturbation byte.
pub open spec fn step_model(m: DeltaModel, class: CoverageClass, byte: u8) -> DeltaModel {
    match m.phase {
        DeltaPhase::FindRight => {
            if class == CoverageClass::MatchesChild {
                let m2 = DeltaModel { left: m.idx, right: m.idx + 1, ..m };
                enter_extend_right_model(m2, byte)
            } else {
                if m.idx + 1 < m.child.len() {
                    let v = m.child[m.idx + 1];
                    let t2 = if m.idx + 1 >= m.test.len() {
                        m.test.push(v)
                    } else {
                        m.test.update(m.idx + 1, v)
                    };
                    DeltaModel { test: t2, idx: m.idx + 1, ..m }
                } else {
                    DeltaModel { left: 0, right: 0, phase: DeltaPhase::Done, ..m }
                }
            }
        },
        DeltaPhase::ExtendRight => {
            let m1 = DeltaModel { test: m.test.update(m.idx, m.saved), ..m };
            if class == CoverageClass::MatchesChild {
                enter_extend_left_model(DeltaModel { right: m1.idx, ..m1 }, byte)
            } else {
                if m1.idx + 1 < right_bound_model(m1) && m1.idx + 1 < m1.test.len() {
                    DeltaModel {
                        idx: m1.idx + 1,
                        saved: m1.test[m1.idx + 1],
                        test: m1.test.update(m1.idx + 1, byte),
                        ..m1
                    }
                } else {
                    enter_extend_left_model(m1, byte)
                }
            }
        },
        DeltaPhase::ExtendLeft => {
            let m1 = DeltaModel { test: m.test.update(m.idx, m.saved), ..m };
            if class == CoverageClass::MatchesParent {
                DeltaModel { left: m1.idx, phase: DeltaPhase::Done, ..m1 }
            } else {
                if m1.idx + 1 < m1.right {
                    DeltaModel {
                        idx: m1.idx + 1,
                        saved: m1.test[m1.idx + 1],
                        test: m1.test.update(
                            m1.idx + 1,
                            perturb_left_model(m1.test, m1.parent, m1.idx + 1, byte),
                        ),
                        ..m1
                    }
                } else {
                    DeltaModel { phase: DeltaPhase::Done, ..m1 }
                }
            }
        },
        DeltaPhase::Done => m,
    }
}

/// The initial state of the search.
pub open spec fn start_model(parent: Seq<u8>, child: Seq<u8>, min_tl: int, max_tl: int) -> DeltaModel {
    if child.len() == 0 {
        DeltaModel {
            parent: parent,
            child: child,
            test: parent,
            idx: 0,
            saved: 0,
            left: 0,
            right: 0,
            phase: DeltaPhase::Done,
            min_tl: min_tl,
            max_tl: max_tl,
        }
    } else {
        let t = if parent.len() == 0 {
            parent.push(child[0])
        } else {
            parent.update(0, child[0])
        };
        DeltaModel {
            parent: parent,
            child: child,
            test: t,
            idx: 0,
            saved: 0,
            left: 0,
            right: 0,
            phase: DeltaPhase::FindRight,
            min_tl: min_tl,
            max_tl: max_tl,
        }
    }
}

/// The token finally isolated: the child bytes of the settled range, when it
/// is long enough.
pub open spec fn result_model(m: DeltaModel) -> Option<Seq<u8>> {
    if m.phase == DeltaPhase::Done && m.right - m.left >= m.min_tl && 0 <= m.left <= m.right
        <= m.child.len() {
        Some(m.child.subrange(m.left, m.right))
    } else {
        None
    }
}

/// The state after feeding a whole event sequence.
pub open spec fn run_model(m: DeltaModel, events: Seq<(CoverageClass, u8)>) -> DeltaModel
    decreases events.len(),
{
    if events.len() == 0 {
        m
    } else {
        run_model(step_model(m, events.first().0, events.first().1), events.drop_first())
    }
}

/// The search is a function of the parent, the child, and the observed
/// events: two searches started alike and fed pointwise-equal events reach
/// the same state and isolate the same token (or both none).
pub proof fn lemma_delta_run_deterministic(
    parent: Seq<u8>,
    child: Seq<u8>,
    min_tl: int,
    max_tl: int,
    events1: Seq<(CoverageClass, u8)>,
    events2: Seq<(CoverageClass, u8)>,
)
    requires
        events1 == events2,
    ensures
        run_model(start_model(parent, child, min_tl, max_tl), events1) == run_model(
            start_model(parent, child, min_tl, max_tl),
            events2,
        ),
        result_model(run_model(start_model(parent, child, min_tl, max_tl), events1))
            == result_model(run_model(start_model(parent, child, min_tl, max_tl), events2)),
{
}

/// The executable state of the search.
pub struct DeltaSearch {
    parent: Vec<u8>,
    child: Vec<u8>,
    test: Vec<u8>,
    idx: usize,
    saved: u8,
    left: usize,
    right: usize,
    phase: DeltaPhase,
    min_token_length: usize,
    max_token_length: usize,
}

impl DeltaSearch {
    /// The mathematical state.
    pub closed spec fn model(self) -> DeltaModel {
        DeltaModel {
            parent: self.parent@,
            child: self.child@,
            test: self.test@,
            idx: self.idx as int,
            saved: self.saved,
            left: self.left as int,
            right: self.right as int,
            phase: self.phase,
            min_tl: self.min_token_length as int,
            max_tl: self.max_token_length as int,
        }
    }

    /// Structural soundness of the state: all indices point into their
    /// buffers.
    pub closed spec fn wf(self) -> bool {
        &&& self.phase == DeltaPhase::FindRight ==> self.idx < self.child.len() && self.idx
            < self.test.len()
        &&& self.phase == DeltaPhase::ExtendRight ==> self.idx < self.test.len() && self.idx
            < self.child.len() && self.left < self.right <= self.child.len() && self.right
            <= self.idx + 1 && (self.max_token_length >= 1 ==> self.right <= self.left
            + self.max_token_length && self.idx < self.left + self.max_token_length)
        &&& self.phase == DeltaPhase::ExtendLeft ==> self.idx < self.right && self.right
            <= self.test.len() && self.left <= self.right <= self.child.len() && (
        self.max_token_length >= 1 ==> self.right <= self.left + self.max_token_length
            && self.right <= self.idx + self.max_token_length)
        &&& self.phase == DeltaPhase::Done ==> self.left <= self.right <= self.child.len() && (
        self.max_token_length >= 1 ==> self.right <= self.left + self.max_token_length)
    }

    /// Whether another probe execution is needed.
    pub fn active(&self) -> (r: bool)
        ensures
            r == (self.model().phase != DeltaPhase::Done),
    {
        !matches!(self.phase, DeltaPhase::Done)
    }

    /// The probe input to run next.
    pub fn current_input(&self) -> (r: Vec<u8>)
        ensures
            r@ == self.model().test,
    {
        clone_bytes(&self.test)
    }

    /// Starts a search for the causative range between `parent` and `child`.
    pub fn start(
        parent: Vec<u8>,
        child: Vec<u8>,
        min_token_length: usize,
        max_token_length: usize,
    ) -> (r: DeltaSearch)
        ensures
            r.wf(),
            r.model() == start_model(
                parent@,
                child@,
                min_token_length as int,
                max_token_length as int,
            ),
    {
        let ghost pv = parent@;
        let ghost cv = child@;
        if child.len() == 0 {
            let test = clone_bytes(&parent);
            let r = DeltaSearch {
                parent,
                child,
                test,
                idx: 0,
                saved: 0,
                left: 0,
                right: 0,
                phase: DeltaPhase::Done,
                min_token_length,
                max_token_length,
            };
            proof {
                assert(r.model() == start_model(
                    pv,
                    cv,
                    min_token_length as int,
                    max_token_length as int,
                ));
            }
            r
        } else {
            let mut test = clone_bytes(&parent);
            if test.len() == 0 {
                test.push(child[0]);
            } else {
                test.set(0, child[0]);
            }
            let r = DeltaSearch {
                parent,
                child,
                test,
                idx: 0,
                saved: 0,
                left: 0,
                right: 0,
                phase: DeltaPhase::FindRight,
                min_token_length,
                max_token_length,
            };
            proof {
                assert(r.model() == start_model(
                    pv,
                    cv,
                    min_token_length as int,
                    max_token_length as int,
                ));
            }
            r
        }
    }

    /// End of the right-extension window.
    fn right_bound(&self) -> (r: usize)
        requires
            self.left <= self.child.len(),
        ensures
            r as int == right_bound_model(self.model()),
    {
        if self.max_token_length <= self.child.len() - self.left {
            self.left + self.max_token_length
        } else {
            self.child.len()
        }
    }

    /// The perturbation used while searching left.
    fn perturb_left(&self, i: usize, byte: u8) -> (r: u8)
        requires
            i < self.test.len(),
        ensures
            r == perturb_left_model(self.model().test, self.model().parent, i as int, byte),
    {
        if i >= self.parent.len() || self.test[i] == self.parent[i] {
            byte
        } else {
            self.parent[i]
        }
    }

    /// Moves to the right-extension stage, or past it when the window is
    /// empty.
    fn enter_extend_right(&mut self, byte: u8)
        requires
            old(self).left < old(self).right <= old(self).child.len(),
            old(self).right <= old(self).test.len(),
            old(self).max_token_length >= 1 ==> old(self).right <= old(self).left + old(
                self,
            ).max_token_length,
        ensures
            final(self).wf(),
            final(self).model() == enter_extend_right_model(old(self).model(), byte),
    {
        let bound = self.right_bound();
        if self.right < bound && self.right < self.test.len() {
            self.idx = self.right;
            self.saved = self.test[self.idx];
            self.test.set(self.idx, byte);
            self.phase = DeltaPhase::ExtendRight;
        } else {
            self.enter_extend_left(byte);
        }
    }

    /// Moves to the left-extension stage, or finishes when its window is
    /// empty.
    fn enter_extend_left(&mut self, byte: u8)
        requires
            old(self).left <= old(self).right <= old(self).child.len(),
            old(self).right <= old(self).test.len(),
            old(self).max_token_length >= 1 ==> old(self).right <= old(self).left + old(
                self,
            ).max_token_length,
        ensures
            final(self).wf(),
            final(self).model() == enter_extend_left_model(old(self).model(), byte),
    {
        let lo = if self.right > self.max_token_length {
            self.right - self.max_token_length
        } else {
            0
        };
        if lo < self.right {
            self.idx = lo;
            self.saved = self.test[lo];
            let v = self.perturb_left(lo, byte);
            self.test.set(lo, v);
            self.phase = DeltaPhase::ExtendLeft;
        } else {
            self.phase = DeltaPhase::Done;
        }
    }

    /// Feeds the classification of the last probe's coverage (and a fresh
    /// perturbation byte) into the search.
    pub fn step(&mut self, class: CoverageClass, byte: u8)
        requires
            old(self).wf(),
        ensures
            final(self).wf(),
            final(self).model() == step_model(old(self).model(), class, byte),
    {
        match self.phase {
            DeltaPhase::FindRight => {
                if matches!(class, CoverageClass::MatchesChild) {
                    self.left = self.idx;
                    self.right = self.idx + 1;
                    self.enter_extend_right(byte);
                } else {
                    if self.idx + 1 < self.child.len() {
                        let ni = self.idx + 1;
                        let v = self.child[ni];
                        if ni >= self.test.len() {
                            self.test.push(v);
                        } else {
                            self.test.set(ni, v);
                        }
                        self.idx = ni;
                    } else {
                        self.left = 0;
                        self.right = 0;
                        self.phase = DeltaPhase::Done;
                    }
                }
            },
            DeltaPhase::ExtendRight => {
                self.test.set(self.idx, self.saved);
                if matches!(class, CoverageClass::MatchesChild) {
                    self.right = self.idx;
                    self.enter_extend_left(byte);
                } else {
                    let bound = self.right_bound();
                    if self.idx + 1 < bound && self.idx + 1 < self.test.len() {
                        let ni = self.idx + 1;
                        self.saved = self.test[ni];
                        self.test.set(ni, byte);
                        self.idx = ni;
                    } else {
                        self.enter_extend_left(byte);
                    }
                }
            },
            DeltaPhase::ExtendLeft => {
                self.test.set(self.idx, self.saved);
                if matches!(class, CoverageClass::MatchesParent) {
                    self.left = self.idx;
                    self.phase = DeltaPhase::Done;
                } else {
                    if self.idx + 1 < self.right {
                        let ni = self.idx + 1;
                        self.saved = self.test[ni];
                        let v = self.perturb_left(ni, byte);
                        self.test.set(ni, v);
                        self.idx = ni;
                    } else {
                        self.phase = DeltaPhase::Done;
                    }
                }
            },
            DeltaPhase::Done => {},
        }
    }

    /// The isolated token: the child bytes of the settled range, when the
    /// range is long enough.
    pub fn result(&self) -> (r: Option<Vec<u8>>)
        requires
            self.wf(),
        ensures
            match r {
                Some(v) => result_model(self.model()) == Some(v@),
                None => result_model(self.model()) is None,
            },
            r matches Some(v) ==> v@.len() as int >= self.model().min_tl && (self.model().max_tl
                >= 1 ==> v@.len() as int <= self.model().max_tl),
    {
        if matches!(self.phase, DeltaPhase::Done) {
            if self.right - self.left >= self.min_token_length {
                Some(subrange_vec(&self.child, self.left, self.right))
            } else {
                None
            }
        } else {
            None
        }
    }
}

/// Drives the range isolation between a parent and its coverage-novel child.
pub struct MutationDeltaExtractor {
    pub min_token_length: usize,
    pub max_token_length: usize,
}

impl MutationDeltaExtractor {
    pub fn new(min_token_length: usize, max_token_length: usize) -> (r: Self)
        ensures
            r.min_token_length == min_token_length,
            r.max_token_length == max_token_length,
    {
        MutationDeltaExtractor { min_token_length, max_token_length }
    }

    /// Begins a search between the two inputs.
    pub fn begin(&self, parent: Vec<u8>, child: Vec<u8>) -> (r: DeltaSearch)
        ensures
            r.wf(),
            r.model() == start_model(
                parent@,
                child@,
                self.min_token_length as int,
                self.max_token_length as int,
            ),
    {
        DeltaSearch::start(parent, child, self.min_token_length, self.max_token_length)
    }

    pub fn name(&self) -> (r: &'static str) {
        "mutation_delta"
    }
}

} // verus!
