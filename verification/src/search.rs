//! Depth-first enumeration of the fundamental domains of a reflection group.
//!
//! The traversal is kept apart from the geometry. This module owns the stack of
//! `(domain, next mirror)` frames and the number of domains discovered so far;
//! domains are known to it only by their position in the caller's list. The
//! caller reflects the domain of the top frame across the mirror of the top
//! frame, decides whether the image is already in its list, and reports the
//! outcome; the machine then says what to probe next.

use vstd::prelude::*;

verus! {

/// One entry of the traversal stack: a discovered domain and the next mirror
/// to reflect it across.
#[derive(Clone, Copy, PartialEq, Eq, Debug, Structural)]
pub struct Frame {
    pub flag: usize,
    pub mirror: usize,
}

/// A frame as the mathematical state holds it.
pub struct Site {
    /// Position of the domain in the list of discovered domains.
    pub flag: nat,
    /// The next mirror to reflect the domain across.
    pub mirror: nat,
}

impl View for Frame {
    type V = Site;

    open spec fn view(&self) -> Site {
        Site { flag: self.flag as nat, mirror: self.mirror as nat }
    }
}

/// What the caller found when it reflected the top frame's domain across the
/// top frame's mirror.
#[derive(Clone, Copy, PartialEq, Eq, Debug, Structural)]
pub enum Outcome {
    /// The image matches a domain that is already in the list.
    Known,
    /// The image is a new domain; the caller has appended it to the list.
    Fresh,
}

/// The mathematical state of a traversal.
pub struct Trail {
    /// Number of mirrors, which is also the dimension of the space.
    pub dim: nat,
    /// Number of domains discovered so far.
    pub found: nat,
    /// The frames still to be worked on, bottom first.
    pub stack: Seq<Site>,
}

/// The state before the first probe: the starting domain is domain 0 and all
/// of its mirrors are still to be tried.
pub open spec fn start(dim: nat) -> Trail {
    Trail { dim, found: 1, stack: seq![Site { flag: 0, mirror: 0 }] }
}

/// A state that a traversal can be in: every frame names a discovered domain
/// and a mirror that exists, and domains lie on the stack in the order of
/// their discovery.
pub open spec fn valid(t: Trail) -> bool {
    &&& t.dim >= 1
    &&& t.found >= 1
    &&& forall|i: int|
        0 <= i < t.stack.len() ==> (#[trigger] t.stack[i]).flag < t.found && t.stack[i].mirror
            < t.dim
    &&& forall|i: int, j: int|
        0 <= i < j < t.stack.len() ==> (#[trigger] t.stack[i]).flag < (#[trigger] t.stack[j]).flag
}

/// The stack after the top frame has used up one mirror: its mirror index
/// moves on, and the frame leaves the stack once no mirror is left for it.
pub open spec fn advance_top(stack: Seq<Site>, dim: nat) -> Seq<Site>
    recommends
        stack.len() > 0,
{
    let top = stack.last();
    if top.mirror + 1 >= dim {
        stack.drop_last()
    } else {
        stack.drop_last().push(Site { flag: top.flag, mirror: top.mirror + 1 })
    }
}

/// The state after one probe with the given outcome. A known image only moves
/// the top frame on. A fresh image becomes domain number `found` and
/// gets a frame of its own above the one that produced it.
pub open spec fn step(t: Trail, outcome: Outcome) -> Trail
    recommends
        t.stack.len() > 0,
{
    match outcome {
        Outcome::Known => Trail { stack: advance_top(t.stack, t.dim), ..t },
        Outcome::Fresh => Trail {
            dim: t.dim,
            found: t.found + 1,
            stack: advance_top(t.stack, t.dim).push(Site { flag: t.found, mirror: 0 }),
        },
    }
}

/// The state after a series of probes, reported in order.
pub open spec fn run(t: Trail, outcomes: Seq<Outcome>) -> Trail
    decreases outcomes.len(),
{
    if outcomes.len() == 0 {
        t
    } else {
        step(run(t, outcomes.drop_last()), outcomes.last())
    }
}

/// Every probe of the series found a frame on the stack to work on.
pub open spec fn runnable(t: Trail, outcomes: Seq<Outcome>) -> bool {
    forall|k: int| 0 <= k < outcomes.len() ==> (#[trigger] run(t, outcomes.take(k))).stack.len() > 0
}

/// Number of probes that the frames on the stack still call for.
pub open spec fn pending(stack: Seq<Site>, dim: nat) -> int
    decreases stack.len(),
{
    if stack.len() == 0 {
        0
    } else {
        pending(stack.drop_last(), dim) + (dim - stack.last().mirror)
    }
}

/// Number of probes made so far: each discovered domain calls for one probe
/// per mirror, less those still pending.
pub open spec fn probes_done(t: Trail) -> int {
    t.dim * t.found - pending(t.stack, t.dim)
}

/// Number of fresh outcomes in a series.
pub open spec fn fresh_count(outcomes: Seq<Outcome>) -> nat
    decreases outcomes.len(),
{
    if outcomes.len() == 0 {
        0
    } else {
        fresh_count(outcomes.drop_last()) + if outcomes.last() == Outcome::Fresh {
            1nat
        } else {
            0nat
        }
    }
}

/// The traversal state machine.
pub struct Search {
    dim: usize,
    found: usize,
    stack: Vec<Frame>,
}

impl View for Search {
    type V = Trail;

    closed spec fn view(&self) -> Trail {
        Trail {
            dim: self.dim as nat,
            found: self.found as nat,
            stack: self.stack@.map_values(|f: Frame| f@),
        }
    }
}

impl Search {
    /// The invariant of the machine.
    pub open spec fn wf(&self) -> bool {
        valid(self@)
    }

    /// A traversal of a group with `dim` mirrors, about to probe the starting
    /// domain, which is domain 0 of the caller's list.
    pub fn new(dim: usize) -> (s: Search)
        requires
            dim >= 1,
        ensures
            s@ == start(dim as nat),
            s.wf(),
    {
        let mut stack: Vec<Frame> = Vec::new();
        stack.push(Frame { flag: 0, mirror: 0 });
        let s = Search { dim, found: 1, stack };
        assert(s@.stack =~= start(dim as nat).stack);
        s
    }

    /// Number of mirrors.
    pub fn dim(&self) -> (d: usize)
        ensures
            d == self@.dim,
    {
        self.dim
    }

    /// Number of domains discovered so far.
    pub fn found(&self) -> (n: usize)
        ensures
            n == self@.found,
    {
        self.found
    }

    /// Number of frames on the stack.
    pub fn depth(&self) -> (n: usize)
        ensures
            n == self@.stack.len(),
    {
        self.stack.len()
    }

    /// Whether the traversal is over: no frame is left to work on.
    pub fn is_finished(&self) -> (b: bool)
        ensures
            b == (self@.stack.len() == 0),
    {
        self.stack.len() == 0
    }

    /// The probe to make next: the domain to reflect and the mirror to reflect
    /// it across. `None` once the traversal is over.
    pub fn current(&self) -> (probe: Option<Frame>)
        ensures
            match probe {
                None => self@.stack.len() == 0,
                Some(frame) => self@.stack.len() > 0 && frame@ == self@.stack.last(),
            },
    {
        let n: usize = self.stack.len();
        if n == 0 {
            None
        } else {
            Some(self.stack[n - 1])
        }
    }

    /// Takes the outcome of the current probe and moves to the next state.
    pub fn advance(&mut self, outcome: Outcome)
        requires
            old(self).wf(),
            old(self)@.stack.len() > 0,
            outcome == Outcome::Fresh ==> old(self)@.found < usize::MAX,
        ensures
            final(self)@ == step(old(self)@, outcome),
            final(self).wf(),
            probes_done(final(self)@) == probes_done(old(self)@) + 1,
    {
        let ghost before = self@;
        proof {
            step_keeps_valid(before, outcome);
            step_counts_one_probe(before, outcome);
        }
        let top = self.stack.pop().unwrap();
        if top.mirror + 1 < self.dim {
            self.stack.push(Frame { flag: top.flag, mirror: top.mirror + 1 });
        }
        assert(self@.stack =~= advance_top(before.stack, before.dim));
        match outcome {
            Outcome::Known => {},
            Outcome::Fresh => {
                self.stack.push(Frame { flag: self.found, mirror: 0 });
                self.found = self.found + 1;
            },
        }
        assert(self@.stack =~= step(before, outcome).stack);
    }
}

/// Moving the top frame on takes exactly one probe off those pending.
pub proof fn advance_top_pending(stack: Seq<Site>, dim: nat)
    requires
        stack.len() > 0,
        stack.last().mirror < dim,
    ensures
        pending(advance_top(stack, dim), dim) == pending(stack, dim) - 1,
{
    let top = stack.last();
    let next = advance_top(stack, dim);
    if top.mirror + 1 >= dim {
    } else {
        assert(next.drop_last() =~= stack.drop_last());
    }
}

/// One probe keeps the state valid.
pub proof fn step_keeps_valid(t: Trail, outcome: Outcome)
    requires
        valid(t),
        t.stack.len() > 0,
    ensures
        valid(step(t, outcome)),
{
    let moved = advance_top(t.stack, t.dim);
    assert forall|i: int| 0 <= i < moved.len() implies (#[trigger] moved[i]).flag
        == t.stack[i].flag && moved[i].mirror < t.dim by {}
    let next = step(t, outcome);
    assert forall|i: int| 0 <= i < next.stack.len() implies (#[trigger] next.stack[i]).flag
        < next.found && next.stack[i].mirror < next.dim by {
        if i < moved.len() {
            assert(next.stack[i] == moved[i]);
        }
    }
    assert forall|i: int, j: int| 0 <= i < j < next.stack.len() implies (#[trigger] next.stack[i]).flag
        < (#[trigger] next.stack[j]).flag by {
        assert(next.stack[i] == moved[i]);
        if j < moved.len() {
            assert(next.stack[j] == moved[j]);
        }
    }
}

/// Every probe is counted once: whatever its outcome, one step raises the
/// number of probes done by exactly one.
pub proof fn step_counts_one_probe(t: Trail, outcome: Outcome)
    requires
        valid(t),
        t.stack.len() > 0,
    ensures
        probes_done(step(t, outcome)) == probes_done(t) + 1,
{
    advance_top_pending(t.stack, t.dim);
    let moved = advance_top(t.stack, t.dim);
    match outcome {
        Outcome::Known => {},
        Outcome::Fresh => {
            let pushed = moved.push(Site { flag: t.found, mirror: 0 });
            assert(pushed.drop_last() =~= moved);
            assert(t.dim * (t.found + 1) == t.dim * t.found + t.dim) by (nonlinear_arith);
        },
    }
}

/// The frames of a valid state never call for a negative number of probes.
pub proof fn pending_is_natural(t: Trail)
    requires
        valid(t),
    ensures
        pending(t.stack, t.dim) >= 0,
        t.stack.len() > 0 ==> pending(t.stack, t.dim) > 0,
    decreases t.stack.len(),
{
    if t.stack.len() > 0 {
        let rest = Trail { stack: t.stack.drop_last(), ..t };
        assert forall|i: int| 0 <= i < rest.stack.len() implies (#[trigger] rest.stack[i])
            == t.stack[i] by {}
        pending_is_natural(rest);
    }
}

/// A series of probes, each made while a frame was on the stack, keeps the
/// state valid, is counted probe by probe, and discovers one domain for each
/// fresh outcome.
pub proof fn run_accounts(t: Trail, outcomes: Seq<Outcome>)
    requires
        valid(t),
        runnable(t, outcomes),
    ensures
        valid(run(t, outcomes)),
        run(t, outcomes).dim == t.dim,
        run(t, outcomes).found == t.found + fresh_count(outcomes),
        probes_done(run(t, outcomes)) == probes_done(t) + outcomes.len(),
    decreases outcomes.len(),
{
    if outcomes.len() > 0 {
        let earlier = outcomes.drop_last();
        assert forall|k: int| 0 <= k < earlier.len() implies (#[trigger] run(
            t,
            earlier.take(k),
        )).stack.len() > 0 by {
            assert(earlier.take(k) =~= outcomes.take(k));
        }
        run_accounts(t, earlier);
        assert(outcomes.take(outcomes.len() - 1) =~= earlier);
        let middle = run(t, earlier);
        step_keeps_valid(middle, outcomes.last());
        step_counts_one_probe(middle, outcomes.last());
    }
}

/// A traversal that has run to its end has reflected every domain it
/// discovered across every mirror exactly once: from the start to an empty
/// stack it takes `dim` probes for each domain in the list.
pub proof fn finished_run_length(dim: nat, outcomes: Seq<Outcome>)
    requires
        dim >= 1,
        runnable(start(dim), outcomes),
        run(start(dim), outcomes).stack.len() == 0,
    ensures
        run(start(dim), outcomes).found == 1 + fresh_count(outcomes),
        outcomes.len() == dim * (1 + fresh_count(outcomes)),
{
    start_is_valid(dim);
    run_accounts(start(dim), outcomes);
}

/// A traversal cannot go on for ever while the list of domains stays bounded:
/// after any series of probes from the start, their number is at most `dim`
/// times the number of domains discovered, and smaller while a frame is still
/// on the stack.
pub proof fn run_length_bound(dim: nat, outcomes: Seq<Outcome>)
    requires
        dim >= 1,
        runnable(start(dim), outcomes),
    ensures
        outcomes.len() <= dim * run(start(dim), outcomes).found,
        run(start(dim), outcomes).stack.len() > 0 ==> outcomes.len() < dim * run(
            start(dim),
            outcomes,
        ).found,
{
    start_is_valid(dim);
    run_accounts(start(dim), outcomes);
    pending_is_natural(run(start(dim), outcomes));
}

/// The starting state is valid and no probe has been made in it.
pub proof fn start_is_valid(dim: nat)
    requires
        dim >= 1,
    ensures
        valid(start(dim)),
        probes_done(start(dim)) == 0,
{
    let s = start(dim).stack;
    assert(s.drop_last() =~= Seq::<Site>::empty());
    assert(pending(s.drop_last(), dim) == 0);
    assert(dim * 1 == dim) by (nonlinear_arith);
}

/// The probe made at position `k` of a series that began at the start: the
/// top frame of the stack at that moment.
pub open spec fn probe(dim: nat, outcomes: Seq<Outcome>, k: int) -> Site
    recommends
        0 <= k < outcomes.len(),
{
    run(start(dim), outcomes.take(k)).stack.last()
}

/// The series held a probe of this domain with this mirror.
pub open spec fn probed(dim: nat, outcomes: Seq<Outcome>, site: Site) -> bool {
    exists|k: int| 0 <= k < outcomes.len() && #[trigger] probe(dim, outcomes, k) == site
}

/// Number of mirrors that a domain is through with, as far as the stack
/// tells: the mirror index of its frame, and all of them for a domain that
/// has no frame.
pub open spec fn tried(stack: Seq<Site>, dim: nat, flag: nat) -> nat
    decreases stack.len(),
{
    if stack.len() == 0 {
        dim
    } else if stack.last().flag == flag {
        stack.last().mirror
    } else {
        tried(stack.drop_last(), dim, flag)
    }
}

/// A domain without a frame is through with all mirrors.
proof fn tried_without_frame(stack: Seq<Site>, dim: nat, flag: nat)
    requires
        forall|p: int| 0 <= p < stack.len() ==> (#[trigger] stack[p]).flag != flag,
    ensures
        tried(stack, dim, flag) == dim,
    decreases stack.len(),
{
    if stack.len() > 0 {
        let rest = stack.drop_last();
        assert forall|p: int| 0 <= p < rest.len() implies (#[trigger] rest[p]).flag != flag by {
            assert(rest[p] == stack[p]);
        }
        tried_without_frame(rest, dim, flag);
    }
}

/// One probe takes the domain of the top frame through one more mirror and
/// leaves every other discovered domain where it was; a domain that the probe
/// discovers is through with none.
proof fn tried_after_step(t: Trail, outcome: Outcome, flag: nat)
    requires
        valid(t),
        t.stack.len() > 0,
    ensures
        tried(step(t, outcome).stack, t.dim, flag) == if flag == t.stack.last().flag {
            t.stack.last().mirror + 1
        } else if outcome == Outcome::Fresh && flag == t.found {
            0
        } else {
            tried(t.stack, t.dim, flag)
        },
{
    let top = t.stack.last();
    let rest = t.stack.drop_last();
    let moved = advance_top(t.stack, t.dim);
    assert(top == t.stack[t.stack.len() - 1]);
    if top.mirror + 1 >= t.dim {
        if flag == top.flag {
            assert forall|p: int| 0 <= p < rest.len() implies (#[trigger] rest[p]).flag != flag by {
                assert(rest[p] == t.stack[p]);
            }
            tried_without_frame(rest, t.dim, flag);
        }
    } else {
        assert(moved.drop_last() =~= rest);
    }
    assert(tried(moved, t.dim, flag) == if flag == top.flag {
        top.mirror + 1
    } else {
        tried(t.stack, t.dim, flag)
    });
    if outcome == Outcome::Fresh {
        let pushed = moved.push(Site { flag: t.found, mirror: 0 });
        assert(pushed.drop_last() =~= moved);
    }
}

/// A probe of a series is the same probe in every longer series that begins
/// with it.
proof fn probe_of_longer(dim: nat, outcomes: Seq<Outcome>, k: int)
    requires
        0 <= k < outcomes.len() - 1,
    ensures
        probe(dim, outcomes.drop_last(), k) == probe(dim, outcomes, k),
{
    assert(outcomes.drop_last().take(k) =~= outcomes.take(k));
}

/// What has been probed after a series of probes: of every discovered domain
/// the mirrors that it is through with, and nothing else.
pub proof fn run_covers(dim: nat, outcomes: Seq<Outcome>)
    requires
        dim >= 1,
        runnable(start(dim), outcomes),
    ensures
        forall|site: Site|
            probed(dim, outcomes, site) <==> site.flag < run(start(dim), outcomes).found
                && site.mirror < tried(run(start(dim), outcomes).stack, dim, site.flag),
    decreases outcomes.len(),
{
    let t = run(start(dim), outcomes);
    if outcomes.len() == 0 {
        assert(t.stack.drop_last() =~= Seq::<Site>::empty());
        assert forall|site: Site|
            probed(dim, outcomes, site) <==> site.flag < t.found && site.mirror < tried(
                t.stack,
                dim,
                site.flag,
            ) by {}
    } else {
        let earlier = outcomes.drop_last();
        let last = outcomes.len() - 1;
        assert forall|k: int| 0 <= k < earlier.len() implies (#[trigger] run(
            start(dim),
            earlier.take(k),
        )).stack.len() > 0 by {
            assert(earlier.take(k) =~= outcomes.take(k));
        }
        run_covers(dim, earlier);
        start_is_valid(dim);
        run_accounts(start(dim), earlier);
        assert(outcomes.take(last) =~= earlier);
        let before = run(start(dim), earlier);
        let top = before.stack.last();
        assert(top == before.stack[before.stack.len() - 1]);
        assert(probe(dim, outcomes, last) == top);
        assert forall|site: Site|
            probed(dim, outcomes, site) <==> site.flag < t.found && site.mirror < tried(
                t.stack,
                dim,
                site.flag,
            ) by {
            tried_after_step(before, outcomes.last(), site.flag);
            if probed(dim, outcomes, site) {
                let k = choose|k: int|
                    0 <= k < outcomes.len() && #[trigger] probe(dim, outcomes, k) == site;
                if k < last {
                    probe_of_longer(dim, outcomes, k);
                    assert(probed(dim, earlier, site));
                }
            }
            if probed(dim, earlier, site) {
                let k = choose|k: int|
                    0 <= k < earlier.len() && #[trigger] probe(dim, earlier, k) == site;
                probe_of_longer(dim, outcomes, k);
                assert(probe(dim, outcomes, k) == site);
            }
        }
    }
}

/// The traversal leaves nothing out: when it has run to its end, every
/// domain in the list has been reflected across every mirror, so the list is
/// closed under the reflections that generate the group.
pub proof fn finished_run_covers(dim: nat, outcomes: Seq<Outcome>, flag: nat, mirror: nat)
    requires
        dim >= 1,
        runnable(start(dim), outcomes),
        run(start(dim), outcomes).stack.len() == 0,
        flag < run(start(dim), outcomes).found,
        mirror < dim,
    ensures
        probed(dim, outcomes, Site { flag, mirror }),
{
    run_covers(dim, outcomes);
}

/// The traversal repeats nothing: no domain is reflected across the same
/// mirror twice.
pub proof fn probes_are_distinct(dim: nat, outcomes: Seq<Outcome>, j: int, k: int)
    requires
        dim >= 1,
        runnable(start(dim), outcomes),
        0 <= j < k < outcomes.len(),
    ensures
        probe(dim, outcomes, j) != probe(dim, outcomes, k),
{
    let upto = outcomes.take(k);
    assert forall|i: int| 0 <= i < upto.len() implies (#[trigger] run(
        start(dim),
        upto.take(i),
    )).stack.len() > 0 by {
        assert(upto.take(i) =~= outcomes.take(i));
    }
    run_covers(dim, upto);
    let t = run(start(dim), upto);
    let top = t.stack.last();
    assert(top == probe(dim, outcomes, k));
    assert(tried(t.stack, dim, top.flag) == top.mirror);
    assert(!probed(dim, upto, top));
    assert(upto.take(j) =~= outcomes.take(j));
    assert(probe(dim, upto, j) == probe(dim, outcomes, j));
}

/// The probe at position `k` of the series discovered the domain `flag`: its
/// outcome was fresh, and `flag` domains were in the list when it was made.
pub open spec fn discovers(dim: nat, outcomes: Seq<Outcome>, k: int, flag: nat) -> bool {
    &&& 0 <= k < outcomes.len()
    &&& outcomes[k] == Outcome::Fresh
    &&& run(start(dim), outcomes.take(k)).found == flag
}

/// Every domain in the list but the first is the image of an earlier one:
/// some probe of an earlier domain discovered it. So the list holds nothing
/// outside the orbit of the starting domain.
pub proof fn flag_has_origin(dim: nat, outcomes: Seq<Outcome>, flag: nat)
    requires
        dim >= 1,
        runnable(start(dim), outcomes),
        1 <= flag < run(start(dim), outcomes).found,
    ensures
        exists|k: int| #[trigger]
            discovers(dim, outcomes, k, flag) && probe(dim, outcomes, k).flag < flag,
    decreases outcomes.len(),
{
    if outcomes.len() > 0 {
        let earlier = outcomes.drop_last();
        let last = outcomes.len() - 1;
        assert forall|k: int| 0 <= k < earlier.len() implies (#[trigger] run(
            start(dim),
            earlier.take(k),
        )).stack.len() > 0 by {
            assert(earlier.take(k) =~= outcomes.take(k));
        }
        start_is_valid(dim);
        run_accounts(start(dim), earlier);
        assert(outcomes.take(last) =~= earlier);
        let before = run(start(dim), earlier);
        if flag < before.found {
            flag_has_origin(dim, earlier, flag);
            let k = choose|k: int| #[trigger]
                discovers(dim, earlier, k, flag) && probe(dim, earlier, k).flag < flag;
            probe_of_longer(dim, outcomes, k);
            assert(earlier.take(k) =~= outcomes.take(k));
            assert(discovers(dim, outcomes, k, flag));
        } else {
            assert(before.stack.last() == before.stack[before.stack.len() - 1]);
            assert(discovers(dim, outcomes, last, flag));
        }
    }
}

} // verus!
