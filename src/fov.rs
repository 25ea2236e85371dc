use crate::geom::{dir_x, dir_y, hex_dist, Dir6, Vec2};
use crate::polar::{
    angle_le, first_corner, first_half, lemma_angle_six, lemma_angle_trans, lemma_end_bound,
    lemma_first_ring_end, lemma_first_ring_points, lemma_first_ring_turns, lemma_next_after,
    lemma_next_within, lemma_ring_dist, lemma_ring_index, lemma_ring_onto, lemma_second_ring,
    lemma_step_x, lemma_walk_point, lemma_winding_bound, ring_vec, ring_x, ring_y, walk_point,
    PolarPoint, MAX_RADIUS,
};
use vstd::arithmetic::div_mod::lemma_fundamental_div_mod_converse;
use vstd::prelude::*;

verus! {

/// How a cell stands in the player's view.
#[derive(Clone, Copy, Debug, PartialEq, Eq, Hash, Structural)]
pub enum FovStatus {
    /// In view now.
    Seen,
    /// Seen before, out of view now.
    Remembered,
}

/// The offset of a point's cell as a vector.
pub open spec fn cell_of(p: PolarPoint) -> Vec2 {
    Vec2 { x: p.offset_x() as i32, y: p.offset_y() as i32 }
}

/// The outermost ring that a scan of the given range reaches: the range,
/// but at least one.
pub open spec fn reach_of(range: u32) -> int {
    if range == 0 {
        1
    } else {
        range as int
    }
}

/// Whether an opacity oracle can serve a scan that reaches ring `reach`:
/// it accepts every offset of the rings from one to `reach`, and every
/// answer it gives is what `model` says of the offset.
pub open spec fn oracle_fits<F: Fn(Vec2) -> bool>(f: F, model: spec_fn(Vec2) -> bool, reach: int) -> bool {
    &&& forall|p: Vec2|
        1 <= hex_dist(p.x as int, p.y as int) <= reach ==> #[trigger] call_requires(f, (p,))
    &&& forall|p: Vec2, b: bool| #[trigger] call_ensures(f, (p,), b) ==> b == model(p)
}

/// Whether an oracle accepts every offset of the rings from one to `reach`
/// and always gives the same answer for the same offset.
pub open spec fn oracle_deterministic<F: Fn(Vec2) -> bool>(f: F, reach: int) -> bool {
    &&& forall|p: Vec2|
        1 <= hex_dist(p.x as int, p.y as int) <= reach ==> #[trigger] call_requires(f, (p,))
    &&& forall|p: Vec2, a: bool, b: bool|
        #[trigger] call_ensures(f, (p,), a) && #[trigger] call_ensures(f, (p,), b) ==> a == b
}

spec fn frame_weight(model: spec_fn(Vec2) -> bool, range: u32, fr: Frame) -> nat {
    if fr.has_cells() && model(cell_of(fr.pt)) == fr.group_opaque {
        0
    } else {
        (range + 2 - fr.pt.radius) as nat
    }
}

/// Bounds the turns left before a scan yields a cell or ends.
spec fn stack_weight(f: spec_fn(Vec2) -> bool, range: u32, frames: Seq<Frame>) -> nat
    decreases frames.len(),
{
    if frames.len() == 0 {
        0
    } else {
        stack_weight(f, range, frames.drop_last()) + frame_weight(f, range, frames.last())
    }
}

proof fn lemma_weight_push(f: spec_fn(Vec2) -> bool, range: u32, frames: Seq<Frame>, fr: Frame)
    ensures
        stack_weight(f, range, frames.push(fr)) == stack_weight(f, range, frames) + frame_weight(f, range, fr),
{
    assert(frames.push(fr).drop_last() =~= frames);
}

/// One angular run of a ring that the scan has still to walk.
#[derive(Clone, Copy, Debug, PartialEq, Eq)]
pub struct Frame {
    /// Where the run starts.
    pub begin: PolarPoint,
    /// The point being walked.
    pub pt: PolarPoint,
    /// Where the run ends.
    pub end: PolarPoint,
    /// Whether the run is a stretch of opaque cells.
    pub group_opaque: bool,
}

impl Frame {
    /// Whether the run's walk has cells left.
    pub open spec fn has_cells(self) -> bool {
        self.pt.winding() < self.end.end_idx()
    }

    /// The invariant of a run in a scan of the given range: its points share
    /// a ring within range, the run spans at most the whole ring, and the
    /// walked point stays between its ends while cells are left.
    pub open spec fn wf(self, range: u32) -> bool {
        &&& self.begin.wf()
        &&& self.pt.wf()
        &&& self.end.wf()
        &&& self.begin.radius == self.pt.radius
        &&& self.pt.radius == self.end.radius
        &&& 1 <= self.pt.radius
        &&& (self.pt.radius <= range || self.pt.radius == 1)
        &&& self.end.num <= 6 * self.end.den
        &&& angle_le(self.begin, self.end)
        &&& angle_le(self.begin, self.pt)
        &&& (self.has_cells() ==> angle_le(self.pt, self.end))
    }
}

/// What one turn of the scan does with the run on top of its stack.
pub enum ScanStep {
    /// A cell is seen; the stack and the queue of extra cells become these.
    Emit { frames: Seq<Frame>, side: Seq<Vec2>, point: Vec2 },
    /// Nothing is seen yet; the stack becomes this.
    Skip { frames: Seq<Frame> },
    /// The stack is empty: the scan is over.
    Finished,
}

/// Field of view on a hex map.
///
/// Walks the rings around an origin outwards up to a range, splitting each
/// ring into runs of opaque and clear cells, and carries only the clear runs
/// on to the next ring. It yields the offsets of the cells seen, relative to
/// the origin.
pub struct HexFov<F> {
    /// Predicate for whether a given offset blocks the view.
    is_opaque: F,
    /// What the predicate answers, offset by offset.
    model: Ghost<spec_fn(Vec2) -> bool>,
    range: u32,
    stack: Vec<Frame>,
    fake_isometric_hack: bool,
    /// Cells queued by the special cases, yielded before the stack is
    /// consulted again.
    side_channel: Vec<Vec2>,
}

impl<F: Fn(Vec2) -> bool> HexFov<F> {
    pub closed spec fn oracle(&self) -> F {
        self.is_opaque
    }

    pub closed spec fn range(&self) -> u32 {
        self.range
    }

    /// The answers of the oracle, offset by offset.
    pub closed spec fn model(&self) -> spec_fn(Vec2) -> bool {
        self.model@
    }

    pub closed spec fn fake(&self) -> bool {
        self.fake_isometric_hack
    }

    /// The runs still to walk; the last one is walked first.
    pub closed spec fn frames(&self) -> Seq<Frame> {
        self.stack@
    }

    /// Extra cells waiting to be yielded; the last one comes first.
    pub closed spec fn pending(&self) -> Seq<Vec2> {
        self.side_channel@
    }

    /// What the oracle says of an offset.
    pub open spec fn opaque_at(&self, p: Vec2) -> bool {
        (self.model())(p)
    }

    /// The outermost ring the scan reaches: the range, but at least one.
    pub open spec fn reach(&self) -> int {
        reach_of(self.range())
    }

    pub closed spec fn wf(&self) -> bool {
        &&& self.range < MAX_RADIUS
        &&& oracle_fits(self.is_opaque, self.model@, self.reach())
        &&& forall|i: int| 0 <= i < self.stack@.len() ==> #[trigger] self.stack@[i].wf(self.range)
        &&& forall|i: int|
            0 <= i < self.side_channel@.len() ==> hex_dist(
                #[trigger] self.side_channel@[i].x as int,
                self.side_channel@[i].y as int,
            ) <= self.reach()
    }

    /// The run that continues walking the ring from the outward run of
    /// `f`, which ends at `end`, one ring further out.
    pub open spec fn outward(&self, f: Frame, end: PolarPoint) -> Frame {
        let b = f.begin.further_spec();
        Frame { begin: b, pt: b, end: end.further_spec(), group_opaque: self.opaque_at(cell_of(b)) }
    }

    /// One turn of the scan on a stack, with no extra cells queued.
    pub open spec fn step(&self, frames: Seq<Frame>) -> ScanStep {
        if frames.len() == 0 {
            ScanStep::Finished
        } else {
            let cur = frames.last();
            let rest = frames.drop_last();
            let spread = !cur.group_opaque && cur.begin.radius < self.range();
            if cur.has_cells() {
                let pos = cell_of(cur.pt);
                let op = self.opaque_at(pos);
                if op != cur.group_opaque {
                    let cont = Frame { begin: cur.pt, pt: cur.pt, end: cur.end, group_opaque: op };
                    if spread {
                        ScanStep::Skip { frames: rest.push(cont).push(self.outward(cur, cur.pt)) }
                    } else {
                        ScanStep::Skip { frames: rest.push(cont) }
                    }
                } else {
                    let nx = cur.pt.next_spec();
                    let side = match cur.pt.side_spec() {
                        Some((sx, sy)) => {
                            let sv = Vec2 { x: sx as i32, y: sy as i32 };
                            if self.fake() && nx.winding() < cur.end.end_idx() && cur.group_opaque
                                && self.opaque_at(cell_of(nx)) && self.opaque_at(sv)
                                && cur.begin.radius < self.range() {
                                seq![sv]
                            } else {
                                Seq::empty()
                            }
                        },
                        None => Seq::empty(),
                    };
                    ScanStep::Emit {
                        frames: rest.push(Frame { pt: nx, ..cur }),
                        side,
                        point: pos,
                    }
                }
            } else if spread {
                ScanStep::Skip { frames: rest.push(self.outward(cur, cur.end)) }
            } else {
                ScanStep::Skip { frames: rest }
            }
        }
    }

    /// The stack after `n` turns that see nothing.
    pub open spec fn settle(&self, frames: Seq<Frame>, n: nat) -> Seq<Frame>
        decreases n,
    {
        if n == 0 {
            frames
        } else {
            let s = self.settle(frames, (n - 1) as nat);
            match self.step(s) {
                ScanStep::Skip { frames: t } => t,
                _ => s,
            }
        }
    }

    /// Whether the scan is where `new` leaves it: the origin queued, and one
    /// run over the whole first ring, opaque as the northern cell is.
    pub open spec fn is_fresh(&self) -> bool {
        &&& self.pending() == seq![Vec2 { x: 0, y: 0 }]
        &&& self.frames() == seq![
            Frame {
                begin: PolarPoint { num: 0, den: 1, radius: 1 },
                pt: PolarPoint { num: 0, den: 1, radius: 1 },
                end: PolarPoint { num: 6, den: 1, radius: 1 },
                group_opaque: self.opaque_at(Vec2 { x: -1i32, y: -1i32 }),
            },
        ]
    }

    /// The cells that `fuel` turns of the scan yield from the stack `frames`
    /// and the queue `side`, and whether the scan is over by then. A turn
    /// yields a queued cell, or takes one `step`; `lemma_next_in_trace`
    /// shows that each call of `next` takes the scan some turns along it.
    pub open spec fn trace(&self, frames: Seq<Frame>, side: Seq<Vec2>, fuel: nat) -> (Set<Vec2>, bool)
        decreases fuel,
    {
        if fuel == 0 {
            (Set::empty(), false)
        } else if side.len() > 0 {
            let (seen, done) = self.trace(frames, side.drop_last(), (fuel - 1) as nat);
            (seen.insert(side.last()), done)
        } else {
            match self.step(frames) {
                ScanStep::Emit { frames: t, side: q, point } => {
                    let (seen, done) = self.trace(t, q, (fuel - 1) as nat);
                    (seen.insert(point), done)
                },
                ScanStep::Skip { frames: t } => self.trace(t, side, (fuel - 1) as nat),
                ScanStep::Finished => (Set::empty(), true),
            }
        }
    }

    /// Whether `n` turns that see nothing, then one more, take the stack
    /// `frames` to the result `r`, the stack `after` and the queue `side`.
    pub open spec fn outcome(
        &self,
        frames: Seq<Frame>,
        n: nat,
        r: Option<Vec2>,
        after: Seq<Frame>,
        side: Seq<Vec2>,
    ) -> bool {
        let s = self.settle(frames, n);
        match self.step(s) {
            ScanStep::Emit { frames: t, side: q, point } => r == Some(point) && after == t && side
                == q,
            ScanStep::Finished => r is None && after.len() == 0 && side.len() == 0,
            ScanStep::Skip { .. } => false,
        }
    }
}


proof fn lemma_cont_wf(cur: Frame, range: u32, op: bool)
    requires
        cur.wf(range),
        cur.has_cells(),
    ensures
        (Frame { begin: cur.pt, pt: cur.pt, end: cur.end, group_opaque: op }).wf(range),
{
}

proof fn lemma_outward_wf(cur: Frame, end: PolarPoint, range: u32, g: bool)
    requires
        cur.wf(range),
        cur.begin.radius < range,
        range < MAX_RADIUS,
        end.wf(),
        end.radius == cur.pt.radius,
        end.num <= 6 * end.den,
        angle_le(cur.begin, end),
    ensures
        (Frame {
            begin: cur.begin.further_spec(),
            pt: cur.begin.further_spec(),
            end: end.further_spec(),
            group_opaque: g,
        }).wf(range),
{
}

proof fn lemma_advance_wf(cur: Frame, range: u32)
    requires
        cur.wf(range),
        cur.has_cells(),
    ensures
        (Frame { pt: cur.pt.next_spec(), ..cur }).wf(range),
        cur.pt.winding() <= 6 * cur.pt.radius,
{
    lemma_end_bound(cur.end);
    lemma_winding_bound(cur.pt);
    lemma_next_after(cur.pt);
    lemma_angle_trans(cur.begin, cur.pt, cur.pt.next_spec());
    if cur.pt.next_spec().winding() < cur.end.end_idx() {
        lemma_next_within(cur.pt, cur.end);
    }
}

impl<F: Fn(Vec2) -> bool> HexFov<F> {
    proof fn lemma_oracle(&self)
        requires
            self.wf(),
        ensures
            forall|p: Vec2, b: bool| #[trigger]
                call_ensures(self.oracle(), (p,), b) ==> self.opaque_at(p) == b,
            forall|p: Vec2|
                1 <= hex_dist(p.x as int, p.y as int) <= self.reach() ==> #[trigger] call_requires(
                    self.oracle(),
                    (p,),
                ),
    {
    }

    /// Starts a scan of the cells around an origin up to `range` rings out.
    ///
    /// `is_opaque` tells whether the cell at an offset from the origin blocks
    /// the view; the scan asks it only about offsets from one to `range`
    /// (at least one) steps away, and it must always give the same answer
    /// for the same offset. An offset counts as opaque where the oracle can
    /// answer `true`.
    pub fn new(is_opaque: F, range: u32) -> (r: Self)
        requires
            range < MAX_RADIUS,
            oracle_deterministic(is_opaque, reach_of(range)),
        ensures
            r.wf(),
            r.oracle() == is_opaque,
            r.range() == range,
            !r.fake(),
            r.is_fresh(),
            forall|p: Vec2| #[trigger] r.opaque_at(p) == call_ensures(is_opaque, (p,), true),
    {
        let ghost f = is_opaque;
        Self::with_model(is_opaque, range, Ghost(|p: Vec2| call_ensures(f, (p,), true)))
    }

    /// Starts a scan as `new` does, for an oracle whose answers `model`
    /// gives.
    pub fn with_model(is_opaque: F, range: u32, model: Ghost<spec_fn(Vec2) -> bool>) -> (r: Self)
        requires
            range < MAX_RADIUS,
            oracle_fits(is_opaque, model@, reach_of(range)),
        ensures
            r.wf(),
            r.oracle() == is_opaque,
            r.model() == model@,
            r.range() == range,
            !r.fake(),
            r.is_fresh(),
    {
        proof {
            assert(hex_dist(-1, -1) == 1);
        }
        let init_group = is_opaque(Dir6::from_int(0).to_v2());
        let start = PolarPoint::new(0, 1, 1);
        let mut stack: Vec<Frame> = Vec::new();
        stack.push(
            Frame { begin: start, pt: start, end: PolarPoint::new(6, 1, 1), group_opaque: init_group },
        );
        let mut side_channel: Vec<Vec2> = Vec::new();
        side_channel.push(Vec2 { x: 0, y: 0 });
        let r = HexFov { is_opaque, model, range, stack, fake_isometric_hack: false, side_channel };
        proof {
            r.lemma_oracle();
            assert(r.frames()[0].wf(range));
        }
        r
    }

    /// Makes the wall cells in acute corners visible, so that the whole wall
    /// rectangle of a fake-isometric room shows in the view.
    pub fn fake_isometric(self) -> (r: Self)
        requires
            self.wf(),
        ensures
            r.wf(),
            r.oracle() == self.oracle(),
            r.model() == self.model(),
            r.range() == self.range(),
            r.fake(),
            r.pending() == self.pending(),
            r.frames() == self.frames(),
    {
        let mut r = self;
        r.fake_isometric_hack = true;
        r
    }

    /// Pushes the run that carries `cur`'s clear stretch, ending at `end`,
    /// on to the next ring.
    fn push_outward(&mut self, cur: Frame, end: PolarPoint)
        requires
            old(self).wf(),
            cur.wf(old(self).range),
            cur.begin.radius < old(self).range,
            end.wf(),
            end.radius == cur.pt.radius,
            end.num <= 6 * end.den,
            angle_le(cur.begin, end),
        ensures
            final(self).wf(),
            final(self).is_opaque == old(self).is_opaque,
            final(self).model == old(self).model,
            final(self).range == old(self).range,
            final(self).fake_isometric_hack == old(self).fake_isometric_hack,
            final(self).side_channel == old(self).side_channel,
            final(self).stack@ == old(self).stack@.push(old(self).outward(cur, end)),
            frame_weight(old(self).model@, old(self).range, old(self).outward(cur, end)) < old(self).range + 2 - cur.pt.radius,
    {
        let b = cur.begin.further();
        proof {
            self.lemma_oracle();
            lemma_winding_bound(b);
            lemma_ring_dist(b.radius as int, b.winding());
        }
        let g = (self.is_opaque)(b.to_v2());
        let out = Frame { begin: b, pt: b, end: end.further(), group_opaque: g };
        proof {
            lemma_outward_wf(cur, end, self.range, g);
        }
        self.stack.push(out);
        assert forall|i: int| 0 <= i < self.stack@.len() implies #[trigger] self.stack@[i].wf(self.range) by {
            if i < old(self).stack@.len() {
                assert(self.stack@[i] == old(self).stack@[i]);
            }
        }
    }

    /// One turn of the scan on the run `cur`, just taken off the stack.
    #[verifier::spinoff_prover]
    fn turn(&mut self, cur: Frame) -> (r: Option<Vec2>)
        requires
            old(self).wf(),
            old(self).side_channel@.len() == 0,
            cur.wf(old(self).range),
        ensures
            final(self).wf(),
            final(self).is_opaque == old(self).is_opaque,
            final(self).model == old(self).model,
            final(self).range == old(self).range,
            final(self).fake_isometric_hack == old(self).fake_isometric_hack,
            match old(self).step(old(self).stack@.push(cur)) {
                ScanStep::Emit { frames, side, point } => r == Some(point) && final(self).stack@
                    == frames && final(self).side_channel@ == side,
                ScanStep::Skip { frames } => r is None && final(self).stack@ == frames
                    && final(self).side_channel@.len() == 0,
                ScanStep::Finished => false,
            },
            r is None ==> stack_weight(old(self).model@, old(self).range, final(self).stack@)
                < stack_weight(old(self).model@, old(self).range, old(self).stack@.push(cur)),
            r matches Some(p) ==> hex_dist(p.x as int, p.y as int) <= old(self).reach(),
    {
        proof {
            self.lemma_oracle();
            let frames = old(self).stack@.push(cur);
            assert(frames.drop_last() =~= old(self).stack@);
            lemma_weight_push(self.model@, self.range, old(self).stack@, cur);
        }
        let ghost rest = self.stack@;
        if cur.pt.is_below(cur.end) {
            proof {
                lemma_winding_bound(cur.pt);
                lemma_ring_dist(cur.pt.radius as int, cur.pt.winding());
            }
            let pos = cur.pt.to_v2();
            let op = (self.is_opaque)(pos);
            assert(pos == cell_of(cur.pt));
            if op != cur.group_opaque {
                let cont = Frame { begin: cur.pt, pt: cur.pt, end: cur.end, group_opaque: op };
                proof {
                    lemma_cont_wf(cur, self.range, op);
                    lemma_weight_push(self.model@, self.range, rest, cont);
                }
                self.stack.push(cont);
                assert forall|i: int| 0 <= i < self.stack@.len() implies #[trigger] self.stack@[i].wf(self.range) by {
                    if i < rest.len() {
                        assert(self.stack@[i] == rest[i]);
                    }
                }
                if !cur.group_opaque && cur.begin.radius < self.range {
                    proof {
                        lemma_angle_six(cur.pt, cur.end);
                        lemma_weight_push(self.model@, self.range, rest.push(cont), old(self).outward(cur, cur.pt));
                    }
                    self.push_outward(cur, cur.pt);
                }
                None
            } else {
                proof {
                    lemma_advance_wf(cur, self.range);
                }
                if self.fake_isometric_hack {
                    if let Some(side_pt) = cur.pt.side_point() {
                        let nx = cur.pt.next();
                        proof {
                            lemma_winding_bound(nx);
                            lemma_ring_dist(nx.radius as int, nx.winding());
                            lemma_step_x(pos.x as int, pos.y as int);
                            lemma_next_after(cur.pt);
                            lemma_first_ring_turns(cur.pt.winding());
                        }
                        // The range is tested first, so that the oracle is
                        // only asked about offsets within range.
                        if cur.begin.radius < self.range && nx.is_below(cur.end) && cur.group_opaque
                            && (self.is_opaque)(nx.to_v2()) && (self.is_opaque)(side_pt) {
                            self.side_channel.push(side_pt);
                        }
                    }
                }
                let adv = Frame { begin: cur.begin, pt: cur.pt.next(), end: cur.end, group_opaque: cur.group_opaque };
                self.stack.push(adv);
                assert forall|i: int| 0 <= i < self.stack@.len() implies #[trigger] self.stack@[i].wf(self.range) by {
                    if i < rest.len() {
                        assert(self.stack@[i] == rest[i]);
                    }
                }
                proof {
                    match old(self).step(old(self).stack@.push(cur)) {
                        ScanStep::Emit { frames: t, side: q, point } => {
                            assert(point == pos);
                            assert(t == rest.push(adv));
                            assert(q =~= self.side_channel@);
                        },
                        _ => {},
                    }
                }
                Some(pos)
            }
        } else {
            if !cur.group_opaque && cur.begin.radius < self.range {
                proof {
                    lemma_weight_push(self.model@, self.range, rest, old(self).outward(cur, cur.end));
                }
                self.push_outward(cur, cur.end);
            }
            None
        }
    }

    /// Yields the offset of the next cell seen, or `None` once the scan is
    /// over.
    ///
    /// Queued extra cells come first. Otherwise the scan turns as `step`
    /// says until a turn sees a cell or the stack is empty. Every offset
    /// yielded lies within `reach()` steps of the origin.
    ///
    /// A run that spans a whole ring ends on the cell where it started, so
    /// that cell is yielded twice: a scan of range 1 in an open field yields
    /// eight offsets, seven of them distinct. Callers that need each cell
    /// once collect the offsets into a set.
    #[verifier::spinoff_prover]
    pub fn next(&mut self) -> (r: Option<Vec2>)
        requires
            old(self).wf(),
        ensures
            final(self).wf(),
            final(self).oracle() == old(self).oracle(),
            final(self).model() == old(self).model(),
            final(self).range() == old(self).range(),
            final(self).fake() == old(self).fake(),
            old(self).pending().len() > 0 ==> {
                &&& r == Some(old(self).pending().last())
                &&& final(self).pending() == old(self).pending().drop_last()
                &&& final(self).frames() == old(self).frames()
            },
            old(self).pending().len() == 0 ==> exists|n: nat|
                old(self).outcome(old(self).frames(), n, r, final(self).frames(), final(self).pending()),
            r matches Some(p) ==> hex_dist(p.x as int, p.y as int) <= old(self).reach(),
            r is None ==> final(self).frames().len() == 0 && final(self).pending().len() == 0,
    {
        if let Some(ret) = self.side_channel.pop() {
            return Some(ret);
        }
        let ghost frames0 = self.stack@;
        let ghost mut n: nat = 0;
        loop
            invariant
                self.wf(),
                self.is_opaque == old(self).is_opaque,
                self.model == old(self).model,
                self.range == old(self).range,
                self.fake_isometric_hack == old(self).fake_isometric_hack,
                old(self).pending().len() == 0,
                self.side_channel@.len() == 0,
                frames0 == old(self).frames(),
                self.stack@ == old(self).settle(frames0, n),
            decreases stack_weight(self.model@, self.range, self.stack@),
        {
            let ghost before = self.stack@;
            match self.stack.pop() {
                None => {
                    assert(old(self).outcome(old(self).frames(), n, None, self.frames(), self.pending()));
                    return None;
                },
                Some(cur) => {
                    assert(before == self.stack@.push(cur));
                    assert(cur.wf(self.range));
                    assert forall|i: int| 0 <= i < self.stack@.len() implies #[trigger] self.stack@[i].wf(self.range) by {
                        assert(self.stack@[i] == before[i]);
                    }
                    let r = self.turn(cur);
                    if r.is_some() {
                        assert(old(self).outcome(old(self).frames(), n, r, self.frames(), self.pending()));
                        return r;
                    }
                    proof {
                        n = n + 1;
                    }
                },
            }
        }
    }
}


/// The cells at most `r` steps from the origin.
pub open spec fn disk(r: int) -> Set<Vec2> {
    Set::new(|p: Vec2| hex_dist(p.x as int, p.y as int) <= r)
}

/// The run over the whole ring of radius `r`, walked up to its `k`-th
/// point, in an open field.
spec fn open_frame(r: u32, k: int) -> Frame {
    Frame {
        begin: PolarPoint { num: 0, den: 1, radius: r },
        pt: walk_point(r, k),
        end: PolarPoint { num: 6, den: 1, radius: r },
        group_opaque: false,
    }
}

/// The cells whose distance from the origin lies in `(lo, hi]`.
spec fn band(lo: int, hi: int) -> Set<Vec2> {
    Set::new(|p: Vec2| lo < hex_dist(p.x as int, p.y as int) <= hi)
}

/// The cells that a walk of the ring of radius `r` visits from its `k`-th
/// point on.
spec fn ring_rest(r: int, k: int) -> Set<Vec2> {
    Set::new(|p: Vec2| exists|j: int| k <= j <= 6 * r && p == ring_vec(r, j))
}

#[verifier::spinoff_prover]
proof fn lemma_full_ring(r: u32)
    requires
        1 <= r <= MAX_RADIUS,
    ensures
        ring_rest(r as int, 0) == band(r - 1, r as int),
{
    let ri = r as int;
    assert forall|p: Vec2| ring_rest(ri, 0).contains(p) implies band(ri - 1, ri).contains(p) by {
        let j = choose|j: int| 0 <= j <= 6 * ri && p == ring_vec(ri, j);
        lemma_walk_point(r, j);
        lemma_ring_dist(ri, j);
    }
    assert forall|p: Vec2| band(ri - 1, ri).contains(p) implies ring_rest(ri, 0).contains(p) by {
        lemma_ring_onto(ri, p.x as int, p.y as int);
        let k = choose|k: int| 0 <= k < 6 * ri && ring_x(ri, k) == p.x && ring_y(ri, k) == p.y;
        assert(p == ring_vec(ri, k));
    }
    assert(ring_rest(ri, 0) =~= band(ri - 1, ri));
}

impl<F: Fn(Vec2) -> bool> HexFov<F> {
    /// In an open field, the walk of the ring of radius `r` from its `k`-th
    /// point, and all that it spreads to, sees that part of the ring and
    /// every ring further out within reach, then ends.
    #[verifier::spinoff_prover]
    proof fn lemma_open_walk(&self, r: u32, k: int)
        requires
            self.wf(),
            forall|p: Vec2| !#[trigger] self.opaque_at(p),
            1 <= r <= self.reach(),
            0 <= k <= 6 * r + 1,
        ensures
            exists|fuel: nat|
                #[trigger] self.trace(seq![open_frame(r, k)], Seq::empty(), fuel) == (
                    ring_rest(r as int, k).union(band(r as int, self.reach())),
                    true,
                ),
        decreases self.reach() - r, 6 * r + 1 - k,
    {
        let f = open_frame(r, k);
        let frames = seq![f];
        assert(frames.last() == f);
        assert(frames.drop_last() =~= Seq::<Frame>::empty());
        lemma_walk_point(r, k);
        let empty = Seq::<Vec2>::empty();
        if k <= 6 * r {
            self.lemma_open_walk(r, k + 1);
            let fuel = choose|fuel: nat|
                #[trigger] self.trace(seq![open_frame(r, k + 1)], Seq::empty(), fuel) == (
                    ring_rest(r as int, k + 1).union(band(r as int, self.reach())),
                    true,
                );
            assert(cell_of(f.pt) == ring_vec(r as int, k));
            assert(Seq::<Frame>::empty().push(Frame { pt: f.pt.next_spec(), ..f }) =~= seq![open_frame(r, k + 1)]);
            assert(self.step(frames) == ScanStep::Emit {
                frames: seq![open_frame(r, k + 1)],
                side: empty,
                point: ring_vec(r as int, k),
            });
            assert(ring_rest(r as int, k) =~= ring_rest(r as int, k + 1).insert(ring_vec(r as int, k)));
            assert(self.trace(frames, empty, fuel + 1) == (
                ring_rest(r as int, k).union(band(r as int, self.reach())),
                true,
            )) by {
                assert(ring_rest(r as int, k + 1).union(band(r as int, self.reach())).insert(
                    ring_vec(r as int, k),
                ) =~= ring_rest(r as int, k).union(band(r as int, self.reach())));
            }
        } else {
            assert(ring_rest(r as int, k) =~= Set::<Vec2>::empty());
            if r < self.range() {
                self.lemma_open_walk((r + 1) as u32, 0);
                let fuel = choose|fuel: nat|
                    #[trigger] self.trace(seq![open_frame((r + 1) as u32, 0)], Seq::empty(), fuel) == (
                        ring_rest(r + 1, 0).union(band(r + 1, self.reach())),
                        true,
                    );
                lemma_full_ring((r + 1) as u32);
                assert(self.outward(f, f.end) == open_frame((r + 1) as u32, 0));
                assert(Seq::<Frame>::empty().push(open_frame((r + 1) as u32, 0)) =~= seq![open_frame((r + 1) as u32, 0)]);
                assert(self.step(frames) == ScanStep::Skip { frames: seq![open_frame((r + 1) as u32, 0)] });
                assert(band(r as int, (r + 1) as int).union(band(r + 1, self.reach())) =~= Set::<Vec2>::empty().union(
                    band(r as int, self.reach()),
                ));
                assert(self.trace(frames, empty, fuel + 1) == self.trace(seq![open_frame((r + 1) as u32, 0)], empty, fuel));
            } else {
                assert(self.step(frames) == ScanStep::Skip { frames: Seq::<Frame>::empty() });
                assert(self.step(Seq::<Frame>::empty()) == ScanStep::Finished);
                assert(band(r as int, self.reach()) =~= Set::<Vec2>::empty());
                assert(Set::<Vec2>::empty().union(Set::<Vec2>::empty()) =~= Set::<Vec2>::empty());
                assert(self.trace(Seq::<Frame>::empty(), empty, 1) == (Set::<Vec2>::empty(), true));
                assert(self.trace(frames, empty, 2) == (Set::<Vec2>::empty(), true));
            }
        }
    }
}

/// In an open field, a fresh scan sees exactly the cells within its reach
/// and then ends: the origin and its neighbours for range 1, and
/// `1 + 3 * r * (r + 1)` cells for range `r`.
#[verifier::spinoff_prover]
pub proof fn lemma_open_field_sees_disk<F: Fn(Vec2) -> bool>(fov: &HexFov<F>)
    requires
        fov.wf(),
        fov.is_fresh(),
        forall|p: Vec2| !#[trigger] fov.opaque_at(p),
    ensures
        exists|fuel: nat| #[trigger] fov.trace(fov.frames(), fov.pending(), fuel) == (disk(fov.reach()), true),
{
    assert(fov.frames() =~= seq![open_frame(1, 0)]);
    fov.lemma_open_walk(1, 0);
    let fuel = choose|fuel: nat|
        #[trigger] fov.trace(seq![open_frame(1, 0)], Seq::empty(), fuel) == (
            ring_rest(1, 0).union(band(1, fov.reach())),
            true,
        );
    lemma_full_ring(1);
    let origin = Vec2 { x: 0, y: 0 };
    assert(fov.pending().drop_last() =~= Seq::<Vec2>::empty());
    assert(fov.trace(fov.frames(), fov.pending(), fuel + 1) == (
        band(0, 1).union(band(1, fov.reach())).insert(origin),
        true,
    ));
    assert(band(0, 1).union(band(1, fov.reach())).insert(origin) =~= disk(fov.reach()));
}


impl<F: Fn(Vec2) -> bool> HexFov<F> {
    /// The run lies on a ring no further out than `k`, and is opaque if on
    /// ring `k`.
    spec fn frame_within(&self, f: Frame, k: int) -> bool {
        &&& f.wf(self.range())
        &&& f.pt.radius <= k
        &&& (f.pt.radius == k ==> f.group_opaque)
    }

    /// Every run on the stack is `frame_within` ring `k`, and every queued
    /// cell is at most `k` steps out.
    spec fn within_ring(&self, frames: Seq<Frame>, side: Seq<Vec2>, k: int) -> bool {
        &&& forall|i: int| 0 <= i < frames.len() ==> self.frame_within(#[trigger] frames[i], k)
        &&& forall|i: int|
            0 <= i < side.len() ==> hex_dist(#[trigger] side[i].x as int, side[i].y as int) <= k
    }

    proof fn lemma_within_push(&self, frames: Seq<Frame>, f: Frame, k: int)
        requires
            self.within_ring(frames, Seq::empty(), k),
            self.frame_within(f, k),
        ensures
            self.within_ring(frames.push(f), Seq::empty(), k),
    {
        let t = frames.push(f);
        assert forall|i: int| 0 <= i < t.len() implies self.frame_within(#[trigger] t[i], k) by {
            if i < frames.len() {
                assert(t[i] == frames[i]);
            }
        }
    }

    /// A turn of the scan keeps the runs within ring `k`, and any cell it
    /// sees is at most `k` steps out.
    #[verifier::spinoff_prover]
    proof fn lemma_within_ring_step(&self, frames: Seq<Frame>, k: int)
        requires
            self.range() < MAX_RADIUS,
            !self.fake(),
            k >= 1,
            forall|p: Vec2| hex_dist(p.x as int, p.y as int) == k ==> #[trigger] self.opaque_at(p),
            self.within_ring(frames, Seq::empty(), k),
            frames.len() > 0,
        ensures
            match self.step(frames) {
                ScanStep::Emit { frames: t, side: q, point } => self.within_ring(t, q, k) && hex_dist(
                    point.x as int,
                    point.y as int,
                ) <= k,
                ScanStep::Skip { frames: t } => self.within_ring(t, Seq::empty(), k),
                ScanStep::Finished => true,
            },
    {
        let cur = frames.last();
        let rest = frames.drop_last();
        let range = self.range();
        assert(self.frame_within(frames[frames.len() - 1], k));
        assert(self.within_ring(rest, Seq::empty(), k)) by {
            assert forall|i: int| 0 <= i < rest.len() implies self.frame_within(#[trigger] rest[i], k) by {
                assert(rest[i] == frames[i]);
            }
        }
        let r = cur.pt.radius;
        lemma_winding_bound(cur.pt);
        lemma_ring_dist(r as int, cur.pt.winding());
        let b = cur.begin.further_spec();
        let spread = !cur.group_opaque && cur.begin.radius < range;
        let g = self.opaque_at(cell_of(b));
        if spread {
            lemma_winding_bound(b);
            lemma_ring_dist(b.radius as int, b.winding());
            assert(hex_dist(cell_of(b).x as int, cell_of(b).y as int) == r + 1);
        }
        if cur.has_cells() {
            let op = self.opaque_at(cell_of(cur.pt));
            assert(hex_dist(cell_of(cur.pt).x as int, cell_of(cur.pt).y as int) == r);
            if op != cur.group_opaque {
                let cont = Frame { begin: cur.pt, pt: cur.pt, end: cur.end, group_opaque: op };
                lemma_cont_wf(cur, range, op);
                self.lemma_within_push(rest, cont, k);
                if spread {
                    lemma_angle_six(cur.pt, cur.end);
                    lemma_outward_wf(cur, cur.pt, range, g);
                    assert(self.frame_within(self.outward(cur, cur.pt), k));
                    self.lemma_within_push(rest.push(cont), self.outward(cur, cur.pt), k);
                }
            } else {
                lemma_advance_wf(cur, range);
                self.lemma_within_push(rest, Frame { pt: cur.pt.next_spec(), ..cur }, k);
            }
        } else if spread {
            lemma_outward_wf(cur, cur.end, range, g);
            assert(self.frame_within(self.outward(cur, cur.end), k));
            self.lemma_within_push(rest, self.outward(cur, cur.end), k);
        }
    }

    #[verifier::spinoff_prover]
    proof fn lemma_within_ring_trace(&self, frames: Seq<Frame>, side: Seq<Vec2>, fuel: nat, k: int)
        requires
            self.range() < MAX_RADIUS,
            !self.fake(),
            k >= 1,
            forall|p: Vec2| hex_dist(p.x as int, p.y as int) == k ==> #[trigger] self.opaque_at(p),
            self.within_ring(frames, side, k),
        ensures
            forall|p: Vec2| #[trigger] self.trace(frames, side, fuel).0.contains(p) ==> hex_dist(
                p.x as int,
                p.y as int,
            ) <= k,
        decreases fuel,
    {
        if fuel == 0 {
        } else if side.len() > 0 {
            let q = side.drop_last();
            assert(hex_dist(side[side.len() - 1].x as int, side[side.len() - 1].y as int) <= k);
            assert(self.within_ring(frames, q, k)) by {
                assert forall|i: int| 0 <= i < q.len() implies hex_dist(#[trigger] q[i].x as int, q[i].y as int) <= k by {
                    assert(q[i] == side[i]);
                }
            }
            self.lemma_within_ring_trace(frames, q, (fuel - 1) as nat, k);
            let (seen, done) = self.trace(frames, q, (fuel - 1) as nat);
            assert(self.trace(frames, side, fuel) == (seen.insert(side.last()), done));
        } else if frames.len() > 0 {
            assert(side =~= Seq::<Vec2>::empty());
            self.lemma_within_ring_step(frames, k);
            match self.step(frames) {
                ScanStep::Emit { frames: t, side: q, point } => {
                    self.lemma_within_ring_trace(t, q, (fuel - 1) as nat, k);
                    let (seen, done) = self.trace(t, q, (fuel - 1) as nat);
                    assert(self.trace(frames, side, fuel) == (seen.insert(point), done));
                },
                ScanStep::Skip { frames: t } => {
                    self.lemma_within_ring_trace(t, side, (fuel - 1) as nat, k);
                    assert(self.trace(frames, side, fuel) == self.trace(t, side, (fuel - 1) as nat));
                },
                ScanStep::Finished => {},
            }
        } else {
            assert(self.step(frames) == ScanStep::Finished);
        }
    }
}

/// Behind a closed ring of opaque cells a scan without the fake-isometric
/// rule sees nothing: when every cell `k >= 1` steps out is opaque, every
/// cell that any number of calls of `next` yields is at most `k` steps out.
/// With an oracle that always blocks (`k == 1`), the scan sees nothing
/// further out than the origin's six neighbours.
pub proof fn lemma_closed_ring_hides_beyond<F: Fn(Vec2) -> bool>(fov: &HexFov<F>, k: int)
    requires
        fov.wf(),
        fov.is_fresh(),
        !fov.fake(),
        k >= 1,
        forall|p: Vec2| hex_dist(p.x as int, p.y as int) == k ==> #[trigger] fov.opaque_at(p),
    ensures
        forall|fuel: nat, p: Vec2|
            #[trigger] fov.trace(fov.frames(), fov.pending(), fuel).0.contains(p) ==> hex_dist(
                p.x as int,
                p.y as int,
            ) <= k,
{
    let f0 = fov.frames()[0];
    assert(f0.wf(fov.range()));
    assert(hex_dist(-1, -1) == 1);
    assert(fov.within_ring(fov.frames(), fov.pending(), k));
    assert forall|fuel: nat, p: Vec2|
        #[trigger] fov.trace(fov.frames(), fov.pending(), fuel).0.contains(p) implies hex_dist(
            p.x as int,
            p.y as int,
        ) <= k by {
        fov.lemma_within_ring_trace(fov.frames(), fov.pending(), fuel, k);
    }
}


impl<F: Fn(Vec2) -> bool> HexFov<F> {
    /// Returns a number of turns that takes the stack `frames` to where `n`
    /// turns that see nothing leave it.
    proof fn lemma_settle_in_trace(&self, frames: Seq<Frame>, n: nat) -> (m: nat)
        ensures
            forall|fuel: nat| #[trigger] self.trace(frames, Seq::empty(), m + fuel) == self.trace(
                self.settle(frames, n),
                Seq::empty(),
                fuel,
            ),
        decreases n,
    {
        if n == 0 {
            0
        } else {
            let m = self.lemma_settle_in_trace(frames, (n - 1) as nat);
            let s = self.settle(frames, (n - 1) as nat);
            match self.step(s) {
                ScanStep::Skip { frames: t } => {
                    assert forall|fuel: nat| #[trigger] self.trace(frames, Seq::empty(), (m + 1) + fuel) == self.trace(
                        self.settle(frames, n),
                        Seq::empty(),
                        fuel,
                    ) by {
                        assert((m + 1) + fuel == m + (fuel + 1));
                        assert(self.trace(frames, Seq::empty(), m + (fuel + 1)) == self.trace(s, Seq::empty(), (fuel + 1) as nat));
                    }
                    m + 1
                },
                _ => {
                    assert forall|fuel: nat| #[trigger] self.trace(frames, Seq::empty(), m + fuel) == self.trace(
                        self.settle(frames, n),
                        Seq::empty(),
                        fuel,
                    ) by {
                        assert(self.trace(frames, Seq::empty(), m + fuel) == self.trace(s, Seq::empty(), fuel));
                    }
                    m
                },
            }
        }
    }

    /// A call of `next` that finds no queued cell and whose result is
    /// `outcome(frames, n, r, after, side)` takes the scan `m + 1` turns
    /// along `trace`, for the `m` returned: the cells seen from `frames` are
    /// `r`'s cell and those seen from `after` and `side`, or none if `r` is
    /// `None` and the scan is over. A call that finds a queued cell takes
    /// one turn, by `trace`'s definition. So the cells that successive calls
    /// yield are those of `trace`.
    pub proof fn lemma_next_in_trace(
        &self,
        frames: Seq<Frame>,
        n: nat,
        r: Option<Vec2>,
        after: Seq<Frame>,
        side: Seq<Vec2>,
    ) -> (m: nat)
        requires
            self.outcome(frames, n, r, after, side),
        ensures
            forall|fuel: nat| #[trigger] self.trace(frames, Seq::empty(), m + 1 + fuel) == match r {
                Some(p) => (self.trace(after, side, fuel).0.insert(p), self.trace(after, side, fuel).1),
                None => (Set::empty(), true),
            },
    {
        let m = self.lemma_settle_in_trace(frames, n);
        let s = self.settle(frames, n);
        assert forall|fuel: nat| #[trigger] self.trace(frames, Seq::empty(), m + 1 + fuel) == match r {
            Some(p) => (self.trace(after, side, fuel).0.insert(p), self.trace(after, side, fuel).1),
            None => (Set::empty(), true),
        } by {
            assert(m + 1 + fuel == m + (fuel + 1));
            assert(self.trace(frames, Seq::empty(), m + (fuel + 1)) == self.trace(s, Seq::empty(), (fuel + 1) as nat));
        }
        m
    }
}


/// The neighbour of the origin in direction `k`.
pub open spec fn wall_cell(k: int) -> Vec2 {
    Vec2 { x: dir_x(k) as i32, y: dir_y(k) as i32 }
}

/// The cell two steps out from the origin in direction `k`, straight behind
/// `wall_cell(k)`.
pub open spec fn behind_cell(k: int) -> Vec2 {
    Vec2 { x: (2 * dir_x(k)) as i32, y: (2 * dir_y(k)) as i32 }
}

proof fn lemma_dir_cells(k: int)
    requires
        0 <= k < 6,
    ensures
        hex_dist(wall_cell(k).x as int, wall_cell(k).y as int) == 1,
        hex_dist(behind_cell(k).x as int, behind_cell(k).y as int) == 2,
        behind_cell(k).x % 2 == 0 && behind_cell(k).y % 2 == 0,
{
}

impl<F: Fn(Vec2) -> bool> HexFov<F> {
    /// No cell of the second ring numbered from `a` up to `b` is the cell
    /// behind the wall in direction `k`.
    spec fn window_clear(&self, a: int, b: int, k: int) -> bool {
        forall|i: int| a <= i < b ==> #[trigger] ring_vec(2, i) != behind_cell(k)
    }

    /// The run can never yield the cell behind the wall in direction `k`,
    /// nor start a run that could: a run of the first ring walks from the
    /// corner or from between two cells, over the whole ring's end, and a
    /// clear one would carry on to a stretch of the second ring that misses
    /// that cell; a run of the second ring is clear and its cells left miss
    /// it.
    spec fn shadow_frame(&self, f: Frame, k: int) -> bool {
        &&& f.wf(self.range())
        &&& (f.pt.radius == 1 ==> {
            &&& first_corner(f.begin) || first_half(f.begin)
            &&& first_half(f.pt) || (first_corner(f.pt) && f.pt == f.begin)
            &&& f.end == PolarPoint { num: 6, den: 1, radius: 1 }
            &&& f.begin.winding() <= f.pt.winding()
            &&& (f.pt == f.begin ==> f.group_opaque == self.opaque_at(cell_of(f.pt)))
            &&& (!f.group_opaque ==> self.window_clear(
                f.begin.further_spec().winding(),
                f.pt.further_spec().end_idx(),
                k,
            ))
        })
        &&& (f.pt.radius == 2 ==> !f.group_opaque && self.window_clear(f.pt.winding(), f.end.end_idx(), k))
    }

    spec fn shadow_inv(&self, frames: Seq<Frame>, side: Seq<Vec2>, k: int) -> bool {
        &&& forall|i: int| 0 <= i < frames.len() ==> self.shadow_frame(#[trigger] frames[i], k)
        &&& forall|i: int| 0 <= i < side.len() ==> #[trigger] side[i] != behind_cell(k)
    }

    proof fn lemma_shadow_push(&self, frames: Seq<Frame>, f: Frame, k: int)
        requires
            self.shadow_inv(frames, Seq::empty(), k),
            self.shadow_frame(f, k),
        ensures
            self.shadow_inv(frames.push(f), Seq::empty(), k),
    {
        let t = frames.push(f);
        assert forall|i: int| 0 <= i < t.len() implies self.shadow_frame(#[trigger] t[i], k) by {
            if i < frames.len() {
                assert(t[i] == frames[i]);
            }
        }
    }

    /// A turn of the scan keeps `shadow_inv`, and never sees the cell behind
    /// the wall.
    #[verifier::spinoff_prover]
    #[verifier::rlimit(50)]
    proof fn lemma_shadow_step(&self, frames: Seq<Frame>, k: int)
        requires
            self.range() < MAX_RADIUS,
            !self.fake(),
            0 <= k < 6,
            forall|p: Vec2| #[trigger] self.opaque_at(p) == (p == wall_cell(k)),
            self.shadow_inv(frames, Seq::empty(), k),
            frames.len() > 0,
        ensures
            match self.step(frames) {
                ScanStep::Emit { frames: t, side: q, point } => self.shadow_inv(t, q, k) && point
                    != behind_cell(k),
                ScanStep::Skip { frames: t } => self.shadow_inv(t, Seq::empty(), k),
                ScanStep::Finished => true,
            },
    {
        let cur = frames.last();
        let rest = frames.drop_last();
        let range = self.range();
        assert(self.shadow_frame(frames[frames.len() - 1], k));
        assert(self.shadow_inv(rest, Seq::empty(), k)) by {
            assert forall|i: int| 0 <= i < rest.len() implies self.shadow_frame(#[trigger] rest[i], k) by {
                assert(rest[i] == frames[i]);
            }
        }
        lemma_dir_cells(k);
        let r = cur.pt.radius;
        let w = cur.pt.winding();
        lemma_winding_bound(cur.pt);
        lemma_ring_dist(r as int, w);
        let pos = cell_of(cur.pt);
        assert(hex_dist(pos.x as int, pos.y as int) == r);
        let b = cur.begin.further_spec();
        let spread = !cur.group_opaque && cur.begin.radius < range;
        let g = self.opaque_at(cell_of(b));
        if spread {
            lemma_winding_bound(b);
            lemma_ring_dist(b.radius as int, b.winding());
            assert(hex_dist(cell_of(b).x as int, cell_of(b).y as int) == r + 1);
            assert(!g);
        }
        if r == 1 {
            lemma_first_ring_points(cur.pt);
            lemma_first_ring_points(cur.begin);
            lemma_first_ring_end();
            assert(pos == ring_vec(1, w));
        }
        if cur.has_cells() {
            let op = self.opaque_at(pos);
            if op != cur.group_opaque {
                let cont = Frame { begin: cur.pt, pt: cur.pt, end: cur.end, group_opaque: op };
                lemma_cont_wf(cur, range, op);
                if r == 1 {
                    assert(cur.pt != cur.begin);
                    assert(first_half(cur.pt));
                    if !op {
                        assert forall|i: int|
                            cur.pt.further_spec().winding() <= i < cur.pt.further_spec().end_idx() implies #[trigger] ring_vec(2, i)
                            != behind_cell(k) by {
                            assert(i == 2 * (w - 1) + 1);
                            lemma_second_ring(w - 1);
                        }
                    }
                }
                assert(r == 2 ==> op == cur.group_opaque);
                assert(self.shadow_frame(cont, k));
                self.lemma_shadow_push(rest, cont, k);
                if spread {
                    lemma_angle_six(cur.pt, cur.end);
                    lemma_outward_wf(cur, cur.pt, range, g);
                    assert(self.shadow_frame(self.outward(cur, cur.pt), k));
                    self.lemma_shadow_push(rest.push(cont), self.outward(cur, cur.pt), k);
                }
            } else {
                lemma_advance_wf(cur, range);
                let adv = Frame { pt: cur.pt.next_spec(), ..cur };
                if r == 1 {
                    assert(adv.pt != adv.begin);
                    if !cur.group_opaque {
                        assert forall|i: int|
                            b.winding() <= i < adv.pt.further_spec().end_idx() implies #[trigger] ring_vec(2, i)
                            != behind_cell(k) by {
                            if i >= cur.pt.further_spec().end_idx() {
                                lemma_second_ring(w);
                                if i == 2 * w {
                                    assert(ring_vec(1, w) != wall_cell(k));
                                }
                            }
                        }
                    }
                }
                if r == 2 {
                    assert(pos == ring_vec(2, w));
                }
                assert(self.shadow_frame(adv, k));
                self.lemma_shadow_push(rest, adv, k);
            }
        } else if spread {
            lemma_outward_wf(cur, cur.end, range, g);
            if r == 1 {
                assert forall|i: int| b.winding() <= i < cur.end.further_spec().end_idx() implies #[trigger] ring_vec(2, i)
                    != behind_cell(k) by {
                    assert(i < cur.pt.further_spec().end_idx());
                }
            }
            assert(self.shadow_frame(self.outward(cur, cur.end), k));
            self.lemma_shadow_push(rest, self.outward(cur, cur.end), k);
        }
    }

    #[verifier::spinoff_prover]
    proof fn lemma_shadow_trace(&self, frames: Seq<Frame>, side: Seq<Vec2>, fuel: nat, k: int)
        requires
            self.range() < MAX_RADIUS,
            !self.fake(),
            0 <= k < 6,
            forall|p: Vec2| #[trigger] self.opaque_at(p) == (p == wall_cell(k)),
            self.shadow_inv(frames, side, k),
        ensures
            !self.trace(frames, side, fuel).0.contains(behind_cell(k)),
        decreases fuel,
    {
        if fuel == 0 {
        } else if side.len() > 0 {
            let q = side.drop_last();
            assert(side[side.len() - 1] != behind_cell(k));
            assert(self.shadow_inv(frames, q, k)) by {
                assert forall|i: int| 0 <= i < q.len() implies #[trigger] q[i] != behind_cell(k) by {
                    assert(q[i] == side[i]);
                }
            }
            self.lemma_shadow_trace(frames, q, (fuel - 1) as nat, k);
            let (seen, done) = self.trace(frames, q, (fuel - 1) as nat);
            assert(self.trace(frames, side, fuel) == (seen.insert(side.last()), done));
        } else if frames.len() > 0 {
            assert(side =~= Seq::<Vec2>::empty());
            self.lemma_shadow_step(frames, k);
            match self.step(frames) {
                ScanStep::Emit { frames: t, side: q, point } => {
                    self.lemma_shadow_trace(t, q, (fuel - 1) as nat, k);
                    let (seen, done) = self.trace(t, q, (fuel - 1) as nat);
                    assert(self.trace(frames, side, fuel) == (seen.insert(point), done));
                },
                ScanStep::Skip { frames: t } => {
                    self.lemma_shadow_trace(t, side, (fuel - 1) as nat, k);
                    assert(self.trace(frames, side, fuel) == self.trace(t, side, (fuel - 1) as nat));
                },
                ScanStep::Finished => {},
            }
        } else {
            assert(self.step(frames) == ScanStep::Finished);
        }
    }
}

/// A wall next to the origin hides the cell straight behind it: when the
/// oracle blocks the neighbour in direction `k` and nothing else, a scan
/// without the fake-isometric rule never yields the cell two steps out in
/// that direction, whatever its range and however many times `next` is
/// called.
pub proof fn lemma_wall_hides_cell_behind<F: Fn(Vec2) -> bool>(fov: &HexFov<F>, k: int)
    requires
        fov.wf(),
        fov.is_fresh(),
        !fov.fake(),
        0 <= k < 6,
        forall|p: Vec2| #[trigger] fov.opaque_at(p) == (p == wall_cell(k)),
    ensures
        forall|fuel: nat| !#[trigger] fov.trace(fov.frames(), fov.pending(), fuel).0.contains(behind_cell(k)),
{
    let f0 = fov.frames()[0];
    assert(f0.wf(fov.range()));
    lemma_first_ring_points(f0.pt);
    lemma_first_ring_end();
    lemma_dir_cells(k);
    lemma_winding_bound(f0.pt);
    assert(cell_of(f0.pt) == ring_vec(1, 0));
    assert(ring_vec(1, 0) == (Vec2 { x: -1i32, y: -1i32 }));
    if !f0.group_opaque {
        lemma_second_ring(0);
        assert forall|i: int| 0 <= i < 1 implies #[trigger] ring_vec(2, i) != behind_cell(k) by {
            assert(i == 2 * 0);
        }
    }
    assert(fov.shadow_frame(f0, k));
    assert(fov.shadow_inv(fov.frames(), fov.pending(), k)) by {
        assert forall|i: int| 0 <= i < fov.frames().len() implies fov.shadow_frame(#[trigger] fov.frames()[i], k) by {
            assert(i == 0);
        }
        assert forall|i: int| 0 <= i < fov.pending().len() implies #[trigger] fov.pending()[i] != behind_cell(k) by {
            assert(i == 0);
            assert(hex_dist(0, 0) == 0);
        }
    }
    assert forall|fuel: nat| !#[trigger] fov.trace(fov.frames(), fov.pending(), fuel).0.contains(behind_cell(k)) by {
        fov.lemma_shadow_trace(fov.frames(), fov.pending(), fuel, k);
    }
}


impl<F: Fn(Vec2) -> bool> HexFov<F> {
    /// Where every cell from the second ring out is clear, a clear run `f`
    /// on such a ring, put on top of `rest`, takes the scan some turns that
    /// see every cell left in it and then carry on as from `rest`.
    #[verifier::spinoff_prover]
    proof fn lemma_clear_run(&self, rest: Seq<Frame>, f: Frame) -> (m: nat)
        requires
            self.range() < MAX_RADIUS,
            !self.fake(),
            forall|p: Vec2| hex_dist(p.x as int, p.y as int) >= 2 ==> !#[trigger] self.opaque_at(p),
            f.wf(self.range()),
            !f.group_opaque,
            f.pt.radius >= 2,
        ensures
            forall|fuel: nat|
                self.trace(rest, Seq::empty(), fuel).0.subset_of(#[trigger] self.trace(rest.push(f), Seq::empty(), m + fuel).0),
            forall|fuel: nat, i: int|
                f.pt.winding() <= i < f.end.end_idx() ==> #[trigger] self.trace(rest.push(f), Seq::empty(), m + fuel).0.contains(
                    ring_vec(f.pt.radius as int, i),
                ),
        decreases self.range() - f.pt.radius, f.end.end_idx() - f.pt.winding(),
    {
        let range = self.range();
        let frames = rest.push(f);
        let empty = Seq::<Vec2>::empty();
        assert(frames.last() == f);
        assert(frames.drop_last() =~= rest);
        let r = f.pt.radius;
        let w = f.pt.winding();
        lemma_winding_bound(f.pt);
        lemma_ring_dist(r as int, w);
        let pos = cell_of(f.pt);
        assert(hex_dist(pos.x as int, pos.y as int) == r);
        assert(pos == ring_vec(r as int, w));
        if f.has_cells() {
            assert(!self.opaque_at(pos));
            lemma_advance_wf(f, range);
            lemma_next_after(f.pt);
            let adv = Frame { pt: f.pt.next_spec(), ..f };
            assert(self.step(frames) == ScanStep::Emit { frames: rest.push(adv), side: empty, point: pos });
            let m1 = self.lemma_clear_run(rest, adv);
            assert forall|fuel: nat|
                self.trace(rest, Seq::empty(), fuel).0.subset_of(#[trigger] self.trace(frames, Seq::empty(), (m1 + 1) + fuel).0) by {
                assert((m1 + 1) + fuel == (m1 + fuel) + 1);
                let (seen, done) = self.trace(rest.push(adv), empty, m1 + fuel);
                assert(self.trace(frames, empty, (m1 + fuel) + 1) == (seen.insert(pos), done));
            }
            assert forall|fuel: nat, i: int|
                w <= i < f.end.end_idx() implies #[trigger] self.trace(frames, Seq::empty(), (m1 + 1) + fuel).0.contains(
                    ring_vec(r as int, i),
                ) by {
                assert((m1 + 1) + fuel == (m1 + fuel) + 1);
                let (seen, done) = self.trace(rest.push(adv), empty, m1 + fuel);
                assert(self.trace(frames, empty, (m1 + fuel) + 1) == (seen.insert(pos), done));
                if i > w {
                    assert(self.trace(rest.push(adv), Seq::empty(), m1 + fuel).0.contains(ring_vec(r as int, i)));
                }
            }
            m1 + 1
        } else if r < range {
            let b = f.begin.further_spec();
            lemma_winding_bound(b);
            lemma_ring_dist(b.radius as int, b.winding());
            assert(hex_dist(cell_of(b).x as int, cell_of(b).y as int) == r + 1);
            let g = self.opaque_at(cell_of(b));
            assert(!g);
            lemma_outward_wf(f, f.end, range, g);
            let out = self.outward(f, f.end);
            assert(self.step(frames) == ScanStep::Skip { frames: rest.push(out) });
            let m1 = self.lemma_clear_run(rest, out);
            assert forall|fuel: nat|
                self.trace(rest, Seq::empty(), fuel).0.subset_of(#[trigger] self.trace(frames, Seq::empty(), (m1 + 1) + fuel).0) by {
                assert((m1 + 1) + fuel == (m1 + fuel) + 1);
                assert(self.trace(frames, empty, (m1 + fuel) + 1) == self.trace(rest.push(out), empty, m1 + fuel));
            }
            m1 + 1
        } else {
            assert(self.step(frames) == ScanStep::Skip { frames: rest });
            assert forall|fuel: nat|
                self.trace(rest, Seq::empty(), fuel).0.subset_of(#[trigger] self.trace(frames, Seq::empty(), 1 + fuel).0) by {
                assert(1 + fuel == fuel + 1);
                assert(self.trace(frames, empty, fuel + 1) == self.trace(rest, empty, fuel));
            }
            1
        }
    }
}


impl<F: Fn(Vec2) -> bool> HexFov<F> {
    /// A run walking the ring of radius `r` cell by cell from the `i`-th
    /// point of `walk_point`, over cells that all match its opacity up to
    /// cell `j`, sees those cells and reaches the `j`-th point.
    #[verifier::spinoff_prover]
    proof fn lemma_matching_walk(
        &self,
        rest: Seq<Frame>,
        begin: PolarPoint,
        end: PolarPoint,
        g: bool,
        r: u32,
        i: int,
        j: int,
    ) -> (m: nat)
        requires
            !self.fake(),
            1 <= r <= MAX_RADIUS,
            0 <= i <= j,
            j <= end.end_idx(),
            j <= 6 * r + 1,
            end.wf(),
            end.radius == r,
            forall|c: int| i <= c < j ==> #[trigger] self.opaque_at(ring_vec(r as int, c)) == g,
        ensures
            forall|fuel: nat, c: int|
                i <= c < j ==> #[trigger] self.trace(
                    rest.push(Frame { begin, pt: walk_point(r, i), end, group_opaque: g }),
                    Seq::empty(),
                    m + fuel,
                ).0.contains(ring_vec(r as int, c)),
            forall|fuel: nat|
                self.trace(
                    rest.push(Frame { begin, pt: walk_point(r, j), end, group_opaque: g }),
                    Seq::empty(),
                    fuel,
                ).0.subset_of(
                    #[trigger] self.trace(
                        rest.push(Frame { begin, pt: walk_point(r, i), end, group_opaque: g }),
                        Seq::empty(),
                        m + fuel,
                    ).0,
                ),
        decreases j - i,
    {
        let f = Frame { begin, pt: walk_point(r, i), end, group_opaque: g };
        let frames = rest.push(f);
        let empty = Seq::<Vec2>::empty();
        if i == j {
            assert forall|fuel: nat|
                self.trace(rest.push(Frame { begin, pt: walk_point(r, j), end, group_opaque: g }), Seq::empty(), fuel).0.subset_of(
                    #[trigger] self.trace(frames, Seq::empty(), 0 + fuel).0,
                ) by {
                assert(0 + fuel == fuel);
            }
            0
        } else {
            assert(frames.last() == f);
            assert(frames.drop_last() =~= rest);
            lemma_walk_point(r, i);
            let pos = cell_of(f.pt);
            assert(pos == ring_vec(r as int, i));
            assert(self.opaque_at(pos) == g);
            let adv = Frame { begin, pt: walk_point(r, i + 1), end, group_opaque: g };
            assert(Frame { pt: f.pt.next_spec(), ..f } == adv);
            assert(self.step(frames) == ScanStep::Emit { frames: rest.push(adv), side: empty, point: pos });
            let m1 = self.lemma_matching_walk(rest, begin, end, g, r, i + 1, j);
            assert forall|fuel: nat|
                self.trace(rest.push(Frame { begin, pt: walk_point(r, j), end, group_opaque: g }), Seq::empty(), fuel).0.subset_of(
                    #[trigger] self.trace(frames, Seq::empty(), (m1 + 1) + fuel).0,
                ) by {
                assert((m1 + 1) + fuel == (m1 + fuel) + 1);
                let (seen, done) = self.trace(rest.push(adv), empty, m1 + fuel);
                assert(self.trace(frames, empty, (m1 + fuel) + 1) == (seen.insert(pos), done));
            }
            assert forall|fuel: nat, c: int|
                i <= c < j implies #[trigger] self.trace(frames, Seq::empty(), (m1 + 1) + fuel).0.contains(ring_vec(r as int, c)) by {
                assert((m1 + 1) + fuel == (m1 + fuel) + 1);
                let (seen, done) = self.trace(rest.push(adv), empty, m1 + fuel);
                assert(self.trace(frames, empty, (m1 + fuel) + 1) == (seen.insert(pos), done));
                if c > i {
                    assert(self.trace(rest.push(adv), Seq::empty(), m1 + fuel).0.contains(ring_vec(r as int, c)));
                }
            }
            m1 + 1
        }
    }
}


/// The cell two steps out that lies between directions `k` and `k + e`.
pub open spec fn beside_cell(k: int, e: int) -> Vec2 {
    Vec2 { x: (dir_x(k) + dir_x(k + e)) as i32, y: (dir_y(k) + dir_y(k + e)) as i32 }
}

/// Cell `c` of the first ring is the neighbour in direction `c`.
proof fn lemma_first_ring_cell(c: int, k: int)
    requires
        0 <= c <= 6,
        0 <= k < 6,
    ensures
        (ring_vec(1, c) == wall_cell(k)) == (c % 6 == k),
{
    let s = c % 6;
    lemma_ring_index(1, s, 0);
    lemma_fundamental_div_mod_converse(c, 6, c / 6, s);
    assert(ring_x(1, c) == ring_x(1, s * 1 + 0) && ring_y(1, c) == ring_y(1, s * 1 + 0)) by {
        lemma_fundamental_div_mod_converse(s, 6, 0, s);
        lemma_fundamental_div_mod_converse(c, 1, c, 0);
        lemma_fundamental_div_mod_converse(s, 1, s, 0);
    }
}

/// The cells of the second ring on either side of the one straight out in
/// direction `k`.
proof fn lemma_beside_cells(k: int)
    requires
        0 <= k < 6,
    ensures
        ring_vec(2, 2 * k + 1) == beside_cell(k, 1),
        k >= 1 ==> ring_vec(2, 2 * k - 1) == beside_cell(k, 5),
        k == 0 ==> ring_vec(2, 11) == beside_cell(k, 5),
{
    lemma_ring_index(2, k, 1);
    if k >= 1 {
        lemma_ring_index(2, k - 1, 1);
    } else {
        lemma_ring_index(2, 5, 1);
    }
    assert(k * 2 + 1 == 2 * k + 1);
    assert((k - 1) * 2 + 1 == 2 * k - 1);
}


impl<F: Fn(Vec2) -> bool> HexFov<F> {
    /// With a wall only in direction `k >= 1` and a range of two or more,
    /// some number of turns from the first ring's run sees both cells beside
    /// the one behind the wall.
    #[verifier::spinoff_prover]
    #[verifier::rlimit(60)]
    proof fn lemma_beside_seen_from_east(&self, k: int) -> (n: nat)
        requires
            self.range() < MAX_RADIUS,
            self.range() >= 2,
            !self.fake(),
            1 <= k < 6,
            forall|p: Vec2| #[trigger] self.opaque_at(p) == (p == wall_cell(k)),
        ensures
            self.trace(seq![open_frame(1, 0)], Seq::empty(), n).0.contains(beside_cell(k, 1)),
            self.trace(seq![open_frame(1, 0)], Seq::empty(), n).0.contains(beside_cell(k, 5)),
    {
        let range = self.range();
        let empty_f = Seq::<Frame>::empty();
        let empty = Seq::<Vec2>::empty();
        let b1 = PolarPoint { num: 0, den: 1, radius: 1 };
        let e1 = PolarPoint { num: 6, den: 1, radius: 1 };
        lemma_first_ring_end();
        lemma_dir_cells(k);
        lemma_beside_cells(k);
        lemma_walk_point(1, k);
        lemma_walk_point(1, k + 1);
        lemma_walk_point(1, 7);
        assert forall|c: int| 0 <= c < k implies #[trigger] self.opaque_at(ring_vec(1, c)) == false by {
            lemma_first_ring_cell(c, k);
        }
        assert forall|c: int| k + 1 <= c < 7 implies #[trigger] self.opaque_at(ring_vec(1, c)) == false by {
            lemma_first_ring_cell(c, k);
        }
        lemma_first_ring_cell(k, k);
        // Along the first ring up to the wall.
        let ma = self.lemma_matching_walk(empty_f, b1, e1, false, 1, 0, k);
        let f0k = Frame { begin: b1, pt: walk_point(1, k), end: e1, group_opaque: false };
        assert(open_frame(1, 0) == Frame { begin: b1, pt: walk_point(1, 0), end: e1, group_opaque: false });
        // The wall splits the run; the clear part carries on to the second ring.
        let c1 = Frame { begin: walk_point(1, k), pt: walk_point(1, k), end: e1, group_opaque: true };
        let g1 = self.outward(f0k, walk_point(1, k));
        let s1 = seq![f0k];
        assert(s1.last() == f0k && s1.drop_last() =~= empty_f);
        assert(cell_of(walk_point(1, k)) == ring_vec(1, k));
        assert(self.step(s1) == ScanStep::Skip { frames: empty_f.push(c1).push(g1) });
        lemma_first_ring_points(walk_point(1, k));
        lemma_first_ring_points(b1);
        assert(f0k.wf(range));
        lemma_outward_wf(f0k, walk_point(1, k), range, g1.group_opaque);
        let bf = b1.further_spec();
        lemma_winding_bound(bf);
        lemma_ring_dist(2, bf.winding());
        assert(hex_dist(cell_of(bf).x as int, cell_of(bf).y as int) == 2);
        assert(!g1.group_opaque);
        let mc = self.lemma_clear_run(empty_f.push(c1), g1);
        assert(g1.pt.winding() == 0 && g1.end.end_idx() == 2 * k);
        // Past the wall the run is opaque for one cell, then clear to the
        // ring's end, and carries on to the second ring after the wall.
        let md = self.lemma_matching_walk(empty_f, walk_point(1, k), e1, true, 1, k, k + 1);
        let c1b = Frame { begin: walk_point(1, k), pt: walk_point(1, k + 1), end: e1, group_opaque: true };
        let c2 = Frame { begin: walk_point(1, k + 1), pt: walk_point(1, k + 1), end: e1, group_opaque: false };
        let s2 = seq![c1b];
        assert(s2.last() == c1b && s2.drop_last() =~= empty_f);
        assert(cell_of(walk_point(1, k + 1)) == ring_vec(1, k + 1));
        assert(self.step(s2) == ScanStep::Skip { frames: empty_f.push(c2) });
        let mf = self.lemma_matching_walk(empty_f, walk_point(1, k + 1), e1, false, 1, k + 1, 7);
        let c2b = Frame { begin: walk_point(1, k + 1), pt: walk_point(1, 7), end: e1, group_opaque: false };
        let g2 = self.outward(c2b, e1);
        let s3 = seq![c2b];
        assert(s3.last() == c2b && s3.drop_last() =~= empty_f);
        assert(self.step(s3) == ScanStep::Skip { frames: empty_f.push(g2) });
        lemma_first_ring_points(walk_point(1, k + 1));
        let g2b = walk_point(1, k + 1).further_spec();
        assert(g2.pt == g2b && g2.end == e1.further_spec());
        assert(g2b.winding() == 2 * k + 1);
        lemma_winding_bound(g2b);
        lemma_ring_dist(2, g2b.winding());
        assert(cell_of(g2b) == ring_vec(2, 2 * k + 1));
        assert(hex_dist(cell_of(g2b).x as int, cell_of(g2b).y as int) == 2);
        let s4 = seq![g2];
        assert(s4.last() == g2 && s4.drop_last() =~= empty_f);
        assert(self.step(s4) is Emit);
        assert(self.trace(s4, empty, 1).0.contains(ring_vec(2, 2 * k + 1)));
        // Chain the stretches.
        assert(empty_f.push(c2) =~= seq![c2]);
        assert(empty_f.push(g2) =~= s4);
        assert(self.trace(s3, empty, 2) == self.trace(s4, empty, 1));
        assert(self.trace(s3, empty, 2).0.subset_of(self.trace(seq![c2], empty, mf + 2).0)) by {
            assert(mf + 2 == mf + (2 as nat));
            assert(empty_f.push(Frame { begin: walk_point(1, k + 1), pt: walk_point(1, 7), end: e1, group_opaque: false }) == s3);
            assert(empty_f.push(Frame { begin: walk_point(1, k + 1), pt: walk_point(1, k + 1), end: e1, group_opaque: false }) == seq![c2]);
        }
        let x2: nat = mf + 2;
        assert(self.trace(s2, empty, x2 + 1) == self.trace(seq![c2], empty, x2));
        let x3: nat = x2 + 1;
        let c1s = empty_f.push(c1);
        assert(self.trace(s2, empty, x3).0.subset_of(self.trace(c1s, empty, md + x3).0)) by {
            assert(empty_f.push(Frame { begin: walk_point(1, k), pt: walk_point(1, k + 1), end: e1, group_opaque: true }) == s2);
            assert(empty_f.push(Frame { begin: walk_point(1, k), pt: walk_point(1, k), end: e1, group_opaque: true }) == c1s);
        }
        let y: nat = md + x3;
        let n2: nat = mc + y;
        let cg = c1s.push(g1);
        assert(self.trace(c1s, empty, y).0.subset_of(self.trace(cg, empty, n2).0));
        assert(self.trace(cg, empty, n2).0.contains(ring_vec(2, 2 * k - 1)));
        assert(self.trace(s1, empty, n2 + 1) == self.trace(cg, empty, n2));
        assert(self.trace(s1, empty, n2 + 1).0.subset_of(self.trace(seq![open_frame(1, 0)], empty, ma + (n2 + 1)).0)) by {
            assert(empty_f.push(Frame { begin: b1, pt: walk_point(1, k), end: e1, group_opaque: false }) == s1);
            assert(empty_f.push(Frame { begin: b1, pt: walk_point(1, 0), end: e1, group_opaque: false }) == seq![open_frame(1, 0)]);
        }
        ma + (n2 + 1)
    }
}


impl<F: Fn(Vec2) -> bool> HexFov<F> {
    /// With a wall only in the northern direction and a range of two or
    /// more, some number of turns from the first ring's run sees both cells
    /// beside the one behind the wall.
    #[verifier::spinoff_prover]
    #[verifier::rlimit(60)]
    proof fn lemma_beside_seen_north(&self) -> (n: nat)
        requires
            self.range() < MAX_RADIUS,
            self.range() >= 2,
            !self.fake(),
            forall|p: Vec2| #[trigger] self.opaque_at(p) == (p == wall_cell(0)),
        ensures
            self.trace(
                seq![Frame { group_opaque: true, ..open_frame(1, 0) }],
                Seq::empty(),
                n,
            ).0.contains(beside_cell(0, 1)),
            self.trace(
                seq![Frame { group_opaque: true, ..open_frame(1, 0) }],
                Seq::empty(),
                n,
            ).0.contains(beside_cell(0, 5)),
    {
        let range = self.range();
        let empty_f = Seq::<Frame>::empty();
        let empty = Seq::<Vec2>::empty();
        let b1 = PolarPoint { num: 0, den: 1, radius: 1 };
        let e1 = PolarPoint { num: 6, den: 1, radius: 1 };
        lemma_first_ring_end();
        lemma_dir_cells(0);
        lemma_beside_cells(0);
        lemma_walk_point(1, 1);
        lemma_walk_point(1, 6);
        assert forall|c: int| 1 <= c < 6 implies #[trigger] self.opaque_at(ring_vec(1, c)) == false by {
            lemma_first_ring_cell(c, 0);
        }
        lemma_first_ring_cell(0, 0);
        lemma_first_ring_cell(6, 0);
        // The northern cell is the wall.
        let ma = self.lemma_matching_walk(empty_f, b1, e1, true, 1, 0, 1);
        let f1 = Frame { begin: b1, pt: walk_point(1, 1), end: e1, group_opaque: true };
        let c = Frame { begin: walk_point(1, 1), pt: walk_point(1, 1), end: e1, group_opaque: false };
        let s1 = seq![f1];
        assert(s1.last() == f1 && s1.drop_last() =~= empty_f);
        assert(cell_of(walk_point(1, 1)) == ring_vec(1, 1));
        assert(self.step(s1) == ScanStep::Skip { frames: empty_f.push(c) });
        // Clear from the next cell round to the wall again.
        let mc = self.lemma_matching_walk(empty_f, walk_point(1, 1), e1, false, 1, 1, 6);
        let c6 = Frame { begin: walk_point(1, 1), pt: walk_point(1, 6), end: e1, group_opaque: false };
        let cw = Frame { begin: walk_point(1, 6), pt: walk_point(1, 6), end: e1, group_opaque: true };
        let g = self.outward(c6, walk_point(1, 6));
        let s2 = seq![c6];
        assert(s2.last() == c6 && s2.drop_last() =~= empty_f);
        assert(cell_of(walk_point(1, 6)) == ring_vec(1, 6));
        assert(self.step(s2) == ScanStep::Skip { frames: empty_f.push(cw).push(g) });
        lemma_first_ring_points(walk_point(1, 6));
        lemma_first_ring_points(walk_point(1, 1));
        assert(c6.wf(range));
        lemma_outward_wf(c6, walk_point(1, 6), range, g.group_opaque);
        let gb = walk_point(1, 1).further_spec();
        lemma_winding_bound(gb);
        lemma_ring_dist(2, gb.winding());
        assert(hex_dist(cell_of(gb).x as int, cell_of(gb).y as int) == 2);
        assert(!g.group_opaque);
        let me = self.lemma_clear_run(empty_f.push(cw), g);
        assert(g.pt.winding() == 1 && g.end.end_idx() == 12);
        let cg = empty_f.push(cw).push(g);
        let x: nat = 0;
        assert(self.trace(cg, empty, me + x).0.contains(ring_vec(2, 1)));
        assert(self.trace(cg, empty, me + x).0.contains(ring_vec(2, 11)));
        assert(self.trace(s2, empty, (me + x) + 1) == self.trace(cg, empty, me + x));
        let y: nat = (me + x) + 1;
        assert(self.trace(s2, empty, y).0.subset_of(self.trace(empty_f.push(c), empty, mc + y).0)) by {
            assert(empty_f.push(Frame { begin: walk_point(1, 1), pt: walk_point(1, 6), end: e1, group_opaque: false }) == s2);
            assert(empty_f.push(Frame { begin: walk_point(1, 1), pt: walk_point(1, 1), end: e1, group_opaque: false }) == empty_f.push(c));
        }
        let z: nat = mc + y;
        assert(self.trace(s1, empty, z + 1) == self.trace(empty_f.push(c), empty, z));
        let init = seq![Frame { group_opaque: true, ..open_frame(1, 0) }];
        assert(self.trace(s1, empty, z + 1).0.subset_of(self.trace(init, empty, ma + (z + 1)).0)) by {
            assert(empty_f.push(Frame { begin: b1, pt: walk_point(1, 1), end: e1, group_opaque: true }) == s1);
            assert(empty_f.push(Frame { begin: b1, pt: walk_point(1, 0), end: e1, group_opaque: true }) == init);
        }
        ma + (z + 1)
    }
}

/// A wall next to the origin leaves the cells beside its shadow in view:
/// when the oracle blocks the neighbour in direction `k` and nothing else,
/// and the range is two or more, a scan without the fake-isometric rule
/// yields, within the returned number of calls of `next`, both cells two
/// steps out that lie between direction `k` and its neighbouring
/// directions.
pub proof fn lemma_wall_leaves_beside_cells_seen<F: Fn(Vec2) -> bool>(fov: &HexFov<F>, k: int) -> (fuel: nat)
    requires
        fov.wf(),
        fov.is_fresh(),
        !fov.fake(),
        fov.range() >= 2,
        0 <= k < 6,
        forall|p: Vec2| #[trigger] fov.opaque_at(p) == (p == wall_cell(k)),
    ensures
        fov.trace(fov.frames(), fov.pending(), fuel).0.contains(beside_cell(k, 1)),
        fov.trace(fov.frames(), fov.pending(), fuel).0.contains(beside_cell(k, 5)),
{
    let empty = Seq::<Vec2>::empty();
    assert(fov.pending().drop_last() =~= empty);
    assert(fov.opaque_at(Vec2 { x: -1i32, y: -1i32 }) == (k == 0));
    let n = if k == 0 {
        assert(fov.frames() =~= seq![Frame { group_opaque: true, ..open_frame(1, 0) }]);
        fov.lemma_beside_seen_north()
    } else {
        assert(fov.frames() =~= seq![open_frame(1, 0)]);
        fov.lemma_beside_seen_from_east(k)
    };
    let (seen, done) = fov.trace(fov.frames(), empty, n);
    assert(fov.trace(fov.frames(), fov.pending(), n + 1) == (seen.insert(fov.pending().last()), done));
    n + 1
}

} // verus!
