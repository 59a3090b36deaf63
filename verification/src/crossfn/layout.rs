//! The words of the cross-function transform: what a host answers, and what it
//! is handed back.
use core::fmt::Debug;
use core::hash::Hash;
use vstd::prelude::*;

use crate::stackless::cfg::CoroCfg;
use crate::stackless::model::Body;
use crate::vocab::{lawful_eq, CfgId};

verus! {

/// Process-unique ids a host uses for the functions of its program.
pub trait FnId: Copy + Eq + Hash + Debug {

}

impl<T: Copy + Eq + Hash + Debug> FnId for T {

}

/// "May this function suspend?" The host computes the transitive set in advance.
pub trait SuspendingFns {
    type FnId: FnId;

    /// The functions that may suspend, directly or through a callee. Only a
    /// verified host has to say.
    open spec fn suspends(&self, fn_id: Self::FnId) -> bool {
        false
    }

    /// The functions that are the language's own yield primitives. Only a verified
    /// host has to say.
    open spec fn yields(&self, fn_id: Self::FnId) -> bool {
        false
    }

    /// True if this function may suspend (directly or transitively).
    fn is_suspending(&self, fn_id: Self::FnId) -> (b: bool)
        ensures
            b == self.suspends(fn_id),
    ;

    /// True if this function is a yield primitive.
    fn is_yield_primitive(&self, fn_id: Self::FnId) -> (b: bool)
        ensures
            b == self.yields(fn_id),
    ;
}

/// One suspension site: a call of a yield primitive, or a call of another
/// function that may suspend.
#[derive(Debug)]
pub enum SuspensionSite<F: FnId, V: CfgId> {
    /// Direct call to a yield primitive, with the slot of the yielded value if
    /// the language passes one.
    DirectYield { value: Option<V> },
    /// Call to a function the host has flagged as suspending.
    CrossFnCall { callee: F, receiver: Option<V>, args: Vec<V>, result: V },
}

/// A [`SuspensionSite`] with its arguments as a sequence.
#[verifier::ext_equal]
pub enum SiteView<F, V> {
    DirectYield { value: Option<V> },
    CrossFnCall { callee: F, receiver: Option<V>, args: Seq<V>, result: V },
}

impl<F: FnId, V: CfgId> SuspensionSite<F, V> {
    pub open spec fn view(&self) -> SiteView<F, V> {
        match *self {
            SuspensionSite::DirectYield { value } => SiteView::DirectYield { value },
            SuspensionSite::CrossFnCall { callee, receiver, args, result } => {
                SiteView::CrossFnCall { callee, receiver, args: args@, result }
            },
        }
    }
}

/// What a host makes of the places in a body.
pub type SiteReading<B, V, F> = spec_fn((B, usize)) -> Option<SiteView<F, V>>;

/// "Is this statement a suspension point, and of what kind?"
pub trait AsyncHooks {
    type Cfg: CoroCfg;

    type FnId: FnId;

    /// What the host makes of the places in a body. Only a verified host has to
    /// say.
    open spec fn sites(
        &self,
        body: Body<<Self::Cfg as CoroCfg>::BlockId, <Self::Cfg as CoroCfg>::LocalId>,
    ) -> SiteReading<
        <Self::Cfg as CoroCfg>::BlockId,
        <Self::Cfg as CoroCfg>::LocalId,
        Self::FnId,
    > {
        |place: (<Self::Cfg as CoroCfg>::BlockId, usize)| None
    }

    /// Classify the statement at `(bb, idx)` as a suspension site, or `None` if
    /// it is not one.
    fn classify(
        &self,
        cfg: &Self::Cfg,
        bb: <Self::Cfg as CoroCfg>::BlockId,
        idx: usize,
    ) -> (site: Option<SuspensionSite<Self::FnId, <Self::Cfg as CoroCfg>::LocalId>>)
        requires
            cfg.body().at((bb, idx)),
        ensures
            match site {
                Some(s) => (self.sites(cfg.body()))((bb, idx)) == Some(s@),
                None => (self.sites(cfg.body()))((bb, idx)) is None,
            },
    ;
}

/// Block id of the host CFG behind an [`AsyncHooks`] impl.
pub type HookBlockId<H> = <<H as AsyncHooks>::Cfg as CoroCfg>::BlockId;

/// Local id of the host CFG behind an [`AsyncHooks`] impl.
pub type HookLocalId<H> = <<H as AsyncHooks>::Cfg as CoroCfg>::LocalId;

/// What the transform entry points return.
pub type TransformResult<H> = Result<
    StateMachineLayout<HookBlockId<H>, HookLocalId<H>, <H as AsyncHooks>::FnId>,
    TransformError<HookBlockId<H>>,
>;

/// What kind of suspension a block represents.
///
/// - `DirectYield`: return the yielded value.
/// - `CrossFnCallInit`: first half of a cross-function call: set up the child
///   frame, then go to the matching `CrossFnCallResume`.
/// - `CrossFnCallResume`: where the dispatcher lands on resume from a yielded
///   child; once the child is done, go on at `done_block`.
#[derive(Debug)]
pub enum BlockKind<B: CfgId, V: CfgId, F: FnId> {
    DirectYield,
    CrossFnCallInit {
        /// The matching `CrossFnCallResume` block.
        resume_check_block: B,
        /// Receiver slot, if the call has one (method).
        receiver: Option<V>,
        /// Argument slots in source order.
        args: Vec<V>,
        /// Where the call's return value lands.
        result: V,
        callee: F,
    },
    CrossFnCallResume {
        /// The block with the statements after the call.
        done_block: B,
        receiver: Option<V>,
        args: Vec<V>,
        result: V,
        callee: F,
    },
}

/// A [`BlockKind`] with its arguments as a sequence.
#[verifier::ext_equal]
pub enum KindView<B, V, F> {
    DirectYield,
    CrossFnCallInit {
        resume_check_block: B,
        receiver: Option<V>,
        args: Seq<V>,
        result: V,
        callee: F,
    },
    CrossFnCallResume { done_block: B, receiver: Option<V>, args: Seq<V>, result: V, callee: F },
}

impl<B: CfgId, V: CfgId, F: FnId> BlockKind<B, V, F> {
    pub open spec fn view(&self) -> KindView<B, V, F> {
        match *self {
            BlockKind::DirectYield => KindView::DirectYield,
            BlockKind::CrossFnCallInit { resume_check_block, receiver, args, result, callee } => {
                KindView::CrossFnCallInit {
                    resume_check_block,
                    receiver,
                    args: args@,
                    result,
                    callee,
                }
            },
            BlockKind::CrossFnCallResume { done_block, receiver, args, result, callee } => {
                KindView::CrossFnCallResume { done_block, receiver, args: args@, result, callee }
            },
        }
    }
}

/// What the transform hands back.
#[derive(Debug)]
pub struct StateMachineLayout<B: CfgId, V: CfgId, F: FnId> {
    /// Per-state entry block: `resume_entries[0]` is the original entry block,
    /// and `resume_entries[i]` goes on after the `i`-th suspension.
    pub resume_entries: Vec<B>,
    /// Blocks whose end is lowered as a suspension, with the state to store.
    pub yield_blocks: Vec<(B, u32)>,
    /// Per yield block, the `(slot, value)` pairs to save before the return.
    pub yield_saves: Vec<(B, Vec<(u32, V)>)>,
    /// Per resume block, the `(slot, value)` pairs to load at the block's entry.
    pub resume_loads: Vec<(B, Vec<(u32, V)>)>,
    /// Per yielding block, the kind of suspension.
    pub block_kinds: Vec<(B, BlockKind<B, V, F>)>,
}

/// Slot tables: for each block, the slots and the values in them.
pub type SlotTables<B, V> = Seq<(B, Seq<(u32, V)>)>;

/// A [`StateMachineLayout`] as sequences all the way down.
#[verifier::ext_equal]
pub struct LayoutView<B, V, F> {
    pub resume_entries: Seq<B>,
    pub yield_blocks: Seq<(B, u32)>,
    pub yield_saves: SlotTables<B, V>,
    pub resume_loads: SlotTables<B, V>,
    pub block_kinds: Seq<(B, KindView<B, V, F>)>,
}

pub open spec fn tables_view<B, V>(tables: Seq<(B, Vec<(u32, V)>)>) -> SlotTables<B, V> {
    Seq::new(tables.len(), |i: int| (tables[i].0, tables[i].1@))
}

pub open spec fn kinds_view<B: CfgId, V: CfgId, F: FnId>(
    kinds: Seq<(B, BlockKind<B, V, F>)>,
) -> Seq<(B, KindView<B, V, F>)> {
    Seq::new(kinds.len(), |i: int| (kinds[i].0, kinds[i].1@))
}

impl<B: CfgId, V: CfgId, F: FnId> StateMachineLayout<B, V, F> {
    pub open spec fn view(&self) -> LayoutView<B, V, F> {
        LayoutView {
            resume_entries: self.resume_entries@,
            yield_blocks: self.yield_blocks@,
            yield_saves: tables_view(self.yield_saves@),
            resume_loads: tables_view(self.resume_loads@),
            block_kinds: kinds_view(self.block_kinds@),
        }
    }
}

/// Live-across-suspension data a host hands to the transform: for each
/// suspension site, the values defined before it and used after it.
#[derive(Debug)]
pub struct LivenessMap<B: CfgId, V: CfgId> {
    pub at_site: Vec<((B, usize), Vec<V>)>,
}

/// The values recorded for a place: those of its first record, or none.
pub open spec fn live_at<B, V>(records: Seq<((B, usize), Vec<V>)>, place: (B, usize)) -> Seq<V>
    decreases records.len(),
{
    if records.len() == 0 {
        Seq::empty()
    } else if records.first().0 == place {
        records.first().1@
    } else {
        live_at(records.drop_first(), place)
    }
}

impl<B: CfgId, V: CfgId> LivenessMap<B, V> {
    /// Nothing recorded: no captures.
    pub fn new() -> (m: Self)
        ensures
            m.at_site@.len() == 0,
    {
        LivenessMap { at_site: Vec::new() }
    }

    /// Record that `values` are live across the suspension at `(block, idx)`.
    pub fn record(&mut self, block: B, idx: usize, values: Vec<V>)
        ensures
            final(self).at_site@ == old(self).at_site@.push(((block, idx), values)),
    {
        self.at_site.push(((block, idx), values));
    }

    /// The values recorded for `(block, idx)`.
    pub fn lookup(&self, block: B, idx: usize) -> (live: &[V])
        requires
            lawful_eq::<B>(),
        ensures
            live@ == live_at(self.at_site@, (block, idx)),
    {
        let mut n: usize = 0;
        assert(self.at_site@.skip(0) =~= self.at_site@);
        while n < self.at_site.len()
            invariant
                n <= self.at_site@.len(),
                lawful_eq::<B>(),
                live_at(self.at_site@, (block, idx)) == live_at(
                    self.at_site@.skip(n as int),
                    (block, idx),
                ),
            decreases self.at_site@.len() - n,
        {
            let ghost rest = self.at_site@.skip(n as int);
            assert(rest.first() == self.at_site@[n as int]);
            assert(rest.drop_first() =~= self.at_site@.skip(n + 1));
            let place = self.at_site[n].0;
            if place.0 == block && place.1 == idx {
                return self.at_site[n].1.as_slice();
            }
            n = n + 1;
        }
        &[]
    }
}

impl<B: CfgId, V: CfgId> Default for LivenessMap<B, V> {
    fn default() -> (m: Self)
        ensures
            m.at_site@.len() == 0,
    {
        Self::new()
    }
}

/// Runtime-side per-frame state: one per active call on a fiber's frame stack.
#[derive(Debug)]
pub struct FrameState<V> {
    /// Resume state; 0 runs from the entry block.
    pub state_id: u32,
    /// Live-across-suspension values, by slot.
    pub saved_values: Vec<V>,
}

impl<V> FrameState<V> {
    /// A frame that runs from its entry block, with nothing saved.
    pub fn new() -> (f: Self)
        ensures
            f.state_id == 0,
            f.saved_values@.len() == 0,
    {
        FrameState { state_id: 0, saved_values: Vec::new() }
    }
}

impl<V> Default for FrameState<V> {
    fn default() -> (f: Self)
        ensures
            f.state_id == 0,
            f.saved_values@.len() == 0,
    {
        Self::new()
    }
}

/// Errors the transform can refuse with. It has none at present: every pattern
/// of suspensions is handled.
#[derive(Debug)]
#[non_exhaustive]
pub enum TransformError<B: CfgId> {
    _Phantom(core::marker::PhantomData<B>),
}

/// Tunables of the transform.
#[derive(Debug, Clone, Copy)]
pub struct TransformOptions {
    /// First slot the captures-lift allocator may use: `0..reserved_slots`
    /// belongs to the host.
    pub reserved_slots: u32,
}

impl Default for TransformOptions {
    fn default() -> (o: Self)
        ensures
            o.reserved_slots == 0,
    {
        TransformOptions { reserved_slots: 0 }
    }
}

} // verus!
