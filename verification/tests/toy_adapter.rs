//! The stackless transform, run on a small body of its own and inspected by
//! shape: there is no execution engine.
use std::collections::BTreeMap;

use krio::stackless::{
    find_regions, find_suspension_points, run_with, CooperativeExecutor, CoroCfg, CoroHooks, Marker,
    SuspKind, WakerExecutor,
};

#[derive(Debug, Clone, Copy, PartialEq, Eq, PartialOrd, Ord, Hash)]
struct ToyBlockId(u32);

#[derive(Debug, Clone, Copy, PartialEq, Eq, PartialOrd, Ord, Hash)]
struct ToyLocalId(u32);

#[derive(Debug, Clone, Copy)]
enum LocalTy {
    I64Mut,
    Bool,
    BoolMut,
}

#[derive(Debug, Clone)]
enum ToyStmt {
    /// Marker statement — these drive the krio transform.
    Marker(Marker),
    /// Generic "user statement" — krio doesn't touch these.
    User(&'static str),
    AssignI64(ToyLocalId, i64),
    AssignBool(ToyLocalId, bool),
    EqCheckI64 {
        dest: ToyLocalId,
        lhs: ToyLocalId,
        rhs: i64,
    },
    Peek(ToyLocalId),
    Nop,
}

#[derive(Debug, Clone)]
enum ToyTerm {
    Unreachable,
    Goto(ToyBlockId),
    Branch {
        cond: ToyLocalId,
        t: ToyBlockId,
        f: ToyBlockId,
    },
    Switch {
        discr: ToyLocalId,
        targets: Vec<(i64, ToyBlockId)>,
        otherwise: ToyBlockId,
    },
    Return,
}

#[derive(Debug, Default)]
struct ToyBody {
    blocks: Vec<(Vec<ToyStmt>, ToyTerm)>,
    locals: Vec<LocalTy>,
}

impl ToyBody {
    fn new() -> Self {
        ToyBody::default()
    }

    fn push_block(&mut self, stmts: Vec<ToyStmt>, term: ToyTerm) -> ToyBlockId {
        let id = ToyBlockId(self.blocks.len() as u32);
        self.blocks.push((stmts, term));
        id
    }

    fn block(&self, id: ToyBlockId) -> &(Vec<ToyStmt>, ToyTerm) {
        &self.blocks[id.0 as usize]
    }

    fn assigns(&self, id: ToyBlockId) -> Vec<(u32, i64)> {
        let mut found = Vec::new();
        for s in &self.block(id).0 {
            if let ToyStmt::AssignI64(local, value) = s {
                found.push((local.0, *value));
            }
        }
        found
    }
}

impl CoroCfg for ToyBody {
    type BlockId = ToyBlockId;
    type LocalId = ToyLocalId;

    fn block_count(&self) -> usize {
        self.blocks.len()
    }

    fn statement_count(&self, bb: ToyBlockId) -> usize {
        self.blocks[bb.0 as usize].0.len()
    }

    fn block_ids(&self) -> Vec<ToyBlockId> {
        (0..self.blocks.len() as u32).map(ToyBlockId).collect()
    }

    fn new_block(&mut self) -> ToyBlockId {
        let id = ToyBlockId(self.blocks.len() as u32);
        self.blocks.push((Vec::new(), ToyTerm::Unreachable));
        id
    }

    fn new_state_local(&mut self) -> ToyLocalId {
        let id = ToyLocalId(self.locals.len() as u32);
        self.locals.push(LocalTy::I64Mut);
        id
    }

    fn new_bool_local(&mut self) -> ToyLocalId {
        let id = ToyLocalId(self.locals.len() as u32);
        self.locals.push(LocalTy::Bool);
        id
    }

    fn new_mut_bool_local(&mut self) -> ToyLocalId {
        let id = ToyLocalId(self.locals.len() as u32);
        self.locals.push(LocalTy::BoolMut);
        id
    }

    fn emit_assign_i64(&mut self, bb: ToyBlockId, local: ToyLocalId, value: i64) {
        self.blocks[bb.0 as usize]
            .0
            .push(ToyStmt::AssignI64(local, value));
    }

    fn emit_assign_bool(&mut self, bb: ToyBlockId, local: ToyLocalId, value: bool) {
        self.blocks[bb.0 as usize]
            .0
            .push(ToyStmt::AssignBool(local, value));
    }

    fn emit_eq_check_i64(
        &mut self,
        bb: ToyBlockId,
        dest: ToyLocalId,
        lhs: ToyLocalId,
        rhs: i64,
    ) {
        self.blocks[bb.0 as usize]
            .0
            .push(ToyStmt::EqCheckI64 { dest, lhs, rhs });
    }

    fn replace_with_nop(&mut self, bb: ToyBlockId, idx: usize) {
        self.blocks[bb.0 as usize].0[idx] = ToyStmt::Nop;
    }

    fn split_after(&mut self, src: ToyBlockId, idx: usize) -> ToyBlockId {
        let src_idx = src.0 as usize;
        let tail: Vec<ToyStmt> = self.blocks[src_idx].0.drain((idx + 1)..).collect();
        let term = std::mem::replace(&mut self.blocks[src_idx].1, ToyTerm::Unreachable);
        let id = ToyBlockId(self.blocks.len() as u32);
        self.blocks.push((tail, term));
        id
    }

    fn prepend_assign_i64(&mut self, bb: ToyBlockId, local: ToyLocalId, value: i64) {
        self.blocks[bb.0 as usize]
            .0
            .insert(0, ToyStmt::AssignI64(local, value));
    }

    fn set_goto(&mut self, bb: ToyBlockId, target: ToyBlockId) {
        self.blocks[bb.0 as usize].1 = ToyTerm::Goto(target);
    }

    fn set_branch(
        &mut self,
        bb: ToyBlockId,
        cond: ToyLocalId,
        true_bb: ToyBlockId,
        false_bb: ToyBlockId,
    ) {
        self.blocks[bb.0 as usize].1 = ToyTerm::Branch {
            cond,
            t: true_bb,
            f: false_bb,
        };
    }

    fn set_switch(
        &mut self,
        bb: ToyBlockId,
        discr: ToyLocalId,
        targets: Vec<(i64, ToyBlockId)>,
        otherwise: ToyBlockId,
    ) {
        self.blocks[bb.0 as usize].1 = ToyTerm::Switch {
            discr,
            targets,
            otherwise,
        };
    }

    fn redirect_targets(
        &mut self,
        bb: ToyBlockId,
        from: ToyBlockId,
        to: ToyBlockId,
    ) {
        let term = &mut self.blocks[bb.0 as usize].1;
        match term {
            ToyTerm::Goto(t) if *t == from => *t = to,
            ToyTerm::Branch { t, f, .. } => {
                if *t == from {
                    *t = to;
                }
                if *f == from {
                    *f = to;
                }
            }
            ToyTerm::Switch {
                targets, otherwise, ..
            } => {
                for (_, b) in targets {
                    if *b == from {
                        *b = to;
                    }
                }
                if *otherwise == from {
                    *otherwise = to;
                }
            }
            _ => {}
        }
    }
}

struct ToyHooks;

impl CoroHooks for ToyHooks {
    type Cfg = ToyBody;

    fn classify_marker(
        &self,
        cfg: &ToyBody,
        bb: ToyBlockId,
        idx: usize,
    ) -> Option<Marker> {
        match &cfg.blocks[bb.0 as usize].0[idx] {
            ToyStmt::Marker(m) => Some(*m),
            _ => None,
        }
    }

    fn emit_guarded_recv_peek(
        &mut self,
        cfg: &mut ToyBody,
        bb: ToyBlockId,
        idx: usize,
        resume_bb: ToyBlockId,
    ) -> ToyLocalId {
        // The peek takes the slot of the recv, which moves to the front of
        // the block that runs once a value is there.
        let ready = cfg.new_bool_local();
        let recv = std::mem::replace(&mut cfg.blocks[bb.0 as usize].0[idx], ToyStmt::Peek(ready));
        cfg.blocks[resume_bb.0 as usize].0.insert(0, recv);
        ready
    }
}

fn build_simple_region() -> ToyBody {
    // Each coroutine boundary in a block of its own, and block ids in
    // control-flow order.
    //
    //   bb0: RegionBegin; CoroutineBegin    -> goto bb1
    //   bb1: User("c1.s1"); Yield           -> goto bb2
    //   bb2: User("c1.s2"); CoroutineEnd    -> goto bb3
    //   bb3: CoroutineBegin                 -> goto bb4
    //   bb4: User("c2.s1"); CoroutineEnd    -> goto bb5
    //   bb5: RegionEnd                      -> goto bb6
    //   bb6: User("post-region"); return
    let mut body = ToyBody::new();
    let bb_region_begin = body.push_block(vec![], ToyTerm::Unreachable); // 0
    let bb_c1_yield = body.push_block(vec![], ToyTerm::Unreachable); // 1
    let bb_c1_end = body.push_block(vec![], ToyTerm::Unreachable); // 2
    let bb_c2_begin = body.push_block(vec![], ToyTerm::Unreachable); // 3
    let bb_c2_end = body.push_block(vec![], ToyTerm::Unreachable); // 4
    let bb_region_end = body.push_block(vec![], ToyTerm::Unreachable); // 5
    let bb_post = body.push_block(vec![], ToyTerm::Unreachable); // 6

    body.blocks[bb_region_begin.0 as usize] = (
        vec![
            ToyStmt::Marker(Marker::RegionBegin),
            ToyStmt::Marker(Marker::CoroutineBegin),
        ],
        ToyTerm::Goto(bb_c1_yield),
    );
    body.blocks[bb_c1_yield.0 as usize] = (
        vec![
            ToyStmt::User("c1.s1"),
            ToyStmt::Marker(Marker::Yield),
        ],
        ToyTerm::Goto(bb_c1_end),
    );
    body.blocks[bb_c1_end.0 as usize] = (
        vec![
            ToyStmt::User("c1.s2"),
            ToyStmt::Marker(Marker::CoroutineEnd),
        ],
        ToyTerm::Goto(bb_c2_begin),
    );
    body.blocks[bb_c2_begin.0 as usize] = (
        vec![ToyStmt::Marker(Marker::CoroutineBegin)],
        ToyTerm::Goto(bb_c2_end),
    );
    body.blocks[bb_c2_end.0 as usize] = (
        vec![
            ToyStmt::User("c2.s1"),
            ToyStmt::Marker(Marker::CoroutineEnd),
        ],
        ToyTerm::Goto(bb_region_end),
    );
    body.blocks[bb_region_end.0 as usize] = (
        vec![ToyStmt::Marker(Marker::RegionEnd)],
        ToyTerm::Goto(bb_post),
    );
    body.blocks[bb_post.0 as usize] = (
        vec![ToyStmt::User("post-region")],
        ToyTerm::Return,
    );
    body
}

fn count_markers(body: &ToyBody) -> BTreeMap<&'static str, usize> {
    let mut counts: BTreeMap<&'static str, usize> = BTreeMap::new();
    for (stmts, _) in &body.blocks {
        for s in stmts {
            if let ToyStmt::Marker(m) = s {
                let key = match m {
                    Marker::RegionBegin => "region_begin",
                    Marker::RegionEnd => "region_end",
                    Marker::CoroutineBegin => "coroutine_begin",
                    Marker::CoroutineEnd => "coroutine_end",
                    Marker::Yield => "yield",
                    Marker::GuardedRecv => "guarded_recv",
                    Marker::ProducingSend => "producing_send",
                };
                *counts.entry(key).or_default() += 1;
            }
        }
    }
    counts
}

fn has_switch_terminator(body: &ToyBody) -> bool {
    body.blocks
        .iter()
        .any(|(_, t)| matches!(t, ToyTerm::Switch { .. }))
}

#[test]
fn toy_adapter_round_trip() {
    // A region with two coroutines and one yield in the first
    // coroutine. After the transform, every marker is gone, a
    // switch dispatch exists, and the region's "after" target
    // is reachable via the executor exit.
    let mut body = build_simple_region();
    let before_blocks = body.blocks.len();

    let mut hooks = ToyHooks;
    let mut exec = CooperativeExecutor;
    run_with(&mut body, &mut hooks, &mut exec);

    assert!(
        body.blocks.len() > before_blocks,
        "expected new blocks after transform, had {} now {}",
        before_blocks,
        body.blocks.len()
    );

    let markers = count_markers(&body);
    assert!(
        markers.is_empty(),
        "expected all markers erased, found {markers:?}"
    );

    assert!(
        has_switch_terminator(&body),
        "expected a Switch terminator from the dispatch block"
    );
}

#[test]
fn toy_adapter_idempotent() {
    let mut body = build_simple_region();
    let mut hooks = ToyHooks;
    let mut exec = CooperativeExecutor;
    run_with(&mut body, &mut hooks, &mut exec);
    let after_first = body.blocks.len();

    run_with(&mut body, &mut hooks, &mut exec);
    assert_eq!(
        body.blocks.len(),
        after_first,
        "second run on already-transformed body should be a no-op"
    );
}

#[test]
fn toy_adapter_no_region_passthrough() {
    // No region markers → transform is a no-op.
    let mut body = ToyBody::new();
    body.push_block(
        vec![ToyStmt::User("a"), ToyStmt::User("b")],
        ToyTerm::Return,
    );
    let before = body.blocks.clone().len();
    let mut hooks = ToyHooks;
    let mut exec = CooperativeExecutor;
    run_with(&mut body, &mut hooks, &mut exec);
    assert_eq!(body.blocks.len(), before);
}

#[test]
fn waker_executor_records_one_region_pair() {
    // After the transform runs with WakerExecutor, the executor
    // should have one (done, pending) BlockId pair recorded —
    // that's how the host wires its waker plumbing.
    let mut body = build_simple_region();
    let mut hooks = ToyHooks;
    let mut exec = WakerExecutor::<ToyBlockId>::new();
    run_with(&mut body, &mut hooks, &mut exec);

    assert_eq!(
        exec.regions.len(),
        1,
        "expected one RegionExits recorded, got {}",
        exec.regions.len()
    );
    let exits = &exec.regions[0];
    assert_ne!(
        exits.done, exits.pending,
        "done and pending must be distinct blocks"
    );
}

#[test]
fn waker_executor_erases_markers_too() {
    // WakerExecutor still erases all markers, same as Cooperative.
    let mut body = build_simple_region();
    let mut hooks = ToyHooks;
    let mut exec = WakerExecutor::<ToyBlockId>::new();
    run_with(&mut body, &mut hooks, &mut exec);

    let markers = count_markers(&body);
    assert!(
        markers.is_empty(),
        "expected all markers erased, found {markers:?}"
    );
}

#[test]
fn waker_executor_no_loop_back() {
    // The cooperative executor's loop body branches from the final
    // all_done check back to its `loop_top`. WakerExecutor branches
    // to `region_pending` instead — and `region_pending`'s default
    // terminator is whatever the toy adapter installed for a fresh
    // block (Unreachable). Verify region_pending is reachable AND
    // unreachable-terminated (consumer's job to wire it up).
    let mut body = build_simple_region();
    let mut hooks = ToyHooks;
    let mut exec = WakerExecutor::<ToyBlockId>::new();
    run_with(&mut body, &mut hooks, &mut exec);

    let pending_bb = exec.regions[0].pending;
    let pending_term = &body.blocks[pending_bb.0 as usize].1;
    assert!(
        matches!(pending_term, ToyTerm::Unreachable),
        "region_pending should default to Unreachable until host wires it up; got {pending_term:?}"
    );
}

#[test]
fn waker_executor_done_path_reaches_post_region() {
    // The `done` exit should chain into the original post-region
    // path (the toy fixture has "post-region" as the after-region
    // user code). Following gotos from done should eventually land
    // on a block whose first statement is User("post-region").
    let mut body = build_simple_region();
    let mut hooks = ToyHooks;
    let mut exec = WakerExecutor::<ToyBlockId>::new();
    run_with(&mut body, &mut hooks, &mut exec);

    let mut current = exec.regions[0].done;
    let mut hops = 0;
    let landed = loop {
        hops += 1;
        assert!(hops < 10, "too many hops chasing done's goto");
        let (stmts, term) = &body.blocks[current.0 as usize];
        let has_post = stmts.iter().any(|s| matches!(s, ToyStmt::User(name) if *name == "post-region"));
        if has_post {
            break true;
        }
        match term {
            ToyTerm::Goto(next) => current = *next,
            _ => break false,
        }
    };
    assert!(landed, "done exit should chain to the post-region path");
}

fn single_coroutine(suspension: Marker) -> ToyBody {
    //   bb0: RegionBegin; CoroutineBegin     -> goto bb1
    //   bb1: User("head"); suspension        -> goto bb2
    //   bb2: User("tail"); CoroutineEnd      -> goto bb3
    //   bb3: RegionEnd                       -> goto bb4
    //   bb4: User("post-region"); return
    let mut body = ToyBody::new();
    body.push_block(
        vec![ToyStmt::Marker(Marker::RegionBegin), ToyStmt::Marker(Marker::CoroutineBegin)],
        ToyTerm::Goto(ToyBlockId(1)),
    );
    body.push_block(
        vec![ToyStmt::User("head"), ToyStmt::Marker(suspension)],
        ToyTerm::Goto(ToyBlockId(2)),
    );
    body.push_block(
        vec![ToyStmt::User("tail"), ToyStmt::Marker(Marker::CoroutineEnd)],
        ToyTerm::Goto(ToyBlockId(3)),
    );
    body.push_block(vec![ToyStmt::Marker(Marker::RegionEnd)], ToyTerm::Goto(ToyBlockId(4)));
    body.push_block(vec![ToyStmt::User("post-region")], ToyTerm::Return);
    body
}

fn switch_of(body: &ToyBody) -> (ToyLocalId, Vec<(i64, ToyBlockId)>, ToyBlockId) {
    for (_, term) in &body.blocks {
        if let ToyTerm::Switch { discr, targets, otherwise } = term {
            return (*discr, targets.clone(), *otherwise);
        }
    }
    panic!("no switch");
}

#[test]
fn discovery_finds_regions_and_their_suspensions() {
    let body = build_simple_region();
    let hooks = ToyHooks;
    let regions = find_regions(&body, &hooks);
    assert_eq!(regions.len(), 1);
    let region = &regions[0];
    assert_eq!(region.region_begin, (ToyBlockId(0), 0));
    assert_eq!(region.region_end, (ToyBlockId(5), 0));
    assert_eq!(region.coroutines.len(), 2);
    assert_eq!(region.coroutines[0].begin, (ToyBlockId(0), 1));
    assert_eq!(region.coroutines[0].end, (ToyBlockId(2), 1));
    assert_eq!(region.coroutines[1].begin, (ToyBlockId(3), 0));
    assert_eq!(region.coroutines[1].end, (ToyBlockId(4), 1));
    let first = find_suspension_points(&body, &hooks, &region.coroutines[0]);
    assert_eq!(first, vec![(ToyBlockId(1), 1, SuspKind::Yield)]);
    let second = find_suspension_points(&body, &hooks, &region.coroutines[1]);
    assert!(second.is_empty());
}

#[test]
fn of_nested_regions_the_inner_one_is_found() {
    // The outer region is found once the inner one has been rewritten.
    let mut body = ToyBody::new();
    body.push_block(
        vec![
            ToyStmt::Marker(Marker::RegionBegin),
            ToyStmt::Marker(Marker::RegionBegin),
            ToyStmt::Marker(Marker::RegionEnd),
            ToyStmt::Marker(Marker::RegionEnd),
        ],
        ToyTerm::Return,
    );
    let regions = find_regions(&body, &ToyHooks);
    assert_eq!(regions.len(), 1);
    assert_eq!(regions[0].region_begin, (ToyBlockId(0), 1));
    assert_eq!(regions[0].region_end, (ToyBlockId(0), 2));
}

#[test]
fn a_yield_saves_the_next_state_and_the_switch_leads_back() {
    let mut body = single_coroutine(Marker::Yield);
    run_with(&mut body, &mut ToyHooks, &mut CooperativeExecutor);
    let (state, targets, _) = switch_of(&body);
    // Entry, then the point behind the yield.
    assert_eq!(targets.len(), 2);
    assert_eq!(targets[0].0, 0);
    assert_eq!(targets[1].0, 1);
    let saver = body.blocks.iter().position(|(stmts, _)| {
        stmts.iter().any(|s| matches!(s, ToyStmt::AssignI64(l, 1) if *l == state))
    });
    assert!(saver.is_some(), "nothing stores state 1");
    // The coroutine's end stores the final state.
    let finisher = (0..body.blocks.len() as u32)
        .find(|b| body.assigns(ToyBlockId(*b)).contains(&(state.0, 9999)));
    assert!(finisher.is_some(), "nothing stores the final state");
}

#[test]
fn a_guarded_recv_peeks_again_until_ready() {
    let mut body = single_coroutine(Marker::GuardedRecv);
    run_with(&mut body, &mut ToyHooks, &mut CooperativeExecutor);
    let peeker = (0..body.blocks.len())
        .find(|b| body.blocks[*b].0.iter().any(|s| matches!(s, ToyStmt::Peek(_))))
        .expect("a peek");
    // The head runs once: the peek stands in a block of its own.
    assert!(!body.blocks[peeker].0.iter().any(|s| matches!(s, ToyStmt::User("head"))));
    let ToyTerm::Branch { t: ready, f: waiting, .. } = body.blocks[peeker].1.clone() else {
        panic!("the peek decides nothing");
    };
    assert_ne!(ready, waiting);
    // A resumption looks again, rather than taking for granted that a value is there.
    let (state, targets, _) = switch_of(&body);
    assert_eq!(targets[1], (1, ToyBlockId(peeker as u32)));
    assert!(body.assigns(waiting).contains(&(state.0, 1)));
}

#[test]
fn a_producing_send_suspends_like_a_yield() {
    let mut body = single_coroutine(Marker::ProducingSend);
    run_with(&mut body, &mut ToyHooks, &mut CooperativeExecutor);
    let (_, targets, _) = switch_of(&body);
    assert_eq!(targets.len(), 2);
}

#[test]
fn a_cooperative_loop_goes_round_until_all_are_done() {
    let mut body = single_coroutine(Marker::Yield);
    run_with(&mut body, &mut ToyHooks, &mut CooperativeExecutor);
    // One branch leads back to a block that comes before it in the loop, and its
    // other side reaches what follows the region.
    let mut seen = false;
    for (_, term) in &body.blocks {
        if let ToyTerm::Branch { t, .. } = term {
            let mut at = *t;
            for _ in 0..10 {
                let (stmts, next) = body.block(at);
                if stmts.iter().any(|s| matches!(s, ToyStmt::User("post-region"))) {
                    seen = true;
                }
                match next {
                    ToyTerm::Goto(n) => at = *n,
                    _ => break,
                }
            }
        }
    }
    assert!(seen, "the loop is never left");
}

#[test]
fn regions_without_coroutines_are_left_alone() {
    let mut body = ToyBody::new();
    body.push_block(
        vec![ToyStmt::Marker(Marker::RegionBegin), ToyStmt::Marker(Marker::RegionEnd)],
        ToyTerm::Return,
    );
    run_with(&mut body, &mut ToyHooks, &mut CooperativeExecutor);
    assert_eq!(body.blocks.len(), 1);
    assert_eq!(count_markers(&body).len(), 2);
}

fn user_statements(body: &ToyBody) -> Vec<&'static str> {
    let mut names: Vec<&'static str> = body
        .blocks
        .iter()
        .flat_map(|(stmts, _)| stmts.iter())
        .filter_map(|s| match s {
            ToyStmt::User(name) => Some(*name),
            _ => None,
        })
        .collect();
    names.sort();
    names
}

#[test]
fn nested_regions_leave_no_marker_and_lose_no_statement() {
    // A region in the first coroutine of another.
    let mut body = ToyBody::new();
    let listing: [Vec<ToyStmt>; 8] = [
        vec![ToyStmt::Marker(Marker::RegionBegin), ToyStmt::Marker(Marker::CoroutineBegin)],
        vec![
            ToyStmt::User("before"),
            ToyStmt::Marker(Marker::RegionBegin),
            ToyStmt::Marker(Marker::CoroutineBegin),
            ToyStmt::User("inner"),
            ToyStmt::Marker(Marker::Yield),
        ],
        vec![ToyStmt::User("inner tail"), ToyStmt::Marker(Marker::CoroutineEnd)],
        vec![ToyStmt::Marker(Marker::RegionEnd)],
        vec![ToyStmt::User("outer"), ToyStmt::Marker(Marker::Yield)],
        vec![ToyStmt::User("outer tail"), ToyStmt::Marker(Marker::CoroutineEnd)],
        vec![ToyStmt::Marker(Marker::RegionEnd)],
        vec![ToyStmt::User("after")],
    ];
    let last = listing.len() as u32 - 1;
    for (i, stmts) in listing.into_iter().enumerate() {
        let term = if i as u32 == last {
            ToyTerm::Return
        } else {
            ToyTerm::Goto(ToyBlockId(i as u32 + 1))
        };
        body.push_block(stmts, term);
    }
    let names = user_statements(&body);
    assert_eq!(names.len(), 6);

    run_with(&mut body, &mut ToyHooks, &mut CooperativeExecutor);

    assert!(count_markers(&body).is_empty());
    assert_eq!(user_statements(&body), names);
}

#[test]
fn a_send_is_no_delimiter_and_stays() {
    let mut body = single_coroutine(Marker::ProducingSend);
    run_with(&mut body, &mut ToyHooks, &mut CooperativeExecutor);
    let left = count_markers(&body);
    assert_eq!(left.len(), 1);
    assert_eq!(left["producing_send"], 1);
}
