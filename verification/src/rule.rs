//! The rule engine: once per turn, every rule entity's predicate is
//! evaluated against the current world, in authoring order, and the
//! actions of the rules whose predicates hold are executed.  A rule marked
//! once-only is skipped forever after it has fired.  Rules are entities,
//! and actions never create entities, so iterating the identities that
//! exist when the turn starts is the same as iterating a snapshot.

use vstd::prelude::*;
use crate::types::{EngineError, ID};
use crate::model::{ActM, Predicate, RuleM, WorldM, lemma_inv_same_shape,
    lemma_links_nodup_same_rooms, lemma_with_flag_cleared_facts, lemma_with_flag_facts,
    same_shape};
use crate::world::{World, act_m};

verus! {

/// Whether a predicate holds of a world.
pub open spec fn pred_holds(m: WorldM, p: Predicate) -> bool {
    match p {
        Predicate::ClockIs(t) => m.clock == t as nat,
        Predicate::HasFlag(id, f) => m.has_flag(id as int, f),
    }
}

/// The identities a predicate reads exist.
pub open spec fn pred_ids_ok(m: WorldM, p: Predicate) -> bool {
    match p {
        Predicate::ClockIs(_) => true,
        Predicate::HasFlag(id, _) => m.valid(id as int),
    }
}

/// The identities an action touches exist and make sense.
pub open spec fn action_ids_ok(m: WorldM, a: ActM) -> bool {
    match a {
        ActM::Print(_) => true,
        ActM::SetFlag(id, _) => m.valid(id),
        ActM::ClearFlag(id, _) => m.valid(id),
        ActM::Swap(x, y) => m.valid(x) && x != 0 && m.valid(y) && y != 0 && x != y,
    }
}

/// A well-authored rule: its predicate and all its actions reference
/// entities that exist.
pub open spec fn rule_valid(m: WorldM, rl: RuleM) -> bool {
    &&& pred_ids_ok(m, rl.pred)
    &&& forall|i: int| 0 <= i < rl.actions.len() ==> action_ids_ok(m, #[trigger] rl.actions[i])
}

/// Every rule in the world is well-authored.
pub open spec fn rules_valid(m: WorldM) -> bool {
    forall|r: int| m.valid(r) && #[trigger] m.is_rule(r) ==> rule_valid(m, m.rule_of(r))
}

/// The outcome of running an action list, a rule, or a whole turn: the
/// world it leaves, the text it emitted, and whether every action's
/// precondition held when it ran (a failure stops the run and leaves the
/// world partially mutated — there is no rollback).
#[verifier::ext_equal]
pub ghost struct RunM {
    pub w: WorldM,
    pub out: Seq<Seq<char>>,
    pub ok: bool,
}

/// One action, applied to the world.
pub open spec fn apply_act(m: WorldM, a: ActM) -> RunM {
    match a {
        ActM::Print(s) => RunM { w: m, out: seq![s], ok: true },
        ActM::SetFlag(id, f) => RunM { w: m.with_flag(id, f), out: Seq::empty(), ok: true },
        ActM::ClearFlag(id, f) => RunM {
            w: m.with_flag_cleared(id, f),
            out: Seq::empty(),
            ok: true,
        },
        ActM::Swap(x, y) => {
            let c = m.loc_of(x);
            let m1 = m.take_out_m(x);
            if y != c && m1.loc_of(y) == 0 && m1.chain_avoids(c, y, m1.ents.len() as nat) {
                RunM { w: m1.put_in_m(y, c), out: Seq::empty(), ok: true }
            } else {
                RunM { w: m1, out: Seq::empty(), ok: false }
            }
        },
    }
}

/// An action list, applied in order, stopping at the first failure.
pub open spec fn run_actions(m: WorldM, acts: Seq<ActM>) -> RunM
    decreases acts.len(),
{
    if acts.len() == 0 {
        RunM { w: m, out: Seq::empty(), ok: true }
    } else {
        let st = apply_act(m, acts[0]);
        if !st.ok {
            RunM { w: st.w, out: st.out, ok: false }
        } else {
            let rest = run_actions(st.w, acts.drop_first());
            RunM { w: rest.w, out: st.out + rest.out, ok: rest.ok }
        }
    }
}

/// Whether rule `r` runs when considered against world `m`: it is an
/// unfired (or not once-only) rule whose predicate holds now.
pub open spec fn rule_runs(m: WorldM, r: int) -> bool {
    m.is_rule(r) && !m.rule_of(r).fired && pred_holds(m, m.rule_of(r).pred)
}

/// One rule, considered and possibly run; a once-only rule that ran to
/// completion is marked fired on the live record.
pub open spec fn run_rule(m: WorldM, r: int) -> RunM {
    if rule_runs(m, r) {
        let ar = run_actions(m, m.rule_of(r).actions);
        if ar.ok && m.rule_of(r).once_only {
            RunM { w: ar.w.with_fired(r), out: ar.out, ok: true }
        } else {
            ar
        }
    } else {
        RunM { w: m, out: Seq::empty(), ok: true }
    }
}

/// The rules from identity `i` up to (but excluding) `n`, in authoring
/// order.
pub open spec fn run_from(m: WorldM, i: int, n: int) -> RunM
    decreases n - i,
{
    if i < 0 || i >= n {
        RunM { w: m, out: Seq::empty(), ok: true }
    } else {
        let r1 = run_rule(m, i);
        if r1.ok {
            let r2 = run_from(r1.w, i + 1, n);
            RunM { w: r2.w, out: r1.out + r2.out, ok: r2.ok }
        } else {
            r1
        }
    }
}

/// One whole turn of the rule engine.
pub open spec fn spec_run(m: WorldM) -> RunM {
    run_from(m, 1, m.ents.len() as int)
}

/// Marking a rule fired preserves well-formedness and touches nothing
/// else.
pub proof fn lemma_with_fired_facts(m: WorldM, r: int)
    requires
        m.inv(),
        m.valid(r),
    ensures
        m.with_fired(r).inv(),
        m.with_fired(r).ents.len() == m.ents.len(),
        m.with_fired(r).pid == m.pid,
        m.with_fired(r).clock == m.clock,
        forall|x: int| m.valid(x) && x != r ==> (#[trigger] m.with_fired(r).ents[x]) == m.ents[x],
{
    let m2 = m.with_fired(r);
    assert(same_shape(m, m2));
    assert(m2.flags_nodup()) by {
        assert forall|x: int, j: int, k: int|
            m2.valid(x) && 0 <= j < k < m2.flags_of(x).len() implies #[trigger] m2.flags_of(x)[j]
            != #[trigger] m2.flags_of(x)[k] by {
            assert(m2.flags_of(x) == m.flags_of(x));
            assert(m.flags_of(x)[j] != m.flags_of(x)[k]);
        }
    }
    assert forall|y: int| m.valid(y) implies (#[trigger] m2.ents[y]).room == m.ents[y].room by {}
    lemma_links_nodup_same_rooms(m, m2);
    lemma_inv_same_shape(m, m2);
}

impl World {
    /// Evaluates a predicate against the current world; predicates never
    /// mutate.
    pub fn eval_pred(&self, p: Predicate) -> (r: bool)
        requires
            pred_ids_ok(self@, p),
        ensures
            r == pred_holds(self@, p),
    {
        match p {
            Predicate::ClockIs(t) => self.clock() == t,
            Predicate::HasFlag(id, f) => self.has_flag(id, f),
        }
    }
}

/// An owned copy of an action, equal in the model.
fn copy_action(a: &crate::model::Action) -> (r: crate::model::Action)
    ensures
        act_m(r) == act_m(*a),
{
    match a {
        crate::model::Action::Print(s) => crate::model::Action::Print(s.clone()),
        crate::model::Action::SetFlag(id, f) => crate::model::Action::SetFlag(*id, *f),
        crate::model::Action::ClearFlag(id, f) => crate::model::Action::ClearFlag(*id, *f),
        crate::model::Action::Swap(x, y) => crate::model::Action::Swap(*x, *y),
    }
}

/// Executes the action list of rule `r` against the live world, appending
/// emitted text to `out`; stops at the first action whose precondition
/// does not hold (an authoring error) and reports it.
#[verifier::loop_isolation(false)]
fn fire_rule(world: &mut World, r: ID, out: &mut Vec<String>) -> (ok: bool)
    requires
        old(world).wf(),
        old(world)@.valid(r as int),
        old(world)@.is_rule(r as int),
        rule_valid(old(world)@, old(world)@.rule_of(r as int)),
    ensures
        final(world).wf(),
        ({
            let ar = run_actions(old(world)@, old(world)@.rule_of(r as int).actions);
            &&& final(world)@ == ar.w
            &&& ok == ar.ok
            &&& final(out)@.map_values(|s: String| s@) =~= old(out)@.map_values(|s: String| s@)
                + ar.out
        }),
{
    let ghost m0 = old(world)@;
    let ghost acts = m0.rule_of(r as int).actions;
    let ghost outbase = old(out)@.map_values(|s: String| s@);
    let len = world.as_rule(r).actions.len();
    proof {
        assert(acts.skip(0) =~= acts);
    }
    let mut j: usize = 0;
    while j < len
        invariant
            world.wf(),
            world@.valid(r as int),
            world@.ents.len() == m0.ents.len(),
            world@.ents[r as int].rule == m0.ents[r as int].rule,
            j <= len,
            len == acts.len(),
            rule_valid(m0, m0.rule_of(r as int)),
            ({
                let rest = run_actions(world@, acts.skip(j as int));
                &&& run_actions(m0, acts).w == rest.w
                &&& run_actions(m0, acts).ok == rest.ok
                &&& outbase + run_actions(m0, acts).out =~= out@.map_values(|s: String| s@)
                    + rest.out
            }),
        decreases len - j,
    {
        let ghost mj = world@;
        let ghost suffix = acts.skip(j as int);
        proof {
            assert(m0.is_rule(r as int));
            assert(world@.ents[r as int].rule == m0.ents[r as int].rule);
            assert(world@.is_rule(r as int));
            assert(suffix[0] == acts[j as int]);
            assert(acts == m0.rule_of(r as int).actions);
            assert(m0.rule_of(r as int).actions[j as int] == acts[j as int]);
            assert(action_ids_ok(m0, acts[j as int]));
            assert(suffix.drop_first() =~= acts.skip(j as int + 1));
        }
        let a = copy_action(&world.as_rule(r).actions[j]);
        proof {
            assert(world@.rule_of(r as int).actions == acts);
            assert(act_m(a) == acts[j as int]);
        }
        match a {
            crate::model::Action::Print(s) => {
                let ghost outm = out@.map_values(|s2: String| s2@);
                let ghost sm = s@;
                out.push(s);
                proof {
                    assert(out@.map_values(|s2: String| s2@) =~= outm.push(sm));
                    assert(acts[j as int] == ActM::Print(sm));
                }
            },
            crate::model::Action::SetFlag(id, f) => {
                world.set_flag(id, f);
            },
            crate::model::Action::ClearFlag(id, f) => {
                world.clear_flag(id, f);
            },
            crate::model::Action::Swap(x, y) => {
                let c = world.loc(x);
                proof {
                    crate::model::lemma_locs_ok(mj);
                    assert(mj.valid(mj.loc_of(x as int)));
                }
                world.take_out(x, c);
                let enabled = y != c && world.loc(y) == 0;
                let enabled2 = if enabled {
                    world.chain_avoids_check(c, y, world.num_entities())
                } else {
                    false
                };
                if enabled2 {
                    proof {
                        assert(world@.chain_avoids(c as int, y as int, world@.ents.len() as nat));
                    }
                    world.put_in(y, c);
                } else {
                    proof {
                        let st = apply_act(mj, acts[j as int]);
                        assert(!st.ok);
                        assert(world@ == st.w);
                        assert(run_actions(mj, suffix).w == st.w);
                        assert(run_actions(mj, suffix).ok == false);
                        assert(run_actions(mj, suffix).out =~= Seq::<Seq<char>>::empty());
                        assert(outbase + run_actions(m0, acts).out =~= out@.map_values(
                            |s2: String| s2@,
                        ) + Seq::<Seq<char>>::empty());
                    }
                    return false;
                }
            },
        }
        proof {
            let st = apply_act(mj, acts[j as int]);
            assert(st.ok);
            assert(world@ == st.w);
            assert(run_actions(mj, suffix) == RunM {
                w: run_actions(st.w, acts.skip(j as int + 1)).w,
                out: st.out + run_actions(st.w, acts.skip(j as int + 1)).out,
                ok: run_actions(st.w, acts.skip(j as int + 1)).ok,
            });
            assert(outbase + run_actions(m0, acts).out =~= out@.map_values(|s2: String| s2@)
                + run_actions(world@, acts.skip(j as int + 1)).out);
            assert(world@.ents[r as int].rule == m0.ents[r as int].rule);
        }
        j = j + 1;
    }
    proof {
        assert(acts.skip(len as int) =~= Seq::empty());
    }
    true
}

/// Two optional rule components that agree on everything but the fired
/// bit.
pub open spec fn rule_mod_fired(a: Option<RuleM>, b: Option<RuleM>) -> bool {
    match (a, b) {
        (Option::None, Option::None) => true,
        (Option::Some(x), Option::Some(y)) => x.pred == y.pred && x.actions == y.actions
            && x.once_only == y.once_only,
        _ => false,
    }
}

/// Actions never touch rule components, the clock, the player identity,
/// or the number of entities, and preserve well-formedness.
pub proof fn lemma_apply_act_rules(m: WorldM, a: ActM)
    requires
        m.inv(),
        action_ids_ok(m, a),
    ensures
        apply_act(m, a).w.inv(),
        apply_act(m, a).w.ents.len() == m.ents.len(),
        apply_act(m, a).w.pid == m.pid,
        apply_act(m, a).w.clock == m.clock,
        forall|x: int|
            0 <= x < m.ents.len() ==> (#[trigger] apply_act(m, a).w.ents[x]).rule
                == m.ents[x].rule,
{
    match a {
        ActM::Print(_) => {},
        ActM::SetFlag(id, f) => {
            lemma_with_flag_facts(m, id, f);
            assert forall|x: int| 0 <= x < m.ents.len() implies (#[trigger] apply_act(
                m,
                a,
            ).w.ents[x]).rule == m.ents[x].rule by {}
        },
        ActM::ClearFlag(id, f) => {
            lemma_with_flag_cleared_facts(m, id, f);
            assert forall|x: int| 0 <= x < m.ents.len() implies (#[trigger] apply_act(
                m,
                a,
            ).w.ents[x]).rule == m.ents[x].rule by {}
        },
        ActM::Swap(x0, y0) => {
            let c = m.loc_of(x0);
            let m1 = m.take_out_m(x0);
            crate::containment::lemma_take_out_m_inv(m, x0);
            assert forall|x: int| 0 <= x < m.ents.len() implies (#[trigger] m1.ents[x]).rule
                == m.ents[x].rule by {}
            if y0 != c && m1.loc_of(y0) == 0 && m1.chain_avoids(c, y0, m1.ents.len() as nat) {
                crate::model::lemma_locs_ok(m);
                assert(m1.valid(c));
                crate::containment::lemma_put_in_m_inv(m1, y0, c);
                let m2 = m1.put_in_m(y0, c);
                assert forall|x: int| 0 <= x < m.ents.len() implies (#[trigger] m2.ents[x]).rule
                    == m.ents[x].rule by {
                    assert(m1.ents[x].rule == m.ents[x].rule);
                }
            }
        },
    }
}

/// As [`lemma_apply_act_rules`], lifted over a whole action list.
pub proof fn lemma_run_actions_rules(m: WorldM, acts: Seq<ActM>)
    requires
        m.inv(),
        forall|i: int| 0 <= i < acts.len() ==> action_ids_ok(m, #[trigger] acts[i]),
    ensures
        run_actions(m, acts).w.inv(),
        run_actions(m, acts).w.ents.len() == m.ents.len(),
        run_actions(m, acts).w.pid == m.pid,
        run_actions(m, acts).w.clock == m.clock,
        forall|x: int|
            0 <= x < m.ents.len() ==> (#[trigger] run_actions(m, acts).w.ents[x]).rule
                == m.ents[x].rule,
    decreases acts.len(),
{
    if acts.len() > 0 {
        let st = apply_act(m, acts[0]);
        lemma_apply_act_rules(m, acts[0]);
        if st.ok {
            assert forall|i: int|
                0 <= i < acts.drop_first().len() implies action_ids_ok(
                st.w,
                #[trigger] acts.drop_first()[i],
            ) by {
                assert(acts.drop_first()[i] == acts[i + 1]);
                assert(action_ids_ok(m, acts[i + 1]));
            }
            lemma_run_actions_rules(st.w, acts.drop_first());
            assert forall|x: int|
                0 <= x < m.ents.len() implies (#[trigger] run_actions(m, acts).w.ents[x]).rule
                == m.ents[x].rule by {
                assert(st.w.ents[x].rule == m.ents[x].rule);
                assert(run_actions(st.w, acts.drop_first()).w.ents[x].rule == st.w.ents[x].rule);
            }
        }
    }
}

/// Marks the rule fired on the live entity record, if it is once-only.
#[verifier::loop_isolation(false)]
fn mark_fired(world: &mut World, r: ID)
    requires
        old(world).wf(),
        old(world)@.valid(r as int),
        old(world)@.is_rule(r as int),
    ensures
        final(world).wf(),
        old(world)@.rule_of(r as int).once_only ==> final(world)@ =~= old(world)@.with_fired(
            r as int,
        ),
        !old(world)@.rule_of(r as int).once_only ==> final(world)@ =~= old(world)@,
{
    let once = world.as_rule(r).once_only;
    if once {
        match &mut world.entities[r].rule {
            Some(rc) => {
                rc.fired = true;
            },
            None => {},
        }
        proof {
            assert(world@.ents =~~= old(world)@.with_fired(r as int).ents);
            assert(world@ =~~= old(world)@.with_fired(r as int));
            lemma_with_fired_facts(old(world)@, r as int);
        }
    }
}

/// The rule engine's per-turn entry point: considers every rule entity in
/// authoring order against the live, possibly just-mutated world, runs
/// those whose predicates hold, and returns the text the run emitted.  An
/// action whose precondition fails stops the turn with an error, leaving
/// the earlier mutations in place.
#[verifier::loop_isolation(false)]
pub fn system(world: &mut World) -> (r: Result<Vec<String>, EngineError>)
    requires
        old(world).wf(),
        rules_valid(old(world)@),
    ensures
        final(world).wf(),
        final(world)@ == spec_run(old(world)@).w,
        match r {
            Ok(out) => spec_run(old(world)@).ok && out@.map_values(|s: String| s@) =~= spec_run(
                old(world)@,
            ).out,
            Err(e) => !spec_run(old(world)@).ok && e == EngineError::RuleActionFailed,
        },
{
    let ghost m0 = old(world)@;
    let n = world.num_entities();
    let mut out: Vec<String> = Vec::new();
    let mut i: usize = 1;
    proof {
        assert(out@.map_values(|s: String| s@) =~= Seq::<Seq<char>>::empty());
        assert(spec_run(m0).out =~= out@.map_values(|s: String| s@) + run_from(
            m0,
            1,
            n as int,
        ).out);
    }
    while i < n
        invariant
            world.wf(),
            1 <= i <= n,
            n == world@.ents.len(),
            n == m0.ents.len(),
            forall|x: int|
                0 <= x < n ==> rule_mod_fired((#[trigger] world@.ents[x]).rule, m0.ents[x].rule),
            spec_run(m0).w == run_from(world@, i as int, n as int).w,
            spec_run(m0).ok == run_from(world@, i as int, n as int).ok,
            spec_run(m0).out =~= out@.map_values(|s: String| s@) + run_from(
                world@,
                i as int,
                n as int,
            ).out,
        decreases n - i,
    {
        let ghost mi = world@;
        let is_r = world.is_rule(i);
        if is_r {
            proof {
                assert(rule_mod_fired(world@.ents[i as int].rule, m0.ents[i as int].rule));
                assert(m0.is_rule(i as int));
                assert(rule_valid(m0, m0.rule_of(i as int)));
            }
            let rc = world.as_rule(i);
            let pred = rc.pred;
            let fired = rc.fired;
            proof {
                assert(mi.rule_of(i as int).pred == m0.rule_of(i as int).pred);
                assert(mi.rule_of(i as int).actions == m0.rule_of(i as int).actions);
                assert(pred_ids_ok(mi, pred));
                assert forall|k: int|
                    0 <= k < mi.rule_of(i as int).actions.len() implies action_ids_ok(
                    mi,
                    #[trigger] mi.rule_of(i as int).actions[k],
                ) by {
                    assert(mi.rule_of(i as int).actions[k] == m0.rule_of(i as int).actions[k]);
                    assert(action_ids_ok(m0, m0.rule_of(i as int).actions[k]));
                }
                assert(rule_valid(mi, mi.rule_of(i as int)));
            }
            if !fired && world.eval_pred(pred) {
                proof {
                    assert(rule_runs(mi, i as int));
                }
                let ok = fire_rule(world, i, &mut out);
                proof {
                    lemma_run_actions_rules(mi, mi.rule_of(i as int).actions);
                }
                if !ok {
                    proof {
                        let ar = run_actions(mi, mi.rule_of(i as int).actions);
                        assert(run_rule(mi, i as int) == ar);
                        assert(run_from(mi, i as int, n as int) == ar);
                        assert(spec_run(m0).out =~= out@.map_values(|s: String| s@));
                    }
                    return Err(EngineError::RuleActionFailed);
                }
                mark_fired(world, i);
                proof {
                    let ar = run_actions(mi, mi.rule_of(i as int).actions);
                    assert(ar.w.is_rule(i as int));
                    assert(ar.w.rule_of(i as int).once_only == mi.rule_of(i as int).once_only);
                    if mi.rule_of(i as int).once_only {
                        assert(world@ == ar.w.with_fired(i as int));
                        assert(run_rule(mi, i as int) == RunM {
                            w: world@,
                            out: ar.out,
                            ok: true,
                        });
                        lemma_with_fired_facts(ar.w, i as int);
                    } else {
                        assert(world@ == ar.w);
                        assert(run_rule(mi, i as int) == RunM {
                            w: world@,
                            out: ar.out,
                            ok: true,
                        });
                    }
                    assert forall|x: int|
                        0 <= x < n implies rule_mod_fired(
                        (#[trigger] world@.ents[x]).rule,
                        m0.ents[x].rule,
                    ) by {
                        assert(ar.w.ents[x].rule == mi.ents[x].rule);
                        assert(rule_mod_fired(mi.ents[x].rule, m0.ents[x].rule));
                    }
                    assert(run_from(mi, i as int, n as int).w == run_from(
                        world@,
                        i as int + 1,
                        n as int,
                    ).w);
                    assert(spec_run(m0).out =~= out@.map_values(|s: String| s@) + run_from(
                        world@,
                        i as int + 1,
                        n as int,
                    ).out);
                }
            } else {
                proof {
                    assert(!rule_runs(world@, i as int));
                    assert(run_rule(world@, i as int) == RunM {
                        w: world@,
                        out: Seq::<Seq<char>>::empty(),
                        ok: true,
                    });
                    assert(Seq::<Seq<char>>::empty() + run_from(
                        world@,
                        i as int + 1,
                        n as int,
                    ).out =~= run_from(world@, i as int + 1, n as int).out);
                }
            }
        } else {
            proof {
                assert(!rule_runs(world@, i as int));
                assert(run_rule(world@, i as int) == RunM {
                    w: world@,
                    out: Seq::<Seq<char>>::empty(),
                    ok: true,
                });
                assert(Seq::<Seq<char>>::empty() + run_from(
                    world@,
                    i as int + 1,
                    n as int,
                ).out =~= run_from(world@, i as int + 1, n as int).out);
            }
        }
        i = i + 1;
    }
    proof {
        assert(run_from(world@, n as int, n as int) == RunM {
            w: world@,
            out: Seq::<Seq<char>>::empty(),
            ok: true,
        });
        assert(spec_run(m0).out =~= out@.map_values(|s: String| s@) + Seq::<Seq<char>>::empty());
        assert(spec_run(m0).out =~= out@.map_values(|s: String| s@));
    }
    Ok(out)
}

/// The rules that actually ran during a turn segment.
pub open spec fn ran_from(m: WorldM, i: int, n: int) -> Set<int>
    decreases n - i,
{
    if i < 0 || i >= n {
        Set::empty()
    } else {
        let r1 = run_rule(m, i);
        let first = if rule_runs(m, i) {
            Set::<int>::empty().insert(i)
        } else {
            Set::<int>::empty()
        };
        if r1.ok {
            first + ran_from(r1.w, i + 1, n)
        } else {
            first
        }
    }
}

/// The rules that ran during a whole turn.
pub open spec fn spec_ran(m: WorldM) -> Set<int> {
    ran_from(m, 1, m.ents.len() as int)
}

/// Rule validity carries across worlds that agree on size and on every
/// rule component up to the fired bit.
proof fn lemma_rules_valid_transfer(m1: WorldM, m2: WorldM)
    requires
        rules_valid(m1),
        m1.ents.len() == m2.ents.len(),
        forall|x: int|
            0 <= x < m1.ents.len() ==> rule_mod_fired(
                (#[trigger] m2.ents[x]).rule,
                m1.ents[x].rule,
            ),
    ensures
        rules_valid(m2),
{
    assert forall|r: int| m2.valid(r) && #[trigger] m2.is_rule(r) implies rule_valid(
        m2,
        m2.rule_of(r),
    ) by {
        assert(rule_mod_fired(m2.ents[r].rule, m1.ents[r].rule));
        assert(m1.is_rule(r));
        assert(rule_valid(m1, m1.rule_of(r)));
        assert(m2.rule_of(r).pred == m1.rule_of(r).pred);
        assert(m2.rule_of(r).actions == m1.rule_of(r).actions);
        assert forall|i: int| 0 <= i < m2.rule_of(r).actions.len() implies action_ids_ok(
            m2,
            #[trigger] m2.rule_of(r).actions[i],
        ) by {
            assert(m2.rule_of(r).actions[i] == m1.rule_of(r).actions[i]);
            assert(action_ids_ok(m1, m1.rule_of(r).actions[i]));
        }
    }
}

/// What one turn segment does to the rules: components survive up to the
/// fired bit; a fired rule stays fired and is never run again; a
/// once-only rule that ran in a segment that completed is fired at its
/// end.
proof fn lemma_run_from_fired(m: WorldM, i: int, n: int)
    requires
        m.inv(),
        rules_valid(m),
        n == m.ents.len(),
        0 <= i,
    ensures
        ({
            let out = run_from(m, i, n);
            let ran = ran_from(m, i, n);
            &&& out.w.inv()
            &&& out.w.ents.len() == m.ents.len()
            &&& out.w.clock == m.clock
            &&& out.w.pid == m.pid
            &&& rules_valid(out.w)
            &&& forall|x: int|
                0 <= x < m.ents.len() ==> rule_mod_fired(
                    (#[trigger] out.w.ents[x]).rule,
                    m.ents[x].rule,
                )
            &&& forall|x: int|
                0 <= x < m.ents.len() && m.is_rule(x) && (#[trigger] m.rule_of(x).fired)
                    ==> out.w.rule_of(x).fired && !ran.contains(x)
            &&& forall|x: int| #[trigger] ran.contains(x) ==> i <= x < n
            &&& forall|x: int|
                0 <= x < m.ents.len() && m.is_rule(x) && m.rule_of(x).once_only && out.ok
                    && #[trigger] ran.contains(x) ==> out.w.rule_of(x).fired
        }),
    decreases n - i,
{
    let out = run_from(m, i, n);
    let ran = ran_from(m, i, n);
    if i >= n {
        assert forall|x: int| 0 <= x < m.ents.len() implies rule_mod_fired(
            (#[trigger] out.w.ents[x]).rule,
            m.ents[x].rule,
        ) by {}
        assert(ran =~= Set::<int>::empty());
    } else {
        if !rule_runs(m, i) {
            lemma_run_from_fired(m, i + 1, n);
            assert(run_rule(m, i) == RunM { w: m, out: Seq::<Seq<char>>::empty(), ok: true });
            assert(ran =~= ran_from(m, i + 1, n)) by {
                assert(ran == Set::<int>::empty() + ran_from(m, i + 1, n));
            }
            assert forall|x: int|
                0 <= x < m.ents.len() && m.is_rule(x) && (#[trigger] m.rule_of(x).fired)
                implies out.w.rule_of(x).fired && !ran.contains(x) by {
                assert(!ran_from(m, i + 1, n).contains(x));
            }
        } else {
            let acts = m.rule_of(i).actions;
            assert(m.is_rule(i));
            assert(rule_valid(m, m.rule_of(i)));
            lemma_run_actions_rules(m, acts);
            let ar = run_actions(m, acts);
            if !ar.ok {
                assert(out == ar);
                assert(ran =~= Set::<int>::empty().insert(i));
                assert forall|x: int| 0 <= x < m.ents.len() implies rule_mod_fired(
                    (#[trigger] ar.w.ents[x]).rule,
                    m.ents[x].rule,
                ) by {
                    assert(ar.w.ents[x].rule == m.ents[x].rule);
                }
                lemma_rules_valid_transfer(m, ar.w);
                assert forall|x: int|
                    0 <= x < m.ents.len() && m.is_rule(x) && (#[trigger] m.rule_of(x).fired)
                    implies out.w.rule_of(x).fired && !ran.contains(x) by {
                    assert(ar.w.ents[x].rule == m.ents[x].rule);
                    assert(x != i);
                }
            } else {
                let once = m.rule_of(i).once_only;
                let w1 = if once {
                    ar.w.with_fired(i)
                } else {
                    ar.w
                };
                assert(run_rule(m, i) == RunM { w: w1, out: ar.out, ok: true });
                if once {
                    lemma_with_fired_facts(ar.w, i);
                }
                assert(w1.inv());
                assert(w1.ents.len() == m.ents.len());
                assert(w1.clock == m.clock && w1.pid == m.pid);
                assert forall|x: int| 0 <= x < m.ents.len() implies rule_mod_fired(
                    (#[trigger] w1.ents[x]).rule,
                    m.ents[x].rule,
                ) by {
                    assert(ar.w.ents[x].rule == m.ents[x].rule);
                    if once && x == i {
                        assert(w1.ents[i].rule == Some(
                            RuleM { fired: true, ..ar.w.ents[i].rule->0 },
                        ));
                    } else if once {
                        assert(w1.ents[x] == ar.w.ents[x]);
                    }
                }
                lemma_rules_valid_transfer(m, w1);
                lemma_run_from_fired(w1, i + 1, n);
                let rest = run_from(w1, i + 1, n);
                let rest_ran = ran_from(w1, i + 1, n);
                assert(out.w == rest.w && out.ok == rest.ok);
                assert(ran == Set::<int>::empty().insert(i) + rest_ran);
                assert forall|x: int| 0 <= x < m.ents.len() implies rule_mod_fired(
                    (#[trigger] out.w.ents[x]).rule,
                    m.ents[x].rule,
                ) by {
                    assert(rule_mod_fired(rest.w.ents[x].rule, w1.ents[x].rule));
                    assert(rule_mod_fired(w1.ents[x].rule, m.ents[x].rule));
                }
                assert forall|x: int|
                    0 <= x < m.ents.len() && m.is_rule(x) && (#[trigger] m.rule_of(x).fired)
                    implies out.w.rule_of(x).fired && !ran.contains(x) by {
                    assert(x != i);
                    assert(w1.ents[x].rule == m.ents[x].rule);
                    assert(w1.is_rule(x) && w1.rule_of(x).fired);
                    assert(!rest_ran.contains(x));
                    assert(!ran.contains(x));
                }
                assert forall|x: int| #[trigger] ran.contains(x) implies i <= x < n by {
                    if x != i {
                        assert(rest_ran.contains(x));
                    }
                }
                assert forall|x: int|
                    0 <= x < m.ents.len() && m.is_rule(x) && m.rule_of(x).once_only && out.ok
                        && #[trigger] ran.contains(x) implies out.w.rule_of(x).fired by {
                    if x == i {
                        assert(w1.is_rule(i) && w1.rule_of(i).fired);
                    } else {
                        assert(rest_ran.contains(x));
                        assert(rule_mod_fired(w1.ents[x].rule, m.ents[x].rule));
                        assert(w1.is_rule(x) && w1.rule_of(x).once_only);
                    }
                }
            }
        }
    }
}

/// Once-only firing: a once-only rule that runs on some turn is latched
/// fired when that turn completes; on the following turn it does not run
/// again — whatever its predicate then says — and its fired status
/// persists.  So a once-only rule whose predicate holds on two
/// consecutive turns fires exactly once, on the earlier of them.
pub proof fn lemma_once_only_fires_once(m: WorldM, r: int)
    requires
        m.inv(),
        rules_valid(m),
        m.valid(r),
        m.is_rule(r),
        m.rule_of(r).once_only,
        spec_run(m).ok,
        spec_ran(m).contains(r),
    ensures
        spec_run(m).w.is_rule(r),
        spec_run(m).w.rule_of(r).fired,
        !spec_ran(spec_run(m).w).contains(r),
        spec_run(spec_run(m).w).w.is_rule(r),
        spec_run(spec_run(m).w).w.rule_of(r).fired,
{
    lemma_run_from_fired(m, 1, m.ents.len() as int);
    let w1 = spec_run(m).w;
    assert(rule_mod_fired(w1.ents[r].rule, m.ents[r].rule));
    assert(w1.is_rule(r) && w1.rule_of(r).fired && w1.rule_of(r).once_only);
    lemma_run_from_fired(w1, 1, w1.ents.len() as int);
    assert(spec_run(w1).w.rule_of(r).fired && !spec_ran(w1).contains(r));
}

} // verus!
