//! The prose resolver and the event hook dispatcher.  Prose is resolved
//! lazily: a producer-backed slot is interpreted against the world as it
//! is at the moment of the query, so descriptions always reflect flags
//! set moments earlier.  Nothing is cached.

use vstd::prelude::*;
use crate::types::{Event, EventHookTag, ID, ProseSource, ProseType, spec_kind_of, kind_of};
use crate::model::{ProseM, WorldM};
use crate::world::World;
use crate::scenario::{spec_eval_prose_hook, eval_prose_hook, spec_on_note_get, on_note_get};

verus! {

/// What resolving a prose slot yields: the fixed string, or the
/// producer's output against the current world; `None` when the entity
/// has no slot of that kind.
pub open spec fn spec_resolve(m: WorldM, id: int, kind: ProseType) -> Option<Seq<char>> {
    match m.prose_at(id, kind) {
        Some(ProseM::Fixed(s)) => Some(s),
        Some(ProseM::Hook(t)) => Some(spec_eval_prose_hook(m, id, t)),
        None => None,
    }
}

/// Resolves the prose slot of the given kind on the given entity.  Every
/// call re-evaluates; the result is a pure function of the current world,
/// so two resolutions with no intervening state change agree.
pub fn resolve(world: &World, id: ID, kind: ProseType) -> (r: Option<String>)
    requires
        world.wf(),
        world@.valid(id as int),
    ensures
        match r {
            Some(s) => spec_resolve(world@, id as int, kind) == Some(s@),
            None => spec_resolve(world@, id as int, kind) is None,
        },
{
    match world.prose_source(id, kind) {
        None => None,
        Some(src) => match src {
            ProseSource::Fixed(s) => Some(s.clone()),
            ProseSource::Hook(t) => Some(eval_prose_hook(world, id, *t)),
        },
    }
}

/// The effect of dispatching an event to an entity: either no hook is
/// registered and nothing happens, or the registered hook's effect.
pub open spec fn spec_run_hook(m: WorldM, id: int, tag: EventHookTag) -> (WorldM, Option<
    Seq<char>,
>) {
    match tag {
        EventHookTag::NoteGet => spec_on_note_get(m, id),
    }
}

impl World {
    /// Dispatches an event to the hook registered for the (entity, event
    /// kind) pair, if any; a missing hook is a no-op.  Dispatch is
    /// synchronous and runs after the triggering action's own effect.
    pub fn dispatch(&mut self, id: ID, ev: Event) -> (r: Option<String>)
        requires
            old(self).wf(),
            old(self)@.valid(id as int),
        ensures
            final(self).wf(),
            ({
                match old(self)@.hook_at(id as int, spec_kind_of(ev)) {
                    None => final(self)@ == old(self)@ && r is None,
                    Some(tag) => {
                        let eff = spec_run_hook(old(self)@, id as int, tag);
                        &&& final(self)@ == eff.0
                        &&& (match r {
                            Some(s) => eff.1 == Some(s@),
                            None => eff.1 is None,
                        })
                    },
                }
            }),
    {
        let kind = kind_of(ev);
        match self.hook_for(id, kind) {
            None => None,
            Some(tag) => match tag {
                EventHookTag::NoteGet => on_note_get(self, id),
            },
        }
    }
}

} // verus!
