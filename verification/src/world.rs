//! The entity store: the world, its entities with their capability
//! components, the one-shot builder used to populate it, and the query and
//! flag operations.  Containment mutation lives in `containment`.

use vstd::prelude::*;
use vstd::string::StringExecFns;
use crate::types::{Dir, EngineError, EventHookTag, EventKind, Flag, ID, LinkDest, ProseHookTag,
    ProseSource, ProseType, Time};
use crate::model::{Action, ActM, EntM, LinkM, Predicate, ProseM, RoomM, RuleM, WorldM, assoc_hook,
    assoc_link, assoc_prose, lemma_chain_reaches_grow, lemma_inv_same_ents, lemma_locs_ok,
    lemma_with_flag_cleared_facts, lemma_with_flag_facts, lemma_inv_same_shape, same_shape};

verus! {

/// Model of a link destination value.
pub open spec fn link_m(l: LinkDest) -> LinkM {
    match l {
        LinkDest::Room(id) => LinkM::ToRoom(id as int),
        LinkDest::DeadEnd(s) => LinkM::DeadEnd(s@),
    }
}

/// Model of a prose slot value.
pub open spec fn prose_m(p: ProseSource) -> ProseM {
    match p {
        ProseSource::Fixed(s) => ProseM::Fixed(s@),
        ProseSource::Hook(t) => ProseM::Hook(t),
    }
}

/// Model of an action value.
pub open spec fn act_m(a: Action) -> ActM {
    match a {
        Action::Print(s) => ActM::Print(s@),
        Action::SetFlag(id, f) => ActM::SetFlag(id as int, f),
        Action::ClearFlag(id, f) => ActM::ClearFlag(id as int, f),
        Action::Swap(x, y) => ActM::Swap(x as int, y as int),
    }
}

/// The room capability: the exit table.  The room's display name and
/// interior prose live on the entity itself.
pub struct RoomComp {
    pub links: Vec<(Dir, LinkDest)>,
}

impl View for RoomComp {
    type V = RoomM;

    open spec fn view(&self) -> RoomM {
        RoomM { links: self.links@.map_values(|p: (Dir, LinkDest)| (p.0, link_m(p.1))) }
    }
}

/// The rule capability: a predicate, an action list, and the firing state.
pub struct RuleComp {
    pub pred: Predicate,
    pub actions: Vec<Action>,
    pub once_only: bool,
    pub fired: bool,
}

impl View for RuleComp {
    type V = RuleM;

    open spec fn view(&self) -> RuleM {
        RuleM {
            pred: self.pred,
            actions: self.actions@.map_values(|a: Action| act_m(a)),
            once_only: self.once_only,
            fired: self.fired,
        }
    }
}

/// One entity: a fixed identity-bound record holding an open set of
/// optional capability components.
pub struct Entity {
    pub tag: String,
    pub name: String,
    pub loc: ID,
    pub contents: Vec<ID>,
    pub flags: Vec<Flag>,
    pub is_player: bool,
    pub is_thing: bool,
    pub room: Option<RoomComp>,
    pub rule: Option<RuleComp>,
    pub prose: Vec<(ProseType, ProseSource)>,
    pub hooks: Vec<(EventKind, EventHookTag)>,
}

impl View for Entity {
    type V = EntM;

    open spec fn view(&self) -> EntM {
        EntM {
            tag: self.tag@,
            name: self.name@,
            loc: self.loc as int,
            contents: self.contents@.map_values(|x: ID| x as int),
            flags: self.flags@,
            is_player: self.is_player,
            is_thing: self.is_thing,
            room: match self.room {
                Some(r) => Some(r@),
                None => None,
            },
            rule: match self.rule {
                Some(r) => Some(r@),
                None => None,
            },
            prose: self.prose@.map_values(|p: (ProseType, ProseSource)| (p.0, prose_m(p.1))),
            hooks: self.hooks@,
        }
    }
}

/// A builder for one entity, filled during the one-time build phase and
/// handed to [`World::create`]; components cannot be attached later.
pub struct EntityProto {
    pub tag: String,
    pub name: String,
    pub flags: Vec<Flag>,
    pub is_player: bool,
    pub is_thing: bool,
    pub room: Option<RoomComp>,
    pub rule: Option<RuleComp>,
    pub prose: Vec<(ProseType, ProseSource)>,
    pub hooks: Vec<(EventKind, EventHookTag)>,
}

impl View for EntityProto {
    type V = EntM;

    open spec fn view(&self) -> EntM {
        EntM {
            tag: self.tag@,
            name: self.name@,
            loc: 0,
            contents: Seq::empty(),
            flags: self.flags@,
            is_player: self.is_player,
            is_thing: self.is_thing,
            room: match self.room {
                Some(r) => Some(r@),
                None => None,
            },
            rule: match self.rule {
                Some(r) => Some(r@),
                None => None,
            },
            prose: self.prose@.map_values(|p: (ProseType, ProseSource)| (p.0, prose_m(p.1))),
            hooks: self.hooks@,
        }
    }
}

impl EntityProto {
    /// Starts a builder; the display name defaults to the tag.
    pub fn new(tag: &str) -> (r: Self)
        ensures
            r@ =~= (EntM {
                tag: tag@,
                name: tag@,
                loc: 0,
                contents: Seq::empty(),
                flags: Seq::empty(),
                is_player: false,
                is_thing: false,
                room: None,
                rule: None,
                prose: Seq::empty(),
                hooks: Seq::empty(),
            }),
    {
        EntityProto {
            tag: String::from_str(tag),
            name: String::from_str(tag),
            flags: Vec::new(),
            is_player: false,
            is_thing: false,
            room: None,
            rule: None,
            prose: Vec::new(),
            hooks: Vec::new(),
        }
    }

    /// Makes the entity a room with the given display name and an empty
    /// exit table.
    pub fn room(self, name: &str) -> (r: Self)
        ensures
            r@ =~= (EntM { name: name@, room: Some(RoomM { links: Seq::empty() }), ..self@ }),
    {
        Self { name: String::from_str(name), room: Some(RoomComp { links: Vec::new() }), ..self }
    }

    /// Makes the entity a thing with the given display name.
    pub fn thing(self, name: &str) -> (r: Self)
        ensures
            r@ =~= (EntM { name: name@, is_thing: true, ..self@ }),
    {
        Self { name: String::from_str(name), is_thing: true, ..self }
    }

    /// Makes the entity a player.
    pub fn player(self) -> (r: Self)
        ensures
            r@ =~= (EntM { is_player: true, ..self@ }),
    {
        Self { is_player: true, ..self }
    }

    /// Adds an initial flag.
    pub fn flag(self, f: Flag) -> (r: Self)
        ensures
            r@ =~= (EntM { flags: self@.flags.push(f), ..self@ }),
    {
        let mut s = self;
        s.flags.push(f);
        s
    }

    /// Attaches a fixed prose slot.
    pub fn prose(self, kind: ProseType, text: &str) -> (r: Self)
        ensures
            r@ =~= (EntM {
                prose: self@.prose.push((kind, ProseM::Fixed(text@))),
                ..self@
            }),
    {
        let mut s = self;
        s.prose.push((kind, ProseSource::Fixed(String::from_str(text))));
        s
    }

    /// Attaches a producer-backed prose slot.
    pub fn prose_hook(self, kind: ProseType, tag: ProseHookTag) -> (r: Self)
        ensures
            r@ =~= (EntM { prose: self@.prose.push((kind, ProseM::Hook(tag))), ..self@ }),
    {
        let mut s = self;
        s.prose.push((kind, ProseSource::Hook(tag)));
        s
    }

    /// Registers an event hook.
    pub fn event_hook(self, kind: EventKind, tag: EventHookTag) -> (r: Self)
        ensures
            r@ =~= (EntM { hooks: self@.hooks.push((kind, tag)), ..self@ }),
    {
        let mut s = self;
        s.hooks.push((kind, tag));
        s
    }

    /// Makes the entity a once-only rule with the given predicate.
    pub fn once(self, pred: Predicate) -> (r: Self)
        ensures
            r@ =~= (EntM {
                rule: Some(
                    RuleM { pred, actions: Seq::empty(), once_only: true, fired: false },
                ),
                ..self@
            }),
    {
        Self {
            rule: Some(RuleComp { pred, actions: Vec::new(), once_only: true, fired: false }),
            ..self
        }
    }

    /// Makes the entity a perpetually eligible rule with the given
    /// predicate.
    pub fn always(self, pred: Predicate) -> (r: Self)
        ensures
            r@ =~= (EntM {
                rule: Some(
                    RuleM { pred, actions: Seq::empty(), once_only: false, fired: false },
                ),
                ..self@
            }),
    {
        Self {
            rule: Some(RuleComp { pred, actions: Vec::new(), once_only: false, fired: false }),
            ..self
        }
    }

    /// Appends an action to the rule's action list.
    pub fn action(self, a: Action) -> (r: Self)
        requires
            self@.rule is Some,
        ensures
            r@ =~= (EntM {
                rule: Some(
                    RuleM {
                        actions: self@.rule->0.actions.push(act_m(a)),
                        ..self@.rule->0
                    },
                ),
                ..self@
            }),
    {
        let mut s = self;
        match &mut s.rule {
            Some(rc) => {
                rc.actions.push(a);
            },
            None => {},
        }
        s
    }
}

/// The requirements [`World::create`] makes of a builder: initial flags
/// and exit directions free of duplicates.
pub open spec fn proto_ok(em: EntM) -> bool {
    &&& forall|j: int, k: int|
        #![trigger em.flags[j], em.flags[k]]
        0 <= j < k < em.flags.len() ==> em.flags[j] != em.flags[k]
    &&& em.room is Some ==> forall|j: int, k: int|
        #![trigger em.room->0.links[j], em.room->0.links[k]]
        0 <= j < k < em.room->0.links.len() ==> em.room->0.links[j].0 != em.room->0.links[k].0
}

/// The world: the entity store, the player's identity, and the turn clock.
pub struct World {
    pub entities: Vec<Entity>,
    pub pid: ID,
    pub clock: Time,
}

impl View for World {
    type V = WorldM;

    open spec fn view(&self) -> WorldM {
        WorldM {
            ents: self.entities@.map_values(|e: Entity| e@),
            pid: self.pid as int,
            clock: self.clock as nat,
        }
    }
}

impl World {
    /// The world's well-formedness: the containment forest and the flag,
    /// link, and contents bookkeeping are all consistent.
    pub open spec fn wf(self) -> bool {
        self@.inv()
    }

    /// Creates an empty world holding only the reserved "nowhere"
    /// container.
    pub fn new() -> (r: World)
        ensures
            r.wf(),
            r@.n() == 1,
            r@.pid == 0,
            r@.clock == 0,
            r@.contents_of(0) == Seq::<int>::empty(),
            r@.flags_of(0) == Seq::<Flag>::empty(),
            !r@.is_room(0),
            !r@.is_rule(0),
            r@.ents[0].tag == "limbo"@,
            r@.ents[0].name == "nowhere"@,
    {
        let limbo = Entity {
            tag: String::from_str("limbo"),
            name: String::from_str("nowhere"),
            loc: 0,
            contents: Vec::new(),
            flags: Vec::new(),
            is_player: false,
            is_thing: false,
            room: None,
            rule: None,
            prose: Vec::new(),
            hooks: Vec::new(),
        };
        let mut entities: Vec<Entity> = Vec::new();
        entities.push(limbo);
        let w = World { entities, pid: 0, clock: 0 };
        proof {
            assert(w@.ents.len() == 1);
            assert(w@.contents_of(0) =~= Seq::<int>::empty());
            assert(w@.grounded()) by {
                assert forall|id: int| w@.valid(id) implies exists|fuel: nat|
                    w@.chain_reaches(id, fuel) by {
                    assert(w@.chain_reaches(0, 0));
                }
            }
        }
        w
    }

    /// The number of entities ever created.
    pub fn num_entities(&self) -> (r: usize)
        ensures
            r == self@.n(),
    {
        self.entities.len()
    }

    /// The player's identity.
    pub fn player_id(&self) -> (r: ID)
        ensures
            r as int == self@.pid,
    {
        self.pid
    }

    /// Records which entity is the player.
    pub fn set_player_id(&mut self, id: ID)
        requires
            old(self).wf(),
            old(self)@.valid(id as int),
        ensures
            final(self).wf(),
            final(self)@ =~= (WorldM { pid: id as int, ..old(self)@ }),
    {
        self.pid = id;
        proof {
            lemma_inv_same_ents(old(self)@, self@);
        }
    }

    /// The turn clock.
    pub fn clock(&self) -> (r: Time)
        ensures
            r as nat == self@.clock,
    {
        self.clock
    }

    /// Advances the turn clock; called once per full turn by the driver.
    pub fn tick(&mut self)
        requires
            old(self).wf(),
            old(self)@.clock < usize::MAX as nat,
        ensures
            final(self).wf(),
            final(self)@ =~= old(self)@.ticked(),
    {
        self.clock = self.clock + 1;
        proof {
            lemma_inv_same_ents(old(self)@, self@);
        }
    }

    /// Creates an entity from a builder, in limbo, under the next identity.
    pub fn create(&mut self, proto: EntityProto) -> (r: ID)
        requires
            old(self).wf(),
            old(self)@.n() < usize::MAX as int,
            proto_ok(proto@),
        ensures
            final(self).wf(),
            r as int == old(self)@.n(),
            final(self)@ =~= old(self)@.with_created(proto@),
    {
        let id = self.entities.len();
        let ent = Entity {
            tag: proto.tag,
            name: proto.name,
            loc: 0,
            contents: Vec::new(),
            flags: proto.flags,
            is_player: proto.is_player,
            is_thing: proto.is_thing,
            room: proto.room,
            rule: proto.rule,
            prose: proto.prose,
            hooks: proto.hooks,
        };
        self.entities.push(ent);
        self.entities[0].contents.push(id);
        proof {
            let m1 = old(self)@;
            let m2 = self@;
            let n = m1.ents.len() as int;
            assert(m2.ents.len() == n + 1);
            assert(m2.ents =~~= m1.with_created(proto@).ents);
            assert(m2 =~~= m1.with_created(proto@));
            lemma_locs_ok(m1);
            assert forall|y: int| m1.valid(y) implies #[trigger] m2.loc_of(y) == m1.loc_of(y) by {}
            assert forall|y: int|
                m1.valid(y) && y != 0 implies #[trigger] m2.contents_of(y) == m1.contents_of(
                y,
            ) by {}
            assert(m2.contents_of(0) =~= m1.contents_of(0).push(n));
            assert(m2.inv()) by {
                assert(m2.ents[0].loc == 0);
                assert(m2.placed_ok()) by {
                    assert forall|x: int| 1 <= x < m2.n() implies m2.valid(
                        #[trigger] m2.loc_of(x),
                    ) && m2.contents_of(m2.loc_of(x)).contains(x) by {
                        if x < n {
                            assert(m2.loc_of(x) == m1.loc_of(x));
                            assert(m1.valid(m1.loc_of(x)));
                            assert(m1.contents_of(m1.loc_of(x)).contains(x));
                            let j = choose|j: int|
                                0 <= j < m1.contents_of(m1.loc_of(x)).len() && m1.contents_of(
                                    m1.loc_of(x),
                                )[j] == x;
                            if m1.loc_of(x) == 0 {
                                assert(m2.contents_of(0)[j] == x);
                            } else {
                                assert(m2.contents_of(m1.loc_of(x)) == m1.contents_of(
                                    m1.loc_of(x),
                                ));
                            }
                        } else {
                            assert(m2.loc_of(x) == 0);
                            assert(m2.contents_of(0)[m1.contents_of(0).len() as int] == n);
                        }
                    }
                }
                assert(m2.contents_ok()) by {
                    assert forall|c: int, j: int|
                        m2.valid(c) && 0 <= j < m2.contents_of(c).len() implies m2.valid(
                        #[trigger] m2.contents_of(c)[j],
                    ) && m2.contents_of(c)[j] != 0 && m2.loc_of(m2.contents_of(c)[j]) == c by {
                        if c == n {
                            assert(m2.contents_of(c).len() == 0);
                        } else if c == 0 {
                            if j < m1.contents_of(0).len() {
                                assert(m2.contents_of(0)[j] == m1.contents_of(0)[j]);
                                assert(m1.valid(m1.contents_of(0)[j]));
                                assert(m2.loc_of(m1.contents_of(0)[j]) == m1.loc_of(
                                    m1.contents_of(0)[j],
                                ));
                            } else {
                                assert(m2.contents_of(0)[j] == n);
                                assert(m2.loc_of(n) == 0);
                            }
                        } else {
                            assert(m2.contents_of(c) == m1.contents_of(c));
                            assert(m1.valid(m1.contents_of(c)[j]));
                            assert(m2.loc_of(m1.contents_of(c)[j]) == m1.loc_of(
                                m1.contents_of(c)[j],
                            ));
                        }
                    }
                }
                assert(m2.contents_nodup()) by {
                    assert forall|c: int, j: int, k: int|
                        m2.valid(c) && 0 <= j < k < m2.contents_of(c).len() implies #[trigger] m2.contents_of(
                        c,
                    )[j] != #[trigger] m2.contents_of(c)[k] by {
                        if c == 0 {
                            let olds = m1.contents_of(0);
                            if k < olds.len() {
                                assert(m2.contents_of(0)[j] == olds[j]);
                                assert(m2.contents_of(0)[k] == olds[k]);
                            } else {
                                assert(m2.contents_of(0)[k] == n);
                                assert(m2.contents_of(0)[j] == olds[j]);
                                assert(m1.valid(olds[j]));
                            }
                        } else if c < n {
                            assert(m2.contents_of(c) == m1.contents_of(c));
                        }
                    }
                }
                assert(m2.flags_nodup()) by {
                    assert forall|x: int, j: int, k: int|
                        m2.valid(x) && 0 <= j < k < m2.flags_of(x).len() implies #[trigger] m2.flags_of(
                        x,
                    )[j] != #[trigger] m2.flags_of(x)[k] by {
                        if x < n {
                            assert(m2.flags_of(x) == m1.flags_of(x));
                        } else {
                            assert(m2.flags_of(x) == proto@.flags);
                        }
                    }
                }
                assert(m2.links_nodup()) by {
                    assert forall|x: int, j: int, k: int|
                        m2.valid(x) && m2.is_room(x) && 0 <= j < k < m2.links_of(x).len()
                        implies #[trigger] m2.links_of(x)[j].0 != #[trigger] m2.links_of(
                        x,
                    )[k].0 by {
                        if x < n {
                            assert(m2.ents[x].room == m1.ents[x].room);
                            assert(m2.links_of(x) == m1.links_of(x));
                            assert(m1.links_of(x)[j] == m2.links_of(x)[j]);
                            assert(m1.links_of(x)[k] == m2.links_of(x)[k]);
                        } else {
                            assert(m2.links_of(x) == proto@.room->0.links);
                        }
                    }
                }
                assert(m2.grounded()) by {
                    assert forall|x: int| m2.valid(x) implies exists|fuel: nat|
                        m2.chain_reaches(x, fuel) by {
                        if x < n {
                            let l = m1.loc_of(x);
                            let fu = choose|fu: nat| m1.chain_reaches(x, fu);
                            lemma_chain_reaches_grow(m1, m2, x, fu);
                        } else {
                            assert(m2.loc_of(x) == 0);
                            assert(m2.chain_reaches(0, 0));
                            assert(m2.chain_reaches(x, 1));
                        }
                    }
                }
            }
        }
        id
    }

    /// The recorded container of the given entity.
    pub fn loc(&self, id: ID) -> (r: ID)
        requires
            self@.valid(id as int),
        ensures
            r as int == self@.loc_of(id as int),
    {
        self.entities[id].loc
    }

    /// The display name of the given entity.
    pub fn name(&self, id: ID) -> (r: &String)
        requires
            self@.valid(id as int),
        ensures
            r@ == self@.ents[id as int].name,
    {
        &self.entities[id].name
    }

    /// The internal tag of the given entity.
    pub fn tag(&self, id: ID) -> (r: &String)
        requires
            self@.valid(id as int),
        ensures
            r@ == self@.ents[id as int].tag,
    {
        &self.entities[id].tag
    }

    /// The contents list of the given entity.
    pub fn contents(&self, id: ID) -> (r: &Vec<ID>)
        requires
            self@.valid(id as int),
        ensures
            r@.map_values(|x: ID| x as int) == self@.contents_of(id as int),
    {
        &self.entities[id].contents
    }

    /// Whether the entity carries the exact given flag.
    pub fn has_flag(&self, id: ID, f: Flag) -> (r: bool)
        requires
            self@.valid(id as int),
        ensures
            r == self@.has_flag(id as int, f),
    {
        let fl = &self.entities[id].flags;
        let n = fl.len();
        let mut i: usize = 0;
        while i < n
            invariant
                i <= n,
                n == fl@.len(),
                fl@ == self@.flags_of(id as int),
                forall|j: int| 0 <= j < i ==> fl@[j] != f,
            decreases n - i,
        {
            if fl[i] == f {
                return true;
            }
            i = i + 1;
        }
        proof {
            assert(!self@.flags_of(id as int).contains(f));
        }
        false
    }

    /// Whether the entity is flagged as scenery.
    pub fn is_scenery(&self, id: ID) -> (r: bool)
        requires
            self@.valid(id as int),
        ensures
            r == self@.has_flag(id as int, Flag::Scenery),
    {
        self.has_flag(id, Flag::Scenery)
    }

    /// Sets the exact given flag on the entity; a no-op when already set.
    pub fn set_flag(&mut self, id: ID, f: Flag)
        requires
            old(self).wf(),
            old(self)@.valid(id as int),
        ensures
            final(self).wf(),
            final(self)@ =~= old(self)@.with_flag(id as int, f),
    {
        let already = self.has_flag(id, f);
        if !already {
            self.entities[id].flags.push(f);
        }
        proof {
            assert(self@.ents =~= old(self)@.with_flag(id as int, f).ents);
            assert(self@ =~= old(self)@.with_flag(id as int, f));
            lemma_with_flag_facts(old(self)@, id as int, f);
        }
    }

    /// Clears the exact given flag on the entity; a no-op when absent.
    pub fn clear_flag(&mut self, id: ID, f: Flag)
        requires
            old(self).wf(),
            old(self)@.valid(id as int),
        ensures
            final(self).wf(),
            final(self)@ =~= old(self)@.with_flag_cleared(id as int, f),
    {
        let ghost m1 = self@;
        let n = self.entities[id].flags.len();
        let mut i: usize = 0;
        let mut idx: Option<usize> = None;
        while i < n
            invariant
                i <= n,
                *self == *old(self),
                self@.valid(id as int),
                n == self@.flags_of(id as int).len(),
                match idx {
                    Some(j) => j < i && self@.flags_of(id as int)[j as int] == f,
                    None => forall|j: int| 0 <= j < i ==> self@.flags_of(id as int)[j] != f,
                },
            decreases n - i,
        {
            if idx.is_none() && self.entities[id].flags[i] == f {
                idx = Some(i);
            }
            i = i + 1;
        }
        match idx {
            Some(j) => {
                self.entities[id].flags.remove(j);
                proof {
                    let s = m1.flags_of(id as int);
                    assert(s.contains(f)) by {
                        assert(s[j as int] == f);
                    }
                    let i0 = s.index_of(f);
                    assert(0 <= i0 < s.len() && s[i0] == f);
                    assert(i0 == j as int) by {
                        if i0 != j as int {
                            assert(m1.flags_of(id as int)[i0] != m1.flags_of(id as int)[
                                j as int]);
                        }
                    }
                    assert(self@.ents =~= m1.with_flag_cleared(id as int, f).ents);
                    assert(self@ =~= m1.with_flag_cleared(id as int, f));
                    lemma_with_flag_cleared_facts(m1, id as int, f);
                }
            },
            None => {
                proof {
                    assert(!m1.flags_of(id as int).contains(f));
                    assert(self@.ents =~= m1.with_flag_cleared(id as int, f).ents);
                    assert(self@ =~= m1.with_flag_cleared(id as int, f));
                    lemma_with_flag_cleared_facts(m1, id as int, f);
                }
            },
        }
    }

    /// Whether the entity has the room capability.
    pub fn is_room(&self, id: ID) -> (r: bool)
        requires
            self@.valid(id as int),
        ensures
            r == self@.is_room(id as int),
    {
        self.entities[id].room.is_some()
    }

    /// Whether the entity has the rule capability.
    pub fn is_rule(&self, id: ID) -> (r: bool)
        requires
            self@.valid(id as int),
        ensures
            r == self@.is_rule(id as int),
    {
        self.entities[id].rule.is_some()
    }

    /// Whether the entity has the player capability.
    pub fn is_player(&self, id: ID) -> (r: bool)
        requires
            self@.valid(id as int),
        ensures
            r == self@.ents[id as int].is_player,
    {
        self.entities[id].is_player
    }

    /// Whether the entity has the thing capability.
    pub fn is_thing(&self, id: ID) -> (r: bool)
        requires
            self@.valid(id as int),
        ensures
            r == self@.ents[id as int].is_thing,
    {
        self.entities[id].is_thing
    }

    /// The entity record, or an out-of-range error for an identity that
    /// was never allocated.
    pub fn get(&self, id: ID) -> (r: Result<&Entity, EngineError>)
        ensures
            match r {
                Ok(e) => self@.valid(id as int) && e@ == self@.ents[id as int],
                Err(e) => !self@.valid(id as int) && e == EngineError::OutOfRange,
            },
    {
        if id < self.entities.len() {
            Ok(&self.entities[id])
        } else {
            Err(EngineError::OutOfRange)
        }
    }

    /// Read-only projection of the room capability.
    pub fn as_room(&self, id: ID) -> (r: &RoomComp)
        requires
            self@.valid(id as int),
            self@.is_room(id as int),
        ensures
            r@ == self@.ents[id as int].room->0,
    {
        match &self.entities[id].room {
            Some(rc) => rc,
            None => vstd::pervasive::unreached(),
        }
    }

    /// Read-only projection of the rule capability.
    pub fn as_rule(&self, id: ID) -> (r: &RuleComp)
        requires
            self@.valid(id as int),
            self@.is_rule(id as int),
        ensures
            r@ == self@.rule_of(id as int),
    {
        match &self.entities[id].rule {
            Some(rc) => rc,
            None => vstd::pervasive::unreached(),
        }
    }

    /// Adds a directed link from a room.
    pub fn add_link(&mut self, from: ID, dir: Dir, dest: LinkDest)
        requires
            old(self).wf(),
            old(self)@.valid(from as int),
            old(self)@.is_room(from as int),
            old(self)@.link_at(from as int, dir) is None,
            link_dest_ok(old(self)@, link_m(dest)),
        ensures
            final(self).wf(),
            final(self)@ =~= old(self)@.with_link(from as int, dir, link_m(dest)),
    {
        let ghost m1 = self@;
        let ghost dm = link_m(dest);
        match &mut self.entities[from].room {
            Some(rc) => {
                rc.links.push((dir, dest));
            },
            None => {},
        }
        proof {
            let m2 = m1.with_link(from as int, dir, dm);
            assert(self@.ents[from as int].room->0.links =~= m1.links_of(from as int).push(
                (dir, dm),
            ));
            assert(self@.ents[from as int] =~= m2.ents[from as int]);
            assert(self@.ents =~= m2.ents);
            assert(self@ =~= m2);
            lemma_assoc_link_none(m1.links_of(from as int), dir);
            assert(m2.inv()) by {
                assert(same_shape(m1, m2));
                assert(m2.flags_nodup()) by {
                    assert forall|x: int, j: int, k: int|
                        m2.valid(x) && 0 <= j < k < m2.flags_of(x).len() implies #[trigger] m2.flags_of(
                        x,
                    )[j] != #[trigger] m2.flags_of(x)[k] by {
                        assert(m2.flags_of(x) == m1.flags_of(x));
                    }
                }
                assert(m2.links_nodup()) by {
                    assert forall|x: int, j: int, k: int|
                        m2.valid(x) && m2.is_room(x) && 0 <= j < k < m2.links_of(x).len()
                        implies #[trigger] m2.links_of(x)[j].0 != #[trigger] m2.links_of(
                        x,
                    )[k].0 by {
                        if x == from as int {
                            let olds = m1.links_of(x);
                            assert(m2.links_of(x) == olds.push((dir, dm)));
                            if k == olds.len() {
                                assert(m2.links_of(x)[j] == olds[j]);
                                assert(m2.links_of(x)[k].0 == dir);
                            } else {
                                assert(m2.links_of(x)[j] == olds[j]);
                                assert(m2.links_of(x)[k] == olds[k]);
                            }
                        } else {
                            assert(m2.ents[x].room == m1.ents[x].room);
                            assert(m2.links_of(x) == m1.links_of(x));
                            assert(m1.links_of(x)[j] == m2.links_of(x)[j]);
                            assert(m1.links_of(x)[k] == m2.links_of(x)[k]);
                        }
                    }
                }
                lemma_inv_same_shape(m1, m2);
            }
        }
    }

    /// Adds a two-way passage: two independently stored directed links.
    /// Nothing prevents a passage from a room to itself, as long as the
    /// two directions differ.
    pub fn twoway(&mut self, a: ID, out_dir: Dir, back_dir: Dir, b: ID)
        requires
            old(self).wf(),
            old(self)@.valid(a as int),
            old(self)@.valid(b as int),
            a != b || out_dir != back_dir,
            old(self)@.is_room(a as int),
            old(self)@.is_room(b as int),
            old(self)@.link_at(a as int, out_dir) is None,
            old(self)@.link_at(b as int, back_dir) is None,
        ensures
            final(self).wf(),
            final(self)@ =~= old(self)@.with_link(a as int, out_dir, LinkM::ToRoom(b as int))
                .with_link(b as int, back_dir, LinkM::ToRoom(a as int)),
    {
        self.add_link(a, out_dir, LinkDest::Room(b));
        proof {
            let mid = self@;
            if a != b {
                assert(mid.ents[b as int].room == old(self)@.ents[b as int].room);
                assert(mid.links_of(b as int) == old(self)@.links_of(b as int));
                assert(mid.link_at(b as int, back_dir) == old(self)@.link_at(
                    b as int,
                    back_dir,
                ));
            } else {
                let olds = old(self)@.links_of(a as int);
                assert(mid.links_of(a as int) == olds.push(
                    (out_dir, LinkM::ToRoom(b as int)),
                ));
                lemma_assoc_link_push(olds, (out_dir, LinkM::ToRoom(b as int)), back_dir);
                assert(mid.link_at(b as int, back_dir) is None);
            }
        }
        self.add_link(b, back_dir, LinkDest::Room(a));
    }

    /// Follows a link, returning the full destination if one exists.
    pub fn follow_link(&self, loc: ID, dir: Dir) -> (r: Option<&LinkDest>)
        requires
            self@.valid(loc as int),
        ensures
            match r {
                Some(l) => self@.link_at(loc as int, dir) == Some(link_m(*l)),
                None => self@.link_at(loc as int, dir) is None,
            },
    {
        match &self.entities[loc].room {
            None => None,
            Some(rc) => {
                let ghost links = self@.links_of(loc as int);
                proof {
                    assert(links.skip(0) =~= links);
                }
                let n = rc.links.len();
                let mut i: usize = 0;
                while i < n
                    invariant
                        i <= n,
                        n == rc.links@.len(),
                        links == rc@.links,
                        self@.valid(loc as int),
                        self@.is_room(loc as int),
                        self@.links_of(loc as int) == links,
                        assoc_link(links.skip(i as int), dir) == assoc_link(links, dir),
                    decreases n - i,
                {
                    proof {
                        assert(links.skip(i as int)[0] == links[i as int]);
                        assert(links[i as int] == (rc.links@[i as int].0, link_m(
                            rc.links@[i as int].1,
                        )));
                    }
                    if rc.links[i].0 == dir {
                        proof {
                            assert(assoc_link(links.skip(i as int), dir) == Some(
                                links[i as int].1,
                            ));
                        }
                        return Some(&rc.links[i].1);
                    }
                    proof {
                        assert(links.skip(i as int).drop_first() =~= links.skip(i as int + 1));
                    }
                    i = i + 1;
                }
                proof {
                    assert(links.skip(n as int) =~= Seq::empty());
                }
                None
            },
        }
    }

    /// Follows a link to another room; `None` means no exit exists in that
    /// direction or the link is a dead end.
    pub fn follow(&self, loc: ID, dir: Dir) -> (r: Option<ID>)
        requires
            self@.valid(loc as int),
        ensures
            match r {
                Some(d) => self@.follow_to(loc as int, dir) == Some(d as int),
                None => self@.follow_to(loc as int, dir) is None,
            },
    {
        match self.follow_link(loc, dir) {
            Some(LinkDest::Room(d)) => Some(*d),
            _ => None,
        }
    }

    /// The prose slot of the given kind on the entity, if any.
    pub fn prose_source(&self, id: ID, kind: ProseType) -> (r: Option<&ProseSource>)
        requires
            self@.valid(id as int),
        ensures
            match r {
                Some(p) => self@.prose_at(id as int, kind) == Some(prose_m(*p)),
                None => self@.prose_at(id as int, kind) is None,
            },
    {
        let slots = &self.entities[id].prose;
        let ghost sm = self@.ents[id as int].prose;
        proof {
            assert(sm.skip(0) =~= sm);
        }
        let n = slots.len();
        let mut i: usize = 0;
        while i < n
            invariant
                i <= n,
                n == slots@.len(),
                sm == slots@.map_values(|p: (ProseType, ProseSource)| (p.0, prose_m(p.1))),
                self@.valid(id as int),
                self@.ents[id as int].prose == sm,
                assoc_prose(sm.skip(i as int), kind) == assoc_prose(sm, kind),
            decreases n - i,
        {
            proof {
                assert(sm.skip(i as int)[0] == sm[i as int]);
                assert(sm[i as int] == (slots@[i as int].0, prose_m(slots@[i as int].1)));
            }
            if slots[i].0 == kind {
                proof {
                    assert(assoc_prose(sm.skip(i as int), kind) == Some(sm[i as int].1));
                }
                return Some(&slots[i].1);
            }
            proof {
                assert(sm.skip(i as int).drop_first() =~= sm.skip(i as int + 1));
            }
            i = i + 1;
        }
        proof {
            assert(sm.skip(n as int) =~= Seq::empty());
        }
        None
    }

    /// The event hook registered for the (entity, event kind) pair, if any.
    pub fn hook_for(&self, id: ID, kind: EventKind) -> (r: Option<EventHookTag>)
        requires
            self@.valid(id as int),
        ensures
            r == self@.hook_at(id as int, kind),
    {
        let hooks = &self.entities[id].hooks;
        let ghost hm = self@.ents[id as int].hooks;
        proof {
            assert(hm.skip(0) =~= hm);
        }
        let n = hooks.len();
        let mut i: usize = 0;
        while i < n
            invariant
                i <= n,
                n == hooks@.len(),
                hm == hooks@,
                self@.valid(id as int),
                self@.ents[id as int].hooks == hm,
                assoc_hook(hm.skip(i as int), kind) == assoc_hook(hm, kind),
            decreases n - i,
        {
            proof {
                assert(hm.skip(i as int)[0] == hm[i as int]);
            }
            if hooks[i].0 == kind {
                return Some(hooks[i].1);
            }
            proof {
                assert(hm.skip(i as int).drop_first() =~= hm.skip(i as int + 1));
            }
            i = i + 1;
        }
        proof {
            assert(hm.skip(n as int) =~= Seq::empty());
        }
        None
    }

    /// Reverse lookup of an entity by its tag: the earliest match, if any.
    pub fn lookup_id(&self, tag: &str) -> (r: Option<ID>)
        ensures
            match r {
                Some(id) => self@.spec_lookup_id(tag@) == Some(id as int) && self@.valid(
                    id as int,
                ),
                None => self@.spec_lookup_id(tag@) is None,
            },
    {
        let needle = String::from_str(tag);
        let n = self.entities.len();
        let mut i: usize = 0;
        while i < n
            invariant
                i <= n,
                n == self@.ents.len(),
                needle@ == tag@,
                self@.lookup_from(tag@, i as int) == self@.lookup_from(tag@, 0),
            decreases n - i,
        {
            if (&self.entities[i].tag).eq(&needle) {
                proof {
                    assert(self@.ents[i as int].tag == tag@);
                }
                return Some(i);
            }
            proof {
                assert(self@.ents[i as int].tag != tag@);
            }
            i = i + 1;
        }
        None
    }
}

/// Whether a link destination references an allocated entity; a
/// dangling identity in authored data is a fatal authoring error.
pub open spec fn link_dest_ok(m: WorldM, l: LinkM) -> bool {
    match l {
        LinkM::ToRoom(d) => m.valid(d),
        LinkM::DeadEnd(_) => true,
    }
}

/// Appending a link leaves every earlier direction's lookup unchanged
/// and answers a fresh direction with the new link.
pub proof fn lemma_assoc_link_push(links: Seq<(Dir, LinkM)>, p: (Dir, LinkM), dir: Dir)
    ensures
        assoc_link(links.push(p), dir) == (match assoc_link(links, dir) {
            Some(l) => Some(l),
            None => if p.0 == dir {
                Some(p.1)
            } else {
                None
            },
        }),
    decreases links.len(),
{
    let ext = links.push(p);
    assert(ext.len() == links.len() + 1);
    if links.len() == 0 {
        assert(ext[0] == p);
        if p.0 == dir {
            assert(assoc_link(ext, dir) == Some(p.1));
        } else {
            assert(ext.drop_first() =~= Seq::<(Dir, LinkM)>::empty());
            assert(assoc_link(ext.drop_first(), dir) is None);
            assert(assoc_link(ext, dir) is None);
        }
        assert(assoc_link(links, dir) is None);
    } else {
        assert(ext[0] == links[0]);
        assert(ext.drop_first() =~= links.drop_first().push(p));
        lemma_assoc_link_push(links.drop_first(), p, dir);
        if links[0].0 == dir {
            assert(assoc_link(ext, dir) == Some(links[0].1));
            assert(assoc_link(links, dir) == Some(links[0].1));
        } else {
            assert(assoc_link(ext, dir) == assoc_link(links.drop_first().push(p), dir));
            assert(assoc_link(links, dir) == assoc_link(links.drop_first(), dir));
        }
    }
}

/// A direction absent from an exit table matches no stored link.
pub proof fn lemma_assoc_link_none(links: Seq<(Dir, LinkM)>, dir: Dir)
    requires
        assoc_link(links, dir) is None,
    ensures
        forall|j: int| 0 <= j < links.len() ==> (#[trigger] links[j]).0 != dir,
    decreases links.len(),
{
    if links.len() > 0 {
        lemma_assoc_link_none(links.drop_first(), dir);
        assert forall|j: int| 0 <= j < links.len() implies (#[trigger] links[j]).0 != dir by {
            if j > 0 {
                assert(links.drop_first()[j - 1] == links[j]);
            }
        }
    }
}

} // verus!
