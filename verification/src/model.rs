//! The mathematical model of the world: ghost mirrors of the entity store,
//! the well-formedness invariant over them, and the model-level transforms
//! that the executable operations are specified against.

use vstd::prelude::*;
use crate::types::{Dir, EventHookTag, EventKind, Flag, ID, ProseHookTag, ProseType, Time};

verus! {

/// Model of a room link destination.
#[verifier::ext_equal]
pub ghost enum LinkM {
    ToRoom(int),
    DeadEnd(Seq<char>),
}

/// Model of a prose slot.
#[verifier::ext_equal]
pub ghost enum ProseM {
    Fixed(Seq<char>),
    Hook(ProseHookTag),
}

/// Model of the room capability: the exit table.
#[verifier::ext_equal]
pub ghost struct RoomM {
    pub links: Seq<(Dir, LinkM)>,
}

/// A rule's predicate over the world, stored as data.
#[derive(PartialEq, Eq, Structural, Clone, Copy, Debug)]
pub enum Predicate {
    /// True when the turn clock reads exactly the given time.
    ClockIs(Time),
    /// True when the given entity carries the given flag.
    HasFlag(ID, Flag),
}

/// A rule action, stored as data and interpreted by the rule engine.
#[derive(Debug)]
pub enum Action {
    /// Emit the given text.
    Print(String),
    /// Set a flag on the given entity.
    SetFlag(ID, Flag),
    /// Clear a flag on the given entity.
    ClearFlag(ID, Flag),
    /// Swap(a, b): move `a` from its container into limbo, and `b`, which
    /// must be in limbo, into `a`'s vacated container.
    Swap(ID, ID),
}

/// Model of a rule action.
#[verifier::ext_equal]
pub ghost enum ActM {
    Print(Seq<char>),
    SetFlag(int, Flag),
    ClearFlag(int, Flag),
    Swap(int, int),
}

/// Model of the rule capability.
#[verifier::ext_equal]
pub ghost struct RuleM {
    pub pred: Predicate,
    pub actions: Seq<ActM>,
    pub once_only: bool,
    pub fired: bool,
}

/// Model of one entity.
#[verifier::ext_equal]
pub ghost struct EntM {
    pub tag: Seq<char>,
    pub name: Seq<char>,
    pub loc: int,
    pub contents: Seq<int>,
    pub flags: Seq<Flag>,
    pub is_player: bool,
    pub is_thing: bool,
    pub room: Option<RoomM>,
    pub rule: Option<RuleM>,
    pub prose: Seq<(ProseType, ProseM)>,
    pub hooks: Seq<(EventKind, EventHookTag)>,
}

/// Model of the whole world.
#[verifier::ext_equal]
pub ghost struct WorldM {
    pub ents: Seq<EntM>,
    pub pid: int,
    pub clock: nat,
}

/// First-match lookup in a room's exit table.
pub open spec fn assoc_link(links: Seq<(Dir, LinkM)>, dir: Dir) -> Option<LinkM>
    decreases links.len(),
{
    if links.len() == 0 {
        None
    } else if links[0].0 == dir {
        Some(links[0].1)
    } else {
        assoc_link(links.drop_first(), dir)
    }
}

/// First-match lookup among an entity's prose slots.
pub open spec fn assoc_prose(slots: Seq<(ProseType, ProseM)>, kind: ProseType) -> Option<ProseM>
    decreases slots.len(),
{
    if slots.len() == 0 {
        None
    } else if slots[0].0 == kind {
        Some(slots[0].1)
    } else {
        assoc_prose(slots.drop_first(), kind)
    }
}

/// First-match lookup among an entity's event hooks.
pub open spec fn assoc_hook(hooks: Seq<(EventKind, EventHookTag)>, kind: EventKind) -> Option<
    EventHookTag,
>
    decreases hooks.len(),
{
    if hooks.len() == 0 {
        None
    } else if hooks[0].0 == kind {
        Some(hooks[0].1)
    } else {
        assoc_hook(hooks.drop_first(), kind)
    }
}

/// Removes the first occurrence of `e` from `s`, if any.
pub open spec fn remove_val(s: Seq<int>, e: int) -> Seq<int> {
    if s.contains(e) {
        s.remove(s.index_of(e))
    } else {
        s
    }
}

impl WorldM {
    /// The number of entities ever created (limbo included).
    pub open spec fn n(self) -> int {
        self.ents.len() as int
    }

    /// Whether `id` was ever allocated.
    pub open spec fn valid(self, id: int) -> bool {
        0 <= id < self.ents.len()
    }

    pub open spec fn loc_of(self, id: int) -> int {
        self.ents[id].loc
    }

    pub open spec fn contents_of(self, id: int) -> Seq<int> {
        self.ents[id].contents
    }

    pub open spec fn flags_of(self, id: int) -> Seq<Flag> {
        self.ents[id].flags
    }

    pub open spec fn has_flag(self, id: int, f: Flag) -> bool {
        self.flags_of(id).contains(f)
    }

    pub open spec fn is_room(self, id: int) -> bool {
        self.ents[id].room is Some
    }

    pub open spec fn is_rule(self, id: int) -> bool {
        self.ents[id].rule is Some
    }

    pub open spec fn rule_of(self, id: int) -> RuleM {
        self.ents[id].rule->0
    }

    pub open spec fn links_of(self, id: int) -> Seq<(Dir, LinkM)> {
        self.ents[id].room->0.links
    }

    /// Link lookup: `None` means no exit exists in that direction.
    pub open spec fn link_at(self, id: int, dir: Dir) -> Option<LinkM> {
        if self.valid(id) && self.is_room(id) {
            assoc_link(self.links_of(id), dir)
        } else {
            None
        }
    }

    /// Room-to-room link lookup.
    pub open spec fn follow_to(self, id: int, dir: Dir) -> Option<int> {
        match self.link_at(id, dir) {
            Some(LinkM::ToRoom(d)) => Some(d),
            _ => None,
        }
    }

    /// The prose slot of the given kind on the given entity, if any.
    pub open spec fn prose_at(self, id: int, kind: ProseType) -> Option<ProseM> {
        if self.valid(id) {
            assoc_prose(self.ents[id].prose, kind)
        } else {
            None
        }
    }

    /// The event hook registered for the given (entity, event kind) pair.
    pub open spec fn hook_at(self, id: int, kind: EventKind) -> Option<EventHookTag> {
        if self.valid(id) {
            assoc_hook(self.ents[id].hooks, kind)
        } else {
            None
        }
    }

    /// Reverse tag lookup, scanning upward from identity `i`.
    pub open spec fn lookup_from(self, t: Seq<char>, i: int) -> Option<int>
        decreases self.n() - i,
    {
        if i < 0 || i >= self.n() {
            None
        } else if self.ents[i].tag == t {
            Some(i)
        } else {
            self.lookup_from(t, i + 1)
        }
    }

    /// Reverse tag lookup: the earliest entity bearing the tag, if any.
    pub open spec fn spec_lookup_id(self, t: Seq<char>) -> Option<int> {
        self.lookup_from(t, 0)
    }

    /// The container chain starting at `id` reaches limbo within `fuel` steps.
    pub open spec fn chain_reaches(self, id: int, fuel: nat) -> bool
        decreases fuel,
    {
        if id == 0 {
            true
        } else if fuel == 0 {
            false
        } else {
            self.chain_reaches(self.ents[id].loc, (fuel - 1) as nat)
        }
    }

    /// The container chain starting at `id` passes through `target` within
    /// `fuel` steps (`id == target` counts).
    pub open spec fn chain_hits(self, id: int, target: int, fuel: nat) -> bool
        decreases fuel,
    {
        if id == target {
            true
        } else if id == 0 {
            false
        } else if fuel == 0 {
            false
        } else {
            self.chain_hits(self.ents[id].loc, target, (fuel - 1) as nat)
        }
    }

    /// The container chain starting at `id` reaches limbo within `fuel`
    /// steps without ever passing through `avoid`.
    pub open spec fn chain_avoids(self, id: int, avoid: int, fuel: nat) -> bool
        decreases fuel,
    {
        if id == avoid {
            false
        } else if id == 0 {
            true
        } else if fuel == 0 {
            false
        } else {
            self.chain_avoids(self.ents[id].loc, avoid, (fuel - 1) as nat)
        }
    }

    /// Every entity other than limbo sits in a valid container whose
    /// contents list records it.
    pub open spec fn placed_ok(self) -> bool {
        forall|id: int|
            1 <= id < self.n() ==> self.valid(#[trigger] self.loc_of(id)) && self.contents_of(
                self.loc_of(id),
            ).contains(id)
    }

    /// Contents lists hold only valid, non-limbo entities whose recorded
    /// location is that container.
    pub open spec fn contents_ok(self) -> bool {
        forall|c: int, j: int|
            #![trigger self.contents_of(c)[j]]
            self.valid(c) && 0 <= j < self.contents_of(c).len() ==> self.valid(
                self.contents_of(c)[j],
            ) && self.contents_of(c)[j] != 0 && self.loc_of(self.contents_of(c)[j]) == c
    }

    /// No contents list mentions an entity twice.
    pub open spec fn contents_nodup(self) -> bool {
        forall|c: int, j: int, k: int|
            #![trigger self.contents_of(c)[j], self.contents_of(c)[k]]
            self.valid(c) && 0 <= j < k < self.contents_of(c).len() ==> self.contents_of(c)[j]
                != self.contents_of(c)[k]
    }

    /// Flag sets are duplicate-free.
    pub open spec fn flags_nodup(self) -> bool {
        forall|id: int, j: int, k: int|
            #![trigger self.flags_of(id)[j], self.flags_of(id)[k]]
            self.valid(id) && 0 <= j < k < self.flags_of(id).len() ==> self.flags_of(id)[j]
                != self.flags_of(id)[k]
    }

    /// Exit tables never list one direction twice.
    pub open spec fn links_nodup(self) -> bool {
        forall|id: int, j: int, k: int|
            #![trigger self.links_of(id)[j], self.links_of(id)[k]]
            self.valid(id) && self.is_room(id) && 0 <= j < k < self.links_of(id).len()
                ==> self.links_of(id)[j].0 != self.links_of(id)[k].0
    }

    /// Every container chain ends in limbo: the containment relation is a
    /// forest rooted at the reserved "nowhere" container.
    pub open spec fn grounded(self) -> bool {
        forall|id: int|
            #![trigger self.loc_of(id)]
            self.valid(id) ==> exists|fuel: nat| self.chain_reaches(id, fuel)
    }

    /// The world's well-formedness invariant.
    pub open spec fn inv(self) -> bool {
        &&& self.ents.len() >= 1
        &&& self.ents[0].loc == 0
        &&& 0 <= self.pid < self.ents.len()
        &&& self.placed_ok()
        &&& self.contents_ok()
        &&& self.contents_nodup()
        &&& self.flags_nodup()
        &&& self.links_nodup()
        &&& self.grounded()
    }

    /// The world after setting flag `f` on entity `id`: a no-op when the
    /// flag is already present.
    pub open spec fn with_flag(self, id: int, f: Flag) -> WorldM {
        let e = self.ents[id];
        WorldM {
            ents: self.ents.update(
                id,
                EntM {
                    flags: if e.flags.contains(f) {
                        e.flags
                    } else {
                        e.flags.push(f)
                    },
                    ..e
                },
            ),
            ..self
        }
    }

    /// The world after clearing flag `f` on entity `id`: a no-op when the
    /// flag is absent.
    pub open spec fn with_flag_cleared(self, id: int, f: Flag) -> WorldM {
        let e = self.ents[id];
        WorldM {
            ents: self.ents.update(
                id,
                EntM {
                    flags: if e.flags.contains(f) {
                        e.flags.remove(e.flags.index_of(f))
                    } else {
                        e.flags
                    },
                    ..e
                },
            ),
            ..self
        }
    }

    /// The world after taking entity `e` out of its container and placing
    /// it in limbo.
    pub open spec fn take_out_m(self, e: int) -> WorldM {
        let c = self.loc_of(e);
        let m1 = WorldM {
            ents: self.ents.update(
                c,
                EntM { contents: remove_val(self.contents_of(c), e), ..self.ents[c] },
            ),
            ..self
        };
        let m2 = WorldM { ents: m1.ents.update(e, EntM { loc: 0, ..m1.ents[e] }), ..m1 };
        WorldM {
            ents: m2.ents.update(
                0,
                EntM { contents: m2.ents[0].contents.push(e), ..m2.ents[0] },
            ),
            ..m2
        }
    }

    /// The world after moving entity `e` from limbo into container `c`.
    pub open spec fn put_in_m(self, e: int, c: int) -> WorldM {
        let m1 = WorldM {
            ents: self.ents.update(
                0,
                EntM { contents: remove_val(self.contents_of(0), e), ..self.ents[0] },
            ),
            ..self
        };
        let m2 = WorldM { ents: m1.ents.update(e, EntM { loc: c, ..m1.ents[e] }), ..m1 };
        WorldM {
            ents: m2.ents.update(
                c,
                EntM { contents: m2.ents[c].contents.push(e), ..m2.ents[c] },
            ),
            ..m2
        }
    }

    /// The world after creating a fresh entity from `em` (forced into
    /// limbo, with empty contents) under the next identity.
    pub open spec fn with_created(self, em: EntM) -> WorldM {
        let id = self.ents.len() as int;
        let grown = self.ents.push(EntM { loc: 0, contents: Seq::empty(), ..em });
        WorldM {
            ents: grown.update(
                0,
                EntM { contents: grown[0].contents.push(id), ..grown[0] },
            ),
            ..self
        }
    }

    /// The world after adding a link to a room's exit table.
    pub open spec fn with_link(self, from: int, dir: Dir, dest: LinkM) -> WorldM {
        let e = self.ents[from];
        WorldM {
            ents: self.ents.update(
                from,
                EntM { room: Some(RoomM { links: e.room->0.links.push((dir, dest)) }), ..e },
            ),
            ..self
        }
    }

    /// The world after marking rule `id` fired.
    pub open spec fn with_fired(self, id: int) -> WorldM {
        let e = self.ents[id];
        WorldM {
            ents: self.ents.update(
                id,
                EntM { rule: Some(RuleM { fired: true, ..e.rule->0 }), ..e },
            ),
            ..self
        }
    }

    /// The world one turn later.
    pub open spec fn ticked(self) -> WorldM {
        WorldM { clock: self.clock + 1, ..self }
    }
}

/// A tag borne by entity `k` and by none below it is found at `k`.
pub proof fn lemma_lookup_from_hits(m: WorldM, t: Seq<char>, i: int, k: int)
    requires
        0 <= i <= k < m.n(),
        m.ents[k].tag == t,
        forall|j: int| i <= j < k ==> (#[trigger] m.ents[j]).tag != t,
    ensures
        m.lookup_from(t, i) == Some(k),
    decreases k - i,
{
    if i < k {
        lemma_lookup_from_hits(m, t, i + 1, k);
    }
}

/// All recorded locations are in range.
pub open spec fn locs_ok(m: WorldM) -> bool {
    forall|y: int| m.valid(y) ==> 0 <= #[trigger] m.loc_of(y) < m.ents.len()
}

pub proof fn lemma_locs_ok(m: WorldM)
    requires
        m.inv(),
    ensures
        locs_ok(m),
{
    assert forall|y: int| m.valid(y) implies 0 <= m.loc_of(y) < m.ents.len() by {
        if y != 0 {
            assert(m.valid(m.loc_of(y)));
        }
    }
}

/// Two worlds of the same size whose entities agree on their locations.
pub open spec fn same_locs(m1: WorldM, m2: WorldM) -> bool {
    &&& m1.ents.len() == m2.ents.len()
    &&& forall|y: int| m1.valid(y) ==> #[trigger] m2.loc_of(y) == m1.loc_of(y)
}

/// Container chains depend on the locations alone.
pub proof fn lemma_chain_reaches_same_locs(m1: WorldM, m2: WorldM, x: int, fuel: nat)
    requires
        locs_ok(m1),
        same_locs(m1, m2),
        m1.valid(x),
        m1.chain_reaches(x, fuel),
    ensures
        m2.chain_reaches(x, fuel),
    decreases fuel,
{
    if x != 0 {
        let nx = m1.loc_of(x);
        assert(m2.loc_of(x) == nx);
        assert(m1.valid(nx));
        lemma_chain_reaches_same_locs(m1, m2, nx, (fuel - 1) as nat);
    }
}

pub proof fn lemma_chain_hits_same_locs(m1: WorldM, m2: WorldM, x: int, t: int, fuel: nat)
    requires
        locs_ok(m1),
        same_locs(m1, m2),
        m1.valid(x),
        m1.chain_hits(x, t, fuel),
    ensures
        m2.chain_hits(x, t, fuel),
    decreases fuel,
{
    if x != t && x != 0 {
        let nx = m1.loc_of(x);
        assert(m2.loc_of(x) == nx);
        assert(m1.valid(nx));
        lemma_chain_hits_same_locs(m1, m2, nx, t, (fuel - 1) as nat);
    }
}

pub proof fn lemma_chain_avoids_same_locs(m1: WorldM, m2: WorldM, x: int, a: int, fuel: nat)
    requires
        locs_ok(m1),
        same_locs(m1, m2),
        m1.valid(x),
        m1.chain_avoids(x, a, fuel),
    ensures
        m2.chain_avoids(x, a, fuel),
    decreases fuel,
{
    if x != a && x != 0 {
        let nx = m1.loc_of(x);
        assert(m2.loc_of(x) == nx);
        assert(m1.valid(nx));
        lemma_chain_avoids_same_locs(m1, m2, nx, a, (fuel - 1) as nat);
    }
}

pub proof fn lemma_grounded_same_locs(m1: WorldM, m2: WorldM)
    requires
        locs_ok(m1),
        m1.grounded(),
        same_locs(m1, m2),
    ensures
        m2.grounded(),
{
    assert forall|id: int| m2.valid(id) implies exists|fuel: nat| m2.chain_reaches(id, fuel) by {
        let l = m1.loc_of(id);
        let fu = choose|fu: nat| m1.chain_reaches(id, fu);
        lemma_chain_reaches_same_locs(m1, m2, id, fu);
    }
}

/// Two worlds that agree on everything the containment invariant reads,
/// except possibly the flag sets.
pub open spec fn same_shape(m1: WorldM, m2: WorldM) -> bool {
    &&& m1.ents.len() == m2.ents.len()
    &&& forall|y: int| m1.valid(y) ==> #[trigger] m2.loc_of(y) == m1.loc_of(y)
    &&& forall|y: int| m1.valid(y) ==> #[trigger] m2.contents_of(y) == m1.contents_of(y)
}

/// Exit tables unchanged entity by entity keep their keys duplicate-free.
pub proof fn lemma_links_nodup_same_rooms(m1: WorldM, m2: WorldM)
    requires
        m1.inv(),
        m1.ents.len() == m2.ents.len(),
        forall|y: int| m1.valid(y) ==> (#[trigger] m2.ents[y]).room == m1.ents[y].room,
    ensures
        m2.links_nodup(),
{
    assert forall|id: int, j: int, k: int|
        m2.valid(id) && m2.is_room(id) && 0 <= j < k < m2.links_of(id).len() implies #[trigger] m2.links_of(
        id,
    )[j].0 != #[trigger] m2.links_of(id)[k].0 by {
        assert(m2.ents[id].room == m1.ents[id].room);
        assert(m2.links_of(id) == m1.links_of(id));
        assert(m1.links_of(id)[j] == m2.links_of(id)[j]);
        assert(m1.links_of(id)[k] == m2.links_of(id)[k]);
    }
}

pub proof fn lemma_inv_same_shape(m1: WorldM, m2: WorldM)
    requires
        m1.inv(),
        same_shape(m1, m2),
        0 <= m2.pid < m2.ents.len(),
        m2.flags_nodup(),
        m2.links_nodup(),
    ensures
        m2.inv(),
{
    lemma_locs_ok(m1);
    assert(m2.loc_of(0) == m1.loc_of(0));
    assert(m2.ents[0].loc == 0);
    assert(m2.placed_ok()) by {
        assert forall|id: int| 1 <= id < m2.n() implies m2.valid(#[trigger] m2.loc_of(id))
            && m2.contents_of(m2.loc_of(id)).contains(id) by {
            assert(m2.loc_of(id) == m1.loc_of(id));
            assert(m1.valid(m1.loc_of(id)));
            assert(m2.contents_of(m1.loc_of(id)) == m1.contents_of(m1.loc_of(id)));
        }
    }
    assert(m2.contents_ok()) by {
        assert forall|c: int, j: int|
            m2.valid(c) && 0 <= j < m2.contents_of(c).len() implies {
            &&& m2.valid(#[trigger] m2.contents_of(c)[j])
            &&& m2.contents_of(c)[j] != 0
            &&& m2.loc_of(m2.contents_of(c)[j]) == c
        } by {
            assert(m2.contents_of(c) == m1.contents_of(c));
            let e = m1.contents_of(c)[j];
            assert(m1.valid(e) && e != 0 && m1.loc_of(e) == c);
            assert(m2.loc_of(e) == m1.loc_of(e));
        }
    }
    assert(m2.contents_nodup()) by {
        assert forall|c: int, j: int, k: int|
            m2.valid(c) && 0 <= j < k < m2.contents_of(c).len() implies #[trigger] m2.contents_of(
            c,
        )[j] != #[trigger] m2.contents_of(c)[k] by {
            assert(m2.contents_of(c) == m1.contents_of(c));
        }
    }
    assert(m2.grounded()) by {
        lemma_grounded_same_locs(m1, m2);
    }
}

/// Facts about removing the first occurrence of a flag from a
/// duplicate-free flag sequence.
pub proof fn lemma_remove_flag_facts(s: Seq<Flag>, f: Flag)
    requires
        s.contains(f),
        forall|j: int, k: int| #![trigger s[j], s[k]] 0 <= j < k < s.len() ==> s[j] != s[k],
    ensures
        s.remove(s.index_of(f)).len() == s.len() - 1,
        forall|g: Flag| #[trigger] s.remove(s.index_of(f)).contains(g) <==> (s.contains(g) && g != f),
        forall|j: int, k: int|
            #![trigger s.remove(s.index_of(f))[j], s.remove(s.index_of(f))[k]]
            0 <= j < k < s.remove(s.index_of(f)).len() ==> s.remove(s.index_of(f))[j]
                != s.remove(s.index_of(f))[k],
{
    let i = s.index_of(f);
    assert(0 <= i < s.len() && s[i] == f);
    let r = s.remove(i);
    s.remove_ensures(i);
    assert forall|g: Flag| #[trigger] r.contains(g) implies (s.contains(g) && g != f) by {
        let j = choose|j: int| 0 <= j < r.len() && r[j] == g;
        if j < i {
            assert(s[j] == g);
            if g == f {
                assert(s[j] == s[i]);
            }
        } else {
            assert(s[j + 1] == g);
            if g == f {
                assert(s[j + 1] == s[i]);
            }
        }
    }
    assert forall|g: Flag| s.contains(g) && g != f implies #[trigger] r.contains(g) by {
        let j = choose|j: int| 0 <= j < s.len() && s[j] == g;
        if j < i {
            assert(r[j] == g);
        } else {
            assert(j != i);
            assert(r[j - 1] == g);
        }
    }
    assert forall|j: int, k: int| #![trigger r[j], r[k]] 0 <= j < k < r.len() implies r[j] != r[k] by {
        if k < i {
        } else if j < i {
            assert(r[j] == s[j] && r[k] == s[k + 1]);
        } else {
            assert(r[j] == s[j + 1] && r[k] == s[k + 1]);
        }
    }
}

/// Full description of setting a flag, including preservation of the
/// invariant and of everything else in the world.
pub proof fn lemma_with_flag_facts(m: WorldM, id: int, f: Flag)
    requires
        m.inv(),
        m.valid(id),
    ensures
        m.with_flag(id, f).inv(),
        m.with_flag(id, f).ents.len() == m.ents.len(),
        m.with_flag(id, f).pid == m.pid,
        m.with_flag(id, f).clock == m.clock,
        forall|x: int, g: Flag|
            m.valid(x) ==> ((#[trigger] m.with_flag(id, f).has_flag(x, g)) <==> (m.has_flag(x, g)
                || (x == id && g == f))),
        forall|x: int|
            m.valid(x) && x != id ==> (#[trigger] m.with_flag(id, f).ents[x]) == m.ents[x],
        m.with_flag(id, f).ents[id] == (EntM { flags: m.with_flag(id, f).ents[id].flags, ..m.ents[id] }),
        m.has_flag(id, f) ==> m.with_flag(id, f) =~= m,
    {
    let m2 = m.with_flag(id, f);
    assert(same_shape(m, m2));
    assert forall|y: int| m.valid(y) implies (#[trigger] m2.ents[y]).room == m.ents[y].room by {}
    lemma_links_nodup_same_rooms(m, m2);
    assert(m2.flags_nodup()) by {
        assert forall|x: int, j: int, k: int|
            m2.valid(x) && 0 <= j < k < m2.flags_of(x).len() implies #[trigger] m2.flags_of(x)[j]
            != #[trigger] m2.flags_of(x)[k] by {
            if x == id && !m.flags_of(id).contains(f) {
                let s = m.flags_of(id);
                assert(m2.flags_of(id) == s.push(f));
                if k == s.len() {
                    assert(m2.flags_of(x)[k] == f);
                    assert(m2.flags_of(x)[j] == s[j]);
                    assert(!s.contains(f));
                    assert(s[j] != f);
                } else {
                    assert(m2.flags_of(x)[j] == s[j] && m2.flags_of(x)[k] == s[k]);
                }
            } else {
                assert(m2.flags_of(x) == m.flags_of(x));
            }
        }
    }
    lemma_inv_same_shape(m, m2);
    assert forall|x: int, g: Flag| m.valid(x) implies ((#[trigger] m2.has_flag(x, g)) <==> (
    m.has_flag(x, g) || (x == id && g == f))) by {
        if x == id {
            let s = m.flags_of(id);
            assert(m.has_flag(id, g) == s.contains(g));
            if s.contains(f) {
                assert(m2.flags_of(x) == s);
            } else {
                assert(m2.flags_of(x) == s.push(f));
                if s.push(f).contains(g) {
                    let j = choose|j: int| 0 <= j < s.push(f).len() && s.push(f)[j] == g;
                    if j == s.len() {
                        assert(g == f);
                    } else {
                        assert(s[j] == g);
                        assert(s.contains(g));
                    }
                }
                if s.contains(g) {
                    let j = choose|j: int| 0 <= j < s.len() && s[j] == g;
                    assert(s.push(f)[j] == g);
                    assert(s.push(f).contains(g));
                }
                if g == f {
                    assert(s.push(f)[s.len() as int] == f);
                    assert(s.push(f).contains(f));
                }
            }
        } else {
            assert(m2.flags_of(x) == m.flags_of(x));
        }
    }
    if m.has_flag(id, f) {
        assert(m2.ents =~= m.ents);
        assert(m2 =~= m);
    }
}

/// Full description of clearing a flag.
pub proof fn lemma_with_flag_cleared_facts(m: WorldM, id: int, f: Flag)
    requires
        m.inv(),
        m.valid(id),
    ensures
        m.with_flag_cleared(id, f).inv(),
        m.with_flag_cleared(id, f).ents.len() == m.ents.len(),
        m.with_flag_cleared(id, f).pid == m.pid,
        m.with_flag_cleared(id, f).clock == m.clock,
        forall|x: int, g: Flag|
            m.valid(x) ==> ((#[trigger] m.with_flag_cleared(id, f).has_flag(x, g)) <==> (
            m.has_flag(x, g) && !(x == id && g == f))),
        forall|x: int|
            m.valid(x) && x != id ==> (#[trigger] m.with_flag_cleared(id, f).ents[x]) == m.ents[x],
        m.with_flag_cleared(id, f).ents[id] == (EntM {
            flags: m.with_flag_cleared(id, f).ents[id].flags,
            ..m.ents[id]
        }),
        !m.has_flag(id, f) ==> m.with_flag_cleared(id, f) =~= m,
    {
    let m2 = m.with_flag_cleared(id, f);
    let s = m.flags_of(id);
    if s.contains(f) {
        assert forall|j: int, k: int| #![trigger s[j], s[k]] 0 <= j < k < s.len() implies s[j] != s[k] by {
            assert(m.flags_of(id)[j] != m.flags_of(id)[k]);
        }
        lemma_remove_flag_facts(s, f);
    }
    assert(same_shape(m, m2));
    assert forall|y: int| m.valid(y) implies (#[trigger] m2.ents[y]).room == m.ents[y].room by {}
    lemma_links_nodup_same_rooms(m, m2);
    assert(m2.flags_nodup()) by {
        assert forall|x: int, j: int, k: int|
            m2.valid(x) && 0 <= j < k < m2.flags_of(x).len() implies #[trigger] m2.flags_of(x)[j]
            != #[trigger] m2.flags_of(x)[k] by {
            if x == id && s.contains(f) {
                assert(m2.flags_of(x) == s.remove(s.index_of(f)));
            } else {
                assert(m2.flags_of(x) == m.flags_of(x));
            }
        }
    }
    lemma_inv_same_shape(m, m2);
    assert forall|x: int, g: Flag| m.valid(x) implies ((#[trigger] m2.has_flag(x, g)) <==> (
    m.has_flag(x, g) && !(x == id && g == f))) by {
        if x == id {
            if s.contains(f) {
                assert(m2.flags_of(x) == s.remove(s.index_of(f)));
            } else {
                assert(m2.flags_of(x) == s);
            }
        } else {
            assert(m2.flags_of(x) == m.flags_of(x));
        }
    }
    if !m.has_flag(id, f) {
        assert(m2.ents =~= m.ents);
        assert(m2 =~= m);
    }
}

/// Flag idempotence: setting a flag that an entity already carries, or
/// clearing one it does not, leaves the whole world unchanged; and after a
/// set the flag is present, after a clear it is absent.
pub proof fn lemma_flag_idempotence(m: WorldM, id: int, f: Flag)
    requires
        m.inv(),
        m.valid(id),
    ensures
        m.has_flag(id, f) ==> m.with_flag(id, f) =~= m,
        !m.has_flag(id, f) ==> m.with_flag_cleared(id, f) =~= m,
        m.with_flag(id, f).has_flag(id, f),
        !m.with_flag_cleared(id, f).has_flag(id, f),
{
    lemma_with_flag_facts(m, id, f);
    lemma_with_flag_cleared_facts(m, id, f);
}

/// A world that differs only in the clock, or only in a still-valid pid,
/// keeps the invariant.
pub proof fn lemma_inv_same_ents(m1: WorldM, m2: WorldM)
    requires
        m1.inv(),
        m2.ents == m1.ents,
        0 <= m2.pid < m2.ents.len(),
    ensures
        m2.inv(),
{
    assert(same_shape(m1, m2));
    assert(m2.flags_nodup()) by {
        assert forall|x: int, j: int, k: int|
            m2.valid(x) && 0 <= j < k < m2.flags_of(x).len() implies #[trigger] m2.flags_of(x)[j]
            != #[trigger] m2.flags_of(x)[k] by {
            assert(m2.flags_of(x) == m1.flags_of(x));
        }
    }
    assert forall|y: int| m1.valid(y) implies (#[trigger] m2.ents[y]).room == m1.ents[y].room by {}
    lemma_links_nodup_same_rooms(m1, m2);
    lemma_inv_same_shape(m1, m2);
}

/// Chains of existing entities survive growing the world, as long as no
/// existing location changes.
pub proof fn lemma_chain_reaches_grow(m1: WorldM, m2: WorldM, x: int, fuel: nat)
    requires
        locs_ok(m1),
        m1.valid(x),
        m2.ents.len() >= m1.ents.len(),
        forall|y: int| m1.valid(y) ==> #[trigger] m2.loc_of(y) == m1.loc_of(y),
        m1.chain_reaches(x, fuel),
    ensures
        m2.chain_reaches(x, fuel),
    decreases fuel,
{
    if x != 0 {
        let nx = m1.loc_of(x);
        assert(m2.loc_of(x) == nx);
        assert(m1.valid(nx));
        lemma_chain_reaches_grow(m1, m2, nx, (fuel - 1) as nat);
    }
}

} // verus!
