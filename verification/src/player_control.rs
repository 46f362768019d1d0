//! The player control system: one command per call, as a line of
//! whitespace-separated tokens already split by the driver.  Commands
//! query and mutate the world through its public operations and hand back
//! the text to show; quitting is a distinguished reply that the driver's
//! loop recognizes, never a process exit.

use vstd::prelude::*;
use vstd::string::StringExecFns;
use crate::types::{Dir, Event, Flag, ID, ProseType, EventKind};
use crate::model::{LinkM, WorldM};
use crate::world::World;
use crate::prose::{spec_resolve, spec_run_hook, resolve};
use crate::containment::{lemma_sibling_avoids, lemma_ancestor_avoids, lemma_avoids_agree,
    lemma_cycle_no_reach, agree_except};
use crate::types::LinkDest;

verus! {

/// How much of a location to describe.
#[derive(PartialEq, Eq, Structural, Clone, Copy, Debug)]
pub enum Detail {
    Full,
    Brief,
}

/// What one command call hands back: text to print, or the request to end
/// the session, with a parting line.
pub enum Reply {
    Text(String),
    Quit(String),
}

/// The command result: the text of a successful command, or a short,
/// user-facing error; the turn goes on either way.
pub type CmdResult = Result<String, String>;

/// First name match in a contents list.
pub open spec fn find_in_list(m: WorldM, s: Seq<int>, name: Seq<char>) -> Option<int>
    decreases s.len(),
{
    if s.len() == 0 {
        None
    } else if m.ents[s[0]].name == name {
        Some(s[0])
    } else {
        find_in_list(m, s.drop_first(), name)
    }
}

/// First name match in a container's contents.
pub open spec fn spec_find_in_inventory(m: WorldM, loc: int, name: Seq<char>) -> Option<int> {
    if m.valid(loc) {
        find_in_list(m, m.contents_of(loc), name)
    } else {
        None
    }
}

/// First scenery entity of the given name in the given place, scanning
/// identities upward from `i`.
pub open spec fn scenery_from(m: WorldM, loc: int, name: Seq<char>, i: int) -> Option<int>
    decreases m.n() - i,
{
    if i < 1 || i >= m.n() {
        None
    } else if m.has_flag(i, Flag::Scenery) && m.loc_of(i) == loc && m.ents[i].name == name {
        Some(i)
    } else {
        scenery_from(m, loc, name, i + 1)
    }
}

/// First scenery entity of the given name in the given place.
pub open spec fn spec_find_in_scenery(m: WorldM, loc: int, name: Seq<char>) -> Option<int> {
    scenery_from(m, loc, name, 1)
}

/// The player's location.
pub open spec fn spec_here(m: WorldM) -> int {
    m.loc_of(m.pid)
}

/// Visibility-scoped name resolution: carried items first, then the
/// room's contents, then the room's scenery, in that fixed priority
/// order.
pub open spec fn spec_find_visible(m: WorldM, name: Seq<char>) -> Option<int> {
    match spec_find_in_inventory(m, m.pid, name) {
        Some(id) => Some(id),
        None => match spec_find_in_inventory(m, spec_here(m), name) {
            Some(id) => Some(id),
            None => spec_find_in_scenery(m, spec_here(m), name),
        },
    }
}

/// Visibility priority: when an item of a given name is carried, name
/// resolution scoped to visible things returns the carried item, whatever
/// else of that name stands in the room or its scenery.
pub proof fn lemma_visibility_priority(m: WorldM, name: Seq<char>)
    requires
        spec_find_in_inventory(m, m.pid, name) is Some,
    ensures
        spec_find_visible(m, name) == spec_find_in_inventory(m, m.pid, name),
{
}

impl World {
    /// The player's location.
    pub fn here(&self) -> (r: ID)
        requires
            self.wf(),
        ensures
            r as int == spec_here(self@),
    {
        let pid = self.player_id();
        self.loc(pid)
    }

    /// First name match in a container's contents.
    pub fn find_in_inventory(&self, loc: ID, name: &str) -> (r: Option<ID>)
        requires
            self.wf(),
        ensures
            match r {
                Some(id) => spec_find_in_inventory(self@, loc as int, name@) == Some(id as int)
                    && self@.valid(id as int),
                None => spec_find_in_inventory(self@, loc as int, name@) is None,
            },
    {
        if loc >= self.num_entities() {
            return None;
        }
        let needle = String::from_str(name);
        let inv = self.contents(loc);
        let ghost cm = self@.contents_of(loc as int);
        proof {
            assert(cm.skip(0) =~= cm);
        }
        let n = inv.len();
        let mut i: usize = 0;
        while i < n
            invariant
                i <= n,
                n == inv@.len(),
                needle@ == name@,
                self.wf(),
                self@.valid(loc as int),
                inv@.map_values(|x: ID| x as int) == cm,
                cm == self@.contents_of(loc as int),
                find_in_list(self@, cm.skip(i as int), name@) == find_in_list(self@, cm, name@),
            decreases n - i,
        {
            let id = inv[i];
            proof {
                assert(cm.skip(i as int)[0] == cm[i as int]);
                assert(cm[i as int] == id as int);
                assert(self@.valid(id as int) && id as int != 0);
            }
            if (*self.name(id)).eq(&needle) {
                return Some(id);
            }
            proof {
                assert(cm.skip(i as int).drop_first() =~= cm.skip(i as int + 1));
            }
            i = i + 1;
        }
        proof {
            assert(cm.skip(n as int) =~= Seq::<int>::empty());
        }
        None
    }

    /// First scenery entity of the given name in the given place.
    pub fn find_in_scenery(&self, loc: ID, name: &str) -> (r: Option<ID>)
        requires
            self.wf(),
        ensures
            match r {
                Some(id) => spec_find_in_scenery(self@, loc as int, name@) == Some(id as int)
                    && self@.valid(id as int),
                None => spec_find_in_scenery(self@, loc as int, name@) is None,
            },
    {
        let needle = String::from_str(name);
        let n = self.num_entities();
        let mut i: usize = 1;
        while i < n
            invariant
                1 <= i <= n,
                n == self@.ents.len(),
                needle@ == name@,
                self.wf(),
                scenery_from(self@, loc as int, name@, i as int) == scenery_from(
                    self@,
                    loc as int,
                    name@,
                    1,
                ),
            decreases n - i,
        {
            if self.is_scenery(i) && self.loc(i) == loc && (*self.name(i)).eq(&needle) {
                return Some(i);
            }
            i = i + 1;
        }
        None
    }

    /// Finds a visible thing: something carried, here, or scenery here.
    pub fn find_visible_thing(&self, name: &str) -> (r: Option<ID>)
        requires
            self.wf(),
        ensures
            match r {
                Some(id) => spec_find_visible(self@, name@) == Some(id as int) && self@.valid(
                    id as int,
                ),
                None => spec_find_visible(self@, name@) is None,
            },
    {
        let pid = self.player_id();
        let loc = self.here();
        match self.find_in_inventory(pid, name) {
            Some(id) => Some(id),
            None => match self.find_in_inventory(loc, name) {
                Some(id) => Some(id),
                None => self.find_in_scenery(loc, name),
            },
        }
    }
}

/// The names of the first `i` listed entities, comma-separated.
pub open spec fn join_upto(m: WorldM, ids: Seq<int>, i: int) -> Seq<char>
    decreases i,
{
    if i <= 0 {
        Seq::empty()
    } else if i == 1 {
        m.ents[ids[0]].name
    } else {
        join_upto(m, ids, i - 1) + ", "@ + m.ents[ids[i - 1]].name
    }
}

/// The names of the listed entities, comma-separated.
pub open spec fn spec_invent_list(m: WorldM, ids: Seq<int>) -> Seq<char> {
    join_upto(m, ids, ids.len() as int)
}

/// Lists the names of the given entities, separated by commas.
pub fn invent_list(world: &World, inventory: &Vec<ID>) -> (r: String)
    requires
        world.wf(),
        forall|j: int| 0 <= j < inventory@.len() ==> world@.valid(#[trigger] inventory@[j] as int),
    ensures
        r@ == spec_invent_list(world@, inventory@.map_values(|x: ID| x as int)),
{
    let ghost ids = inventory@.map_values(|x: ID| x as int);
    let mut list = String::new();
    let n = inventory.len();
    let mut i: usize = 0;
    while i < n
        invariant
            i <= n,
            n == inventory@.len(),
            world.wf(),
            ids == inventory@.map_values(|x: ID| x as int),
            forall|j: int| 0 <= j < inventory@.len() ==> world@.valid(
                #[trigger] inventory@[j] as int,
            ),
            list@ == join_upto(world@, ids, i as int),
        decreases n - i,
    {
        if i > 0 {
            list.append(", ");
        }
        list.append(world.name(inventory[i]).as_str());
        i = i + 1;
    }
    list
}

/// Whether an entity is listed when a room is described: a thing that is
/// neither scenery nor the player.
pub open spec fn listable(m: WorldM, x: int) -> bool {
    m.ents[x].is_thing && !m.has_flag(x, Flag::Scenery) && x != m.pid
}

/// The identities listed when a container is described.
pub open spec fn spec_listed(m: WorldM, c: int) -> Seq<int> {
    m.contents_of(c).filter(|x: int| listable(m, x))
}

/// What a location description says: the room's display name; its
/// interior prose when the detail is full; and the names of the listed
/// things present, if any.
pub open spec fn spec_describe(m: WorldM, room: int, detail: Detail) -> Seq<char> {
    let name = m.ents[room].name;
    let prose = match spec_resolve(m, room, ProseType::Room) {
        Some(p) => p,
        None => Seq::empty(),
    };
    let head = if detail == Detail::Full {
        name + "\n"@ + prose
    } else {
        name
    };
    let listed = spec_listed(m, room);
    if listed.len() == 0 {
        head
    } else {
        head + "\nYou see: "@ + spec_invent_list(m, listed) + "."@
    }
}

/// Describes a location: its name, its interior prose at full detail, and
/// the listed things present.
pub fn describe_location(world: &World, room: ID, detail: Detail) -> (r: String)
    requires
        world.wf(),
        world@.valid(room as int),
    ensures
        r@ == spec_describe(world@, room as int, detail),
{
    let mut text = world.name(room).clone();
    if detail == Detail::Full {
        text.append("\n");
        match resolve(world, room, ProseType::Room) {
            Some(p) => {
                text.append(p.as_str());
            },
            None => {},
        }
    }
    let ghost cm = world@.contents_of(room as int);
    let contents = world.contents(room);
    let pid = world.player_id();
    let mut listed: Vec<ID> = Vec::new();
    let n = contents.len();
    let mut i: usize = 0;
    proof {
        assert(cm.take(0) =~= Seq::<int>::empty());
        assert(cm.take(0).filter(|x: int| listable(world@, x)) =~= Seq::<int>::empty());
    }
    while i < n
        invariant
            i <= n,
            n == contents@.len(),
            world.wf(),
            world@.valid(room as int),
            pid as int == world@.pid,
            contents@.map_values(|x: ID| x as int) == cm,
            cm == world@.contents_of(room as int),
            listed@.map_values(|x: ID| x as int) =~= cm.take(i as int).filter(
                |x: int| listable(world@, x),
            ),
            forall|j: int| 0 <= j < listed@.len() ==> world@.valid(#[trigger] listed@[j] as int),
        decreases n - i,
    {
        let id = contents[i];
        proof {
            assert(cm[i as int] == id as int);
            assert(world@.valid(id as int) && id as int != 0);
            assert(cm.take(i as int + 1).drop_last() =~= cm.take(i as int));
            assert(cm.take(i as int + 1).last() == cm[i as int]);
            cm.take(i as int + 1).drop_last().lemma_filter_push(
                cm[i as int],
                |x: int| listable(world@, x),
            );
            assert(cm.take(i as int + 1).drop_last().push(cm[i as int]) =~= cm.take(i as int + 1));
        }
        if world.is_thing(id) && !world.is_scenery(id) && id != pid {
            listed.push(id);
        }
        i = i + 1;
    }
    proof {
        assert(cm.take(n as int) =~= cm);
    }
    if listed.len() > 0 {
        text.append("\nYou see: ");
        let names = invent_list(world, &listed);
        text.append(names.as_str());
        text.append(".");
    }
    proof {
        assert(text@ =~= spec_describe(world@, room as int, detail));
    }
    text
}

/// Digits, and the number a digit string denotes.
pub open spec fn is_digit(c: char) -> bool {
    48 <= c as u32 <= 57
}

pub open spec fn digit(c: char) -> int {
    c as u32 - 48
}

pub open spec fn digits_ok(s: Seq<char>) -> bool {
    s.len() > 0 && forall|i: int| 0 <= i < s.len() ==> is_digit(#[trigger] s[i])
}

pub open spec fn str_val(s: Seq<char>) -> int
    decreases s.len(),
{
    if s.len() == 0 {
        0
    } else {
        str_val(s.drop_last()) * 10 + digit(s.last())
    }
}

proof fn lemma_str_val_nonneg(s: Seq<char>)
    requires
        forall|i: int| 0 <= i < s.len() ==> is_digit(#[trigger] s[i]),
    ensures
        str_val(s) >= 0,
    decreases s.len(),
{
    if s.len() > 0 {
        lemma_str_val_nonneg(s.drop_last());
    }
}

proof fn lemma_str_val_mono(s: Seq<char>, k: int)
    requires
        forall|i: int| 0 <= i < s.len() ==> is_digit(#[trigger] s[i]),
        0 <= k <= s.len(),
    ensures
        str_val(s) >= str_val(s.take(k)),
    decreases s.len(),
{
    lemma_str_val_nonneg(s);
    if s.len() > k {
        assert(s.drop_last().take(k) =~= s.take(k));
        lemma_str_val_mono(s.drop_last(), k);
        lemma_str_val_nonneg(s.drop_last());
    } else {
        assert(s.take(k) =~= s);
    }
}

/// Parses a token as an entity identity; the identity must have been
/// allocated.
pub fn parse_id(world: &World, token: &str) -> (r: Result<ID, String>)
    ensures
        match r {
            Ok(id) => digits_ok(token@) && str_val(token@) == id as int && (id as int)
                < world@.n(),
            Err(msg) => ((msg@ == "Not an ID: "@ + token@) && (!digits_ok(token@) || str_val(
                token@,
            ) > usize::MAX as int)) || ((msg@ == "Out of range: "@ + token@) && digits_ok(token@)
                && str_val(token@) <= usize::MAX as int && str_val(token@) >= world@.n()),
        },
{
    let len = token.unicode_len();
    if len == 0 {
        return Err(String::from_str("Not an ID: ").concat(token));
    }
    let mut val: usize = 0;
    let mut i: usize = 0;
    while i < len
        invariant
            i <= len,
            len == token@.len(),
            forall|j: int| 0 <= j < i ==> is_digit(#[trigger] token@[j]),
            val as int == str_val(token@.take(i as int)),
        decreases len - i,
    {
        let c = token.get_char(i);
        let cu = c as u32;
        if cu < 48 || cu > 57 {
            return Err(String::from_str("Not an ID: ").concat(token));
        }
        let d = (cu - 48) as usize;
        proof {
            assert(token@.take(i as int + 1).drop_last() =~= token@.take(i as int));
            assert(token@.take(i as int + 1).last() == token@[i as int]);
        }
        if val > (usize::MAX - d) / 10 {
            proof {
                if digits_ok(token@) {
                    lemma_str_val_mono(token@, i as int + 1);
                    assert(str_val(token@.take(i as int + 1)) == str_val(token@.take(i as int))
                        * 10 + digit(token@[i as int]));
                }
            }
            return Err(String::from_str("Not an ID: ").concat(token));
        }
        val = val * 10 + d;
        i = i + 1;
    }
    proof {
        assert(token@.take(len as int) =~= token@);
    }
    if val < world.num_entities() {
        Ok(val)
    } else {
        Err(String::from_str("Out of range: ").concat(token))
    }
}

/// The internal tags of the first `i` entities, one per line.
pub open spec fn dump_upto(m: WorldM, i: int) -> Seq<char>
    decreases i,
{
    if i <= 0 {
        Seq::empty()
    } else {
        dump_upto(m, i - 1) + m.ents[i - 1].tag + "\n"@
    }
}

/// One entity's dump line: its tag and display name.
pub open spec fn spec_dump_line(m: WorldM, id: int) -> Seq<char> {
    m.ents[id].tag + " ("@ + m.ents[id].name + ")"@
}

/// The effect of a command: the world it leaves and its textual result.
#[verifier::ext_equal]
pub ghost struct CmdEff {
    pub w: WorldM,
    pub res: Result<Seq<char>, Seq<char>>,
}

/// Whether an executable command result shows the specified text.
pub open spec fn res_matches(r: Result<String, String>, s: Result<Seq<char>, Seq<char>>) -> bool {
    match (r, s) {
        (Result::Ok(a), Result::Ok(b)) => a@ == b,
        (Result::Err(a), Result::Err(b)) => a@ == b,
        _ => false,
    }
}

/// Moving the player in a direction: a dead end shows its prose; a room
/// link moves the player (when the destination exists and sits on no
/// chain through the player), describes the destination — briefly when
/// already seen — and records it as seen.
pub open spec fn spec_cmd_go(m: WorldM, dir: Dir) -> CmdEff {
    let here = spec_here(m);
    match m.link_at(here, dir) {
        Some(LinkM::DeadEnd(s)) => CmdEff { w: m, res: Ok(s) },
        Some(LinkM::ToRoom(d)) => {
            if m.valid(d) && d != m.pid && m.chain_avoids(d, m.pid, m.ents.len() as nat) {
                let seen = m.has_flag(m.pid, Flag::Seen(d as usize));
                let m2 = m.take_out_m(m.pid).put_in_m(m.pid, d);
                let text = spec_describe(
                    m2,
                    d,
                    if seen {
                        Detail::Brief
                    } else {
                        Detail::Full
                    },
                );
                CmdEff { w: m2.with_flag(m.pid, Flag::Seen(d as usize)), res: Ok(text) }
            } else {
                CmdEff { w: m, res: Err("You can't go that way."@) }
            }
        },
        None => CmdEff { w: m, res: Err("You can't go that way."@) },
    }
}

/// Moves the player in the given direction.
pub fn cmd_go(world: &mut World, dir: Dir) -> (r: CmdResult)
    requires
        old(world).wf(),
        old(world)@.pid != 0,
    ensures
        final(world).wf(),
        final(world)@ == spec_cmd_go(old(world)@, dir).w,
        res_matches(r, spec_cmd_go(old(world)@, dir).res),
{
    let ghost m0 = world@;
    let pid = world.player_id();
    let here = world.here();
    let dest: ID = match world.follow_link(here, dir) {
        None => {
            return Err(String::from_str("You can't go that way."));
        },
        Some(LinkDest::DeadEnd(s)) => {
            return Ok(s.clone());
        },
        Some(LinkDest::Room(d)) => *d,
    };
    let n = world.num_entities();
    let enabled = dest < n && dest != pid;
    let enabled2 = if enabled {
        world.chain_avoids_check(dest, pid, n)
    } else {
        false
    };
    if !enabled2 {
        return Err(String::from_str("You can't go that way."));
    }
    let seen = world.has_flag(pid, Flag::Seen(dest));
    world.take_out(pid, here);
    proof {
        crate::model::lemma_locs_ok(m0);
        assert(agree_except(m0, world@, pid as int));
        lemma_avoids_agree(m0, world@, dest as int, pid as int, n as nat);
    }
    world.put_in(pid, dest);
    let text = describe_location(
        world,
        dest,
        if seen {
            Detail::Brief
        } else {
            Detail::Full
        },
    );
    world.set_flag(pid, Flag::Seen(dest));
    Ok(text)
}

/// Re-describing the current location, always at full detail.
pub open spec fn spec_cmd_look(m: WorldM) -> Seq<char> {
    spec_describe(m, spec_here(m), Detail::Full)
}

/// Re-describes the current location.
pub fn cmd_look(world: &World) -> (r: CmdResult)
    requires
        world.wf(),
    ensures
        res_matches(r, Ok(spec_cmd_look(world@))),
{
    let here = world.here();
    Ok(describe_location(world, here, Detail::Full))
}

/// The inventory listing.
pub open spec fn spec_cmd_inventory(m: WorldM) -> Seq<char> {
    if m.contents_of(m.pid).len() == 0 {
        "You aren't carrying anything."@
    } else {
        "You have: "@ + spec_invent_list(m, m.contents_of(m.pid)) + "."@
    }
}

/// Lists what the player is carrying.
pub fn cmd_inventory(world: &World) -> (r: CmdResult)
    requires
        world.wf(),
    ensures
        res_matches(r, Ok(spec_cmd_inventory(world@))),
{
    let pid = world.player_id();
    let inv = world.contents(pid);
    if inv.len() == 0 {
        proof {
            assert(world@.contents_of(world@.pid).len() == 0);
        }
        Ok(String::from_str("You aren't carrying anything."))
    } else {
        let mut text = String::from_str("You have: ");
        proof {
            assert forall|j: int| 0 <= j < inv@.len() implies world@.valid(
                #[trigger] inv@[j] as int,
            ) by {
                assert(world@.contents_of(world@.pid)[j] == inv@[j] as int);
            }
        }
        let names = invent_list(world, inv);
        text.append(names.as_str());
        text.append(".");
        Ok(text)
    }
}

/// Examining a visible thing shows its appearance prose, or nothing when
/// it has none.
pub open spec fn spec_cmd_examine(m: WorldM, name: Seq<char>) -> Result<Seq<char>, Seq<char>> {
    match spec_find_visible(m, name) {
        Some(id) => Ok(
            match spec_resolve(m, id, ProseType::Thing) {
                Some(p) => p,
                None => Seq::empty(),
            },
        ),
        None => Err("You don't see any such thing."@),
    }
}

/// Describes a visible thing.
pub fn cmd_examine(world: &World, name: &str) -> (r: CmdResult)
    requires
        world.wf(),
    ensures
        res_matches(r, spec_cmd_examine(world@, name@)),
{
    match world.find_visible_thing(name) {
        Some(id) => match resolve(world, id, ProseType::Thing) {
            Some(p) => Ok(p),
            None => Ok(String::new()),
        },
        None => Err(String::from_str("You don't see any such thing.")),
    }
}

/// Examining oneself shows the player's appearance prose.
pub open spec fn spec_cmd_examine_self(m: WorldM) -> Seq<char> {
    match spec_resolve(m, m.pid, ProseType::Thing) {
        Some(p) => p,
        None => Seq::empty(),
    }
}

/// Describes the player.
pub fn cmd_examine_self(world: &World) -> (r: CmdResult)
    requires
        world.wf(),
    ensures
        res_matches(r, Ok(spec_cmd_examine_self(world@))),
{
    let pid = world.player_id();
    match resolve(world, pid, ProseType::Thing) {
        Some(p) => Ok(p),
        None => Ok(String::new()),
    }
}

/// Washing hands: only where there is water; dirty hands come clean.
pub open spec fn spec_cmd_wash_hands(m: WorldM) -> CmdEff {
    let loc = spec_here(m);
    if !m.has_flag(loc, Flag::HasWater) {
        CmdEff { w: m, res: Err("That'd be a neat trick."@) }
    } else if m.has_flag(m.pid, Flag::DirtyHands) {
        CmdEff {
            w: m.with_flag_cleared(m.pid, Flag::DirtyHands),
            res: Ok("You wash your hands in the water. They look much cleaner."@),
        }
    } else {
        CmdEff { w: m, res: Ok("You wash your hands in the water."@) }
    }
}

/// Washes the player's hands, where water is at hand.
pub fn cmd_wash_hands(world: &mut World) -> (r: CmdResult)
    requires
        old(world).wf(),
    ensures
        final(world).wf(),
        final(world)@ == spec_cmd_wash_hands(old(world)@).w,
        res_matches(r, spec_cmd_wash_hands(old(world)@).res),
{
    let pid = world.player_id();
    let loc = world.here();
    if !world.has_flag(loc, Flag::HasWater) {
        return Err(String::from_str("That'd be a neat trick."));
    }
    if world.has_flag(pid, Flag::DirtyHands) {
        world.clear_flag(pid, Flag::DirtyHands);
        Ok(String::from_str("You wash your hands in the water. They look much cleaner."))
    } else {
        Ok(String::from_str("You wash your hands in the water."))
    }
}

/// Picking a thing up: carried and scenery things are refused; a thing
/// found in the room moves into the player's inventory, and the thing's
/// get-hook, if any, then runs against the changed world.
pub open spec fn spec_cmd_get(m: WorldM, name: Seq<char>) -> CmdEff {
    let pid = m.pid;
    let loc = spec_here(m);
    if spec_find_in_inventory(m, pid, name) is Some {
        CmdEff { w: m, res: Err("You already have it."@) }
    } else if spec_find_in_scenery(m, loc, name) is Some {
        CmdEff { w: m, res: Err("You can't take that!"@) }
    } else {
        match spec_find_in_inventory(m, loc, name) {
            Some(id) => {
                if id == pid {
                    CmdEff { w: m, res: Err("You can't take that!"@) }
                } else {
                    let m2 = m.take_out_m(id).put_in_m(id, pid);
                    match m2.hook_at(id, EventKind::GetThing) {
                        Some(tag) => {
                            let eff = spec_run_hook(m2, id, tag);
                            CmdEff {
                                w: eff.0,
                                res: Ok(
                                    match eff.1 {
                                        Some(msg) => "Taken."@ + "\n"@ + msg,
                                        None => "Taken."@,
                                    },
                                ),
                            }
                        },
                        None => CmdEff { w: m2, res: Ok("Taken."@) },
                    }
                }
            },
            None => CmdEff { w: m, res: Err("You don't see any such thing."@) },
        }
    }
}

/// Gets a thing from the current location.
pub fn cmd_get(world: &mut World, name: &str) -> (r: CmdResult)
    requires
        old(world).wf(),
        old(world)@.pid != 0,
    ensures
        final(world).wf(),
        final(world)@ == spec_cmd_get(old(world)@, name@).w,
        res_matches(r, spec_cmd_get(old(world)@, name@).res),
{
    let ghost m0 = world@;
    let pid = world.player_id();
    let loc = world.here();
    if world.find_in_inventory(pid, name).is_some() {
        return Err(String::from_str("You already have it."));
    }
    if world.find_in_scenery(loc, name).is_some() {
        return Err(String::from_str("You can't take that!"));
    }
    match world.find_in_inventory(loc, name) {
        None => Err(String::from_str("You don't see any such thing.")),
        Some(id) => {
            if id == pid {
                return Err(String::from_str("You can't take that!"));
            }
            proof {
                lemma_find_in_list_mem(m0, m0.contents_of(loc as int), name@);
                assert(m0.contents_of(loc as int).contains(id as int));
                let j = choose|j: int|
                    0 <= j < m0.contents_of(loc as int).len() && m0.contents_of(loc as int)[j]
                        == id as int;
                assert(m0.loc_of(id as int) == loc as int && id as int != 0);
                lemma_sibling_avoids(m0, pid as int, id as int);
            }
            world.take_out(id, loc);
            proof {
                let fu = choose|fu: nat| m0.chain_avoids(pid as int, id as int, fu);
                crate::model::lemma_locs_ok(m0);
                assert(agree_except(m0, world@, id as int));
                lemma_avoids_agree(m0, world@, pid as int, id as int, fu);
            }
            world.put_in(id, pid);
            let mut text = String::from_str("Taken.");
            match world.dispatch(id, Event::GetThing(pid, id)) {
                Some(msg) => {
                    text.append("\n");
                    text.append(msg.as_str());
                },
                None => {},
            }
            proof {
                assert(text@ =~= (match spec_cmd_get(m0, name@).res {
                    Ok(t) => t,
                    Err(t) => t,
                }));
            }
            Ok(text)
        },
    }
}

/// Dropping a carried thing leaves it in the current location; a visible
/// but uncarried thing is refused.
pub open spec fn spec_cmd_drop(m: WorldM, name: Seq<char>) -> CmdEff {
    match spec_find_in_inventory(m, m.pid, name) {
        Some(id) => CmdEff {
            w: m.take_out_m(id).put_in_m(id, spec_here(m)),
            res: Ok("Dropped."@),
        },
        None => {
            if spec_find_visible(m, name) is Some {
                CmdEff { w: m, res: Err("You aren't carrying that."@) }
            } else {
                CmdEff { w: m, res: Err("You don't see any such thing."@) }
            }
        },
    }
}

/// Drops a thing the player is carrying.
pub fn cmd_drop(world: &mut World, name: &str) -> (r: CmdResult)
    requires
        old(world).wf(),
        old(world)@.pid != 0,
    ensures
        final(world).wf(),
        final(world)@ == spec_cmd_drop(old(world)@, name@).w,
        res_matches(r, spec_cmd_drop(old(world)@, name@).res),
{
    let ghost m0 = world@;
    let pid = world.player_id();
    let loc = world.here();
    match world.find_in_inventory(pid, name) {
        Some(id) => {
            proof {
                lemma_find_in_list_mem(m0, m0.contents_of(pid as int), name@);
                assert(m0.contents_of(pid as int).contains(id as int));
                let j = choose|j: int|
                    0 <= j < m0.contents_of(pid as int).len() && m0.contents_of(pid as int)[j]
                        == id as int;
                assert(m0.loc_of(id as int) == pid as int && id as int != 0);
                // the player is not their own container, so the room is not
                // the carried thing and sits above it
                if m0.loc_of(pid as int) == pid as int {
                    let l0 = m0.loc_of(pid as int);
                    let g = choose|g: nat| m0.chain_reaches(pid as int, g);
                    assert(m0.chain_reaches(pid as int, g));
                    crate::containment::lemma_self_loop_no_reach(m0, pid as int, g);
                }
                assert(loc as int != pid as int);
                if id == pid {
                    let l0 = m0.loc_of(pid as int);
                    let g = choose|g: nat| m0.chain_reaches(pid as int, g);
                    assert(m0.chain_reaches(pid as int, g));
                    crate::containment::lemma_self_loop_no_reach(m0, pid as int, g);
                }
                assert(id as int != pid as int);
                if loc == id {
                    assert(m0.chain_hits(id as int, id as int, 0));
                    assert(m0.chain_hits(pid as int, id as int, 1));
                    let g = choose|g: nat| m0.chain_reaches(id as int, g);
                    assert(m0.chain_reaches(id as int, g)) by {
                        let l = m0.loc_of(id as int);
                    }
                    lemma_cycle_no_reach(m0, id as int, id as int, 0, 1, g);
                }
                assert(loc as int != id as int);
                assert(m0.chain_hits(m0.loc_of(id as int), loc as int, 1)) by {
                    if pid as int != loc as int {
                        assert(m0.chain_hits(m0.loc_of(pid as int), loc as int, 0));
                    }
                }
                lemma_ancestor_avoids(m0, loc as int, id as int, 1);
            }
            world.take_out(id, pid);
            proof {
                let fu = choose|fu: nat| m0.chain_avoids(loc as int, id as int, fu);
                crate::model::lemma_locs_ok(m0);
                assert(agree_except(m0, world@, id as int));
                lemma_avoids_agree(m0, world@, loc as int, id as int, fu);
            }
            world.put_in(id, loc);
            Ok(String::from_str("Dropped."))
        },
        None => {
            if world.find_visible_thing(name).is_some() {
                Err(String::from_str("You aren't carrying that."))
            } else {
                Err(String::from_str("You don't see any such thing."))
            }
        },
    }
}

/// The fixed help text.
pub fn cmd_help() -> (r: CmdResult)
    ensures
        res_matches(
            r,
            Ok(
                "You've got the usual commands: n, s, e, w, look, get, drop, quit.\nYou know.  Like that."@,
            ),
        ),
{
    Ok(
        String::from_str(
            "You've got the usual commands: n, s, e, w, look, get, drop, quit.\nYou know.  Like that.",
        ),
    )
}

/// Dumps one entity, by a numeric identity token.
pub fn cmd_dump(world: &World, token: &str) -> (r: CmdResult)
    requires
        world.wf(),
    ensures
        match r {
            Ok(s) => (exists|id: int|
                #![trigger spec_dump_line(world@, id)]
                world@.valid(id) && digits_ok(token@) && str_val(token@) == id && s@
                    == spec_dump_line(world@, id)),
            Err(_) => !(digits_ok(token@) && str_val(token@) < world@.n()),
        },
{
    let _n_bound = world.num_entities();
    match parse_id(world, token) {
        Ok(id) => {
            let mut text = world.tag(id).clone();
            text.append(" (");
            text.append(world.name(id).as_str());
            text.append(")");
            proof {
                assert(text@ =~= spec_dump_line(world@, id as int));
            }
            Ok(text)
        },
        Err(msg) => Err(msg),
    }
}

/// Lists every entity's tag, one per line.
pub fn cmd_list(world: &World) -> (r: CmdResult)
    requires
        world.wf(),
    ensures
        res_matches(r, Ok(dump_upto(world@, world@.n()))),
{
    let n = world.num_entities();
    let mut text = String::new();
    let mut i: usize = 0;
    while i < n
        invariant
            i <= n,
            n == world@.ents.len(),
            world.wf(),
            text@ == dump_upto(world@, i as int),
        decreases n - i,
    {
        text.append(world.tag(i).as_str());
        text.append("\n");
        i = i + 1;
    }
    Ok(text)
}

/// The dump lines of the first `i` entities, one per line.
pub open spec fn dump_world_upto(m: WorldM, i: int) -> Seq<char>
    decreases i,
{
    if i <= 0 {
        Seq::empty()
    } else {
        dump_world_upto(m, i - 1) + spec_dump_line(m, i - 1) + "\n"@
    }
}

/// Dumps every entity's tag and name, one per line.
pub fn cmd_dump_world(world: &World) -> (r: CmdResult)
    requires
        world.wf(),
    ensures
        res_matches(r, Ok(dump_world_upto(world@, world@.n()))),
{
    let n = world.num_entities();
    let mut text = String::new();
    let mut i: usize = 0;
    while i < n
        invariant
            i <= n,
            n == world@.ents.len(),
            world.wf(),
            text@ == dump_world_upto(world@, i as int),
        decreases n - i,
    {
        text.append(world.tag(i).as_str());
        text.append(" (");
        text.append(world.name(i).as_str());
        text.append(")");
        text.append("\n");
        proof {
            assert(text@ =~= dump_world_upto(world@, i as int) + spec_dump_line(
                world@,
                i as int,
            ) + "\n"@);
        }
        i = i + 1;
    }
    Ok(text)
}

/// A found first match belongs to the searched list.
proof fn lemma_find_in_list_mem(m: WorldM, s: Seq<int>, name: Seq<char>)
    ensures
        match find_in_list(m, s, name) {
            Some(id) => s.contains(id),
            None => true,
        },
    decreases s.len(),
{
    if s.len() > 0 {
        if m.ents[s[0]].name == name {
        } else {
            lemma_find_in_list_mem(m, s.drop_first(), name);
            match find_in_list(m, s.drop_first(), name) {
                Some(id) => {
                    let j = choose|j: int|
                        0 <= j < s.drop_first().len() && s.drop_first()[j] == id;
                    assert(s[j + 1] == id);
                },
                None => {},
            }
        }
    }
}

/// The command a token line denotes.
#[verifier::ext_equal]
pub ghost enum CmdKind {
    Go(Dir),
    Help,
    Look,
    Inventory,
    ExamineSelf,
    Examine(Seq<char>),
    Get(Seq<char>),
    Drop(Seq<char>),
    WashHands,
    WashOther,
    Quit,
    Dump(Seq<char>),
    DumpWorld,
    List,
    Unknown,
}

/// Maps a line of tokens to the command it denotes.
pub open spec fn parse_cmd(ts: Seq<Seq<char>>) -> CmdKind {
    if ts.len() == 1 {
        let t = ts[0];
        if t == "n"@ || t == "north"@ {
            CmdKind::Go(Dir::North)
        } else if t == "s"@ || t == "south"@ {
            CmdKind::Go(Dir::South)
        } else if t == "e"@ || t == "east"@ {
            CmdKind::Go(Dir::East)
        } else if t == "w"@ || t == "west"@ {
            CmdKind::Go(Dir::West)
        } else if t == "help"@ {
            CmdKind::Help
        } else if t == "look"@ {
            CmdKind::Look
        } else if t == "i"@ || t == "invent"@ || t == "inventory"@ {
            CmdKind::Inventory
        } else if t == "exit"@ || t == "quit"@ {
            CmdKind::Quit
        } else if t == "dump"@ {
            CmdKind::DumpWorld
        } else if t == "list"@ {
            CmdKind::List
        } else {
            CmdKind::Unknown
        }
    } else if ts.len() == 2 {
        let t = ts[0];
        let a = ts[1];
        if t == "x"@ || t == "examine"@ {
            if a == "self"@ || a == "me"@ {
                CmdKind::ExamineSelf
            } else {
                CmdKind::Examine(a)
            }
        } else if t == "get"@ {
            CmdKind::Get(a)
        } else if t == "drop"@ {
            CmdKind::Drop(a)
        } else if t == "wash"@ {
            if a == "hands"@ {
                CmdKind::WashHands
            } else {
                CmdKind::WashOther
            }
        } else if t == "dump"@ {
            CmdKind::Dump(a)
        } else {
            CmdKind::Unknown
        }
    } else {
        CmdKind::Unknown
    }
}

/// Whether a reply shows the given command result as text.
pub open spec fn reply_matches(r: Reply, s: Result<Seq<char>, Seq<char>>) -> bool {
    match r {
        Reply::Text(a) => a@ == (match s {
            Ok(t) => t,
            Err(t) => t,
        }),
        Reply::Quit(_) => false,
    }
}

/// Whether a token equals a fixed word.
fn tok_is(t: &String, s: &str) -> (r: bool)
    ensures
        r == (t@ == s@),
{
    let w = String::from_str(s);
    (*t).eq(&w)
}

/// Turns a command result into a textual reply; the turn goes on whether
/// the command succeeded or reported a user-facing error.
fn text_reply(res: CmdResult) -> (r: Reply)
    ensures
        (match (r, res) {
            (Reply::Text(a), Result::Ok(b)) => a@ == b@,
            (Reply::Text(a), Result::Err(b)) => a@ == b@,
            _ => false,
        }),
{
    match res {
        Ok(s) => Reply::Text(s),
        Err(s) => Reply::Text(s),
    }
}

/// The player control system: performs exactly the command the tokens
/// denote against the world, and hands back the resulting text — or the
/// quit reply, which the driver's loop recognizes and uses to end the
/// session cleanly.
#[verifier::loop_isolation(false)]
pub fn system(world: &mut World, tokens: &Vec<String>) -> (r: Reply)
    requires
        old(world).wf(),
        old(world)@.pid != 0,
    ensures
        final(world).wf(),
        ({
            let m0 = old(world)@;
            let k = parse_cmd(tokens@.map_values(|s: String| s@));
            match k {
                CmdKind::Go(d) => final(world)@ == spec_cmd_go(m0, d).w && reply_matches(
                    r,
                    spec_cmd_go(m0, d).res,
                ),
                CmdKind::Help => final(world)@ == m0 && reply_matches(
                    r,
                    Ok(
                        "You've got the usual commands: n, s, e, w, look, get, drop, quit.\nYou know.  Like that."@,
                    ),
                ),
                CmdKind::Look => final(world)@ == m0 && reply_matches(r, Ok(spec_cmd_look(m0))),
                CmdKind::Inventory => final(world)@ == m0 && reply_matches(
                    r,
                    Ok(spec_cmd_inventory(m0)),
                ),
                CmdKind::ExamineSelf => final(world)@ == m0 && reply_matches(
                    r,
                    Ok(spec_cmd_examine_self(m0)),
                ),
                CmdKind::Examine(nm) => final(world)@ == m0 && reply_matches(
                    r,
                    spec_cmd_examine(m0, nm),
                ),
                CmdKind::Get(nm) => final(world)@ == spec_cmd_get(m0, nm).w && reply_matches(
                    r,
                    spec_cmd_get(m0, nm).res,
                ),
                CmdKind::Drop(nm) => final(world)@ == spec_cmd_drop(m0, nm).w && reply_matches(
                    r,
                    spec_cmd_drop(m0, nm).res,
                ),
                CmdKind::WashHands => final(world)@ == spec_cmd_wash_hands(m0).w
                    && reply_matches(r, spec_cmd_wash_hands(m0).res),
                CmdKind::WashOther => final(world)@ == m0 && reply_matches(
                    r,
                    Err("Whatever for?"@),
                ),
                CmdKind::Quit => final(world)@ == m0 && (match r {
                    Reply::Quit(s) => s@ == "Bye, then."@,
                    Reply::Text(_) => false,
                }),
                CmdKind::Dump(tok) => final(world)@ == m0 && (match r {
                    Reply::Text(s) => digits_ok(tok) && str_val(tok) < m0.n() ==> s@
                        == spec_dump_line(m0, str_val(tok)),
                    Reply::Quit(_) => false,
                }),
                CmdKind::DumpWorld => final(world)@ == m0 && reply_matches(
                    r,
                    Ok(dump_world_upto(m0, m0.n())),
                ),
                CmdKind::List => final(world)@ == m0 && reply_matches(
                    r,
                    Ok(dump_upto(m0, m0.n())),
                ),
                CmdKind::Unknown => final(world)@ == m0 && reply_matches(
                    r,
                    Err("I don't understand."@),
                ),
            }
        }),
{
    let ghost ts = tokens@.map_values(|s: String| s@);
    let n = tokens.len();
    if n == 1 {
        let t0 = &tokens[0];
        proof {
            assert(ts[0] == t0@);
        }
        if tok_is(t0, "n") || tok_is(t0, "north") {
            return text_reply(cmd_go(world, Dir::North));
        }
        if tok_is(t0, "s") || tok_is(t0, "south") {
            return text_reply(cmd_go(world, Dir::South));
        }
        if tok_is(t0, "e") || tok_is(t0, "east") {
            return text_reply(cmd_go(world, Dir::East));
        }
        if tok_is(t0, "w") || tok_is(t0, "west") {
            return text_reply(cmd_go(world, Dir::West));
        }
        if tok_is(t0, "help") {
            return text_reply(cmd_help());
        }
        if tok_is(t0, "look") {
            return text_reply(cmd_look(world));
        }
        if tok_is(t0, "i") || tok_is(t0, "invent") || tok_is(t0, "inventory") {
            return text_reply(cmd_inventory(world));
        }
        if tok_is(t0, "exit") || tok_is(t0, "quit") {
            return Reply::Quit(String::from_str("Bye, then."));
        }
        if tok_is(t0, "dump") {
            return text_reply(cmd_dump_world(world));
        }
        if tok_is(t0, "list") {
            return text_reply(cmd_list(world));
        }
        return Reply::Text(String::from_str("I don't understand."));
    }
    if n == 2 {
        let t0 = &tokens[0];
        let t1 = &tokens[1];
        proof {
            assert(ts[0] == t0@);
            assert(ts[1] == t1@);
        }
        if tok_is(t0, "x") || tok_is(t0, "examine") {
            if tok_is(t1, "self") || tok_is(t1, "me") {
                return text_reply(cmd_examine_self(world));
            }
            return text_reply(cmd_examine(world, t1.as_str()));
        }
        if tok_is(t0, "get") {
            return text_reply(cmd_get(world, t1.as_str()));
        }
        if tok_is(t0, "drop") {
            return text_reply(cmd_drop(world, t1.as_str()));
        }
        if tok_is(t0, "wash") {
            if tok_is(t1, "hands") {
                return text_reply(cmd_wash_hands(world));
            }
            return Reply::Text(String::from_str("Whatever for?"));
        }
        if tok_is(t0, "dump") {
            let rr = cmd_dump(world, t1.as_str());
            proof {
                match rr {
                    Result::Ok(ref out) => {
                        let id = choose|id: int|
                            world@.valid(id) && digits_ok(t1@) && str_val(t1@) == id && out@
                                == #[trigger] spec_dump_line(world@, id);
                        assert(out@ == spec_dump_line(world@, str_val(t1@)));
                    },
                    Result::Err(_) => {},
                }
            }
            return text_reply(rr);
        }
        return Reply::Text(String::from_str("I don't understand."));
    }
    Reply::Text(String::from_str("I don't understand."))
}

} // verus!
