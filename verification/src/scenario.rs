//! The scenario: the one-shot build of the game world, and the scenario's
//! prose producers and event hooks, interpreted by the engine through
//! their registered tags.

use vstd::prelude::*;
use vstd::string::StringExecFns;
use crate::types::{Dir, EventHookTag, EventKind, Flag, ID, ProseBuffer, ProseHookTag, ProseType,
    spec_sep};
use crate::model::{ActM, Action, LinkM, Predicate, ProseM, RuleM, WorldM, assoc_hook,
    assoc_link, assoc_prose, lemma_lookup_from_hits};
use crate::rule::{action_ids_ok, pred_ids_ok, rule_valid, rules_valid};
use crate::world::{EntityProto, World};

verus! {

/// The player's appearance, which depends on the state of their hands.
pub open spec fn spec_player_visual(m: WorldM) -> Seq<char> {
    let base = "You've got all the usual bits."@;
    if m.has_flag(m.pid, Flag::DirtyHands) {
        base + spec_sep(base) + "Your hands are kind of dirty, though."@
    } else {
        base + spec_sep(base) + "Plus, they're clean bits!"@
    }
}

/// Exec twin of [`spec_player_visual`].
pub fn player_visual(world: &World, _id: ID) -> (r: String)
    requires
        world.wf(),
    ensures
        r@ == spec_player_visual(world@),
{
    let pid = world.player_id();
    let mut buf = ProseBuffer::new();
    buf.puts("You've got all the usual bits.");
    if world.has_flag(pid, Flag::DirtyHands) {
        buf.puts("Your hands are kind of dirty, though.");
    } else {
        buf.puts("Plus, they're clean bits!");
    }
    proof {
        assert(buf@ =~= spec_player_visual(world@));
    }
    buf.get()
}

/// The note's appearance, which depends on whether it has been soiled.
pub open spec fn spec_note_thing(m: WorldM, id: int) -> Seq<char> {
    if m.has_flag(id, Flag::Dirty) {
        "A note, on plain paper.  It looks pretty grubby; someone's been mishandling it."@
    } else {
        "A note, on plain paper"@
    }
}

/// Exec twin of [`spec_note_thing`].
pub fn note_thing_prose(world: &World, id: ID) -> (r: String)
    requires
        world.wf(),
        world@.valid(id as int),
    ensures
        r@ == spec_note_thing(world@, id as int),
{
    if world.has_flag(id, Flag::Dirty) {
        String::from_str(
            "A note, on plain paper.  It looks pretty grubby; someone's been mishandling it.",
        )
    } else {
        String::from_str("A note, on plain paper")
    }
}

/// The note's readable contents, likewise.
pub open spec fn spec_note_book(m: WorldM, id: int) -> Seq<char> {
    if m.has_flag(id, Flag::Dirty) {
        "You've gotten it too dirty to read."@
    } else {
        "Welcome, dear friend.  Your mission, should you choose to\naccept it, is to figure out how to get to the end of\nthe trail.  You've already taken the first big\nstep!"@
    }
}

/// Exec twin of [`spec_note_book`].
pub fn note_book_prose(world: &World, id: ID) -> (r: String)
    requires
        world.wf(),
        world@.valid(id as int),
    ensures
        r@ == spec_note_book(world@, id as int),
{
    if world.has_flag(id, Flag::Dirty) {
        String::from_str("You've gotten it too dirty to read.")
    } else {
        String::from_str(
            "Welcome, dear friend.  Your mission, should you choose to\naccept it, is to figure out how to get to the end of\nthe trail.  You've already taken the first big\nstep!",
        )
    }
}

/// Lazy prose freshness: the note's readable contents differ between any
/// two worlds that disagree on the soiling flag, so resolving the slot
/// before and after the flag changes yields different strings; and the
/// producers are pure functions of the world, so two resolutions with no
/// intervening change agree.
pub proof fn lemma_note_book_prose_fresh(m1: WorldM, m2: WorldM, id: int)
    requires
        m1.has_flag(id, Flag::Dirty) != m2.has_flag(id, Flag::Dirty),
    ensures
        spec_note_book(m1, id) != spec_note_book(m2, id),
        spec_note_thing(m1, id) != spec_note_thing(m2, id),
{
    reveal_strlit("You've gotten it too dirty to read.");
    reveal_strlit(
        "Welcome, dear friend.  Your mission, should you choose to\naccept it, is to figure out how to get to the end of\nthe trail.  You've already taken the first big\nstep!",
    );
    reveal_strlit("A note, on plain paper.  It looks pretty grubby; someone's been mishandling it.");
    reveal_strlit("A note, on plain paper");
    assert("You've gotten it too dirty to read."@[0] == 'Y');
    assert("Welcome, dear friend.  Your mission, should you choose to\naccept it, is to figure out how to get to the end of\nthe trail.  You've already taken the first big\nstep!"@[0] == 'W');
    assert("A note, on plain paper.  It looks pretty grubby; someone's been mishandling it."@.len()
        != "A note, on plain paper"@.len());
}

/// Whether the player is about to soil the note: they carry it with
/// dirty hands while it is still clean.
pub open spec fn spec_player_gets_note_dirty(m: WorldM, note: int) -> bool {
    &&& m.contents_of(m.pid).contains(note)
    &&& m.has_flag(m.pid, Flag::DirtyHands)
    &&& !m.has_flag(note, Flag::Dirty)
}

/// Exec twin of [`spec_player_gets_note_dirty`].
pub fn player_gets_note_dirty(world: &World, note: ID) -> (r: bool)
    requires
        world.wf(),
        world@.valid(note as int),
    ensures
        r == spec_player_gets_note_dirty(world@, note as int),
{
    let pid = world.player_id();
    let inv = world.contents(pid);
    let n = inv.len();
    let mut carried = false;
    let mut i: usize = 0;
    while i < n
        invariant
            i <= n,
            n == inv@.len(),
            world@.valid(world@.pid),
            inv@.map_values(|x: ID| x as int) == world@.contents_of(world@.pid),
            carried == exists|j: int| 0 <= j < i && #[trigger] inv@[j] == note,
        decreases n - i,
    {
        if inv[i] == note {
            carried = true;
        }
        i = i + 1;
    }
    proof {
        let cm = world@.contents_of(world@.pid);
        if carried {
            let j = choose|j: int| 0 <= j < n && inv@[j] == note;
            assert(cm[j] == note as int);
            assert(cm.contains(note as int));
        } else {
            if cm.contains(note as int) {
                let j = choose|j: int| 0 <= j < cm.len() && cm[j] == note as int;
                assert(inv@[j] == note);
            }
        }
    }
    carried && world.has_flag(pid, Flag::DirtyHands) && !world.has_flag(note, Flag::Dirty)
}

/// Whether the player has been killed.
pub open spec fn spec_player_is_dead(m: WorldM) -> bool {
    m.has_flag(m.pid, Flag::Dead)
}

/// Exec twin of [`spec_player_is_dead`].
pub fn player_is_dead(world: &World) -> (r: bool)
    requires
        world.wf(),
    ensures
        r == spec_player_is_dead(world@),
{
    let pid = world.player_id();
    world.has_flag(pid, Flag::Dead)
}

/// A registered prose producer, interpreted by kind.
pub open spec fn spec_eval_prose_hook(m: WorldM, id: int, t: ProseHookTag) -> Seq<char> {
    match t {
        ProseHookTag::PlayerVisual => spec_player_visual(m),
        ProseHookTag::NoteThing => spec_note_thing(m, id),
        ProseHookTag::NoteBook => spec_note_book(m, id),
    }
}

/// Exec twin of [`spec_eval_prose_hook`].
pub fn eval_prose_hook(world: &World, id: ID, t: ProseHookTag) -> (r: String)
    requires
        world.wf(),
        world@.valid(id as int),
    ensures
        r@ == spec_eval_prose_hook(world@, id as int, t),
{
    match t {
        ProseHookTag::PlayerVisual => player_visual(world, id),
        ProseHookTag::NoteThing => note_thing_prose(world, id),
        ProseHookTag::NoteBook => note_book_prose(world, id),
    }
}

/// The effect of the note's get-hook: soiling the note, once, when the
/// player picks it up with dirty hands.
pub open spec fn spec_on_note_get(m: WorldM, note: int) -> (WorldM, Option<Seq<char>>) {
    if m.has_flag(m.pid, Flag::DirtyHands) && !m.has_flag(note, Flag::Dirty) {
        (m.with_flag(note, Flag::Dirty), Some("The dirt from your hands got all over the note."@))
    } else {
        (m, None)
    }
}

/// Exec twin of [`spec_on_note_get`]: runs when the note has been picked
/// up (its container has already changed).
pub fn on_note_get(world: &mut World, note: ID) -> (r: Option<String>)
    requires
        old(world).wf(),
        old(world)@.valid(note as int),
    ensures
        final(world).wf(),
        final(world)@ == spec_on_note_get(old(world)@, note as int).0,
        (match r {
            Some(s) => spec_on_note_get(old(world)@, note as int).1 == Some(s@),
            None => spec_on_note_get(old(world)@, note as int).1 is None,
        }),
{
    let pid = world.player_id();
    if world.has_flag(pid, Flag::DirtyHands) && !world.has_flag(note, Flag::Dirty) {
        world.set_flag(note, Flag::Dirty);
        Some(String::from_str("The dirt from your hands got all over the note."))
    } else {
        None
    }
}

/// Builds the initial state of the game world: the player with dirty
/// hands in a clearing, a trail and a bridge eastward, a scenery stream
/// at the bridge, a readable note in the clearing, a once-only backstory
/// rule for the second turn, and a perpetually watchful fairy godmother.
#[verifier::rlimit(100)]
pub fn build() -> (r: World)
    ensures
        r.wf(),
        r@.clock == 0,
        r@.pid == 1,
        r@.ents.len() == 9,
        rules_valid(r@),
        // the cast, by tag
        r@.spec_lookup_id("self"@) == Some(1int),
        r@.spec_lookup_id("clearing"@) == Some(2int),
        r@.spec_lookup_id("trail"@) == Some(3int),
        r@.spec_lookup_id("bridge"@) == Some(4int),
        r@.spec_lookup_id("stream"@) == Some(5int),
        r@.spec_lookup_id("note"@) == Some(6int),
        r@.spec_lookup_id("rule-story-1"@) == Some(7int),
        r@.spec_lookup_id("fairy-godmother-rule"@) == Some(8int),
        // the player: dirty-handed, in the clearing, which they have seen
        r@.ents[1].is_player,
        r@.flags_of(1) =~= seq![Flag::DirtyHands, Flag::Seen(2)],
        r@.has_flag(1, Flag::DirtyHands),
        r@.has_flag(1, Flag::Seen(2)),
        r@.loc_of(1) == 2,
        r@.prose_at(1, ProseType::Thing) == Some(ProseM::Hook(ProseHookTag::PlayerVisual)),
        // the rooms, their prose, and the east-west passages
        r@.is_room(2) && r@.ents[2].name == "Clearing"@,
        r@.prose_at(2, ProseType::Room) == Some(
            ProseM::Fixed("A wide spot in the woods.  You can go east."@),
        ),
        r@.is_room(3) && r@.ents[3].name == "Trail"@,
        r@.prose_at(3, ProseType::Room) == Some(
            ProseM::Fixed("A trail from hither to yon.  You can go east or west."@),
        ),
        r@.is_room(4) && r@.ents[4].name == "Bridge"@,
        r@.prose_at(4, ProseType::Room) == Some(
            ProseM::Fixed("The trail crosses a small stream here.  You can go east or west."@),
        ),
        r@.link_at(2, Dir::East) == Some(LinkM::ToRoom(3)),
        r@.link_at(3, Dir::West) == Some(LinkM::ToRoom(2)),
        r@.link_at(3, Dir::East) == Some(LinkM::ToRoom(4)),
        r@.link_at(4, Dir::West) == Some(LinkM::ToRoom(3)),
        r@.link_at(2, Dir::West) is None,
        // the bridge offers water; the stream is scenery placed there
        r@.has_flag(4, Flag::HasWater),
        r@.ents[5].is_thing && r@.ents[5].name == "stream"@,
        r@.has_flag(5, Flag::Scenery),
        r@.loc_of(5) == 4,
        // the note: a clean thing in the clearing, with its two prose
        // producers and its get-hook
        r@.ents[6].is_thing && r@.ents[6].name == "note"@,
        r@.loc_of(6) == 2,
        r@.flags_of(6) =~= Seq::<Flag>::empty(),
        !r@.has_flag(6, Flag::Dirty),
        r@.prose_at(6, ProseType::Thing) == Some(ProseM::Hook(ProseHookTag::NoteThing)),
        r@.prose_at(6, ProseType::Book) == Some(ProseM::Hook(ProseHookTag::NoteBook)),
        r@.hook_at(6, EventKind::GetThing) == Some(EventHookTag::NoteGet),
        // the two rules, exactly, and no others
        r@.is_rule(7),
        r@.rule_of(7) =~= (RuleM {
            pred: Predicate::ClockIs(2),
            actions: seq![
                ActM::Print(
                    "You don't know where you are.  You don't even know where you want to\nbe.  All you know is that your feet are wet, your hands are dirty,\nand gosh, this doesn't look anything like the toy aisle."@,
                ),
            ],
            once_only: true,
            fired: false,
        }),
        r@.is_rule(8),
        r@.rule_of(8) =~= (RuleM {
            pred: Predicate::HasFlag(1, Flag::Dead),
            actions: seq![
                ActM::Print(
                    "A fairy godmother hovers over your limp body.  She frowns;\nthen, apparently against her better judgment, she waves\nher wand.  There's a flash, and she disappears.\n||*** You are alive! ***"@,
                ),
                ActM::ClearFlag(1, Flag::Dead),
            ],
            once_only: false,
            fired: false,
        }),
        forall|x: int| r@.valid(x) && #[trigger] r@.is_rule(x) ==> x == 7 || x == 8,
{
    let mut world = World::new();

    // The player.
    let pid = world.create(
        EntityProto::new("self").player().prose_hook(
            ProseType::Thing,
            ProseHookTag::PlayerVisual,
        ).flag(Flag::DirtyHands),
    );
    world.set_player_id(pid);
    proof {
        assert(world@.flags_of(1) =~= Seq::<Flag>::empty().push(Flag::DirtyHands));
        assert(world@.flags_of(1)[0] == Flag::DirtyHands);
        assert(world@.has_flag(1, Flag::DirtyHands));
    }

    // The rooms.
    let clearing = world.create(
        EntityProto::new("clearing").room("Clearing").prose(
            ProseType::Room,
            "A wide spot in the woods.  You can go east.",
        ),
    );
    let trail = world.create(
        EntityProto::new("trail").room("Trail").prose(
            ProseType::Room,
            "A trail from hither to yon.  You can go east or west.",
        ),
    );
    let bridge = world.create(
        EntityProto::new("bridge").room("Bridge").prose(
            ProseType::Room,
            "The trail crosses a small stream here.  You can go east or west.",
        ).flag(Flag::HasWater),
    );

    // The stream: scenery at the bridge.
    let stream = world.create(
        EntityProto::new("stream").thing("stream").prose(
            ProseType::Thing,
            "The stream comes from the north, down a little waterfall, and runs\naway under the bridge.  It looks surprisingly deep, considering\nhow narrow it is.",
        ).flag(Flag::Scenery),
    );
    proof {
        assert(world@.loc_of(stream as int) == 0);
        assert(world@.chain_avoids(0, stream as int, 0));
        assert(world@.chain_avoids(bridge as int, stream as int, 1));
    }
    world.put_in(stream, bridge);
    proof {
        assert(world@.has_flag(1, Flag::DirtyHands));
    }

    // The passages.
    world.twoway(clearing, Dir::East, Dir::West, trail);
    proof {
        assert(world@.has_flag(1, Flag::DirtyHands));
    }
    proof {
        let lt = world@.links_of(trail as int);
        assert(lt =~= Seq::<(Dir, crate::model::LinkM)>::empty().push(
            (Dir::West, crate::model::LinkM::ToRoom(clearing as int)),
        ));
        assert(lt.drop_first() =~= Seq::<(Dir, crate::model::LinkM)>::empty());
        assert(crate::model::assoc_link(lt.drop_first(), Dir::East) is None);
        assert(crate::model::assoc_link(lt, Dir::East) is None);
        assert(world@.link_at(trail as int, Dir::East) is None);
        assert(world@.links_of(bridge as int) =~= Seq::<(Dir, crate::model::LinkM)>::empty());
        assert(world@.link_at(bridge as int, Dir::West) is None);
    }
    world.twoway(trail, Dir::East, Dir::West, bridge);
    proof {
        assert(world@.has_flag(1, Flag::DirtyHands));
    }

    // The note.
    let note = world.create(
        EntityProto::new("note").thing("note").prose_hook(
            ProseType::Thing,
            ProseHookTag::NoteThing,
        ).prose_hook(ProseType::Book, ProseHookTag::NoteBook).event_hook(
            EventKind::GetThing,
            EventHookTag::NoteGet,
        ),
    );
    proof {
        assert(world@.loc_of(note as int) == 0);
        assert(world@.chain_avoids(0, note as int, 0));
        assert(world@.chain_avoids(clearing as int, note as int, 1));
    }
    world.put_in(note, clearing);
    proof {
        assert(world@.has_flag(1, Flag::DirtyHands));
    }

    // A once-only backstory rule for the second turn.
    let _story = world.create(
        EntityProto::new("rule-story-1").once(Predicate::ClockIs(2)).action(
            Action::Print(
                String::from_str(
                    "You don't know where you are.  You don't even know where you want to\nbe.  All you know is that your feet are wet, your hands are dirty,\nand gosh, this doesn't look anything like the toy aisle.",
                ),
            ),
        ),
    );

    // The fairy godmother, watching for the player's demise.
    let _fairy = world.create(
        EntityProto::new("fairy-godmother-rule").always(
            Predicate::HasFlag(pid, Flag::Dead),
        ).action(
            Action::Print(
                String::from_str(
                    "A fairy godmother hovers over your limp body.  She frowns;\nthen, apparently against her better judgment, she waves\nher wand.  There's a flash, and she disappears.\n||*** You are alive! ***",
                ),
            ),
        ).action(Action::ClearFlag(pid, Flag::Dead)),
    );

    // The starting location.
    proof {
        assert(world@.loc_of(pid as int) == 0);
        assert(world@.chain_avoids(0, pid as int, 0));
        assert(world@.chain_avoids(clearing as int, pid as int, 1));
    }
    world.put_in(pid, clearing);
    proof {
        assert(world@.has_flag(1, Flag::DirtyHands));
    }
    proof {
        crate::model::lemma_with_flag_facts(world@, pid as int, Flag::Seen(clearing));
    }
    world.set_flag(pid, Flag::Seen(clearing));

    proof {
        assert(rules_valid(world@)) by {
            assert forall|r: int| world@.valid(r) && #[trigger] world@.is_rule(r) implies rule_valid(
                world@,
                world@.rule_of(r),
            ) by {
                assert(r == 7 || r == 8);
                assert(pred_ids_ok(world@, world@.rule_of(r).pred));
                assert forall|j: int|
                    0 <= j < world@.rule_of(r).actions.len() implies action_ids_ok(
                    world@,
                    #[trigger] world@.rule_of(r).actions[j],
                ) by {
                    if r == 7 {
                        assert(world@.rule_of(r).actions.len() == 1);
                        assert(world@.rule_of(r).actions[0] is Print);
                    } else {
                        assert(world@.rule_of(r).actions.len() == 2);
                        assert(world@.rule_of(r).actions[0] is Print);
                        assert(world@.rule_of(r).actions[1] == ActM::ClearFlag(1, Flag::Dead));
                    }
                }
            }
        }
    }

    proof {
        let m = world@;
        assert(pid == 1 && clearing == 2 && trail == 3 && bridge == 4 && stream == 5 && note
            == 6);
        // tags, for reverse lookup
        assert(m.ents[0].tag == "limbo"@);
        assert(m.ents[1].tag == "self"@);
        assert(m.ents[2].tag == "clearing"@);
        assert(m.ents[3].tag == "trail"@);
        assert(m.ents[4].tag == "bridge"@);
        assert(m.ents[5].tag == "stream"@);
        assert(m.ents[6].tag == "note"@);
        assert(m.ents[7].tag == "rule-story-1"@);
        assert(m.ents[8].tag == "fairy-godmother-rule"@);
        reveal_strlit("limbo");
        reveal_strlit("self");
        reveal_strlit("clearing");
        reveal_strlit("trail");
        reveal_strlit("bridge");
        reveal_strlit("stream");
        reveal_strlit("note");
        reveal_strlit("rule-story-1");
        reveal_strlit("fairy-godmother-rule");
        assert forall|j: int| 0 <= j < 1 implies (#[trigger] m.ents[j]).tag != "self"@ by {
            if j == 0 {
                assert(("limbo"@).len() == 5);
                assert(("self"@).len() == 4);
                assert(m.ents[0].tag != "self"@);
            }
        }
        lemma_lookup_from_hits(m, "self"@, 0, 1);
        assert forall|j: int| 0 <= j < 2 implies (#[trigger] m.ents[j]).tag != "clearing"@ by {
            if j == 0 {
                assert(("limbo"@).len() == 5);
                assert(("clearing"@).len() == 8);
                assert(m.ents[0].tag != "clearing"@);
            } else if j == 1 {
                assert(("self"@).len() == 4);
                assert(("clearing"@).len() == 8);
                assert(m.ents[1].tag != "clearing"@);
            }
        }
        lemma_lookup_from_hits(m, "clearing"@, 0, 2);
        assert forall|j: int| 0 <= j < 3 implies (#[trigger] m.ents[j]).tag != "trail"@ by {
            if j == 0 {
                assert(("limbo"@).len() == 5);
                assert(("trail"@).len() == 5);
                assert(("limbo"@)[0] == 'l');
                assert(("trail"@)[0] == 't');
                assert(m.ents[0].tag != "trail"@);
            } else if j == 1 {
                assert(("self"@).len() == 4);
                assert(("trail"@).len() == 5);
                assert(m.ents[1].tag != "trail"@);
            } else if j == 2 {
                assert(("clearing"@).len() == 8);
                assert(("trail"@).len() == 5);
                assert(m.ents[2].tag != "trail"@);
            }
        }
        lemma_lookup_from_hits(m, "trail"@, 0, 3);
        assert forall|j: int| 0 <= j < 4 implies (#[trigger] m.ents[j]).tag != "bridge"@ by {
            if j == 0 {
                assert(("limbo"@).len() == 5);
                assert(("bridge"@).len() == 6);
                assert(m.ents[0].tag != "bridge"@);
            } else if j == 1 {
                assert(("self"@).len() == 4);
                assert(("bridge"@).len() == 6);
                assert(m.ents[1].tag != "bridge"@);
            } else if j == 2 {
                assert(("clearing"@).len() == 8);
                assert(("bridge"@).len() == 6);
                assert(m.ents[2].tag != "bridge"@);
            } else if j == 3 {
                assert(("trail"@).len() == 5);
                assert(("bridge"@).len() == 6);
                assert(m.ents[3].tag != "bridge"@);
            }
        }
        lemma_lookup_from_hits(m, "bridge"@, 0, 4);
        assert forall|j: int| 0 <= j < 5 implies (#[trigger] m.ents[j]).tag != "stream"@ by {
            if j == 0 {
                assert(("limbo"@).len() == 5);
                assert(("stream"@).len() == 6);
                assert(m.ents[0].tag != "stream"@);
            } else if j == 1 {
                assert(("self"@).len() == 4);
                assert(("stream"@).len() == 6);
                assert(m.ents[1].tag != "stream"@);
            } else if j == 2 {
                assert(("clearing"@).len() == 8);
                assert(("stream"@).len() == 6);
                assert(m.ents[2].tag != "stream"@);
            } else if j == 3 {
                assert(("trail"@).len() == 5);
                assert(("stream"@).len() == 6);
                assert(m.ents[3].tag != "stream"@);
            } else if j == 4 {
                assert(("bridge"@).len() == 6);
                assert(("stream"@).len() == 6);
                assert(("bridge"@)[0] == 'b');
                assert(("stream"@)[0] == 's');
                assert(m.ents[4].tag != "stream"@);
            }
        }
        lemma_lookup_from_hits(m, "stream"@, 0, 5);
        assert forall|j: int| 0 <= j < 6 implies (#[trigger] m.ents[j]).tag != "note"@ by {
            if j == 0 {
                assert(("limbo"@).len() == 5);
                assert(("note"@).len() == 4);
                assert(m.ents[0].tag != "note"@);
            } else if j == 1 {
                assert(("self"@).len() == 4);
                assert(("note"@).len() == 4);
                assert(("self"@)[0] == 's');
                assert(("note"@)[0] == 'n');
                assert(m.ents[1].tag != "note"@);
            } else if j == 2 {
                assert(("clearing"@).len() == 8);
                assert(("note"@).len() == 4);
                assert(m.ents[2].tag != "note"@);
            } else if j == 3 {
                assert(("trail"@).len() == 5);
                assert(("note"@).len() == 4);
                assert(m.ents[3].tag != "note"@);
            } else if j == 4 {
                assert(("bridge"@).len() == 6);
                assert(("note"@).len() == 4);
                assert(m.ents[4].tag != "note"@);
            } else if j == 5 {
                assert(("stream"@).len() == 6);
                assert(("note"@).len() == 4);
                assert(m.ents[5].tag != "note"@);
            }
        }
        lemma_lookup_from_hits(m, "note"@, 0, 6);
        assert forall|j: int| 0 <= j < 7 implies (#[trigger] m.ents[j]).tag != "rule-story-1"@ by {
            if j == 0 {
                assert(("limbo"@).len() == 5);
                assert(("rule-story-1"@).len() == 12);
                assert(m.ents[0].tag != "rule-story-1"@);
            } else if j == 1 {
                assert(("self"@).len() == 4);
                assert(("rule-story-1"@).len() == 12);
                assert(m.ents[1].tag != "rule-story-1"@);
            } else if j == 2 {
                assert(("clearing"@).len() == 8);
                assert(("rule-story-1"@).len() == 12);
                assert(m.ents[2].tag != "rule-story-1"@);
            } else if j == 3 {
                assert(("trail"@).len() == 5);
                assert(("rule-story-1"@).len() == 12);
                assert(m.ents[3].tag != "rule-story-1"@);
            } else if j == 4 {
                assert(("bridge"@).len() == 6);
                assert(("rule-story-1"@).len() == 12);
                assert(m.ents[4].tag != "rule-story-1"@);
            } else if j == 5 {
                assert(("stream"@).len() == 6);
                assert(("rule-story-1"@).len() == 12);
                assert(m.ents[5].tag != "rule-story-1"@);
            } else if j == 6 {
                assert(("note"@).len() == 4);
                assert(("rule-story-1"@).len() == 12);
                assert(m.ents[6].tag != "rule-story-1"@);
            }
        }
        lemma_lookup_from_hits(m, "rule-story-1"@, 0, 7);
        assert forall|j: int| 0 <= j < 8 implies (#[trigger] m.ents[j]).tag != "fairy-godmother-rule"@ by {
            if j == 0 {
                assert(("limbo"@).len() == 5);
                assert(("fairy-godmother-rule"@).len() == 20);
                assert(m.ents[0].tag != "fairy-godmother-rule"@);
            } else if j == 1 {
                assert(("self"@).len() == 4);
                assert(("fairy-godmother-rule"@).len() == 20);
                assert(m.ents[1].tag != "fairy-godmother-rule"@);
            } else if j == 2 {
                assert(("clearing"@).len() == 8);
                assert(("fairy-godmother-rule"@).len() == 20);
                assert(m.ents[2].tag != "fairy-godmother-rule"@);
            } else if j == 3 {
                assert(("trail"@).len() == 5);
                assert(("fairy-godmother-rule"@).len() == 20);
                assert(m.ents[3].tag != "fairy-godmother-rule"@);
            } else if j == 4 {
                assert(("bridge"@).len() == 6);
                assert(("fairy-godmother-rule"@).len() == 20);
                assert(m.ents[4].tag != "fairy-godmother-rule"@);
            } else if j == 5 {
                assert(("stream"@).len() == 6);
                assert(("fairy-godmother-rule"@).len() == 20);
                assert(m.ents[5].tag != "fairy-godmother-rule"@);
            } else if j == 6 {
                assert(("note"@).len() == 4);
                assert(("fairy-godmother-rule"@).len() == 20);
                assert(m.ents[6].tag != "fairy-godmother-rule"@);
            } else if j == 7 {
                assert(("rule-story-1"@).len() == 12);
                assert(("fairy-godmother-rule"@).len() == 20);
                assert(m.ents[7].tag != "fairy-godmother-rule"@);
            }
        }
        lemma_lookup_from_hits(m, "fairy-godmother-rule"@, 0, 8);
        // the passages
        let l2 = m.links_of(2);
        assert(l2 =~= Seq::<(Dir, LinkM)>::empty().push((Dir::East, LinkM::ToRoom(3))));
        assert(l2[0] == (Dir::East, LinkM::ToRoom(3)));
        assert(l2.drop_first() =~= Seq::<(Dir, LinkM)>::empty());
        assert(assoc_link(l2, Dir::East) == Some(LinkM::ToRoom(3)));
        assert(assoc_link(l2.drop_first(), Dir::West) is None);
        assert(assoc_link(l2, Dir::West) is None);
        let l3 = m.links_of(3);
        assert(l3 =~= Seq::<(Dir, LinkM)>::empty().push((Dir::West, LinkM::ToRoom(2))).push(
            (Dir::East, LinkM::ToRoom(4)),
        ));
        assert(l3[0] == (Dir::West, LinkM::ToRoom(2)));
        assert(assoc_link(l3, Dir::West) == Some(LinkM::ToRoom(2)));
        assert(l3.drop_first() =~= Seq::<(Dir, LinkM)>::empty().push(
            (Dir::East, LinkM::ToRoom(4)),
        ));
        assert(l3.drop_first()[0] == (Dir::East, LinkM::ToRoom(4)));
        assert(assoc_link(l3.drop_first(), Dir::East) == Some(LinkM::ToRoom(4)));
        assert(assoc_link(l3, Dir::East) == Some(LinkM::ToRoom(4)));
        let l4 = m.links_of(4);
        assert(l4 =~= Seq::<(Dir, LinkM)>::empty().push((Dir::West, LinkM::ToRoom(3))));
        assert(l4[0] == (Dir::West, LinkM::ToRoom(3)));
        assert(assoc_link(l4, Dir::West) == Some(LinkM::ToRoom(3)));
        // prose slots
        let p1 = m.ents[1].prose;
        assert(p1 =~= Seq::<(ProseType, ProseM)>::empty().push(
            (ProseType::Thing, ProseM::Hook(ProseHookTag::PlayerVisual)),
        ));
        assert(p1[0] == (ProseType::Thing, ProseM::Hook(ProseHookTag::PlayerVisual)));
        assert(assoc_prose(p1, ProseType::Thing) == Some(
            ProseM::Hook(ProseHookTag::PlayerVisual),
        ));
        let p2 = m.ents[2].prose;
        assert(p2 =~= Seq::<(ProseType, ProseM)>::empty().push(
            (ProseType::Room, ProseM::Fixed("A wide spot in the woods.  You can go east."@)),
        ));
        assert(p2[0].0 == ProseType::Room);
        assert(assoc_prose(p2, ProseType::Room) == Some(
            ProseM::Fixed("A wide spot in the woods.  You can go east."@),
        ));
        let p3 = m.ents[3].prose;
        assert(p3 =~= Seq::<(ProseType, ProseM)>::empty().push(
            (
                ProseType::Room,
                ProseM::Fixed("A trail from hither to yon.  You can go east or west."@),
            ),
        ));
        assert(p3[0].0 == ProseType::Room);
        assert(assoc_prose(p3, ProseType::Room) == Some(
            ProseM::Fixed("A trail from hither to yon.  You can go east or west."@),
        ));
        let p4 = m.ents[4].prose;
        assert(p4 =~= Seq::<(ProseType, ProseM)>::empty().push(
            (
                ProseType::Room,
                ProseM::Fixed(
                    "The trail crosses a small stream here.  You can go east or west."@,
                ),
            ),
        ));
        assert(p4[0].0 == ProseType::Room);
        assert(assoc_prose(p4, ProseType::Room) == Some(
            ProseM::Fixed("The trail crosses a small stream here.  You can go east or west."@),
        ));
        let p6 = m.ents[6].prose;
        assert(p6 =~= Seq::<(ProseType, ProseM)>::empty().push(
            (ProseType::Thing, ProseM::Hook(ProseHookTag::NoteThing)),
        ).push((ProseType::Book, ProseM::Hook(ProseHookTag::NoteBook))));
        assert(p6[0] == (ProseType::Thing, ProseM::Hook(ProseHookTag::NoteThing)));
        assert(assoc_prose(p6, ProseType::Thing) == Some(ProseM::Hook(ProseHookTag::NoteThing)));
        assert(p6.drop_first() =~= Seq::<(ProseType, ProseM)>::empty().push(
            (ProseType::Book, ProseM::Hook(ProseHookTag::NoteBook)),
        ));
        assert(p6.drop_first()[0] == (ProseType::Book, ProseM::Hook(ProseHookTag::NoteBook)));
        assert(assoc_prose(p6.drop_first(), ProseType::Book) == Some(
            ProseM::Hook(ProseHookTag::NoteBook),
        ));
        assert(assoc_prose(p6, ProseType::Book) == Some(ProseM::Hook(ProseHookTag::NoteBook)));
        let h6 = m.ents[6].hooks;
        assert(h6 =~= Seq::<(EventKind, EventHookTag)>::empty().push(
            (EventKind::GetThing, EventHookTag::NoteGet),
        ));
        assert(h6[0] == (EventKind::GetThing, EventHookTag::NoteGet));
        assert(assoc_hook(h6, EventKind::GetThing) == Some(EventHookTag::NoteGet));
        // flags and locations
        assert(m.flags_of(1) =~= Seq::<Flag>::empty().push(Flag::DirtyHands).push(
            Flag::Seen(2),
        ));
        assert(m.flags_of(1) =~= seq![Flag::DirtyHands, Flag::Seen(2)]);
        assert(m.flags_of(1)[1] == Flag::Seen(2));
        assert(m.has_flag(1, Flag::Seen(2)));
        assert(m.flags_of(4) =~= Seq::<Flag>::empty().push(Flag::HasWater));
        assert(m.flags_of(4)[0] == Flag::HasWater);
        assert(m.has_flag(4, Flag::HasWater));
        assert(m.flags_of(5) =~= Seq::<Flag>::empty().push(Flag::Scenery));
        assert(m.flags_of(5)[0] == Flag::Scenery);
        assert(m.has_flag(5, Flag::Scenery));
        assert(m.flags_of(6) =~= Seq::<Flag>::empty());
        assert(m.loc_of(1) == 2);
        assert(m.loc_of(5) == 4);
        assert(m.loc_of(6) == 2);
        // the rule components, exactly
        assert(m.ents[7].rule is Some);
        assert(m.rule_of(7).pred == Predicate::ClockIs(2));
        assert(m.rule_of(7).once_only && !m.rule_of(7).fired);
        assert(m.rule_of(7).actions =~= seq![
            ActM::Print(
                "You don't know where you are.  You don't even know where you want to\nbe.  All you know is that your feet are wet, your hands are dirty,\nand gosh, this doesn't look anything like the toy aisle."@,
            ),
        ]);
        assert(m.ents[8].rule is Some);
        assert(m.rule_of(8).pred == Predicate::HasFlag(1, Flag::Dead));
        assert(!m.rule_of(8).once_only && !m.rule_of(8).fired);
        assert(m.rule_of(8).actions =~= seq![
            ActM::Print(
                "A fairy godmother hovers over your limp body.  She frowns;\nthen, apparently against her better judgment, she waves\nher wand.  There's a flash, and she disappears.\n||*** You are alive! ***"@,
            ),
            ActM::ClearFlag(1, Flag::Dead),
        ]);
        // rules exist nowhere else
        assert forall|x: int| m.valid(x) && #[trigger] m.is_rule(x) implies x == 7 || x == 8 by {
            if x == 0 {
                assert(m.ents[0].rule is None);
            } else if x == 1 {
                assert(m.ents[1].rule is None);
            } else if x == 2 {
                assert(m.ents[2].rule is None);
            } else if x == 3 {
                assert(m.ents[3].rule is None);
            } else if x == 4 {
                assert(m.ents[4].rule is None);
            } else if x == 5 {
                assert(m.ents[5].rule is None);
            } else if x == 6 {
                assert(m.ents[6].rule is None);
            }
        }
    }
    world
}

} // verus!
