use fable::player_control::{self, Reply};
use fable::prose::resolve;
use fable::rule;
use fable::scenario;
use fable::types::{Flag, ProseType};
use fable::world::{EntityProto, World};

fn say(w: &mut fable::world::World, line: &str) -> String {
    let toks: Vec<String> = line.split_whitespace().map(|t| t.to_string()).collect();
    match player_control::system(w, &toks) {
        Reply::Text(s) => s,
        Reply::Quit(_) => panic!("unexpected quit"),
    }
}

fn turn(w: &mut fable::world::World) -> Vec<String> {
    w.tick();
    rule::system(w).unwrap()
}

#[test]
fn scenario_script() {
    let mut w = scenario::build();
    let pid = w.player_id();
    let note = w.lookup_id("note").unwrap();
    let bridge = w.lookup_id("bridge").unwrap();

    // The clearing, with its plain description and the note in sight.
    let seen = say(&mut w, "look");
    assert_eq!(
        seen.as_str(),
        "Clearing\nA wide spot in the woods.  You can go east.\nYou see: note."
    );
    assert!(turn(&mut w).is_empty());

    // The note reads as a welcome while it is clean; picking it up with
    // dirty hands soils it and its readable contents change.
    let before = resolve(&w, note, ProseType::Book).unwrap();
    assert!(before.as_str().starts_with("Welcome, dear friend."));
    let taken = say(&mut w, "get note");
    assert_eq!(
        taken.as_str(),
        "Taken.\nThe dirt from your hands got all over the note."
    );
    assert!(w.has_flag(note, Flag::Dirty));
    let after = resolve(&w, note, ProseType::Book).unwrap();
    assert_eq!(after.as_str(), "You've gotten it too dirty to read.");
    assert_ne!(before, after);

    // At turn two exactly, the backstory rule fires, once.
    let story = turn(&mut w);
    assert_eq!(w.clock(), 2);
    assert_eq!(story.len(), 1);
    assert!(story[0].starts_with("You don't know where you are."));

    // Moving east reveals the trail, then the bridge.
    let trail_text = say(&mut w, "e");
    assert_eq!(
        trail_text.as_str(),
        "Trail\nA trail from hither to yon.  You can go east or west."
    );
    assert!(turn(&mut w).is_empty());
    let bridge_text = say(&mut w, "east");
    assert_eq!(
        bridge_text.as_str(),
        "Bridge\nThe trail crosses a small stream here.  You can go east or west."
    );
    assert!(w.has_flag(bridge, Flag::HasWater));
    assert!(turn(&mut w).is_empty());

    // Washing hands at the water clears the dirty-hands flag set at the
    // start of the game.
    assert!(w.has_flag(pid, Flag::DirtyHands));
    let washed = say(&mut w, "wash hands");
    assert_eq!(
        washed.as_str(),
        "You wash your hands in the water. They look much cleaner."
    );
    assert!(!w.has_flag(pid, Flag::DirtyHands));
    let washed_again = say(&mut w, "wash hands");
    assert_eq!(washed_again.as_str(), "You wash your hands in the water.");
}

#[test]
fn washing_needs_water() {
    let mut w = scenario::build();
    let reply = say(&mut w, "wash hands");
    assert_eq!(reply.as_str(), "That'd be a neat trick.");
    let reply2 = say(&mut w, "wash feet");
    assert_eq!(reply2.as_str(), "Whatever for?");
}

#[test]
fn prose_is_resolved_lazily_and_deterministically() {
    let mut w = scenario::build();
    let pid = w.player_id();
    // Two resolutions with no intervening change agree.
    let a = resolve(&w, pid, ProseType::Thing).unwrap();
    let b = resolve(&w, pid, ProseType::Thing).unwrap();
    assert_eq!(a, b);
    assert_eq!(
        a.as_str(),
        "You've got all the usual bits.\nYour hands are kind of dirty, though."
    );
    // A flag change the producer inspects shows up at the next query.
    w.clear_flag(pid, Flag::DirtyHands);
    let c = resolve(&w, pid, ProseType::Thing).unwrap();
    assert_eq!(
        c.as_str(),
        "You've got all the usual bits.\nPlus, they're clean bits!"
    );
    assert_ne!(a, c);
}

#[test]
fn examine_self_reflects_hands() {
    let mut w = scenario::build();
    let dirty = say(&mut w, "x me");
    assert!(dirty.ends_with("Your hands are kind of dirty, though."));
    let missing = say(&mut w, "x walrus");
    assert_eq!(missing.as_str(), "You don't see any such thing.");
}

#[test]
fn visibility_prefers_carried_items() {
    let mut w = World::new();
    let pid = w.create(EntityProto::new("self").player());
    w.set_player_id(pid);
    let room = w.create(EntityProto::new("yard").room("Yard"));
    let carried = w.create(EntityProto::new("rock-a").thing("rock"));
    let scenery = w.create(EntityProto::new("rock-b").thing("rock").flag(Flag::Scenery));
    w.put_in(pid, room);
    w.put_in(carried, pid);
    w.put_in(scenery, room);
    assert_eq!(w.find_visible_thing("rock"), Some(carried));
    assert_eq!(w.find_in_scenery(room, "rock"), Some(scenery));
}

#[test]
fn get_and_drop_round_trip() {
    let mut w = scenario::build();
    let note = w.lookup_id("note").unwrap();
    let clearing = w.lookup_id("clearing").unwrap();
    assert_eq!(say(&mut w, "get walrus").as_str(), "You don't see any such thing.");
    say(&mut w, "get note");
    assert_eq!(w.loc(note), w.player_id());
    assert_eq!(say(&mut w, "get note").as_str(), "You already have it.");
    assert_eq!(say(&mut w, "drop note").as_str(), "Dropped.");
    assert_eq!(w.loc(note), clearing);
    assert_eq!(say(&mut w, "drop note").as_str(), "You aren't carrying that.");
}

#[test]
fn scenery_cannot_be_taken() {
    let mut w = scenario::build();
    say(&mut w, "e");
    say(&mut w, "e");
    assert_eq!(say(&mut w, "get stream").as_str(), "You can't take that!");
    let glance = say(&mut w, "x stream");
    assert!(glance.starts_with("The stream comes from the north"));
}

#[test]
fn going_nowhere_is_refused() {
    let mut w = scenario::build();
    assert_eq!(say(&mut w, "w").as_str(), "You can't go that way.");
    assert_eq!(say(&mut w, "dance").as_str(), "I don't understand.");
}

#[test]
fn revisited_rooms_describe_briefly() {
    let mut w = scenario::build();
    say(&mut w, "e");
    say(&mut w, "w");
    // The clearing was seen at the start of the game, so coming back shows
    // only its name (the note is still there and listed).
    let back = say(&mut w, "look");
    assert!(back.starts_with("Clearing\nA wide spot"));
    let again = say(&mut w, "e");
    assert_eq!(again.as_str(), "Trail");
}

#[test]
fn fairy_godmother_revives_the_player() {
    let mut w = scenario::build();
    let pid = w.player_id();
    w.set_flag(pid, Flag::Dead);
    let out = turn(&mut w);
    assert_eq!(out.len(), 1);
    assert!(out[0].starts_with("A fairy godmother hovers"));
    assert!(!w.has_flag(pid, Flag::Dead));
    // Killed again on a later turn: the rule is perpetual and fires again.
    // (This turn is the second, so the backstory rule speaks up too.)
    w.set_flag(pid, Flag::Dead);
    let out2 = turn(&mut w);
    assert!(out2.iter().any(|t| t.starts_with("A fairy godmother hovers")));
    assert!(!w.has_flag(pid, Flag::Dead));
}

#[test]
fn inventory_listing() {
    let mut w = scenario::build();
    assert_eq!(say(&mut w, "i").as_str(), "You aren't carrying anything.");
    say(&mut w, "get note");
    assert_eq!(say(&mut w, "inventory").as_str(), "You have: note.");
}
