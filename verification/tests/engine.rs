use fable::model::{Action, Predicate};
use fable::player_control::{cmd_dump, Reply};
use fable::rule;
use fable::types::{Dir, Flag, LinkDest, ProseBuffer, ProseType};
use fable::world::{EntityProto, World};

fn mini_world() -> (World, usize, usize) {
    let mut w = World::new();
    let pid = w.create(EntityProto::new("self").player());
    w.set_player_id(pid);
    let room = w.create(EntityProto::new("den").room("Den").prose(ProseType::Room, "A den."));
    w.put_in(pid, room);
    (w, pid, room)
}

#[test]
fn flag_set_and_query() {
    let (mut w, pid, _room) = mini_world();
    assert!(!w.has_flag(pid, Flag::Dead));
    w.set_flag(pid, Flag::Dead);
    assert!(w.has_flag(pid, Flag::Dead));
    w.clear_flag(pid, Flag::Dead);
    assert!(!w.has_flag(pid, Flag::Dead));
}

#[test]
fn flag_idempotence_observed() {
    let (mut w, pid, room) = mini_world();
    w.set_flag(pid, Flag::Seen(room));
    let before = w.has_flag(pid, Flag::Seen(room));
    w.set_flag(pid, Flag::Seen(room));
    assert_eq!(before, w.has_flag(pid, Flag::Seen(room)));
    assert!(w.has_flag(pid, Flag::Seen(room)));
    w.clear_flag(pid, Flag::Dirty);
    assert!(!w.has_flag(pid, Flag::Dirty));
    assert!(w.has_flag(pid, Flag::Seen(room)));
}

#[test]
fn parameterized_flags_are_distinct() {
    let (mut w, pid, room) = mini_world();
    w.set_flag(pid, Flag::Seen(room));
    assert!(w.has_flag(pid, Flag::Seen(room)));
    assert!(!w.has_flag(pid, Flag::Seen(pid)));
    assert!(!w.has_flag(pid, Flag::User(7)));
    w.set_flag(pid, Flag::User(7));
    assert!(w.has_flag(pid, Flag::User(7)));
    assert!(!w.has_flag(pid, Flag::User(8)));
}

#[test]
fn containment_transfer_keeps_one_home() {
    let (mut w, pid, room) = mini_world();
    let rock = w.create(EntityProto::new("rock").thing("rock"));
    assert_eq!(w.loc(rock), fable::types::LIMBO);
    w.put_in(rock, room);
    assert_eq!(w.loc(rock), room);
    assert!(w.contents(room).contains(&rock));
    assert!(!w.contents(fable::types::LIMBO).contains(&rock));
    w.take_out(rock, room);
    w.put_in(rock, pid);
    assert_eq!(w.loc(rock), pid);
    assert!(w.contents(pid).contains(&rock));
    assert!(!w.contents(room).contains(&rock));
}

#[test]
fn lookup_by_tag() {
    let (w, pid, room) = mini_world();
    assert_eq!(w.lookup_id("self"), Some(pid));
    assert_eq!(w.lookup_id("den"), Some(room));
    assert_eq!(w.lookup_id("attic"), None);
}

#[test]
fn links_and_dead_ends() {
    let (mut w, _pid, room) = mini_world();
    let barn = w.create(EntityProto::new("barn").room("Barn").prose(ProseType::Room, "A barn."));
    w.twoway(room, Dir::North, Dir::South, barn);
    assert_eq!(w.follow(room, Dir::North), Some(barn));
    assert_eq!(w.follow(barn, Dir::South), Some(room));
    assert_eq!(w.follow(room, Dir::East), None);
    w.add_link(room, Dir::Up, LinkDest::DeadEnd("The ceiling is in the way.".to_string()));
    assert_eq!(w.follow(room, Dir::Up), None);
    match w.follow_link(room, Dir::Up) {
        Some(LinkDest::DeadEnd(s)) => assert_eq!(s.as_str(), "The ceiling is in the way."),
        _ => panic!("expected a dead end"),
    }
}

#[test]
fn once_only_rule_fires_exactly_once() {
    let (mut w, _pid, _room) = mini_world();
    w.create(
        EntityProto::new("greeter")
            .once(Predicate::ClockIs(1))
            .action(Action::Print("hello".to_string())),
    );
    w.tick();
    assert_eq!(w.clock(), 1);
    let out1 = rule::system(&mut w).unwrap();
    assert_eq!(out1, vec!["hello".to_string()]);
    // The predicate still holds on the next evaluation; the rule must not
    // fire again.
    let out2 = rule::system(&mut w).unwrap();
    assert!(out2.is_empty());
}

#[test]
fn perpetual_rule_fires_each_eligible_turn() {
    let (mut w, pid, _room) = mini_world();
    w.create(
        EntityProto::new("guardian")
            .always(Predicate::HasFlag(pid, Flag::Dead))
            .action(Action::Print("revived".to_string()))
            .action(Action::ClearFlag(pid, Flag::Dead)),
    );
    let quiet = rule::system(&mut w).unwrap();
    assert!(quiet.is_empty());
    w.set_flag(pid, Flag::Dead);
    let out1 = rule::system(&mut w).unwrap();
    assert_eq!(out1, vec!["revived".to_string()]);
    assert!(!w.has_flag(pid, Flag::Dead));
    w.set_flag(pid, Flag::Dead);
    let out2 = rule::system(&mut w).unwrap();
    assert_eq!(out2, vec!["revived".to_string()]);
    assert!(!w.has_flag(pid, Flag::Dead));
}

#[test]
fn swap_action_exchanges_places() {
    let (mut w, pid, room) = mini_world();
    let statue = w.create(EntityProto::new("statue").thing("statue"));
    let hero = w.create(EntityProto::new("hero").thing("hero"));
    w.put_in(statue, room);
    w.create(
        EntityProto::new("petrify")
            .once(Predicate::HasFlag(pid, Flag::User(1)))
            .action(Action::Swap(statue, hero)),
    );
    w.set_flag(pid, Flag::User(1));
    let out = rule::system(&mut w).unwrap();
    assert!(out.is_empty());
    assert_eq!(w.loc(statue), fable::types::LIMBO);
    assert_eq!(w.loc(hero), room);
}

#[test]
fn prose_buffer_marks() {
    let mut b = ProseBuffer::new();
    b.puts("One.");
    b.puts("Two.");
    b.newline();
    b.put_raw("Three");
    b.para();
    assert_eq!(b.get().as_str(), "One.\nTwo.|Three||");
}

#[test]
fn prose_buffer_skips_separator_after_break() {
    let mut b = ProseBuffer::new();
    b.puts("Hello");
    b.newline();
    b.puts("there");
    assert_eq!(b.get().as_str(), "Hello|there");
}

#[test]
fn dump_parses_identities() {
    let (w, _pid, _room) = mini_world();
    assert_eq!(cmd_dump(&w, "1").unwrap().as_str(), "self (self)");
    assert_eq!(cmd_dump(&w, "den").unwrap_err().as_str(), "Not an ID: den");
    assert_eq!(cmd_dump(&w, "99").unwrap_err().as_str(), "Out of range: 99");
}

#[test]
fn out_of_range_get_is_an_error() {
    let (w, _pid, _room) = mini_world();
    assert!(w.get(2).is_ok());
    assert!(w.get(77).is_err());
}

#[test]
fn quit_is_a_reply_not_an_exit() {
    let (mut w, _pid, _room) = mini_world();
    let toks = vec!["quit".to_string()];
    match fable::player_control::system(&mut w, &toks) {
        Reply::Quit(s) => assert_eq!(s.as_str(), "Bye, then."),
        Reply::Text(_) => panic!("quit must end the loop"),
    }
}
