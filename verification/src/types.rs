//! Basic vocabulary of the engine: identities, directions, flags, events,
//! prose kinds, link destinations, and the prose output buffer.

use vstd::prelude::*;
use vstd::string::StrSliceExecFns;
use vstd::string::StringExecFns;

verus! {

/// The identity of an entity: an index into the world's entity store,
/// assigned in creation order and never reused.
pub type ID = usize;

/// The reserved "nowhere" container.  It is created with the world and
/// holds every entity that is out of play.
pub const LIMBO: ID = 0;

/// Game time, in whole turns.
pub type Time = usize;

/// Directions a room link can point in.
#[derive(PartialEq, Eq, Structural, Clone, Copy, Debug)]
pub enum Dir {
    North,
    South,
    East,
    West,
    Up,
    Down,
    In,
    Out,
}

/// The kinds of prose an entity can carry.
#[derive(PartialEq, Eq, Structural, Clone, Copy, Debug)]
pub enum ProseType {
    /// Prose describing a room's interior.
    Room,
    /// Prose describing a thing's visible appearance.
    Thing,
    /// The readable contents of a book, note, and the like.
    Book,
    /// The prose description of a thing as scenery in a container.
    Scenery,
}

/// Flags: tagged markers of state on an entity, some parameterized by a
/// related entity's identity.
#[derive(PartialEq, Eq, Structural, Clone, Copy, Debug)]
pub enum Flag {
    /// This rule should fire at most once.
    FireOnce,
    /// This rule has fired at least once.
    Fired,
    /// The entity has been killed.
    Dead,
    /// The entity has seen the location with the given identity.
    Seen(ID),
    /// The thing cannot be picked up.
    Immovable,
    /// The thing appears in its container's description rather than in
    /// inventory listings.
    Scenery,
    /// The thing has been soiled.
    Dirty,
    /// The entity's hands are dirty.
    DirtyHands,
    /// The place offers water to wash in.
    HasWater,
    /// A generic scenario flag, keyed by a small code.
    User(u64),
    /// A generic scenario flag carrying a related identity.
    UserId(u64, ID),
}

/// Things that can happen in the game, to which hooks can be attached.
#[derive(PartialEq, Eq, Structural, Clone, Copy, Debug)]
pub enum Event {
    /// A game turn has elapsed.
    Turn,
    /// EnterRoom(player, room): a player has entered a room.
    EnterRoom(ID, ID),
    /// GetThing(player, thing): a player has picked up a thing.
    GetThing(ID, ID),
    /// ReadThing(player, thing): a player has read a thing's Book prose.
    ReadThing(ID, ID),
}

/// The kind of an event, used to key hook registrations.
#[derive(PartialEq, Eq, Structural, Clone, Copy, Debug)]
pub enum EventKind {
    Turn,
    EnterRoom,
    GetThing,
    ReadThing,
}

/// The kind of the given event.
pub open spec fn spec_kind_of(ev: Event) -> EventKind {
    match ev {
        Event::Turn => EventKind::Turn,
        Event::EnterRoom(_, _) => EventKind::EnterRoom,
        Event::GetThing(_, _) => EventKind::GetThing,
        Event::ReadThing(_, _) => EventKind::ReadThing,
    }
}

/// Exec twin of [`spec_kind_of`].
pub fn kind_of(ev: Event) -> (r: EventKind)
    ensures
        r == spec_kind_of(ev),
{
    match ev {
        Event::Turn => EventKind::Turn,
        Event::EnterRoom(_, _) => EventKind::EnterRoom,
        Event::GetThing(_, _) => EventKind::GetThing,
        Event::ReadThing(_, _) => EventKind::ReadThing,
    }
}

/// The destination of a room link.
#[derive(Debug)]
pub enum LinkDest {
    /// The link goes to another room.
    Room(ID),
    /// The link is a dead end; the string is the prose shown to the player.
    DeadEnd(String),
}

/// The registered producers of dynamically computed prose.  Prose producers
/// are stored as data and interpreted when the prose is resolved, so a slot
/// always reflects the world state at the moment of the query.
#[derive(PartialEq, Eq, Structural, Clone, Copy, Debug)]
pub enum ProseHookTag {
    /// The player's appearance, which depends on the state of their hands.
    PlayerVisual,
    /// The note's appearance, which depends on whether it has been soiled.
    NoteThing,
    /// The note's readable contents, likewise.
    NoteBook,
}

/// The registered event callbacks, stored as data and interpreted at
/// dispatch time.
#[derive(PartialEq, Eq, Structural, Clone, Copy, Debug)]
pub enum EventHookTag {
    /// Soils the note when the player picks it up with dirty hands.
    NoteGet,
}

/// A prose slot: a fixed string, or a producer interpreted at query time.
#[derive(Debug)]
pub enum ProseSource {
    Fixed(String),
    Hook(ProseHookTag),
}

/// Authoring-facing fatal errors: conditions a correctly built scenario
/// never produces, surfaced loudly rather than corrupting the world.
#[derive(PartialEq, Eq, Structural, Clone, Copy, Debug)]
pub enum EngineError {
    /// An identity that was never allocated.
    OutOfRange,
    /// A rule action whose precondition did not hold when it ran.
    RuleActionFailed,
}

/// A character that ends a sentence boundary for the prose buffer: plain
/// ASCII whitespace, or the buffer's own line-break mark `|`.  The check
/// is deliberately narrower than full Unicode whitespace: everything the
/// engine ever appends stays within this alphabet.
pub open spec fn is_break_char(c: char) -> bool {
    c == ' ' || c == '\n' || c == '\t' || c == '\r' || c == '|'
}

/// Whether text appended to `s` needs a separator before it.
pub open spec fn needs_sep(s: Seq<char>) -> bool {
    s.len() > 0 && !is_break_char(s.last())
}

/// The separator [`ProseBuffer::puts`] inserts before a new sentence.
pub open spec fn spec_sep(s: Seq<char>) -> Seq<char> {
    if needs_sep(s) {
        seq!['\n']
    } else {
        Seq::empty()
    }
}

/// A buffer for building up strings of prose.  The built-up string uses a
/// light console mark-up: `|` is a line break and `||` a paragraph break.
pub struct ProseBuffer {
    buff: String,
}

impl View for ProseBuffer {
    type V = Seq<char>;

    closed spec fn view(&self) -> Seq<char> {
        self.buff@
    }
}

impl ProseBuffer {
    /// Creates an empty buffer.
    pub fn new() -> (r: Self)
        ensures
            r@ == Seq::<char>::empty(),
    {
        Self { buff: String::new() }
    }

    /// Adds a sentence to the buffer, separating it from previous text with
    /// a line break if the buffer does not already end at a boundary.
    pub fn puts(&mut self, text: &str)
        ensures
            final(self)@ == old(self)@ + spec_sep(old(self)@) + text@,
    {
        self.add_white_space_if_needed();
        self.put_raw(text);
        proof {
            assert(self@ =~= old(self)@ + spec_sep(old(self)@) + text@);
        }
    }

    /// Adds a line break to the buffer.
    pub fn newline(&mut self)
        ensures
            final(self)@ == old(self)@ + "|"@,
    {
        self.buff.append("|");
    }

    /// Adds a paragraph break to the buffer.
    pub fn para(&mut self)
        ensures
            final(self)@ == old(self)@ + "||"@,
    {
        self.buff.append("||");
    }

    /// Adds text to the buffer, with no special handling.
    pub fn put_raw(&mut self, text: &str)
        ensures
            final(self)@ == old(self)@ + text@,
    {
        self.buff.append(text);
    }

    /// Converts the buffer to a string.
    pub fn get(&self) -> (r: String)
        ensures
            r@ == self@,
    {
        self.buff.clone()
    }

    /// Adds a separating line break before a new sentence, if needed.
    fn add_white_space_if_needed(&mut self)
        ensures
            final(self)@ == old(self)@ + spec_sep(old(self)@),
    {
        let len = self.buff.as_str().unicode_len();
        if len > 0 {
            let last_char = self.buff.as_str().get_char(len - 1);
            let brk = last_char == ' ' || last_char == '\n' || last_char == '\t' || last_char
                == '\r' || last_char == '|';
            if !brk {
                proof {
                    reveal_strlit("\n");
                }
                self.buff.append("\n");
                proof {
                    assert(self@ =~= old(self)@ + spec_sep(old(self)@));
                }
            } else {
                proof {
                    assert(self@ =~= old(self)@ + spec_sep(old(self)@));
                }
            }
        } else {
            proof {
                assert(self@ =~= old(self)@ + spec_sep(old(self)@));
            }
        }
    }
}

} // verus!
