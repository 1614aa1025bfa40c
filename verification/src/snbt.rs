//! Structures written out as text.
//!
//! The text is followed here byte by byte, as far as it takes to tell that its reader
//! comes to an end: brackets must close in order, they must not nest too deep, and a
//! backslash must not stand where the reader would be led out of a character.

use vstd::prelude::*;

verus! {

/// How deep brackets may nest: deeper text is turned down before it is read.
pub const MAX_BRACKETS: usize = 64;

/// How far a text has been followed.
pub struct Place {
    /// The brackets that are open, compounds as `true` and lists as `false`.
    pub open: Seq<bool>,
    /// The quotation mark that is open, or zero.
    pub quote: u8,
    /// The byte before was a backslash that takes this one along.
    pub escaped: bool,
    /// A key or a value has yet to begin.
    pub fresh: bool,
    /// The key of this entry is behind.
    pub valued: bool,
}

/// What one more byte leads to.
pub enum Turn {
    /// The text goes on from there.
    On(Place),
    /// The reader stops, or turns the text down.
    Done,
    /// The reader may be led astray.
    Wild,
}

/// The byte parts words without being one.
pub open spec fn is_blank(byte: u8) -> bool {
    9 <= byte <= 10 || 12 <= byte <= 13 || byte == 32
}

/// The byte opens and closes a quotation.
pub open spec fn is_quote(byte: u8) -> bool {
    byte == 34 || byte == 39
}

/// A bracket opens at a place.
pub open spec fn opened(place: Place, compound: bool) -> Turn {
    if place.open.len() >= MAX_BRACKETS {
        Turn::Done
    } else {
        Turn::On(
            Place {
                open: place.open.push(compound),
                quote: 0,
                escaped: false,
                fresh: true,
                valued: false,
            },
        )
    }
}

/// The innermost bracket closes at a place.
pub open spec fn closed_at(place: Place) -> Turn {
    if place.open.len() <= 1 {
        Turn::Done
    } else {
        Turn::On(Place { open: place.open.drop_last(), fresh: false, valued: true, ..place })
    }
}

/// One more byte inside a quotation.
pub open spec fn quoted_turn(place: Place, byte: u8) -> Turn {
    if place.escaped {
        if byte < 0xE0 {
            Turn::On(Place { escaped: false, ..place })
        } else {
            Turn::Wild
        }
    } else if byte == 92 {
        Turn::On(Place { escaped: true, ..place })
    } else if byte != place.quote {
        Turn::On(place)
    } else if place.open.len() == 0 {
        Turn::Done
    } else {
        Turn::On(Place { quote: 0, ..place })
    }
}

/// One more byte before the first bracket.
pub open spec fn outer_turn(place: Place, byte: u8) -> Turn {
    if byte == 123 {
        opened(place, true)
    } else if is_quote(byte) {
        Turn::On(Place { quote: byte, fresh: false, ..place })
    } else {
        Turn::Done
    }
}

/// One more byte that separates: a comma, a colon or a closing bracket.
pub open spec fn parting_turn(place: Place, byte: u8) -> Turn {
    let compound = place.open.last();
    if byte == 44 {
        if !compound || (place.valued != place.fresh) {
            Turn::On(Place { fresh: true, valued: false, ..place })
        } else if place.valued {
            Turn::Done
        } else {
            Turn::Wild
        }
    } else if byte == 58 {
        if place.fresh {
            Turn::Done
        } else if compound && !place.valued {
            Turn::On(Place { fresh: true, valued: true, ..place })
        } else {
            Turn::On(place)
        }
    } else if (byte == 125) == compound {
        if !compound || (place.valued != place.fresh) {
            closed_at(place)
        } else if place.valued {
            Turn::Done
        } else {
            Turn::Wild
        }
    } else if place.fresh {
        Turn::Done
    } else {
        Turn::Wild
    }
}

/// One more byte.
pub open spec fn turn(place: Place, byte: u8) -> Turn {
    if place.quote != 0 {
        quoted_turn(place, byte)
    } else if is_blank(byte) {
        Turn::On(place)
    } else if place.open.len() == 0 {
        outer_turn(place, byte)
    } else if byte == 44 || byte == 58 || byte == 93 || byte == 125 {
        parting_turn(place, byte)
    } else if byte == 92 {
        Turn::Wild
    } else if is_quote(byte) {
        if place.fresh {
            Turn::On(Place { quote: byte, fresh: false, ..place })
        } else {
            Turn::Wild
        }
    } else if byte == 91 || byte == 123 {
        if place.fresh {
            if place.open.last() && !place.valued {
                Turn::Done
            } else {
                opened(place, byte == 123)
            }
        } else {
            Turn::Wild
        }
    } else {
        Turn::On(Place { fresh: false, ..place })
    }
}

/// The text from an offset on leads its reader nowhere.
pub open spec fn is_calm_from(text: Seq<u8>, at: int, place: Place) -> bool
    decreases text.len() - at,
{
    if at >= text.len() {
        true
    } else {
        match turn(place, text[at]) {
            Turn::On(next) => is_calm_from(text, at + 1, next),
            Turn::Done => true,
            Turn::Wild => false,
        }
    }
}

/// The place before any text.
pub open spec fn start() -> Place {
    Place { open: Seq::empty(), quote: 0, escaped: false, fresh: true, valued: false }
}

/// A text does not lead its reader astray: every bracket it opens nests in order, and no
/// backslash stands where the reader would step into the middle of a character.
pub open spec fn is_calm(text: Seq<u8>) -> bool {
    is_calm_from(text, 0, start())
}

/// A place, as it is kept while a text is followed.
struct Follower {
    open: Vec<bool>,
    quote: u8,
    escaped: bool,
    fresh: bool,
    valued: bool,
}

/// What one more byte led to.
enum Step {
    On,
    Done,
    Wild,
}

impl Follower {
    spec fn place(self) -> Place {
        Place {
            open: self.open@,
            quote: self.quote,
            escaped: self.escaped,
            fresh: self.fresh,
            valued: self.valued,
        }
    }
}

/// The step says what the byte led to.
spec fn steps(step: Step, after: Place, wanted: Turn) -> bool {
    match wanted {
        Turn::On(next) => step is On && after == next,
        Turn::Done => step is Done,
        Turn::Wild => step is Wild,
    }
}

fn open_bracket(follower: &mut Follower, compound: bool) -> (r: Step)
    requires
        old(follower).quote == 0,
        !old(follower).escaped,
    ensures
        steps(r, final(follower).place(), opened(old(follower).place(), compound)),
{
    if follower.open.len() >= MAX_BRACKETS {
        return Step::Done;
    }
    follower.open.push(compound);
    follower.fresh = true;
    follower.valued = false;
    Step::On
}

fn close_bracket(follower: &mut Follower) -> (r: Step)
    ensures
        steps(r, final(follower).place(), closed_at(old(follower).place())),
{
    if follower.open.len() <= 1 {
        return Step::Done;
    }
    follower.open.pop();
    follower.fresh = false;
    follower.valued = true;
    Step::On
}

fn step_quoted(follower: &mut Follower, byte: u8) -> (r: Step)
    ensures
        steps(r, final(follower).place(), quoted_turn(old(follower).place(), byte)),
{
    if follower.escaped {
        if byte < 0xE0 {
            follower.escaped = false;
            Step::On
        } else {
            Step::Wild
        }
    } else if byte == 92 {
        follower.escaped = true;
        Step::On
    } else if byte != follower.quote {
        Step::On
    } else if follower.open.len() == 0 {
        Step::Done
    } else {
        follower.quote = 0;
        Step::On
    }
}

fn step_parting(follower: &mut Follower, byte: u8) -> (r: Step)
    requires
        old(follower).open@.len() > 0,
    ensures
        steps(r, final(follower).place(), parting_turn(old(follower).place(), byte)),
{
    let compound = follower.open[follower.open.len() - 1];
    if byte == 44 {
        if !compound || follower.valued != follower.fresh {
            follower.fresh = true;
            follower.valued = false;
            Step::On
        } else if follower.valued {
            Step::Done
        } else {
            Step::Wild
        }
    } else if byte == 58 {
        if follower.fresh {
            Step::Done
        } else if compound && !follower.valued {
            follower.fresh = true;
            follower.valued = true;
            Step::On
        } else {
            Step::On
        }
    } else if (byte == 125) == compound {
        if !compound || follower.valued != follower.fresh {
            close_bracket(follower)
        } else if follower.valued {
            Step::Done
        } else {
            Step::Wild
        }
    } else if follower.fresh {
        Step::Done
    } else {
        Step::Wild
    }
}

fn step(follower: &mut Follower, byte: u8) -> (r: Step)
    requires
        old(follower).quote == 0 ==> !old(follower).escaped,
    ensures
        steps(r, final(follower).place(), turn(old(follower).place(), byte)),
        r is On ==> (final(follower).quote == 0 ==> !final(follower).escaped),
{
    let quoting = byte == 34 || byte == 39;
    if follower.quote != 0 {
        step_quoted(follower, byte)
    } else if (9 <= byte && byte <= 10) || (12 <= byte && byte <= 13) || byte == 32 {
        Step::On
    } else if follower.open.len() == 0 {
        if byte == 123 {
            open_bracket(follower, true)
        } else if quoting {
            follower.quote = byte;
            follower.fresh = false;
            Step::On
        } else {
            Step::Done
        }
    } else if byte == 44 || byte == 58 || byte == 93 || byte == 125 {
        step_parting(follower, byte)
    } else if byte == 92 {
        Step::Wild
    } else if quoting {
        if follower.fresh {
            follower.quote = byte;
            follower.fresh = false;
            Step::On
        } else {
            Step::Wild
        }
    } else if byte == 91 || byte == 123 {
        if follower.fresh {
            if follower.open[follower.open.len() - 1] && !follower.valued {
                Step::Done
            } else {
                open_bracket(follower, byte == 123)
            }
        } else {
            Step::Wild
        }
    } else {
        follower.fresh = false;
        Step::On
    }
}

/// Whether a text does not lead its reader astray.
pub fn tests_calm(text: &[u8]) -> (r: bool)
    ensures
        r == is_calm(text@),
{
    let mut follower = Follower {
        open: Vec::new(),
        quote: 0,
        escaped: false,
        fresh: true,
        valued: false,
    };
    assert(follower.place() == start());
    let mut at: usize = 0;
    while at < text.len()
        invariant
            at <= text@.len(),
            follower.quote == 0 ==> !follower.escaped,
            is_calm(text@) == is_calm_from(text@, at as int, follower.place()),
        decreases text@.len() - at,
    {
        match step(&mut follower, text[at]) {
            Step::On => {},
            Step::Done => {
                return true;
            },
            Step::Wild => {
                return false;
            },
        }
        at = at + 1;
    }
    true
}

/// A text leads its reader nowhere unless it opens a compound or a quotation: any other file,
/// such as a compressed one or a binary document, is calm.
pub proof fn lemma_other_files_are_calm(text: &[u8], r: bool)
    requires
        call_ensures(tests_calm, (text,), r),
        text@.len() > 0,
        text@[0] > 39 && text@[0] != 123 || text@[0] == 31 || text@[0] == 10 && text@.len() > 1
            && text@[1] == 0,
    ensures
        r,
{
    reveal_with_fuel(is_calm_from, 3);
}

} // verus!
