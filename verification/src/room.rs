//! Giving the button that a stack shows the room that its cards need, and working out where it is.
//!
//! The button shrinks on its right and bottom by the reach of its cards, so the cards peeking out
//! from behind it fit inside the space it takes up rather than spilling out past it, where the bar
//! would cut them off.

use vstd::prelude::*;
use vstd::string::StringExecFns;

use crate::slide::Slot;
use crate::text::{
    decimal, decimal_of, digits_value, law_decimal_reads_back, signed, signed_of,
};

verus! {

/// The widths of something on each side of a button.
#[derive(Debug, Clone, Copy, PartialEq, Eq, Structural)]
pub struct Edges {
    pub top: i16,
    pub right: i16,
    pub bottom: i16,
    pub left: i16,
}

/// How far each card behind a stack sits from the one in front of it, both across and down.
pub const CARD_STEP: i32 = 2;

/// The margins and padding that give a button the room its cards need.
#[derive(Debug, Clone, Copy, PartialEq, Eq, Structural)]
pub struct Room {
    pub margin_right: i32,
    pub margin_bottom: i32,
    pub padding_top: i32,
    pub padding_right: i32,
    pub padding_bottom: i32,
    pub padding_left: i32,
}

/// A width with some taken off it, as far as that goes.
pub open spec fn less(width: i16, taken: int) -> int {
    if width - taken < 0 {
        0
    } else {
        width - taken
    }
}

/// The margins and padding for the given number of cards.
pub open spec fn room_for(margin: Edges, padding: Edges, cards: int) -> Room {
    let reach = CARD_STEP * cards;
    let before = reach / 2;
    let after = reach - reach / 2;
    Room {
        margin_right: (margin.right + reach) as i32,
        margin_bottom: (margin.bottom + reach) as i32,
        padding_top: less(padding.top, before) as i32,
        padding_right: less(padding.right, after) as i32,
        padding_bottom: less(padding.bottom, after) as i32,
        padding_left: less(padding.left, before) as i32,
    }
}

/// The style class of a button with room for the given number of cards.
pub open spec fn room_class(cards: int) -> Seq<char> {
    "stack-room-"@ + decimal(cards as nat)
}

/// The rule that gives a button room for the given number of cards.
pub open spec fn room_rule(room: Room, cards: int) -> Seq<char> {
    "button."@ + room_class(cards) + " { margin-right: "@ + signed(room.margin_right as int)
        + "px; margin-bottom: "@ + signed(room.margin_bottom as int) + "px; padding: "@ + signed(
        room.padding_top as int,
    ) + "px "@ + signed(room.padding_right as int) + "px "@ + signed(room.padding_bottom as int)
        + "px "@ + signed(room.padding_left as int) + "px; }\n"@
}

/// The rules that give buttons room for one card, and for two.
pub open spec fn room_css(margin: Edges, padding: Edges) -> Seq<char> {
    room_rule(room_for(margin, padding, 1), 1) + room_rule(room_for(margin, padding, 2), 2)
}

/// Takes some off a width, as far as that goes.
fn take_off(width: i16, taken: i32) -> (r: i32)
    requires
        0 <= taken <= 4,
    ensures
        r == less(width, taken as int),
{
    let left: i32 = width as i32 - taken;
    if left < 0 {
        0
    } else {
        left
    }
}

/// Names the style class of a button with room for the given number of cards.
pub fn class_for(cards: usize) -> (r: String)
    ensures
        r@ == room_class(cards as int),
{
    let mut r: String = "stack-room-".to_owned();
    r.append(decimal_of(cards as u64).as_str());
    r
}

/// Works out the margins and padding for the given number of cards.
///
/// What the margins gain, the padding gives up, split either side, so the button asks for no more
/// room than it did, and its icon stays the same size, in the middle of the smaller box.
fn work_out_room(margin: &Edges, padding: &Edges, cards: i32) -> (r: Room)
    requires
        1 <= cards <= 2,
    ensures
        r == room_for(*margin, *padding, cards as int),
{
    let reach: i32 = CARD_STEP * cards;
    let before: i32 = reach / 2;
    let after: i32 = reach - reach / 2;
    Room {
        margin_right: margin.right as i32 + reach,
        margin_bottom: margin.bottom as i32 + reach,
        padding_top: take_off(padding.top, before),
        padding_right: take_off(padding.right, after),
        padding_bottom: take_off(padding.bottom, after),
        padding_left: take_off(padding.left, before),
    }
}

/// Writes out the rule that gives a button room for the given number of cards.
fn write_rule(room: &Room, cards: usize) -> (r: String)
    ensures
        r@ == room_rule(*room, cards as int),
{
    let mut r: String = "button.".to_owned();
    r.append(class_for(cards).as_str());
    r.append(" { margin-right: ");
    r.append(signed_of(room.margin_right).as_str());
    r.append("px; margin-bottom: ");
    r.append(signed_of(room.margin_bottom).as_str());
    r.append("px; padding: ");
    r.append(signed_of(room.padding_top).as_str());
    r.append("px ");
    r.append(signed_of(room.padding_right).as_str());
    r.append("px ");
    r.append(signed_of(room.padding_bottom).as_str());
    r.append("px ");
    r.append(signed_of(room.padding_left).as_str());
    r.append("px; }\n");
    r
}

/// Writes out the rules that give buttons room for one card, and for two, given the margins and
/// padding that a button has otherwise.
pub fn write_room_css(margin: &Edges, padding: &Edges) -> (r: String)
    ensures
        r@ == room_css(*margin, *padding),
{
    let mut r = write_rule(&work_out_room(margin, padding, 1), 1);
    r.append(write_rule(&work_out_room(margin, padding, 2), 2).as_str());
    r
}

/// What giving a button room for its cards takes.
#[derive(Debug, Clone, Copy, PartialEq, Eq, Structural)]
pub enum RoomStep {
    Nothing,
    /// Swaps the class for the room it had for the one for the room it needs, where none has no
    /// class, having written the rules first if that's yet to be done.
    Change { write: bool },
}

/// What giving a button room for its cards takes.
pub open spec fn room_step(had: usize, cards: usize, written: bool) -> RoomStep {
    if had == cards || (!written && had != 0) {
        RoomStep::Nothing
    } else {
        RoomStep::Change { write: !written }
    }
}

/// Nothing is done for a button that has the room it needs. The rules are written once, ahead of the
/// first change, and from a button that hasn't any room yet.
pub proof fn law_rules_are_written_once(had: usize, cards: usize, written: bool)
    ensures
        room_step(cards, cards, written) == RoomStep::Nothing,
        had != cards ==> room_step(had, cards, true) == (RoomStep::Change { write: false }),
        cards != 0 ==> room_step(0, cards, false) == (RoomStep::Change { write: true }),
        had != 0 ==> room_step(had, cards, false) == RoomStep::Nothing,
{
}

/// Works out what giving a button room for its cards takes, given how many it has room for and
/// whether the rules have been written. They're made from a button that hasn't been given any room
/// yet, so they start from the margins the stylesheet gives.
pub fn make_room(had: usize, cards: usize, written: bool) -> (r: RoomStep)
    ensures
        r == if had == cards || (!written && had != 0) {
            RoomStep::Nothing
        } else {
            RoomStep::Change { write: !written }
        },
        r == room_step(had, cards, written),
{
    if had == cards {
        return RoomStep::Nothing;
    }
    if !written && had != 0 {
        return RoomStep::Nothing;
    }
    RoomStep::Change { write: !written }
}

/// Where a button is in its row, less its margins.
#[derive(Debug, Clone, Copy)]
pub struct Content {
    pub x: i64,
    pub y: i64,
    pub width: i64,
    pub height: i64,
}

/// Where a button is in its row, less its margins, as its x, y, width and height, if there's anything
/// left of it.
pub open spec fn content_of(button: Slot, margin: Edges, row_x: int, row_y: int) -> Option<
    (int, int, int, int),
> {
    let width = button.width - margin.left - margin.right;
    let height = button.height - margin.top - margin.bottom;
    if width > 0 && height > 0 {
        Some((button.x - row_x + margin.left, button.y - row_y + margin.top, width, height))
    } else {
        None
    }
}

/// What's left of a button less its margins goes from its left margin to its right one and from its
/// top margin to its bottom one, wherever the row is, as long as there's anything between them.
pub proof fn law_content_is_within_the_margins(button: Slot, margin: Edges, row_x: int, row_y: int)
    ensures
        content_of(button, margin, row_x, row_y) is Some <==> margin.left + margin.right < button.width
            && margin.top + margin.bottom < button.height,
        content_of(button, margin, row_x, row_y) matches Some((x, y, width, height)) ==> {
            &&& row_x + x == button.x + margin.left
            &&& row_x + x + width == button.x + button.width - margin.right
            &&& row_y + y == button.y + margin.top
            &&& row_y + y + height == button.y + button.height - margin.bottom
        },
{
}

/// Works out where a button is in its row, less its margins, if there's anything left of it.
pub fn content_rect(button: &Slot, margin: &Edges, row_x: i32, row_y: i32) -> (r: Option<Content>)
    ensures
        ({
            let width = button.width - margin.left - margin.right;
            let height = button.height - margin.top - margin.bottom;
            if width > 0 && height > 0 {
                &&& r is Some
                &&& r->0.x == button.x - row_x + margin.left
                &&& r->0.y == button.y - row_y + margin.top
                &&& r->0.width == width
                &&& r->0.height == height
            } else {
                r is None
            }
        }),
        r is Some == content_of(*button, *margin, row_x as int, row_y as int) is Some,
        r is Some ==> (r->0.x as int, r->0.y as int, r->0.width as int, r->0.height as int)
            == content_of(*button, *margin, row_x as int, row_y as int)->0,
{
    let width: i64 = button.width as i64 - margin.left as i64 - margin.right as i64;
    let height: i64 = button.height as i64 - margin.top as i64 - margin.bottom as i64;
    if width > 0 && height > 0 {
        Some(
            Content {
                x: button.x as i64 - row_x as i64 + margin.left as i64,
                y: button.y as i64 - row_y as i64 + margin.top as i64,
                width,
                height,
            },
        )
    } else {
        None
    }
}

/// Giving a button room for its cards leaves it asking for as much as it did, as long as it has the
/// padding to give up.
pub proof fn law_room_comes_out_of_the_padding(margin: Edges, padding: Edges, cards: int)
    requires
        1 <= cards <= 2,
        padding.left >= cards,
        padding.right >= cards,
        padding.top >= cards,
        padding.bottom >= cards,
    ensures
        ({
            let room = room_for(margin, padding, cards);
            &&& margin.left + room.margin_right + room.padding_left + room.padding_right == margin.left
                + margin.right + padding.left + padding.right
            &&& margin.top + room.margin_bottom + room.padding_top + room.padding_bottom == margin.top
                + margin.bottom + padding.top + padding.bottom
        }),
{
}

/// Each card takes two pixels off a button's right and bottom, which go to its margins there, and one
/// off its padding on each side, though never more padding than there is.
pub proof fn law_cards_take_two_pixels(margin: Edges, padding: Edges, cards: int)
    requires
        1 <= cards <= 2,
    ensures
        ({
            let room = room_for(margin, padding, cards);
            &&& room.margin_right == margin.right + 2 * cards
            &&& room.margin_bottom == margin.bottom + 2 * cards
            &&& padding.top >= cards ==> room.padding_top == padding.top - cards
            &&& padding.right >= cards ==> room.padding_right == padding.right - cards
            &&& padding.bottom >= cards ==> room.padding_bottom == padding.bottom - cards
            &&& padding.left >= cards ==> room.padding_left == padding.left - cards
            &&& padding.top < cards ==> room.padding_top == 0
            &&& padding.right < cards ==> room.padding_right == 0
            &&& padding.bottom < cards ==> room.padding_bottom == 0
            &&& padding.left < cards ==> room.padding_left == 0
        }),
{
}

/// The class of a button's room ends in the number of its cards, so each number has its own.
pub proof fn law_rooms_have_their_own_class(a: nat, b: nat)
    ensures
        digits_value(room_class(a as int).skip(11)) == a,
        room_class(a as int) == room_class(b as int) ==> a == b,
{
    reveal_strlit("stack-room-");
    law_decimal_reads_back(a);
    law_decimal_reads_back(b);
    assert(room_class(a as int).skip(11) =~= decimal(a));
    assert(room_class(b as int).skip(11) =~= decimal(b));
}

} // verus!
