use vstd::prelude::*;
use crate::model_checker::{ModelState, Predicate, Successors, Transition};

verus! {

/// The water-jug puzzle: a 3-gallon jug and a 5-gallon jug.
#[derive(Debug, Clone, Copy, PartialEq, Eq, Hash)]
pub struct State {
    pub small: u8,
    pub big: u8,
}

pub const SMALL_CAPACITY: u8 = 3;

pub const BIG_CAPACITY: u8 = 5;

impl View for State {
    type V = State;

    open spec fn view(&self) -> State {
        *self
    }
}

impl ModelState for State {
    open spec fn fingerprint_of(v: State) -> u64 {
        ((v.small as u64) * 256 + v.big as u64) as u64
    }

    fn fingerprint(&self) -> (r: u64) {
        (self.small as u64) * 256 + self.big as u64
    }

    fn same(&self, other: &State) -> (r: bool) {
        self.small == other.small && self.big == other.big
    }

    fn duplicate(&self) -> (r: State) {
        *self
    }
}

/// What is left to pour from a jug holding `from` into one holding `into`
/// of capacity `cap`: as much as fits, or as much as there is.
pub open spec fn pour_amount(into: u8, cap: u8, from: u8) -> u8 {
    let room: u8 = if into <= cap { (cap - into) as u8 } else { 0 };
    if room <= from { room } else { from }
}

pub open spec fn big_to_small(s: State) -> State {
    let amount = pour_amount(s.small, SMALL_CAPACITY, s.big);
    State { small: (s.small + amount) as u8, big: (s.big - amount) as u8 }
}

pub open spec fn small_to_big(s: State) -> State {
    let amount = pour_amount(s.big, BIG_CAPACITY, s.small);
    State { small: (s.small - amount) as u8, big: (s.big + amount) as u8 }
}

pub fn fill_small(s: &mut State)
    ensures
        *final(s) == (State { small: SMALL_CAPACITY, big: old(s).big }),
{
    s.small = SMALL_CAPACITY;
}

pub fn fill_big(s: &mut State)
    ensures
        *final(s) == (State { small: old(s).small, big: BIG_CAPACITY }),
{
    s.big = BIG_CAPACITY;
}

pub fn empty_small(s: &mut State)
    ensures
        *final(s) == (State { small: 0, big: old(s).big }),
{
    s.small = 0;
}

pub fn empty_big(s: &mut State)
    ensures
        *final(s) == (State { small: old(s).small, big: 0 }),
{
    s.big = 0;
}

fn pour(into: u8, cap: u8, from: u8) -> (r: u8)
    ensures
        r == pour_amount(into, cap, from),
        r <= from,
        into <= cap ==> into + r <= cap,
        into > cap ==> r == 0,
{
    let room: u8 = if into <= cap { cap - into } else { 0 };
    if room <= from { room } else { from }
}

/// Pours the big jug into the small one until the small one is full or the
/// big one is empty.
pub fn move_from_big_to_small(s: &mut State)
    ensures
        *final(s) == big_to_small(*old(s)),
{
    let amount = pour(s.small, SMALL_CAPACITY, s.big);
    s.small = s.small + amount;
    s.big = s.big - amount;
}

/// Pours the small jug into the big one until the big one is full or the
/// small one is empty.
pub fn move_from_small_to_big(s: &mut State)
    ensures
        *final(s) == small_to_big(*old(s)),
{
    let amount = pour(s.big, BIG_CAPACITY, s.small);
    s.small = s.small - amount;
    s.big = s.big + amount;
}

pub fn gallon_never_has_4_liters(s: &State) -> (r: bool)
    ensures
        r == (s.big != 4),
{
    s.big != 4
}

/// The six moves of the puzzle.
#[derive(Debug, Clone, Copy, PartialEq, Eq)]
pub enum JugAction {
    FillSmall,
    FillBig,
    EmptySmall,
    EmptyBig,
    MoveFromBigToSmall,
    MoveFromSmallToBig,
}

pub open spec fn jug_step(a: JugAction, s: State) -> State {
    match a {
        JugAction::FillSmall => State { small: SMALL_CAPACITY, big: s.big },
        JugAction::FillBig => State { small: s.small, big: BIG_CAPACITY },
        JugAction::EmptySmall => State { small: 0, big: s.big },
        JugAction::EmptyBig => State { small: s.small, big: 0 },
        JugAction::MoveFromBigToSmall => big_to_small(s),
        JugAction::MoveFromSmallToBig => small_to_big(s),
    }
}

impl Transition<State> for JugAction {
    open spec fn enabled(&self, s: State) -> bool {
        true
    }

    open spec fn successors(&self, s: State) -> Seq<State> {
        seq![jug_step(*self, s)]
    }

    fn apply(&self, ctx: &mut Successors<State>, s: &mut State) -> (ok: bool) {
        match self {
            JugAction::FillSmall => fill_small(s),
            JugAction::FillBig => fill_big(s),
            JugAction::EmptySmall => empty_small(s),
            JugAction::EmptyBig => empty_big(s),
            JugAction::MoveFromBigToSmall => move_from_big_to_small(s),
            JugAction::MoveFromSmallToBig => move_from_small_to_big(s),
        }
        assert(ctx.found_views().push(s@) =~= seq![jug_step(*self, old(s)@)]);
        true
    }
}

/// The puzzle's goal, stated as an invariant whose violation is the answer.
#[derive(Debug, Clone, Copy, PartialEq, Eq)]
pub enum JugInvariant {
    GallonNeverHas4Liters,
}

impl Predicate<State> for JugInvariant {
    open spec fn holds(&self, s: State) -> bool {
        s.big != 4
    }

    fn check(&self, s: &State) -> (r: bool) {
        gallon_never_has_4_liters(s)
    }
}

} // verus!
