//! A small builder for pixel-matching state machines over flat images: each
//! state carries the index of the state to move to next, read back to front.

use vstd::prelude::*;

verus! {

/// An individual state of the machine. The second element of each stored
/// pair is the index of the next state.
#[derive(PartialEq, Eq)]
pub enum State {
    /// Matches one pixel of the given color.
    Consume([u8; 3]),
    /// Moves to the state with the given index.
    Moveto(usize),
    /// Turns the head to move along the given direction vector.
    Turn([i32; 2]),
    /// Forks for free to a second state besides the next one.
    Split(usize),
    /// Accepts.
    Match(),
}

/// Builds a machine back to front, starting from the accepting state.
struct RegexBuilder {
    s: Vec<(State, usize)>,
}

impl RegexBuilder {
    /// Starts with the accepting state alone.
    fn new() -> (r: Self)
        ensures
            r.s@ == seq![(State::Match(), 0usize)],
    {
        let r = RegexBuilder { s: vec![(State::Match(), 0usize)] };
        proof {
            assert(r.s@ =~= seq![(State::Match(), 0usize)]);
        }
        r
    }

    /// Appends a state consuming the color `c`, continuing at state `i`.
    fn consume(&mut self, c: [u8; 3], i: usize)
        ensures
            final(self).s@ == old(self).s@.push((State::Consume(c), i)),
    {
        self.s.push((State::Consume(c), i));
    }

    /// Appends a move to the reference state `rs`, continuing at state `i`.
    fn moveto(&mut self, rs: usize, i: usize)
        ensures
            final(self).s@ == old(self).s@.push((State::Moveto(rs), i)),
    {
        self.s.push((State::Moveto(rs), i));
    }

    /// Appends a turn along the vector `dx`, continuing at state `i`.
    fn turn(&mut self, dx: [i32; 2], i: usize)
        ensures
            final(self).s@ == old(self).s@.push((State::Turn(dx), i)),
    {
        self.s.push((State::Turn(dx), i));
    }

    /// Appends a free fork to the states `i` and `j`.
    fn split(&mut self, i: usize, j: usize)
        ensures
            final(self).s@ == old(self).s@.push((State::Split(j), i)),
    {
        self.s.push((State::Split(j), i));
    }

    /// Finishes the machine.
    fn build(self) -> (r: Regex)
        ensures
            r.s@ == self.s@,
    {
        Regex { s: self.s }
    }
}

/// A pixel-matching machine built by `RegexBuilder`.
pub struct Regex {
    s: Vec<(State, usize)>,
}

impl Regex {
    /// The machine's state list, oldest appended state last.
    pub closed spec fn model(self) -> Seq<(State, usize)> {
        self.s@
    }

    /// The empty machine: the accepting state alone.
    pub fn new() -> (r: Self)
        ensures
            r.model() == seq![(State::Match(), 0usize)],
    {
        let rb = RegexBuilder::new();
        rb.build()
    }

    /// Builds the machine a picture describes; no pattern is derived yet, so
    /// the result is the accepting state alone.
    pub fn from_pic(p: crate::picture::Picture) -> (r: Self)
        ensures
            r.model() == seq![(State::Match(), 0usize)],
    {
        let rb = RegexBuilder::new();
        rb.build()
    }
}

} // verus!
