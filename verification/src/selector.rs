//! The piece selector: draws the next piece kind at random, re-drawing once
//! when the draw repeats the previously produced kind. The selector owns its
//! memory of the last kind, so each game session starts unbiased.
use crate::tetrimino::PieceKind;
use vstd::prelude::*;

verus! {

/// The draw index of each kind, as the selector and the catalog order them.
pub open spec fn kind_index(kind: PieceKind) -> u8 {
    match kind {
        PieceKind::I => 0,
        PieceKind::L => 1,
        PieceKind::J => 2,
        PieceKind::O => 3,
        PieceKind::S => 4,
        PieceKind::Z => 5,
        PieceKind::T => 6,
    }
}

/// The kind drawn for each index below 7.
pub open spec fn index_kind(i: u8) -> PieceKind {
    if i == 0 {
        PieceKind::I
    } else if i == 1 {
        PieceKind::L
    } else if i == 2 {
        PieceKind::J
    } else if i == 3 {
        PieceKind::O
    } else if i == 4 {
        PieceKind::S
    } else if i == 5 {
        PieceKind::Z
    } else {
        PieceKind::T
    }
}

/// Relies on rand::random: a uniformly distributed value of the requested
/// type. Nothing can be promised of the value itself.
pub assume_specification<T>[ rand::random::<T> ]() -> (r: T)
    where rand::distributions::Standard: rand::distributions::Distribution<T>,
;

/// Produces piece kinds for one game session, remembering only the most
/// recently produced kind to bias the next draw away from repetition.
pub struct PieceSelector {
    /// Draw index of the last kind produced; 7 when nothing was produced yet.
    pub prev: u8,
}

impl PieceSelector {
    /// A fresh selector with no memory of a previous kind.
    pub fn new() -> (s: PieceSelector)
        ensures
            s.prev == 7,
    {
        PieceSelector { prev: 7 }
    }

    /// The anti-repeat policy on two draws: the first draw is kept unless it
    /// equals the previously produced index, in which case the second draw is
    /// kept as it is — so the result repeats the previous index only when
    /// both draws collide with it.
    pub fn select(prev: u8, first: u8, second: u8) -> (r: u8)
        requires
            first < 7,
            second < 7,
        ensures
            r == (if first == prev { second } else { first }),
            r < 7,
            first != prev || second != prev ==> r != prev,
    {
        if first == prev {
            second
        } else {
            first
        }
    }

    /// Draws the next kind: a uniform draw over the 7 kinds, re-drawn once if
    /// it repeats the previous kind. Whatever the draws returned, the result
    /// follows the `select` policy and is remembered as the new previous kind.
    pub fn next(&mut self) -> (kind: PieceKind)
        ensures
            final(self).prev == kind_index(kind),
            kind == index_kind(final(self).prev),
            final(self).prev < 7,
    {
        let first = rand::random::<u8>() % 7;
        let chosen = if first == self.prev {
            let second = rand::random::<u8>() % 7;
            Self::select(self.prev, first, second)
        } else {
            first
        };
        self.prev = chosen;
        if chosen == 0 {
            PieceKind::I
        } else if chosen == 1 {
            PieceKind::L
        } else if chosen == 2 {
            PieceKind::J
        } else if chosen == 3 {
            PieceKind::O
        } else if chosen == 4 {
            PieceKind::S
        } else if chosen == 5 {
            PieceKind::Z
        } else {
            PieceKind::T
        }
    }
}

} // verus!
