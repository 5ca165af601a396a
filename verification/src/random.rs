//! Where the protocol's random draws come from: the thread-local generator
//! of the `rand` crate, or a script, for runs that must repeat.

use crate::step::Behavior;
use rand::seq::SliceRandom;
use vstd::prelude::*;

verus! {

/// A source of random draws. The protocol is verified for every outcome of
/// every draw, so a source promises nothing but that a pick is one of the
/// options.
pub trait Entropy {
    /// A coin flip.
    fn flip(&mut self) -> bool;

    /// A number.
    fn number(&mut self) -> u64;

    /// One of `options`; `None` if there is none.
    fn pick(&mut self, options: &Vec<Behavior>) -> (chosen: Option<Behavior>)
        ensures
            options@.len() == 0 ==> chosen is None,
            options@.len() > 0 ==> chosen is Some && options@.contains(chosen.unwrap()),
    ;
}

/// Calls `rand::random::<bool>()`, which samples the thread-local generator.
/// The contract claims nothing of the result: either value may come back.
/// (The generator is seeded from the operating system on a thread's first
/// draw and panics if that source is missing.)
#[verifier::external_body]
fn random_bool() -> bool {
    rand::random::<bool>()
}

/// Calls `rand::random::<u64>()`, which samples the thread-local generator.
/// The contract claims nothing of the result: any number may come back.
#[verifier::external_body]
fn random_u64() -> u64 {
    rand::random::<u64>()
}

/// Calls `SliceRandom::choose` on the options with `rand::thread_rng()`. As
/// `rand` documents and its source shows, the result is `None` if the slice
/// is empty and otherwise one of its elements; which one is left open.
#[verifier::external_body]
fn choose_one(options: &Vec<Behavior>) -> (chosen: Option<Behavior>)
    ensures
        options@.len() == 0 ==> chosen is None,
        options@.len() > 0 ==> chosen is Some && options@.contains(chosen.unwrap()),
{
    options.as_slice().choose(&mut rand::thread_rng()).copied()
}

/// The generator that `rand` keeps for each thread.
pub struct ThreadLocal;

impl Entropy for ThreadLocal {
    fn flip(&mut self) -> bool {
        random_bool()
    }

    fn number(&mut self) -> u64 {
        random_u64()
    }

    fn pick(&mut self, options: &Vec<Behavior>) -> (chosen: Option<Behavior>) {
        choose_one(options)
    }
}

/// A source that replays given draws: the flips in their order, over and
/// over, and likewise the numbers. A pick takes the next number as an index
/// into the options, modulo their count. Without flips every flip is
/// `false`; without numbers every number is 0.
pub struct Script {
    flips: Vec<bool>,
    numbers: Vec<u64>,
    next_flip: usize,
    next_number: usize,
}

impl Script {
    /// The script that replays `flips` and `numbers`.
    pub fn new(flips: Vec<bool>, numbers: Vec<u64>) -> (script: Script)
        ensures
            script.flips() == flips@,
            script.numbers() == numbers@,
            script.position() == (0nat, 0nat),
    {
        Script { flips, numbers, next_flip: 0, next_number: 0 }
    }

    /// The flips that the script replays.
    pub closed spec fn flips(&self) -> Seq<bool> {
        self.flips@
    }

    /// The numbers that the script replays.
    pub closed spec fn numbers(&self) -> Seq<u64> {
        self.numbers@
    }

    /// How many flips and how many numbers of the current round through the
    /// script are used up.
    pub closed spec fn position(&self) -> (nat, nat) {
        (
            if self.next_flip < self.flips@.len() {
                self.next_flip as nat
            } else {
                0
            },
            if self.next_number < self.numbers@.len() {
                self.next_number as nat
            } else {
                0
            },
        )
    }

    /// The flip that comes next: `false` if the script has none.
    pub open spec fn upcoming_flip(&self) -> bool {
        if self.flips().len() == 0 {
            false
        } else {
            self.flips()[self.position().0 as int]
        }
    }

    /// The number that comes next: 0 if the script has none.
    pub open spec fn upcoming_number(&self) -> u64 {
        if self.numbers().len() == 0 {
            0
        } else {
            self.numbers()[self.position().1 as int]
        }
    }

    /// The flip that comes next, and the script moved on by one flip.
    pub fn next_flip(&mut self) -> (flip: bool)
        ensures
            flip == old(self).upcoming_flip(),
            final(self).flips() == old(self).flips(),
            final(self).numbers() == old(self).numbers(),
            final(self).position() == (
                step_around(old(self).position().0, old(self).flips().len()),
                old(self).position().1,
            ),
    {
        let len: usize = self.flips.len();
        if len == 0 {
            self.next_flip = 0;
            return false;
        }
        let at: usize = if self.next_flip < len {
            self.next_flip
        } else {
            0
        };
        self.next_flip = if at + 1 < len {
            at + 1
        } else {
            0
        };
        self.flips[at]
    }

    /// The number that comes next, and the script moved on by one number.
    pub fn next_number(&mut self) -> (number: u64)
        ensures
            number == old(self).upcoming_number(),
            final(self).flips() == old(self).flips(),
            final(self).numbers() == old(self).numbers(),
            final(self).position() == (
                old(self).position().0,
                step_around(old(self).position().1, old(self).numbers().len()),
            ),
    {
        let len: usize = self.numbers.len();
        if len == 0 {
            self.next_number = 0;
            return 0;
        }
        let at: usize = if self.next_number < len {
            self.next_number
        } else {
            0
        };
        self.next_number = if at + 1 < len {
            at + 1
        } else {
            0
        };
        self.numbers[at]
    }

    /// The option whose index is the next number modulo the number of
    /// options, and the script moved on by one number. With no option,
    /// nothing is taken from the script.
    pub fn next_pick(&mut self, options: &Vec<Behavior>) -> (chosen: Option<Behavior>)
        ensures
            final(self).flips() == old(self).flips(),
            final(self).numbers() == old(self).numbers(),
            options@.len() == 0 ==> chosen is None && final(self).position() == old(
                self,
            ).position(),
            options@.len() > 0 ==> chosen == Some(
                options@[old(self).upcoming_number() as int % options@.len() as int],
            ) && final(self).position() == (
                old(self).position().0,
                step_around(old(self).position().1, old(self).numbers().len()),
            ),
    {
        let len: usize = options.len();
        if len == 0 {
            return None;
        }
        let number: u64 = self.next_number();
        let at: usize = (number % (len as u64)) as usize;
        Some(options[at])
    }
}

/// The position after `at` in a round through `len` items.
pub open spec fn step_around(at: nat, len: nat) -> nat {
    if at + 1 < len {
        at + 1
    } else {
        0
    }
}

impl Entropy for Script {
    /// The flip that comes next in the script, which moves on by one flip.
    fn flip(&mut self) -> (flip: bool)
        ensures
            flip == old(self).upcoming_flip(),
            final(self).flips() == old(self).flips(),
            final(self).numbers() == old(self).numbers(),
            final(self).position() == (
                step_around(old(self).position().0, old(self).flips().len()),
                old(self).position().1,
            ),
    {
        self.next_flip()
    }

    /// The number that comes next in the script, which moves on by one
    /// number.
    fn number(&mut self) -> (number: u64)
        ensures
            number == old(self).upcoming_number(),
            final(self).flips() == old(self).flips(),
            final(self).numbers() == old(self).numbers(),
            final(self).position() == (
                old(self).position().0,
                step_around(old(self).position().1, old(self).numbers().len()),
            ),
    {
        self.next_number()
    }

    fn pick(&mut self, options: &Vec<Behavior>) -> (chosen: Option<Behavior>) {
        self.next_pick(options)
    }
}

} // verus!
