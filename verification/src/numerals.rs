//! Numbers written out as text.
//!
//! What a numeral stands for is floating-point work, done by the caller: a
//! parser lists the texts it meets where a number belongs, the caller reads
//! them, and the parser finishes with a [`Numerals`] at hand. A text that is
//! not in it is not a number.
use vstd::prelude::*;

use crate::double::Double;
use crate::names::NameMap;
use crate::text::string_of;

verus! {

/// The texts that are numbers, each with the number it stands for.
#[derive(Debug)]
pub struct Numerals {
    pub readings: NameMap<Double>,
}

impl View for Numerals {
    type V = Map<Seq<char>, Double>;

    open spec fn view(&self) -> Map<Seq<char>, Double> {
        self.readings.content()
    }
}

/// What a text stands for, where it is a number.
pub open spec fn reading(m: Map<Seq<char>, Double>, text: Seq<char>) -> Option<Double> {
    if m.contains_key(text) {
        Some(m[text])
    } else {
        None
    }
}

impl Numerals {
    pub open spec fn wf(self) -> bool {
        self.readings.wf()
    }

    pub fn new() -> (r: Numerals)
        ensures
            r.wf(),
            r@ == Map::<Seq<char>, Double>::empty(),
    {
        Numerals { readings: NameMap::new() }
    }

    /// Record what a text stands for.
    pub fn insert(&mut self, text: String, value: Double)
        requires
            old(self).wf(),
        ensures
            final(self).wf(),
            final(self)@ == old(self)@.insert(text@, value),
    {
        self.readings.insert(text, value);
    }

    /// What a text stands for, where it is a number.
    pub fn value(&self, text: &[char]) -> (r: Option<Double>)
        requires
            self.wf(),
        ensures
            r == reading(self@, text@),
    {
        let t = string_of(text);
        match self.readings.get(t.as_str()) {
            Some(v) => Some(*v),
            None => None,
        }
    }
}

} // verus!
