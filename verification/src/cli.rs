//! The seed modes and the iterator that yields their values.

use crate::decimal::{
    decimal_text, decimal_u64, lemma_decimal_round_trip, lemma_decimal_text_bytes, parse_u64,
};
use crate::sequence::{
    lemma_advance_counters, lemma_after_parameters, lemma_counters_ascend, lemma_prefix_ended,
    lemma_prefix_step, Cursor,
};
use std::str::FromStr;
use vstd::prelude::*;
use vstd::utf8::encode_utf8;

verus! {

/// The value that SeaHash gives to a buffer of bytes, with the seed that the
/// `seahash` crate has chosen for it.
pub uninterp spec fn seahash_of(bytes: Seq<u8>) -> u64;

/// Hashes `bytes` with `seahash::hash`. The hash is a function of the bytes
/// alone, the same in every run and on every machine; the contract gives it
/// the name `seahash_of` and claims no more of it.
#[verifier::external_body]
fn hash_bytes(bytes: &[u8]) -> (h: u64)
    ensures
        h == seahash_of(bytes@),
{
    seahash::hash(bytes)
}

/// Draws a 64-bit value with `rand::random`, from the generator that the
/// thread owns and the system has seeded. Nothing is claimed of the value:
/// any `u64` may come back, and two calls need not agree.
#[verifier::external_body]
fn random_seed() -> u64 {
    rand::random::<u64>()
}

/// A seed as it is given: a number, or a label that stands for its hash.
#[derive(Debug, Clone)]
pub enum NumberOrString {
    Str(String),
    Number(u64),
}

impl NumberOrString {
    /// The seed that is meant: the number itself, or the SeaHash of the
    /// label's bytes.
    pub open spec fn seed(&self) -> u64 {
        match self {
            NumberOrString::Number(n) => *n,
            NumberOrString::Str(label) => seahash_of(encode_utf8(label@)),
        }
    }

    /// Whether this is what `text` is read as: the number that it stands
    /// for in decimal, or else the text itself as a label.
    pub open spec fn reads(&self, text: Seq<char>) -> bool {
        match decimal_u64(encode_utf8(text)) {
            Some(n) => *self == NumberOrString::Number(n),
            None => match self {
                NumberOrString::Str(label) => label@ == text,
                NumberOrString::Number(_) => false,
            },
        }
    }
}

impl FromStr for NumberOrString {
    type Err = &'static str;

    /// Reads a seed. Every text is one, so this never fails: what is no
    /// decimal number of 64 bits is a label.
    fn from_str(s: &str) -> (r: Result<Self, Self::Err>)
        ensures
            r.is_ok(),
            r.unwrap().reads(s@),
    {
        match parse_u64(s.as_bytes()) {
            Some(n) => Ok(NumberOrString::Number(n)),
            None => Ok(NumberOrString::Str(s.to_owned())),
        }
    }
}

/// How the seeds are chosen.
#[derive(Debug, Clone)]
pub enum Seeds {
    /// One given seed.
    Single { seed: NumberOrString },
    /// So many seeds drawn at random; one where no number is given.
    Random { count: Option<u64> },
    /// The seeds from `min` up to `max`, `step` apart; 1 apart where no step
    /// is given.
    Range { min: u64, max: u64, step: Option<u64> },
    /// Every seed there is.
    Full,
}

impl Seeds {
    /// The cursor that the mode's iterator starts with.
    pub open spec fn start(&self) -> Cursor {
        match self {
            Seeds::Single { seed } => Cursor::starting_at(seed.seed(), seed.seed(), 1, false),
            Seeds::Range { min, max, step } => Cursor::starting_at(
                *min,
                *max,
                step.unwrap_or(1),
                false,
            ),
            Seeds::Random { count } => if count.unwrap_or(1) == 0 {
                Cursor { current: None, max: 0, step: 1, randomize: true }
            } else {
                Cursor::starting_at(1, count.unwrap_or(1), 1, true)
            },
            Seeds::Full => Cursor::starting_at(u64::MIN, u64::MAX, 1, false),
        }
    }

    /// A fresh iterator over the mode's seeds.
    #[must_use]
    pub fn iter(&self) -> (it: SeedIter)
        ensures
            it@ == self.start(),
    {
        match self {
            Seeds::Single { seed } => match seed {
                NumberOrString::Str(s) => {
                    let seed: u64 = hash_bytes(s.as_str().as_bytes());
                    SeedIter::new(seed, seed, 1, false)
                },
                NumberOrString::Number(n) => SeedIter::new(*n, *n, 1, false),
            },
            Seeds::Range { min, max, step } => {
                let step: u64 = match step {
                    Some(s) => *s,
                    None => 1,
                };
                SeedIter::new(*min, *max, step, false)
            },
            Seeds::Random { count } => {
                let count: u64 = match count {
                    Some(c) => *c,
                    None => 1,
                };
                if count == 0 {
                    SeedIter::empty(true)
                } else {
                    SeedIter::new(1, count, 1, true)
                }
            },
            Seeds::Full => SeedIter::new(u64::MIN, u64::MAX, 1, false),
        }
    }
}

/// Yields the seeds of one mode, one at a time.
pub struct SeedIter {
    current: Option<u64>,
    max: u64,
    step: u64,
    randomize: bool,
}

impl View for SeedIter {
    type V = Cursor;

    closed spec fn view(&self) -> Cursor {
        Cursor { current: self.current, max: self.max, step: self.step, randomize: self.randomize }
    }
}

impl SeedIter {
    /// An iterator whose first counter is `current`.
    pub fn new(current: u64, max: u64, step: u64, randomize: bool) -> (it: Self)
        ensures
            it@ == Cursor::starting_at(current, max, step, randomize),
    {
        Self { current: Some(current), max, step, randomize }
    }

    /// An iterator that yields nothing.
    fn empty(randomize: bool) -> (it: Self)
        ensures
            it@ == (Cursor { current: None, max: 0, step: 1, randomize }),
    {
        Self { current: None, max: 0, step: 1, randomize }
    }

    /// Moves the counter on by one step, or ends the sequence where no
    /// counter follows.
    fn advance(&mut self)
        ensures
            final(self)@ == old(self)@.advance(),
    {
        if let Some(c) = self.current {
            if c < self.max && self.step <= self.max - c {
                self.current = Some(c + self.step);
            } else {
                self.current = None;
            }
        }
    }

    /// Takes the next seed, with `drawn` as the value of the random source.
    /// `None` when the sequence has ended, and then for ever.
    pub fn next_with(&mut self, drawn: u64) -> (seed: Option<u64>)
        ensures
            seed == old(self)@.emit(drawn),
            final(self)@ == old(self)@.advance(),
    {
        match self.current {
            Some(c) => {
                let seed: u64 = if self.randomize { drawn } else { c };
                self.advance();
                Some(seed)
            },
            None => None,
        }
    }

    /// Takes the next seed. A random iterator draws it afresh; of that seed
    /// only its existence is known.
    pub fn next(&mut self) -> (seed: Option<u64>)
        ensures
            seed.is_some() == old(self)@.current.is_some(),
            !old(self)@.randomize ==> seed == old(self)@.current,
            final(self)@ == old(self)@.advance(),
    {
        match self.current {
            Some(c) => {
                let drawn: u64 = if self.randomize { random_seed() } else { c };
                self.next_with(drawn)
            },
            None => None,
        }
    }
}

impl SeedIter {
    /// Takes the next `limit` seeds, or all that are left where those are
    /// fewer, in the order in which `next` yields them. A random iterator
    /// draws each of them; of those only their number is known.
    pub fn take(&mut self, limit: usize) -> (seeds: Vec<u64>)
        ensures
            seeds@.len() == old(self)@.prefix(limit as nat).len(),
            !old(self)@.randomize ==> seeds@ == old(self)@.prefix(limit as nat),
            final(self)@ == old(self)@.after(limit as nat),
    {
        let ghost start = self@;
        let mut seeds: Vec<u64> = Vec::new();
        while seeds.len() < limit
            invariant
                start == old(self)@,
                seeds@.len() <= limit,
                self@ == start.after(seeds@.len()),
                seeds@.len() == start.prefix(seeds@.len()).len(),
                !start.randomize ==> seeds@ == start.prefix(seeds@.len()),
            decreases limit - seeds@.len(),
        {
            proof {
                lemma_prefix_step(start, seeds@.len());
                lemma_after_parameters(start, seeds@.len());
            }
            match self.next() {
                Some(seed) => {
                    seeds.push(seed);
                },
                None => {
                    proof {
                        lemma_prefix_ended(start, seeds@.len(), limit as nat);
                    }
                    return seeds;
                },
            }
        }
        seeds
    }
}

impl Seeds {
    /// Whether the two modes are the same mode with the same parameters: the
    /// same numbers, and labels of the same text.
    pub open spec fn same_parameters(&self, other: &Seeds) -> bool {
        match (self, other) {
            (Seeds::Single { seed: a }, Seeds::Single { seed: b }) => match (a, b) {
                (NumberOrString::Number(m), NumberOrString::Number(n)) => m == n,
                (NumberOrString::Str(s), NumberOrString::Str(t)) => s@ == t@,
                _ => false,
            },
            (Seeds::Random { count: a }, Seeds::Random { count: b }) => a == b,
            (
                Seeds::Range { min: a_min, max: a_max, step: a_step },
                Seeds::Range { min: b_min, max: b_max, step: b_step },
            ) => a_min == b_min && a_max == b_max && a_step == b_step,
            (Seeds::Full, Seeds::Full) => true,
            _ => false,
        }
    }
}

/// A single seed is a sequence of that one seed: the number given, or the
/// hash of the label given.
pub proof fn lemma_single_counters(seed: NumberOrString)
    ensures
        !(Seeds::Single { seed }).start().randomize,
        !(Seeds::Single { seed }).start().endless(),
        (Seeds::Single { seed }).start().counters() == seq![seed.seed()],
        seed matches NumberOrString::Number(n) ==> (Seeds::Single { seed }).start().counters()
            == seq![n],
        seed matches NumberOrString::Str(label) ==> (Seeds::Single { seed }).start().counters()
            == seq![seahash_of(encode_utf8(label@))],
{
    let start = (Seeds::Single { seed }).start();
    lemma_advance_counters(start);
    assert(start.advance().counters() =~= Seq::<u64>::empty());
    assert(start.counters() =~= seq![seed.seed()]);
}

/// The decimal text of a 64-bit number `n` is read as the seed `n`, and as a
/// single seed it is the sequence of `n` alone.
pub proof fn lemma_single_of_number_text(seed: NumberOrString, n: u64)
    requires
        seed.reads(decimal_text(n as nat)),
    ensures
        seed == NumberOrString::Number(n),
        (Seeds::Single { seed }).start().counters() == seq![n],
{
    lemma_decimal_text_bytes(n as nat);
    lemma_decimal_round_trip(n);
    lemma_single_counters(seed);
}

/// A text that is no decimal number of 64 bits is read as a label, and as a
/// single seed it is the sequence of one seed: the hash of the text's bytes,
/// which is the same whenever the text is.
pub proof fn lemma_single_of_label_text(seed: NumberOrString, text: Seq<char>)
    requires
        seed.reads(text),
        decimal_u64(encode_utf8(text)).is_none(),
    ensures
        seed.seed() == seahash_of(encode_utf8(text)),
        (Seeds::Single { seed }).start().counters() == seq![seahash_of(encode_utf8(text))],
{
    lemma_single_counters(seed);
}

/// A range from `min` to `max` that is not empty, with a step that is not 0,
/// holds the numbers `min`, `min + step`, `min + 2 * step` and so on that do
/// not lie above `max`: each greater than the one before, the last less than
/// a step below `max`, and `(max - min) / step + 1` of them in all.
pub proof fn lemma_range_counters(min: u64, max: u64, step: Option<u64>)
    requires
        min <= max,
        step.unwrap_or(1) >= 1,
    ensures
        ({
            let start = (Seeds::Range { min, max, step }).start();
            let seeds = start.counters();
            let by = step.unwrap_or(1);
            &&& !start.randomize
            &&& !start.endless()
            &&& seeds.len() == (max - min) / (by as int) + 1
            &&& forall|i: int| 0 <= i < seeds.len() ==> #[trigger] seeds[i] == min + i * by
            &&& forall|i: int, j: int| 0 <= i < j < seeds.len() ==> seeds[i] < seeds[j]
            &&& seeds.first() == min
            &&& seeds.last() <= max < seeds.last() + by
        }),
{
    lemma_counters_ascend((Seeds::Range { min, max, step }).start());
}

/// A range whose `min` lies above its `max` holds `min` and nothing else.
pub proof fn lemma_range_reversed(min: u64, max: u64, step: Option<u64>)
    requires
        min > max,
    ensures
        !(Seeds::Range { min, max, step }).start().endless(),
        (Seeds::Range { min, max, step }).start().counters() == seq![min],
{
    let start = (Seeds::Range { min, max, step }).start();
    lemma_advance_counters(start);
    assert(start.advance().counters() =~= Seq::<u64>::empty());
    assert(start.counters() =~= seq![min]);
}

/// A range below its `max` with the step 0 never ends, and never leaves `min`.
pub proof fn lemma_range_stuck(min: u64, max: u64)
    requires
        min < max,
    ensures
        (Seeds::Range { min, max, step: Some(0) }).start().endless(),
        (Seeds::Range { min, max, step: Some(0) }).start().advance() == (Seeds::Range {
            min,
            max,
            step: Some(0),
        }).start(),
{
}

/// The full space holds every 64-bit number once, in ascending order: 2^64 of
/// them, from 0 to 2^64 - 1.
pub proof fn lemma_full_counters()
    ensures
        !Seeds::Full.start().randomize,
        !Seeds::Full.start().endless(),
        Seeds::Full.start().counters().len() == 0x1_0000_0000_0000_0000,
        forall|i: int|
            0 <= i < 0x1_0000_0000_0000_0000 ==> #[trigger] Seeds::Full.start().counters()[i] == i,
        Seeds::Full.start().counters().first() == 0,
        Seeds::Full.start().counters().last() == 0xffff_ffff_ffff_ffff,
{
    let start = Seeds::Full.start();
    lemma_counters_ascend(start);
    assert forall|i: int| 0 <= i < 0x1_0000_0000_0000_0000 implies #[trigger] start.counters()[i]
        == i by {
        assert(start.counters()[i] == 0 + i * 1);
    }
}

/// A random mode yields as many seeds as were asked for, one where no number
/// was given, and draws each of them.
pub proof fn lemma_random_count(count: Option<u64>)
    ensures
        (Seeds::Random { count }).start().randomize,
        !(Seeds::Random { count }).start().endless(),
        (Seeds::Random { count }).start().remaining() == count.unwrap_or(1),
{
    let start = (Seeds::Random { count }).start();
    if count.unwrap_or(1) > 0 {
        lemma_counters_ascend(start);
    }
}

/// Two modes with the same parameters start with the same cursor, however
/// and whenever they were made: so, unless they draw at random, the seed
/// that the one yields after any number of seeds is the seed that the other
/// yields there, whatever the random source holds for either.
pub proof fn lemma_same_parameters_same_seeds(
    a: Seeds,
    b: Seeds,
    n: nat,
    drawn_a: u64,
    drawn_b: u64,
)
    requires
        a.same_parameters(&b),
    ensures
        a.start() == b.start(),
        a.start().after(n) == b.start().after(n),
        !a.start().randomize ==> a.start().after(n).emit(drawn_a) == b.start().after(n).emit(
            drawn_b,
        ),
{
    lemma_after_parameters(a.start(), n);
}

} // verus!
