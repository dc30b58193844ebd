//! The seed sequence as a mathematical object: a cursor over counters, and
//! what is true of the counters that it runs through.

use vstd::prelude::*;

verus! {

/// What a seed iterator is, as a plain value: the counter that stands for the
/// next seed (`None` once the sequence has ended), the last counter allowed,
/// the distance between two counters, and whether the seeds are drawn at
/// random, in which case the counters only count.
pub struct Cursor {
    pub current: Option<u64>,
    pub max: u64,
    pub step: u64,
    pub randomize: bool,
}

impl Cursor {
    /// The cursor that starts at `first`.
    pub open spec fn starting_at(first: u64, max: u64, step: u64, randomize: bool) -> Cursor {
        Cursor { current: Some(first), max, step, randomize }
    }

    /// The cursor of a sequence that has ended.
    pub open spec fn exhausted(self) -> Cursor {
        Cursor { current: None, ..self }
    }

    /// Whether a further counter follows the current one: it lies `step`
    /// above it and not above `max`.
    pub open spec fn has_successor(self) -> bool {
        match self.current {
            Some(c) => c < self.max && self.step <= self.max - c,
            None => false,
        }
    }

    /// The cursor after one seed has been taken.
    pub open spec fn advance(self) -> Cursor {
        match self.current {
            Some(c) if self.has_successor() => Cursor {
                current: Some((c + self.step) as u64),
                ..self
            },
            _ => self.exhausted(),
        }
    }

    /// The seed that is taken next, where `drawn` is what the random source
    /// gives: the counter itself, or `drawn` in its place.
    pub open spec fn emit(self, drawn: u64) -> Option<u64> {
        match self.current {
            Some(c) => Some(if self.randomize { drawn } else { c }),
            None => None,
        }
    }

    /// Whether the cursor never ends: it stands below `max` and does not
    /// move.
    pub open spec fn endless(self) -> bool {
        match self.current {
            Some(c) => c < self.max && self.step == 0,
            None => false,
        }
    }

    /// How many seeds are still to come, where the cursor ends.
    pub open spec fn remaining(self) -> nat {
        match self.current {
            Some(c) => if c >= self.max || self.step == 0 {
                1
            } else {
                ((self.max - c) / (self.step as int) + 1) as nat
            },
            None => 0,
        }
    }

    /// The counter that stands `i` steps after the current one.
    pub open spec fn counter(self, i: int) -> u64 {
        match self.current {
            Some(c) => (c + i * self.step) as u64,
            None => 0,
        }
    }

    /// The counters that are still to come, in their order, where the cursor
    /// ends. These are the seeds, unless they are drawn at random.
    pub open spec fn counters(self) -> Seq<u64> {
        Seq::new(self.remaining(), |i: int| self.counter(i))
    }

    /// The first `n` of the counters that are still to come, or all of them
    /// where fewer are left.
    pub open spec fn prefix(self, n: nat) -> Seq<u64>
        decreases n,
    {
        match self.current {
            Some(c) if n > 0 => seq![c] + self.advance().prefix((n - 1) as nat),
            _ => Seq::empty(),
        }
    }

    /// The cursor after `n` seeds have been taken.
    pub open spec fn after(self, n: nat) -> Cursor
        decreases n,
    {
        if n == 0 {
            self
        } else {
            self.advance().after((n - 1) as nat)
        }
    }
}

/// Taking one seed from a cursor that ends takes the first of its counters
/// away and leaves the others, as they were.
pub proof fn lemma_advance_counters(cursor: Cursor)
    requires
        !cursor.endless(),
        cursor.current.is_some(),
    ensures
        !cursor.advance().endless(),
        cursor.remaining() == cursor.advance().remaining() + 1,
        cursor.counters() == seq![cursor.current.unwrap()] + cursor.advance().counters(),
{
    let c = cursor.current.unwrap() as int;
    let max = cursor.max as int;
    let step = cursor.step as int;
    let next = cursor.advance();
    if cursor.has_successor() {
        assert(step > 0);
        assert((max - c) / step == (max - (c + step)) / step + 1) by (nonlinear_arith)
            requires
                step > 0,
                max - c >= step,
        ;
        assert(cursor.remaining() == next.remaining() + 1);
        assert forall|i: int| 0 <= i < next.remaining() implies next.counter(i) == cursor.counter(
            i + 1,
        ) by {
            assert(c + step + i * step == c + (i + 1) * step) by (nonlinear_arith);
        }
    } else {
        if c < max && step > 0 {
            assert((max - c) / step == 0) by (nonlinear_arith)
                requires
                    step > max - c,
                    max - c >= 0,
            ;
        }
        assert(next.remaining() == 0);
    }
    assert(cursor.counter(0) == c) by (nonlinear_arith)
        requires
            cursor.counter(0) == ((c + 0 * step) as u64),
            0 <= c <= u64::MAX,
    ;
    assert(cursor.counters() =~= seq![cursor.current.unwrap()] + next.counters());
}

/// Taking seeds changes the counter and nothing else.
pub proof fn lemma_after_parameters(cursor: Cursor, n: nat)
    ensures
        cursor.after(n).max == cursor.max,
        cursor.after(n).step == cursor.step,
        cursor.after(n).randomize == cursor.randomize,
    decreases n,
{
    if n > 0 {
        lemma_after_parameters(cursor.advance(), (n - 1) as nat);
    }
}

/// A cursor that never ends stays as it is, whatever is taken from it.
pub proof fn lemma_endless_after(cursor: Cursor, n: nat)
    requires
        cursor.endless(),
    ensures
        cursor.after(n) == cursor,
    decreases n,
{
    if n > 0 {
        assert(cursor.advance() == cursor);
        lemma_endless_after(cursor, (n - 1) as nat);
    }
}

/// A sequence that has ended has ended for good.
pub proof fn lemma_exhausted_after(cursor: Cursor, n: nat)
    requires
        cursor.current.is_none(),
    ensures
        cursor.after(n) == cursor,
        forall|drawn: u64| cursor.after(n).emit(drawn).is_none(),
    decreases n,
{
    if n > 0 {
        assert(cursor.advance() == cursor);
        lemma_exhausted_after(cursor, (n - 1) as nat);
    }
}

/// After `n` seeds a cursor that ends stands at its counter number `n`, and
/// has ended once its counters are used up.
pub proof fn lemma_after_counters(cursor: Cursor, n: nat)
    requires
        !cursor.endless(),
    ensures
        !cursor.after(n).endless(),
        n < cursor.remaining() ==> cursor.after(n).current == Some(cursor.counters()[n as int]),
        n >= cursor.remaining() ==> cursor.after(n).current.is_none(),
        cursor.after(n).counters() == cursor.counters().skip(
            if n < cursor.remaining() {
                n as int
            } else {
                cursor.remaining() as int
            },
        ),
    decreases n,
{
    if n == 0 {
        assert(cursor.counters().skip(0) =~= cursor.counters());
        if cursor.current.is_some() {
            lemma_advance_counters(cursor);
        }
    } else if cursor.current.is_none() {
        lemma_exhausted_after(cursor, n);
        assert(cursor.counters().skip(0) =~= cursor.counters());
    } else {
        lemma_advance_counters(cursor);
        let next = cursor.advance();
        lemma_after_counters(next, (n - 1) as nat);
        let rest = seq![cursor.current.unwrap()] + next.counters();
        if n < cursor.remaining() {
            assert(rest.skip(n as int) =~= next.counters().skip(n - 1));
        } else {
            assert(rest.skip(cursor.remaining() as int) =~= next.counters().skip(
                next.remaining() as int,
            ));
        }
    }
}

/// Where the step is not 0 and the cursor stands at or below `max`, its
/// counters climb from the current one in steps of `step`, none above `max`,
/// and the last of them less than a step below it.
pub proof fn lemma_counters_ascend(cursor: Cursor)
    requires
        cursor.current.is_some(),
        cursor.current.unwrap() <= cursor.max,
        cursor.step >= 1,
    ensures
        cursor.counters().len() == (cursor.max - cursor.current.unwrap()) / (cursor.step as int)
            + 1,
        forall|i: int|
            0 <= i < cursor.counters().len() ==> #[trigger] cursor.counters()[i]
                == cursor.current.unwrap() + i * cursor.step,
        forall|i: int, j: int|
            0 <= i < j < cursor.counters().len() ==> cursor.counters()[i] < cursor.counters()[j],
        cursor.counters().first() == cursor.current.unwrap(),
        cursor.counters().last() <= cursor.max < cursor.counters().last() + cursor.step,
{
    let c = cursor.current.unwrap() as int;
    let max = cursor.max as int;
    let step = cursor.step as int;
    let q = (max - c) / step;
    assert(0 <= q * step <= max - c < q * step + step) by (nonlinear_arith)
        requires
            q == (max - c) / step,
            step >= 1,
            max - c >= 0,
    ;
    if c >= max {
        assert(q == 0) by (nonlinear_arith)
            requires
                q == (max - c) / step,
                step >= 1,
                max - c == 0,
        ;
    }
    assert(cursor.remaining() == q + 1);
    assert forall|i: int| 0 <= i < cursor.counters().len() implies #[trigger] cursor.counters()[i]
        == c + i * step by {
        assert(0 <= i * step <= q * step) by (nonlinear_arith)
            requires
                0 <= i <= q,
                step >= 1,
        ;
    }
    assert forall|i: int, j: int| 0 <= i < j < cursor.counters().len() implies cursor.counters()[i]
        < cursor.counters()[j] by {
        assert(i * step < j * step) by (nonlinear_arith)
            requires
                i < j,
                step >= 1,
        ;
        assert(cursor.counters()[i] == c + i * step);
        assert(cursor.counters()[j] == c + j * step);
    }
    assert(cursor.counters()[0] == c + 0 * step);
    assert(cursor.counters()[q] == c + q * step);
}

/// The seed number `k + 1` is taken from the cursor that the first `k` have
/// left, and where there is one, it follows those `k` in the prefix.
pub proof fn lemma_prefix_step(cursor: Cursor, k: nat)
    ensures
        cursor.after(k + 1) == cursor.after(k).advance(),
        cursor.prefix(k).len() <= k,
        cursor.after(k).current matches Some(c) ==> cursor.prefix(k).len() == k && cursor.prefix(
            k + 1,
        ) == cursor.prefix(k).push(c),
    decreases k,
{
    if k == 0 {
        assert(cursor.advance().after(0) == cursor.advance());
        if let Some(c) = cursor.current {
            assert(cursor.advance().prefix(0) =~= Seq::<u64>::empty());
            assert(cursor.prefix(1) =~= cursor.prefix(0).push(c));
        }
    } else if cursor.current.is_none() {
        lemma_exhausted_after(cursor, k);
        lemma_exhausted_after(cursor, k + 1);
    } else {
        let next = cursor.advance();
        lemma_prefix_step(next, (k - 1) as nat);
        if let Some(c) = cursor.after(k).current {
            assert(cursor.prefix(k + 1) =~= cursor.prefix(k).push(c));
        }
    }
}

/// Once the sequence has ended, asking for more changes nothing: neither the
/// cursor nor what was taken.
pub proof fn lemma_prefix_ended(cursor: Cursor, k: nat, n: nat)
    requires
        k <= n,
        cursor.after(k).current.is_none(),
    ensures
        cursor.after(n) == cursor.after(k),
        cursor.prefix(n) == cursor.prefix(k),
    decreases k,
{
    if cursor.current.is_none() {
        lemma_exhausted_after(cursor, k);
        lemma_exhausted_after(cursor, n);
    } else if k > 0 {
        lemma_prefix_ended(cursor.advance(), (k - 1) as nat, (n - 1) as nat);
    }
}

/// Of a cursor that ends, the first `n` counters are the first `n` of all its
/// counters, or all of them where there are no more than `n`.
pub proof fn lemma_prefix_counters(cursor: Cursor, n: nat)
    requires
        !cursor.endless(),
    ensures
        n <= cursor.remaining() ==> cursor.prefix(n) == cursor.counters().take(n as int),
        n >= cursor.remaining() ==> cursor.prefix(n) == cursor.counters(),
    decreases n,
{
    if cursor.current.is_none() {
        assert(cursor.counters() =~= Seq::<u64>::empty());
        assert(cursor.counters().take(0) =~= Seq::<u64>::empty());
    } else if n == 0 {
        assert(cursor.counters().take(0) =~= Seq::<u64>::empty());
    } else {
        let next = cursor.advance();
        lemma_advance_counters(cursor);
        lemma_prefix_counters(next, (n - 1) as nat);
        let all = seq![cursor.current.unwrap()] + next.counters();
        if n <= cursor.remaining() {
            assert(all.take(n as int) =~= seq![cursor.current.unwrap()] + next.counters().take(
                n - 1,
            ));
        }
    }
}

/// Of a cursor that never ends, the first `n` counters are `n` times the
/// counter at which it stands.
pub proof fn lemma_prefix_endless(cursor: Cursor, n: nat)
    requires
        cursor.endless(),
    ensures
        cursor.prefix(n) == Seq::new(n, |i: int| cursor.current.unwrap()),
    decreases n,
{
    if n > 0 {
        assert(cursor.advance() == cursor);
        lemma_prefix_endless(cursor, (n - 1) as nat);
    }
    assert(cursor.prefix(n) =~= Seq::new(n, |i: int| cursor.current.unwrap()));
}

} // verus!
