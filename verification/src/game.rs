//! The game engine: a fixed row of slots, a draw pool consumed as a stack,
//! and the legality computation that keeps the filled values strictly
//! ascending in slot order at every point of the game.

use vstd::prelude::*;
use vstd::arithmetic::mul::{lemma_mul_inequality, lemma_mul_upper_bound};
use vstd::pervasive::VecAdditionalExecFns;
use crate::GameError;
use crate::digits::{dec_rep, u32_to_decimal};
use crate::pool::create_pool;

verus! {

/// One placement cell: a legality flag and an at-most-once value.
#[derive(Clone, Copy, Debug, PartialEq, Eq)]
pub struct Slot {
    /// Whether this slot is a legal target for the next drawn value.
    pub enabled: bool,
    /// The value placed here, if any. Never overwritten once set.
    pub value: Option<u32>,
}

/// The mathematical model of a [`Game`]: its slots, its remaining draw pool
/// (tail is the next value), and the inclusive value bounds.
pub struct GameView {
    pub slots: Seq<Slot>,
    pub pool: Seq<u32>,
    pub min: u32,
    pub max: u32,
}

/// The engine: slots, draw pool, and the bounds used by the hint heuristic.
#[derive(Debug)]
pub struct Game {
    slots: Vec<Slot>,
    pool: Vec<u32>,
    min: u32,
    max: u32,
}

impl View for Game {
    type V = GameView;

    closed spec fn view(&self) -> GameView {
        GameView { slots: self.slots@, pool: self.pool@, min: self.min, max: self.max }
    }
}

/// How many slots hold a value.
pub open spec fn filled_count(s: Seq<Slot>) -> int
    decreases s.len(),
{
    if s.len() == 0 {
        0
    } else {
        filled_count(s.drop_last()) + if s.last().value is Some {
            1int
        } else {
            0int
        }
    }
}

/// How many slots are flagged as legal targets.
pub open spec fn enabled_count(s: Seq<Slot>) -> int
    decreases s.len(),
{
    if s.len() == 0 {
        0
    } else {
        enabled_count(s.drop_last()) + if s.last().enabled {
            1int
        } else {
            0int
        }
    }
}

/// The filled values, read in slot order, are strictly ascending.
pub open spec fn ascending(s: Seq<Slot>) -> bool {
    forall|i: int, j: int|
        0 <= i < j < s.len() && (#[trigger] s[i].value) is Some && (#[trigger] s[j].value) is Some
            ==> s[i].value.unwrap() < s[j].value.unwrap()
}

/// The lower edge of the legal window for `next`: one past the index of the
/// rightmost filled slot whose value is below `next`, or `0` if there is none.
pub open spec fn window_lo(s: Seq<Slot>, next: u32) -> int
    decreases s.len(),
{
    if s.len() == 0 {
        0
    } else if s.last().value is Some && s.last().value.unwrap() < next {
        s.len() as int
    } else {
        window_lo(s.drop_last(), next)
    }
}

/// The upper edge of the legal window for `next`: the index of the leftmost
/// filled slot whose value is above `next`, or the slot count if there is none.
pub open spec fn window_hi(s: Seq<Slot>, next: u32) -> int
    decreases s.len(),
{
    if s.len() == 0 {
        0
    } else if s[0].value is Some && s[0].value.unwrap() > next {
        0
    } else {
        1 + window_hi(s.skip(1), next)
    }
}

impl GameView {
    /// The next value the pool will hand out, if any.
    pub open spec fn next_value(self) -> Option<u32> {
        if self.pool.len() > 0 {
            Some(self.pool.last())
        } else {
            None
        }
    }

    /// Structural soundness: counts add up, every value sits inside the
    /// bounds, all values are mutually distinct, and the filled values are
    /// strictly ascending in slot order.
    pub open spec fn valid(self) -> bool {
        &&& self.min <= self.max
        &&& filled_count(self.slots) + self.pool.len() == self.slots.len()
        &&& ascending(self.slots)
        &&& forall|i: int|
            0 <= i < self.slots.len() && (#[trigger] self.slots[i].value) is Some
                ==> self.min <= self.slots[i].value.unwrap() <= self.max
        &&& forall|i: int| 0 <= i < self.pool.len() ==> self.min <= #[trigger] self.pool[i] <= self.max
        &&& forall|i: int, j: int|
            0 <= i < j < self.pool.len() ==> (#[trigger] self.pool[i]) != (#[trigger] self.pool[j])
        &&& forall|i: int, j: int|
            0 <= i < self.slots.len() && (#[trigger] self.slots[i].value) is Some && 0 <= j
                < self.pool.len() ==> self.slots[i].value.unwrap() != #[trigger] self.pool[j]
    }

    /// The enabled flags agree with the legal window of the next value: a
    /// slot is flagged exactly when the pool still has a value and the slot's
    /// index lies inside the window.
    pub open spec fn enabled_ok(self) -> bool {
        forall|i: int|
            0 <= i < self.slots.len()
                ==> ((#[trigger] self.slots[i].enabled) <==> (self.pool.len() > 0 && window_lo(
                self.slots,
                self.pool.last(),
            ) <= i < window_hi(self.slots, self.pool.last())))
    }

    /// The value bound on the left of the legal window: the value just left
    /// of the window, or the global minimum when the window starts at index 0.
    pub open spec fn left_bound(self) -> u32
        recommends
            self.pool.len() > 0,
    {
        let lo = window_lo(self.slots, self.pool.last());
        if lo == 0 {
            self.min
        } else {
            self.slots[lo - 1].value.unwrap()
        }
    }

    /// The value bound on the right of the legal window: the value just right
    /// of the window, or the global maximum when the window ends at the end.
    pub open spec fn right_bound(self) -> u32
        recommends
            self.pool.len() > 0,
    {
        let hi = window_hi(self.slots, self.pool.last());
        if hi == self.slots.len() {
            self.max
        } else {
            self.slots[hi].value.unwrap()
        }
    }
}

impl Game {
    /// Every game the library hands out satisfies this: the structural
    /// invariant holds and the enabled flags are up to date.
    pub open spec fn wf(self) -> bool {
        self@.valid() && self@.enabled_ok()
    }
}

// ---------------------------------------------------------------------------
// Window characterization lemmas
// ---------------------------------------------------------------------------

/// The lower window edge is in range; the slot just below it (if the edge is
/// positive) is filled with a value below `next`; and every filled slot at or
/// above it holds a value at or above `next`.
proof fn lemma_window_lo_props(s: Seq<Slot>, next: u32)
    ensures
        0 <= window_lo(s, next) <= s.len(),
        window_lo(s, next) > 0 ==> s[window_lo(s, next) - 1].value is Some && s[window_lo(s, next)
            - 1].value.unwrap() < next,
        forall|k: int|
            window_lo(s, next) <= k < s.len() && (#[trigger] s[k].value) is Some
                ==> s[k].value.unwrap() >= next,
    decreases s.len(),
{
    if s.len() > 0 {
        lemma_window_lo_props(s.drop_last(), next);
        assert(forall|k: int| 0 <= k < s.len() - 1 ==> s.drop_last()[k] == s[k]);
    }
}

/// The upper window edge is in range; the slot at it (if the edge is below
/// the slot count) is filled with a value above `next`; and every filled slot
/// below it holds a value at or below `next`.
proof fn lemma_window_hi_props(s: Seq<Slot>, next: u32)
    ensures
        0 <= window_hi(s, next) <= s.len(),
        window_hi(s, next) < s.len() ==> s[window_hi(s, next)].value is Some && s[window_hi(
            s,
            next,
        )].value.unwrap() > next,
        forall|k: int|
            0 <= k < window_hi(s, next) && (#[trigger] s[k].value) is Some ==> s[k].value.unwrap()
                <= next,
    decreases s.len(),
{
    if s.len() > 0 && !(s[0].value is Some && s[0].value.unwrap() > next) {
        lemma_window_hi_props(s.skip(1), next);
        assert(forall|k: int| 0 <= k < s.len() - 1 ==> s.skip(1)[k] == s[k + 1]);
        assert forall|k: int|
            0 <= k < window_hi(s, next) && (#[trigger] s[k].value) is Some implies s[
            k
        ].value.unwrap() <= next by {
            if k > 0 {
                assert(s.skip(1)[k - 1] == s[k]);
            }
        }
    }
}

/// Under the ascending invariant, when no filled slot holds `next` itself,
/// the legal window is well formed and contains only empty slots.
proof fn lemma_window_shape(s: Seq<Slot>, next: u32)
    requires
        ascending(s),
        forall|k: int|
            0 <= k < s.len() && (#[trigger] s[k].value) is Some ==> s[k].value.unwrap() != next,
    ensures
        window_lo(s, next) <= window_hi(s, next),
        forall|k: int|
            window_lo(s, next) <= k < window_hi(s, next) ==> (#[trigger] s[k].value) is None,
{
    let lo = window_lo(s, next);
    let hi = window_hi(s, next);
    lemma_window_lo_props(s, next);
    lemma_window_hi_props(s, next);
    assert forall|k: int| lo <= k < hi implies (#[trigger] s[k].value) is None by {
        if s[k].value is Some {
            assert(s[k].value.unwrap() >= next);
            assert(s[k].value.unwrap() <= next);
        }
    }
    if lo > hi {
        assert(lo > 0);
        assert(s[lo - 1].value is Some && s[lo - 1].value.unwrap() < next);
        if hi < s.len() {
            assert(s[hi].value is Some && s[hi].value.unwrap() > next);
            if hi < lo - 1 {
                assert(s[hi].value.unwrap() < s[lo - 1].value.unwrap());
            }
        }
    }
}

/// The window edges depend only on the slot values, not on the enabled flags.
proof fn lemma_window_lo_values(a: Seq<Slot>, b: Seq<Slot>, next: u32)
    requires
        a.len() == b.len(),
        forall|i: int| 0 <= i < a.len() ==> (#[trigger] a[i].value) == b[i].value,
    ensures
        window_lo(a, next) == window_lo(b, next),
    decreases a.len(),
{
    if a.len() > 0 {
        assert(a.last().value == b.last().value);
        lemma_window_lo_values(a.drop_last(), b.drop_last(), next);
    }
}

/// The window edges depend only on the slot values, not on the enabled flags.
proof fn lemma_window_hi_values(a: Seq<Slot>, b: Seq<Slot>, next: u32)
    requires
        a.len() == b.len(),
        forall|i: int| 0 <= i < a.len() ==> (#[trigger] a[i].value) == b[i].value,
    ensures
        window_hi(a, next) == window_hi(b, next),
    decreases a.len(),
{
    if a.len() > 0 {
        assert(a[0].value == b[0].value);
        assert(forall|i: int| 0 <= i < a.len() - 1 ==> (#[trigger] a.skip(1)[i]) == a[i + 1]);
        assert(forall|i: int| 0 <= i < b.len() - 1 ==> (#[trigger] b.skip(1)[i]) == b[i + 1]);
        lemma_window_hi_values(a.skip(1), b.skip(1), next);
    }
}

// ---------------------------------------------------------------------------
// Counting lemmas
// ---------------------------------------------------------------------------

/// The filled count depends only on the slot values and sits in range.
proof fn lemma_filled_count_values(a: Seq<Slot>, b: Seq<Slot>)
    requires
        a.len() == b.len(),
        forall|i: int| 0 <= i < a.len() ==> (#[trigger] a[i].value) == b[i].value,
    ensures
        filled_count(a) == filled_count(b),
    decreases a.len(),
{
    if a.len() > 0 {
        assert(a.last().value == b.last().value);
        lemma_filled_count_values(a.drop_last(), b.drop_last());
    }
}

proof fn lemma_filled_count_bounds(s: Seq<Slot>)
    ensures
        0 <= filled_count(s) <= s.len(),
    decreases s.len(),
{
    if s.len() > 0 {
        lemma_filled_count_bounds(s.drop_last());
    }
}

/// A row with no filled slot has filled count zero.
proof fn lemma_filled_count_all_empty(s: Seq<Slot>)
    requires
        forall|i: int| 0 <= i < s.len() ==> (#[trigger] s[i].value) is None,
    ensures
        filled_count(s) == 0,
    decreases s.len(),
{
    if s.len() > 0 {
        assert(forall|k: int| 0 <= k < s.len() - 1 ==> s.drop_last()[k] == s[k]);
        lemma_filled_count_all_empty(s.drop_last());
    }
}

/// Updating one slot moves the filled count by the change at that index.
proof fn lemma_filled_count_update(s: Seq<Slot>, i: int, x: Slot)
    requires
        0 <= i < s.len(),
    ensures
        filled_count(s.update(i, x)) == filled_count(s) + (if x.value is Some {
            1int
        } else {
            0int
        }) - (if s[i].value is Some {
            1int
        } else {
            0int
        }),
    decreases s.len(),
{
    let t = s.update(i, x);
    if i == s.len() - 1 {
        assert(t.drop_last() =~= s.drop_last());
        assert(t.last() == x);
    } else {
        assert(t.drop_last() =~= s.drop_last().update(i, x));
        assert(t.last() == s.last());
        lemma_filled_count_update(s.drop_last(), i, x);
    }
}

/// When the enabled flags trace out exactly the index window `[lo, hi)`, the
/// enabled count is the window's width.
proof fn lemma_enabled_count_window(s: Seq<Slot>, lo: int, hi: int)
    requires
        0 <= lo <= hi <= s.len(),
        forall|i: int| 0 <= i < s.len() ==> ((#[trigger] s[i].enabled) <==> lo <= i < hi),
    ensures
        enabled_count(s) == hi - lo,
    decreases s.len(),
{
    if s.len() > 0 {
        let d = s.drop_last();
        assert(forall|k: int| 0 <= k < s.len() - 1 ==> d[k] == s[k]);
        if hi == s.len() {
            if lo == s.len() {
                lemma_enabled_count_window(d, s.len() - 1, s.len() - 1);
            } else {
                lemma_enabled_count_window(d, lo, s.len() - 1);
            }
        } else {
            lemma_enabled_count_window(d, lo, hi);
        }
    }
}

/// A row with no enabled slot has enabled count zero.
proof fn lemma_enabled_count_none(s: Seq<Slot>)
    requires
        forall|i: int| 0 <= i < s.len() ==> !(#[trigger] s[i].enabled),
    ensures
        enabled_count(s) == 0,
    decreases s.len(),
{
    if s.len() > 0 {
        assert(forall|k: int| 0 <= k < s.len() - 1 ==> s.drop_last()[k] == s[k]);
        lemma_enabled_count_none(s.drop_last());
    }
}

// ---------------------------------------------------------------------------
// Derived facts about well-formed games
// ---------------------------------------------------------------------------

/// In a well-formed game no filled slot is flagged enabled: the legal window
/// holds only empty slots.
proof fn lemma_enabled_is_empty(v: GameView)
    requires
        v.valid(),
        v.enabled_ok(),
    ensures
        forall|i: int|
            0 <= i < v.slots.len() && (#[trigger] v.slots[i].enabled) ==> v.slots[i].value is None,
{
    if v.pool.len() > 0 {
        let next = v.pool.last();
        assert(forall|k: int|
            0 <= k < v.slots.len() && (#[trigger] v.slots[k].value) is Some
                ==> v.slots[k].value.unwrap() != next);
        lemma_window_shape(v.slots, next);
    }
}

/// In a well-formed game with a next value, the enabled count is exactly the
/// width of the legal window.
proof fn lemma_available_is_window(v: GameView)
    requires
        v.valid(),
        v.enabled_ok(),
        v.pool.len() > 0,
    ensures
        enabled_count(v.slots) == window_hi(v.slots, v.pool.last()) - window_lo(
            v.slots,
            v.pool.last(),
        ),
{
    let next = v.pool.last();
    lemma_window_lo_props(v.slots, next);
    lemma_window_hi_props(v.slots, next);
    assert(forall|k: int|
        0 <= k < v.slots.len() && (#[trigger] v.slots[k].value) is Some ==> v.slots[k].value.unwrap()
            != next);
    lemma_window_shape(v.slots, next);
    lemma_enabled_count_window(v.slots, window_lo(v.slots, next), window_hi(v.slots, next));
}

/// In a well-formed game with an empty pool, nothing is enabled.
proof fn lemma_no_pool_no_available(v: GameView)
    requires
        v.enabled_ok(),
        v.pool.len() == 0,
    ensures
        enabled_count(v.slots) == 0,
{
    lemma_enabled_count_none(v.slots);
}

// ---------------------------------------------------------------------------
// The engine
// ---------------------------------------------------------------------------

impl Slot {
    /// The display form of a slot: the empty string while unset, the decimal
    /// value once set.
    pub fn render(&self) -> (r: String)
        ensures
            self.value is Some ==> r@ == dec_rep(self.value.unwrap() as int),
            self.value is None ==> r@ == Seq::<char>::empty(),
    {
        match self.value {
            Some(v) => u32_to_decimal(v),
            None => String::new(),
        }
    }
}

impl Game {
    /// Build the initial row of `count` empty, enabled slots.
    fn initial_slots(count: usize) -> (r: Vec<Slot>)
        ensures
            r@.len() == count,
            forall|i: int|
                0 <= i < count ==> (#[trigger] r@[i]) == (Slot { enabled: true, value: None }),
    {
        let mut slots: Vec<Slot> = Vec::new();
        let mut k: usize = 0;
        while k < count
            invariant
                k <= count,
                slots@.len() == k,
                forall|i: int|
                    0 <= i < k ==> (#[trigger] slots@[i]) == (Slot { enabled: true, value: None }),
            decreases count - k,
        {
            slots.push(Slot { enabled: true, value: None });
            k += 1;
        }
        slots
    }

    /// Start a game over a freshly drawn random pool of `count` distinct
    /// values in `[lo, hi]`. Fails exactly when the bounds cannot supply
    /// `count` distinct values.
    pub fn new(count: usize, lo: u32, hi: u32) -> (r: Result<Game, GameError>)
        ensures
            r is Ok <==> lo <= hi && count as int <= hi - lo + 1,
            r is Err ==> r.unwrap_err() == GameError::UnsatisfiableBounds,
            r is Ok ==> ({
                let g = r.unwrap();
                &&& g.wf()
                &&& g@.slots.len() == count
                &&& g@.pool.len() == count
                &&& g@.min == lo
                &&& g@.max == hi
                &&& forall|i: int|
                    0 <= i < count ==> (#[trigger] g@.slots[i]) == (Slot {
                        enabled: true,
                        value: None,
                    })
            }),
    {
        let pool = match create_pool(count, lo, hi) {
            Ok(p) => p,
            Err(e) => {
                return Err(e);
            },
        };
        let slots = Self::initial_slots(count);
        let g = Game { slots, pool, min: lo, max: hi };
        proof {
            lemma_filled_count_all_empty(g@.slots);
            if g@.pool.len() > 0 {
                lemma_window_lo_props(g@.slots, g@.pool.last());
                lemma_window_hi_props(g@.slots, g@.pool.last());
            }
        }
        Ok(g)
    }

    /// Start a game over a given draw pool (tail drawn first), with bounds
    /// `[lo, hi]`. Fails exactly when the pool repeats a value, holds a value
    /// outside the bounds, or the bounds are inverted.
    pub fn from_pool(pool: Vec<u32>, lo: u32, hi: u32) -> (r: Result<Game, GameError>)
        ensures
            r is Ok <==> (lo <= hi && (forall|i: int|
                0 <= i < pool@.len() ==> lo <= #[trigger] pool@[i] <= hi) && (forall|i: int, j: int|
                0 <= i < j < pool@.len() ==> (#[trigger] pool@[i]) != (#[trigger] pool@[j]))),
            r is Err ==> r.unwrap_err() == GameError::InvalidPool,
            r is Ok ==> ({
                let g = r.unwrap();
                &&& g.wf()
                &&& g@.pool == pool@
                &&& g@.slots.len() == pool@.len()
                &&& g@.min == lo
                &&& g@.max == hi
                &&& forall|i: int|
                    0 <= i < pool@.len() ==> (#[trigger] g@.slots[i]) == (Slot {
                        enabled: true,
                        value: None,
                    })
            }),
    {
        if lo > hi {
            return Err(GameError::InvalidPool);
        }
        let n = pool.len();
        let mut i: usize = 0;
        while i < n
            invariant
                n == pool@.len(),
                i <= n,
                lo <= hi,
                forall|k: int| 0 <= k < i ==> lo <= #[trigger] pool@[k] <= hi,
                forall|k: int, l: int|
                    0 <= k < l < i ==> (#[trigger] pool@[k]) != (#[trigger] pool@[l]),
            decreases n - i,
        {
            if pool[i] < lo || pool[i] > hi {
                return Err(GameError::InvalidPool);
            }
            let mut j: usize = 0;
            while j < i
                invariant
                    n == pool@.len(),
                    j <= i < n,
                    forall|k: int| 0 <= k < j ==> #[trigger] pool@[k] != pool@[i as int],
                decreases i - j,
            {
                if pool[j] == pool[i] {
                    return Err(GameError::InvalidPool);
                }
                j += 1;
            }
            i += 1;
        }
        let slots = Self::initial_slots(n);
        let g = Game { slots, pool, min: lo, max: hi };
        proof {
            lemma_filled_count_all_empty(g@.slots);
            if g@.pool.len() > 0 {
                lemma_window_lo_props(g@.slots, g@.pool.last());
                lemma_window_hi_props(g@.slots, g@.pool.last());
            }
        }
        Ok(g)
    }

    /// Peek at the next value the pool will hand out, without consuming it.
    pub fn next(&self) -> (r: Option<u32>)
        ensures
            r == self@.next_value(),
    {
        if self.pool.len() == 0 {
            None
        } else {
            Some(self.pool[self.pool.len() - 1])
        }
    }

    /// How many slots the game was created with.
    pub fn slot_count(&self) -> (n: usize)
        ensures
            n == self@.slots.len(),
    {
        self.slots.len()
    }

    /// The slot at `idx`.
    pub fn slot(&self, idx: usize) -> (s: Slot)
        requires
            idx < self@.slots.len(),
        ensures
            s == self@.slots[idx as int],
    {
        self.slots[idx]
    }

    /// How many slots hold a value.
    pub fn num_filled(&self) -> (n: usize)
        ensures
            n as int == filled_count(self@.slots),
    {
        let mut n: usize = 0;
        let mut i: usize = 0;
        while i < self.slots.len()
            invariant
                i <= self.slots@.len(),
                n <= i,
                n as int == filled_count(self.slots@.take(i as int)),
            decreases self.slots@.len() - i,
    {
            proof {
                assert(self.slots@.take(i + 1).drop_last() =~= self.slots@.take(i as int));
                assert(self.slots@.take(i + 1).last() == self.slots@[i as int]);
            }
            if self.slots[i].value.is_some() {
                n += 1;
            }
            i += 1;
        }
        proof {
            assert(self.slots@.take(self.slots@.len() as int) =~= self.slots@);
        }
        n
    }

    /// How many slots are currently legal targets.
    pub fn num_available(&self) -> (n: usize)
        ensures
            n as int == enabled_count(self@.slots),
    {
        let mut n: usize = 0;
        let mut i: usize = 0;
        while i < self.slots.len()
            invariant
                i <= self.slots@.len(),
                n <= i,
                n as int == enabled_count(self.slots@.take(i as int)),
            decreases self.slots@.len() - i,
        {
            proof {
                assert(self.slots@.take(i + 1).drop_last() =~= self.slots@.take(i as int));
                assert(self.slots@.take(i + 1).last() == self.slots@[i as int]);
            }
            if self.slots[i].enabled {
                n += 1;
            }
            i += 1;
        }
        proof {
            assert(self.slots@.take(self.slots@.len() as int) =~= self.slots@);
        }
        n
    }
}

/// Appending a slot on the right either keeps an upper window edge that the
/// shorter row already fixed, or extends the undecided edge by one.
proof fn lemma_window_hi_push(s: Seq<Slot>, x: Slot, next: u32)
    ensures
        window_hi(s.push(x), next) == (if window_hi(s, next) < s.len() {
            window_hi(s, next)
        } else if x.value is Some && x.value.unwrap() > next {
            s.len() as int
        } else {
            s.len() as int + 1
        }),
    decreases s.len(),
{
    lemma_window_hi_props(s, next);
    let p = s.push(x);
    assert(p.len() == s.len() + 1);
    if s.len() == 0 {
        assert(p[0] == x);
        if x.value is Some && x.value.unwrap() > next {
            assert(window_hi(p, next) == 0);
        } else {
            assert(p.skip(1) =~= Seq::<Slot>::empty());
            assert(window_hi(p, next) == 1 + window_hi(p.skip(1), next));
            assert(window_hi(p.skip(1), next) == 0);
        }
    } else {
        assert(p[0] == s[0]);
        if s[0].value is Some && s[0].value.unwrap() > next {
            assert(window_hi(p, next) == 0);
            assert(window_hi(s, next) == 0);
        } else {
            assert(p.skip(1) =~= s.skip(1).push(x));
            assert(window_hi(p, next) == 1 + window_hi(p.skip(1), next));
            assert(window_hi(s, next) == 1 + window_hi(s.skip(1), next));
            lemma_window_hi_push(s.skip(1), x, next);
            assert(s.skip(1).len() == s.len() - 1);
        }
    }
}

impl Game {
    /// The legal window of the next value, as the index pair `(s, t)`: the
    /// window is the indices `i` with `s <= i < t`. `None` when the pool is
    /// exhausted.
    fn limits(&self) -> (r: Option<(usize, usize)>)
        ensures
            r is Some <==> self@.pool.len() > 0,
            r is Some ==> r.unwrap().0 as int == window_lo(self@.slots, self@.pool.last()),
            r is Some ==> r.unwrap().1 as int == window_hi(self@.slots, self@.pool.last()),
    {
        let next = match self.next() {
            Some(n) => n,
            None => {
                return None;
            },
        };
        let n = self.slots.len();
        let mut s: usize = 0;
        let mut t: usize = 0;
        let mut t_set: bool = false;
        let mut i: usize = 0;
        while i < n
            invariant
                n == self@.slots.len(),
                i <= n,
                s <= i,
                t < n || !t_set,
                s as int == window_lo(self@.slots.take(i as int), next),
                t_set ==> t < i && t as int == window_hi(self@.slots.take(i as int), next),
                !t_set ==> window_hi(self@.slots.take(i as int), next) == i,
            decreases n - i,
        {
            proof {
                assert(self@.slots.take(i + 1).drop_last() =~= self@.slots.take(i as int));
                assert(self@.slots.take(i + 1).last() == self@.slots[i as int]);
                assert(self@.slots.take(i as int).push(self@.slots[i as int]) =~= self@.slots.take(
                    i + 1,
                ));
                lemma_window_hi_props(self@.slots.take(i as int), next);
                lemma_window_hi_push(self@.slots.take(i as int), self@.slots[i as int], next);
            }
            let sl = self.slots[i];
            if let Some(v) = sl.value {
                if v < next {
                    s = i + 1;
                }
                if !t_set && v > next {
                    t = i;
                    t_set = true;
                }
            }
            i += 1;
        }
        proof {
            assert(self@.slots.take(n as int) =~= self@.slots);
        }
        let t_final = if t_set {
            t
        } else {
            n
        };
        Some((s, t_final))
    }

    /// Recompute every slot's enabled flag from the legal window of the next
    /// value; when the pool is exhausted, disable everything.
    fn update_enabled(&mut self)
        requires
            old(self)@.valid(),
        ensures
            final(self)@.valid(),
            final(self)@.enabled_ok(),
            final(self)@.pool == old(self)@.pool,
            final(self)@.min == old(self)@.min,
            final(self)@.max == old(self)@.max,
            final(self)@.slots.len() == old(self)@.slots.len(),
            forall|i: int|
                0 <= i < old(self)@.slots.len() ==> (#[trigger] final(self)@.slots[i].value)
                    == old(self)@.slots[i].value,
            filled_count(final(self)@.slots) == filled_count(old(self)@.slots),
    {
        let ghost v0 = self@;
        let n = self.slots.len();
        match self.limits() {
            Some((s, t)) => {
                let mut i: usize = 0;
                while i < n
                    invariant
                        n == self@.slots.len(),
                        i <= n,
                        self@.pool == v0.pool,
                        self@.min == v0.min,
                        self@.max == v0.max,
                        forall|k: int| i <= k < n ==> (#[trigger] self@.slots[k]) == v0.slots[k],
                        forall|k: int|
                            0 <= k < n ==> (#[trigger] self@.slots[k].value) == v0.slots[k].value,
                        forall|k: int|
                            0 <= k < i ==> ((#[trigger] self@.slots[k].enabled) <==> s <= k < t),
                    decreases n - i,
                {
                    let mut sl = self.slots[i];
                    sl.enabled = s <= i && i < t;
                    self.slots.set(i, sl);
                    i += 1;
                }
                proof {
                    let next = v0.pool.last();
                    lemma_window_lo_values(self@.slots, v0.slots, next);
                    lemma_window_hi_values(self@.slots, v0.slots, next);
                    lemma_filled_count_values(self@.slots, v0.slots);
                }
            },
            None => {
                let mut i: usize = 0;
                while i < n
                    invariant
                        n == self@.slots.len(),
                        i <= n,
                        self@.pool == v0.pool,
                        self@.min == v0.min,
                        self@.max == v0.max,
                        forall|k: int| i <= k < n ==> (#[trigger] self@.slots[k]) == v0.slots[k],
                        forall|k: int|
                            0 <= k < n ==> (#[trigger] self@.slots[k].value) == v0.slots[k].value,
                        forall|k: int| 0 <= k < i ==> !(#[trigger] self@.slots[k].enabled),
                    decreases n - i,
                {
                    let mut sl = self.slots[i];
                    sl.enabled = false;
                    self.slots.set(i, sl);
                    i += 1;
                }
                proof {
                    lemma_filled_count_values(self@.slots, v0.slots);
                }
            },
        }
    }

    /// Pop the pool's next value into slot `idx`. Rejects an out-of-range
    /// index, a disabled slot, and a slot that already holds a value; on a
    /// rejection the game is unchanged.
    fn place(&mut self, idx: usize) -> (r: Result<(), GameError>)
        requires
            old(self).wf(),
        ensures
            r is Err ==> *final(self) == *old(self),
            r == Err::<(), GameError>(GameError::InvalidSlot) <==> idx >= old(self)@.slots.len(),
            r == Err::<(), GameError>(GameError::NotEnabled) <==> (idx < old(self)@.slots.len()
                && !old(self)@.slots[idx as int].enabled),
            r == Err::<(), GameError>(GameError::AlreadyFilled) <==> (idx < old(
                self,
            )@.slots.len() && old(self)@.slots[idx as int].enabled && old(
                self,
            )@.slots[idx as int].value is Some),
            r is Ok <==> (idx < old(self)@.slots.len() && old(self)@.slots[idx as int].enabled
                && old(self)@.slots[idx as int].value is None),
            r is Ok ==> ({
                &&& old(self)@.pool.len() > 0
                &&& final(self)@.slots == old(self)@.slots.update(
                    idx as int,
                    Slot { enabled: true, value: Some(old(self)@.pool.last()) },
                )
                &&& final(self)@.pool == old(self)@.pool.drop_last()
                &&& final(self)@.min == old(self)@.min
                &&& final(self)@.max == old(self)@.max
                &&& final(self)@.valid()
                &&& filled_count(final(self)@.slots) == filled_count(old(self)@.slots) + 1
            }),
    {
        if idx >= self.slots.len() {
            return Err(GameError::InvalidSlot);
        }
        let sl = self.slots[idx];
        if !sl.enabled {
            return Err(GameError::NotEnabled);
        }
        if sl.value.is_some() {
            return Err(GameError::AlreadyFilled);
        }
        let ghost v0 = self@;
        proof {
            assert(v0.slots[idx as int].enabled);
            assert(v0.pool.len() > 0);
        }
        let v = self.pool.pop().unwrap();
        let mut filled = sl;
        filled.value = Some(v);
        self.slots.set(idx, filled);
        proof {
            let next = v0.pool.last();
            let s0 = v0.slots;
            let s1 = self@.slots;
            assert(next == v0.pool[v0.pool.len() - 1]);
            assert(self@.pool =~= v0.pool.drop_last());
            assert(s1 =~= s0.update(idx as int, Slot { enabled: true, value: Some(next) }));
            lemma_window_lo_props(s0, next);
            lemma_window_hi_props(s0, next);
            lemma_filled_count_update(s0, idx as int, Slot { enabled: true, value: Some(next) });
            let lo = window_lo(s0, next);
            let hi = window_hi(s0, next);
            assert(lo <= idx < hi);
            // The new row is still strictly ascending: everything filled left
            // of the window sits below `next`, everything right of it above.
            assert forall|i: int, j: int|
                0 <= i < j < s1.len() && (#[trigger] s1[i].value) is Some && (
                #[trigger] s1[j].value) is Some implies s1[i].value.unwrap()
                < s1[j].value.unwrap() by {
                if i == idx {
                    assert(s0[j].value.unwrap() != next);
                    assert(s0[j].value.unwrap() >= next);
                } else if j == idx {
                    assert(s0[i].value.unwrap() != next);
                    assert(s0[i].value.unwrap() <= next);
                }
            }
            // Every remaining pool value differs from the value just placed.
            assert forall|i: int, j: int|
                0 <= i < s1.len() && (#[trigger] s1[i].value) is Some && 0 <= j
                    < self@.pool.len() implies s1[i].value.unwrap() != (
            #[trigger] self@.pool[j]) by {
                assert(self@.pool[j] == v0.pool[j]);
                if i == idx {
                    assert(v0.pool[j] != v0.pool[v0.pool.len() - 1]);
                } else {
                    assert(s0[i].value.unwrap() != v0.pool[j]);
                }
            }
            assert(filled_count(s1) + self@.pool.len() == s1.len());
        }
        Ok(())
    }

    /// Place the next value at `idx`, then bring every enabled flag up to
    /// date. On success exactly one previously empty slot becomes filled and
    /// the pool shrinks by one; a rejected placement leaves the game
    /// unchanged.
    pub fn step(&mut self, idx: usize) -> (r: Result<(), GameError>)
        requires
            old(self).wf(),
        ensures
            final(self).wf(),
            r is Err ==> *final(self) == *old(self),
            r == Err::<(), GameError>(GameError::InvalidSlot) <==> idx >= old(self)@.slots.len(),
            r == Err::<(), GameError>(GameError::NotEnabled) <==> (idx < old(self)@.slots.len()
                && !old(self)@.slots[idx as int].enabled),
            r is Ok <==> (idx < old(self)@.slots.len() && old(self)@.slots[idx as int].enabled),
            r is Ok ==> ({
                &&& old(self)@.pool.len() > 0
                &&& final(self)@.slots.len() == old(self)@.slots.len()
                &&& final(self)@.slots[idx as int].value == Some(old(self)@.pool.last())
                &&& old(self)@.slots[idx as int].value is None
                &&& forall|i: int|
                    0 <= i < old(self)@.slots.len() && i != idx ==> (
                    #[trigger] final(self)@.slots[i].value) == old(self)@.slots[i].value
                &&& final(self)@.pool == old(self)@.pool.drop_last()
                &&& final(self)@.min == old(self)@.min
                &&& final(self)@.max == old(self)@.max
                &&& filled_count(final(self)@.slots) == filled_count(old(self)@.slots) + 1
            }),
    {
        proof {
            lemma_enabled_is_empty(old(self)@);
        }
        let ghost v0 = self@;
        match self.place(idx) {
            Ok(()) => {
                let ghost v1 = self@;
                self.update_enabled();
                proof {
                    assert(v1.slots[idx as int].value == Some(v0.pool.last()));
                    assert(forall|i: int|
                        0 <= i < v0.slots.len() && i != idx ==> (#[trigger] v1.slots[i].value)
                            == v0.slots[i].value);
                }
                Ok(())
            },
            Err(e) => Err(e),
        }
    }
}

/// How many of the first `n` bucket upper edges the next value clears, when
/// the value span `[a, b]` is cut into `total` equal-width buckets: the count
/// of `m` in `1..=n` with `next > a + m * (b - a + 1) / total`, the
/// comparison taken over the rationals and written cross-multiplied, in exact
/// integer arithmetic.
pub open spec fn bucket_count(next: u32, a: u32, b: u32, total: int, n: int) -> int
    decreases n,
{
    if n <= 0 {
        0
    } else {
        bucket_count(next, a, b, total, n - 1) + if (next - a) * total > n * (b - a + 1) {
            1int
        } else {
            0int
        }
    }
}

proof fn lemma_bucket_count_le(next: u32, a: u32, b: u32, total: int, n: int)
    requires
        n >= 0,
    ensures
        0 <= bucket_count(next, a, b, total, n) <= n,
    decreases n,
{
    if n > 0 {
        lemma_bucket_count_le(next, a, b, total, n - 1);
    }
}

impl Game {
    /// The value bounds `(a, b)` of the legal window: the filled value just
    /// left of the window (or the global minimum) and the filled value just
    /// right of it (or the global maximum). `None` when the pool is
    /// exhausted.
    fn limit_vals(&self) -> (r: Option<(u32, u32)>)
        requires
            self@.valid(),
        ensures
            r is Some <==> self@.pool.len() > 0,
            r is Some ==> r.unwrap().0 == self@.left_bound(),
            r is Some ==> r.unwrap().1 == self@.right_bound(),
    {
        match self.limits() {
            Some((s, t)) => {
                proof {
                    lemma_window_lo_props(self@.slots, self@.pool.last());
                    lemma_window_hi_props(self@.slots, self@.pool.last());
                }
                let a = if s == 0 {
                    self.min
                } else {
                    match self.slots[s - 1].value {
                        Some(v) => v,
                        None => self.min,
                    }
                };
                let b = if t == self.slots.len() {
                    self.max
                } else {
                    match self.slots[t].value {
                        Some(v) => v,
                        None => self.max,
                    }
                };
                Some((a, b))
            },
            None => None,
        }
    }

    /// Suggest the statistically best enabled slot for the next value,
    /// assuming the remaining draws are uniform over the window's value
    /// span: cut the span into one bucket per enabled slot and pick the slot
    /// whose bucket the next value falls into. `None` exactly when no slot
    /// is enabled; otherwise the suggested slot is enabled and empty.
    pub fn hint(&self) -> (r: Option<usize>)
        requires
            self.wf(),
        ensures
            r is Some <==> enabled_count(self@.slots) > 0,
            r is Some ==> ({
                let idx = r.unwrap() as int;
                &&& 0 <= idx < self@.slots.len()
                &&& self@.slots[idx].enabled
                &&& self@.slots[idx].value is None
                &&& idx == window_lo(self@.slots, self@.pool.last()) + bucket_count(
                    self@.pool.last(),
                    self@.left_bound(),
                    self@.right_bound(),
                    enabled_count(self@.slots),
                    enabled_count(self@.slots),
                )
            }),
    {
        let avail = self.num_available();
        if avail == 0 {
            return None;
        }
        proof {
            if self@.pool.len() == 0 {
                lemma_no_pool_no_available(self@);
            }
            lemma_available_is_window(self@);
            lemma_enabled_is_empty(self@);
        }
        match self.limit_vals() {
            Some((a, b)) => {
                let next = match self.next() {
                    Some(n) => n,
                    None => {
                        return None;
                    },
                };
                let ghost nextg = self@.pool.last();
                proof {
                    lemma_window_lo_props(self@.slots, nextg);
                    lemma_window_hi_props(self@.slots, nextg);
                    assert(a <= next) by {
                        if window_lo(self@.slots, nextg) == 0 {
                            assert(nextg == self@.pool[self@.pool.len() - 1]);
                        }
                    }
                    assert(next <= b) by {
                        if window_hi(self@.slots, nextg) == self@.slots.len() {
                            assert(nextg == self@.pool[self@.pool.len() - 1]);
                        }
                    }
                }
                let mut cnt: usize = 0;
                let mut i: usize = 0;
                while i < avail
                    invariant
                        i <= avail,
                        cnt <= i,
                        a <= next <= b,
                        cnt as int == bucket_count(next, a, b, avail as int, i as int),
                    decreases avail - i,
                {
                    proof {
                        lemma_mul_upper_bound(next - a, u32::MAX as int, avail as int, usize::MAX as int);
                        lemma_mul_upper_bound(i + 1, usize::MAX as int, 1 + (b - a), u32::MAX as int + 1);
                    }
                    let lhs: u128 = ((next - a) as u128) * (avail as u128);
                    let rhs: u128 = ((i as u128) + 1) * (1 + ((b - a) as u128));
                    if lhs > rhs {
                        cnt += 1;
                    }
                    i += 1;
                }
                proof {
                    lemma_bucket_count_le(next, a, b, avail as int, avail as int - 1);
                    assert((next - a) * (avail as int) <= (b - a + 1) * (avail as int)) by {
                        lemma_mul_inequality(next - a, b - a + 1, avail as int);
                    }
                    assert((avail as int) * (b - a + 1) == (b - a + 1) * (avail as int))
                        by (nonlinear_arith);
                    assert(bucket_count(next, a, b, avail as int, avail as int) == bucket_count(
                        next,
                        a,
                        b,
                        avail as int,
                        avail as int - 1,
                    ));
                    assert(cnt < avail);
                }
                let (s, _t) = match self.limits() {
                    Some(p) => p,
                    None => {
                        return None;
                    },
                };
                Some(s + cnt)
            },
            None => None,
        }
    }

    /// Compute the hint and, when one exists, step there; at a terminal
    /// state (nothing enabled) do nothing. Never fails: a successful turn
    /// fills exactly one slot and consumes the pool's tail.
    pub fn tick(&mut self)
        requires
            old(self).wf(),
        ensures
            final(self).wf(),
            final(self)@.slots.len() == old(self)@.slots.len(),
            final(self)@.min == old(self)@.min,
            final(self)@.max == old(self)@.max,
            enabled_count(old(self)@.slots) == 0 ==> *final(self) == *old(self),
            enabled_count(old(self)@.slots) > 0 ==> ({
                &&& old(self)@.pool.len() > 0
                &&& final(self)@.pool == old(self)@.pool.drop_last()
                &&& filled_count(final(self)@.slots) == filled_count(old(self)@.slots) + 1
            }),
    {
        match self.hint() {
            Some(idx) => {
                let r = self.step(idx);
                proof {
                    assert(r is Ok);
                }
            },
            None => {},
        }
    }

    /// Drive the game with repeated hint-guided turns until it is over:
    /// either the puzzle completes (every slot filled, pool exhausted) or a
    /// dead end is reached (no slot enabled while some remain empty). The
    /// pool strictly shrinks on every turn, so this always terminates.
    pub fn autoplay(&mut self)
        requires
            old(self).wf(),
        ensures
            final(self).wf(),
            final(self)@.slots.len() == old(self)@.slots.len(),
            final(self)@.min == old(self)@.min,
            final(self)@.max == old(self)@.max,
            enabled_count(final(self)@.slots) == 0,
            filled_count(final(self)@.slots) == final(self)@.slots.len()
                <==> final(self)@.pool.len() == 0,
    {
        loop
            invariant
                self.wf(),
                self@.slots.len() == old(self)@.slots.len(),
                self@.min == old(self)@.min,
                self@.max == old(self)@.max,
            ensures
                self.wf(),
                self@.slots.len() == old(self)@.slots.len(),
                self@.min == old(self)@.min,
                self@.max == old(self)@.max,
                enabled_count(self@.slots) == 0,
            decreases self@.pool.len(),
        {
            let avail = self.num_available();
            if avail == 0 {
                break;
            }
            self.tick();
        }
        proof {
            lemma_filled_count_bounds(self@.slots);
            if self@.pool.len() == 0 {
                assert(filled_count(self@.slots) == self@.slots.len());
            }
        }
    }
}

// ---------------------------------------------------------------------------
// Stated laws
// ---------------------------------------------------------------------------

/// Law: in any well-formed game the filled values, read in slot-index order,
/// are strictly ascending. Every constructor establishes well-formedness and
/// every mutation preserves it, so this holds at every point of a game, not
/// only at its end.
pub proof fn lemma_filled_ascending(g: Game)
    requires
        g.wf(),
    ensures
        forall|i: int, j: int|
            0 <= i < j < g@.slots.len() && (#[trigger] g@.slots[i].value) is Some && (
            #[trigger] g@.slots[j].value) is Some ==> g@.slots[i].value.unwrap()
                < g@.slots[j].value.unwrap(),
{
}

/// Law: no enabled slot together with an unfilled slot signals an unsolvable
/// dead end — values still wait in the pool, yet every placement is rejected
/// from here on, and a hint-guided turn leaves the game unchanged (see
/// [`Game::tick`]).
pub proof fn lemma_dead_end_is_stuck(g: Game)
    requires
        g.wf(),
        enabled_count(g@.slots) == 0,
        filled_count(g@.slots) < g@.slots.len(),
    ensures
        g@.pool.len() > 0,
        forall|i: int| 0 <= i < g@.slots.len() ==> !(#[trigger] g@.slots[i].enabled),
{
    if exists|i: int| 0 <= i < g@.slots.len() && (#[trigger] g@.slots[i].enabled) {
        let i = choose|i: int| 0 <= i < g@.slots.len() && (#[trigger] g@.slots[i].enabled);
        lemma_available_is_window(g@);
        lemma_window_lo_props(g@.slots, g@.pool.last());
        lemma_window_hi_props(g@.slots, g@.pool.last());
    }
}

} // verus!

