//! The zig-zag of offsets that keeps edges sharing one lane apart.

use vstd::prelude::*;

verus! {

/// The absolute value of an integer.
pub open spec fn magnitude(x: int) -> int {
    if x < 0 {
        -x
    } else {
        x
    }
}

/// One state of the zig-zag: the offset that comes next, and whether the
/// resize after the next negative offset halves it (true) or grows it by a half.
pub struct ZigZag {
    pub curr: int,
    pub quarter_up: bool,
}

impl ZigZag {
    /// The state that follows: a positive offset is mirrored; a negative one
    /// (or zero) is resized, alternately to its upper half and to one and a
    /// half times itself, halves rounded towards zero.
    pub open spec fn next(self) -> ZigZag {
        let m = -self.curr;
        if self.curr > 0 {
            ZigZag { curr: -self.curr, quarter_up: self.quarter_up }
        } else if self.quarter_up {
            ZigZag { curr: m - m / 2, quarter_up: false }
        } else {
            ZigZag { curr: m + m / 2, quarter_up: true }
        }
    }

    /// No offset from here on exceeds `m` in magnitude: the invariant that
    /// carries this from state to state.
    pub open spec fn bounded(self, m: int) -> bool {
        magnitude(self.curr) <= if self.quarter_up {
            m
        } else {
            m - m / 2
        }
    }

    /// Every offset from here on has magnitude 2 at least: the invariant that
    /// carries this from state to state.
    pub open spec fn floored(self) -> bool {
        magnitude(self.curr) >= if self.quarter_up {
            3int
        } else {
            2int
        }
    }
}

/// The state after `n` steps from the offset `start`.
pub open spec fn zigzag_at(start: int, n: nat) -> ZigZag
    decreases n,
{
    if n == 0 {
        ZigZag { curr: start, quarter_up: true }
    } else {
        zigzag_at(start, (n - 1) as nat).next()
    }
}

/// The offset after `n` steps has the magnitude `stroke`.
pub open spec fn hit(start: int, stroke: int, n: nat) -> bool {
    magnitude(zigzag_at(start, n).curr) == stroke
}

/// Step `n` is the first whose offset has the magnitude `stroke`.
pub open spec fn first_hit(start: int, stroke: int, n: nat) -> bool {
    &&& hit(start, stroke, n)
    &&& forall|k: nat| k < n ==> !hit(start, stroke, k)
}

/// The offset the zig-zag starts from.
pub open spec fn spacing_start(widest: int, stroke: int) -> int {
    widest - 2 * stroke
}

/// The zig-zag from `widest - 2 * stroke` reaches an offset of magnitude
/// `stroke`: the inputs on which the sequence is finite.
pub open spec fn spacing_halts(widest: int, stroke: int) -> bool {
    exists|n: nat| first_hit(spacing_start(widest, stroke), stroke, n)
}

/// The number of steps before the first offset of magnitude `stroke`.
pub open spec fn spacing_steps(widest: int, stroke: int) -> nat {
    choose|n: nat| first_hit(spacing_start(widest, stroke), stroke, n)
}

/// The spacing sequence: 0, then the offsets of the zig-zag up to, and
/// without, the first of magnitude `stroke`.
pub open spec fn spacing_model(widest: int, stroke: int) -> Seq<int> {
    seq![0int] + Seq::new(
        spacing_steps(widest, stroke),
        |k: int| zigzag_at(spacing_start(widest, stroke), k as nat).curr,
    )
}

/// A vector of offsets as mathematical integers.
pub open spec fn offsets(v: Seq<i32>) -> Seq<int> {
    Seq::new(v.len(), |i: int| v[i] as int)
}

/// A step keeps the bound.
pub proof fn lemma_bounded_step(z: ZigZag, m: int)
    requires
        z.bounded(m),
        m >= 0,
    ensures
        z.next().bounded(m),
{
}

/// A step keeps the floor.
pub proof fn lemma_floored_step(z: ZigZag)
    requires
        z.floored(),
    ensures
        z.next().floored(),
{
}

/// There is one first hit at most.
pub proof fn lemma_first_hit_unique(start: int, stroke: int, a: nat, b: nat)
    requires
        first_hit(start, stroke, a),
        first_hit(start, stroke, b),
    ensures
        a == b,
{
    if a < b {
        assert(!hit(start, stroke, a));
    } else if b < a {
        assert(!hit(start, stroke, b));
    }
}

/// The spacing sequence for the widest offset `widest` and the stroke width
/// `stroke_width`.
pub fn spacing_seq(widest: i32, stroke_width: i32) -> (result: Vec<i32>)
    requires
        0 < stroke_width < widest,
        spacing_halts(widest as int, stroke_width as int),
    ensures
        offsets(result@) == spacing_model(widest as int, stroke_width as int),
{
    let mut result: Vec<i32> = vec![0];
    let mut curr: i32 = widest - stroke_width - stroke_width;
    let mut quarter_up = true;
    let ghost start = spacing_start(widest as int, stroke_width as int);
    let ghost stroke = stroke_width as int;
    let ghost top = magnitude(start);
    let ghost mut n: nat = 0;
    proof {
        assert(zigzag_at(start, 0).bounded(top));
    }
    while curr != stroke_width && curr != -stroke_width
        invariant
            0 < stroke_width < widest,
            start == spacing_start(widest as int, stroke_width as int),
            stroke == stroke_width as int,
            top == magnitude(start),
            top < i32::MAX,
            spacing_halts(widest as int, stroke),
            zigzag_at(start, n) == (ZigZag { curr: curr as int, quarter_up }),
            zigzag_at(start, n).bounded(top),
            forall|k: nat| k < n ==> !hit(start, stroke, k),
            result@.len() == n + 1,
            result@[0] == 0,
            forall|k: int| 1 <= k <= n ==> #[trigger] result@[k] as int == zigzag_at(start, (k - 1) as nat).curr,
        decreases spacing_steps(widest as int, stroke) - n,
    {
        proof {
            let goal = spacing_steps(widest as int, stroke);
            assert(first_hit(start, stroke, goal));
            assert(!hit(start, stroke, n));
            if goal < n {
                assert(!hit(start, stroke, goal));
            }
            lemma_bounded_step(zigzag_at(start, n), top);
            assert(zigzag_at(start, n + 1) == zigzag_at(start, n).next());
        }
        result.push(curr);
        if curr > 0 {
            curr = -curr;
        } else if quarter_up {
            let m: i32 = -curr;
            curr = m - m / 2;
            quarter_up = false;
        } else {
            let m: i32 = -curr;
            curr = m + m / 2;
            quarter_up = true;
        }
        proof {
            n = n + 1;
        }
    }
    proof {
        assert(hit(start, stroke, n));
        assert(first_hit(start, stroke, n));
        lemma_first_hit_unique(start, stroke, n, spacing_steps(widest as int, stroke));
        assert(offsets(result@) =~= spacing_model(widest as int, stroke));
    }
    result
}

/// Whether the loop of `spacing_seq` stops in the state `z`: on an offset of
/// magnitude `stroke`, or where no later offset can have it.
pub open spec fn settled(z: ZigZag, stroke: int) -> bool {
    ||| magnitude(z.curr) == stroke
    ||| z.quarter_up && magnitude(z.curr) < stroke
    ||| z.quarter_up && stroke == 1 && magnitude(z.curr) >= 3
}

/// A measure that falls with every step between two states that are not settled.
pub open spec fn rank(z: ZigZag, stroke: int) -> int {
    let m = magnitude(z.curr);
    if settled(z, stroke) {
        0
    } else if z.quarter_up {
        if z.curr > 0 {
            4 * m + 3
        } else {
            4 * m + 2
        }
    } else {
        if z.curr > 0 {
            8 * m - 3
        } else {
            8 * m - 4
        }
    }
}

/// A bound that holds after `n` steps holds after any `later` number of steps.
pub proof fn lemma_stays_bounded(start: int, n: nat, later: nat, m: int)
    requires
        zigzag_at(start, n).bounded(m),
        m >= 0,
        n <= later,
    ensures
        zigzag_at(start, later).bounded(m),
    decreases later - n,
{
    if n < later {
        lemma_stays_bounded(start, n, (later - 1) as nat, m);
        lemma_bounded_step(zigzag_at(start, (later - 1) as nat), m);
    }
}

/// A floor that holds after `n` steps holds after any `later` number of steps.
pub proof fn lemma_stays_floored(start: int, n: nat, later: nat)
    requires
        zigzag_at(start, n).floored(),
        n <= later,
    ensures
        zigzag_at(start, later).floored(),
    decreases later - n,
{
    if n < later {
        lemma_stays_floored(start, n, (later - 1) as nat);
        lemma_floored_step(zigzag_at(start, (later - 1) as nat));
    }
}

/// From a state about to halve that lies below `stroke`, or at 3 or above
/// where `stroke` is 1, no offset of magnitude `stroke` follows.
pub proof fn lemma_never_hits(start: int, stroke: int, n: nat, later: nat)
    requires
        stroke > 0,
        zigzag_at(start, n).quarter_up,
        magnitude(zigzag_at(start, n).curr) < stroke || (stroke == 1 && magnitude(
            zigzag_at(start, n).curr,
        ) >= 3),
        n <= later,
    ensures
        !hit(start, stroke, later),
{
    let z = zigzag_at(start, n);
    if magnitude(z.curr) < stroke {
        lemma_stays_bounded(start, n, later, magnitude(z.curr));
    } else {
        lemma_stays_floored(start, n, later);
    }
}

/// Where some step hits, a first one does.
pub proof fn lemma_least_hit(start: int, stroke: int, n: nat) -> (least: nat)
    requires
        hit(start, stroke, n),
    ensures
        least <= n,
        first_hit(start, stroke, least),
    decreases n,
{
    if forall|k: nat| k < n ==> !hit(start, stroke, k) {
        n
    } else {
        let k = choose|k: nat| k < n && hit(start, stroke, k);
        lemma_least_hit(start, stroke, k)
    }
}

/// Whether the spacing sequence for these two widths is finite.
pub fn spacing_converges(widest: i32, stroke_width: i32) -> (result: bool)
    requires
        0 < stroke_width < widest,
    ensures
        result == spacing_halts(widest as int, stroke_width as int),
{
    let mut curr: i32 = widest - stroke_width - stroke_width;
    let mut quarter_up = true;
    let ghost start = spacing_start(widest as int, stroke_width as int);
    let ghost stroke = stroke_width as int;
    let ghost top = magnitude(start);
    let ghost mut n: nat = 0;
    proof {
        assert(zigzag_at(start, 0).bounded(top));
    }
    loop
        invariant
            0 < stroke_width < widest,
            start == spacing_start(widest as int, stroke_width as int),
            stroke == stroke_width as int,
            top == magnitude(start),
            top < i32::MAX,
            zigzag_at(start, n) == (ZigZag { curr: curr as int, quarter_up }),
            zigzag_at(start, n).bounded(top),
            forall|k: nat| k < n ==> !hit(start, stroke, k),
            !quarter_up ==> magnitude(curr as int) >= 2 || magnitude(curr as int) == stroke,
        decreases rank(zigzag_at(start, n), stroke),
    {
        if curr == stroke_width || curr == -stroke_width {
            proof {
                assert(hit(start, stroke, n));
                assert(first_hit(start, stroke, n));
            }
            return true;
        }
        if quarter_up {
            let m: i32 = if curr > 0 {
                curr
            } else {
                -curr
            };
            if m < stroke_width || (stroke_width == 1 && m >= 3) {
                proof {
                    assert forall|later: nat| !first_hit(start, stroke, later) by {
                        if later >= n {
                            lemma_never_hits(start, stroke, n, later);
                        } else {
                            assert(!hit(start, stroke, later));
                        }
                    }
                }
                return false;
            }
        }
        proof {
            lemma_bounded_step(zigzag_at(start, n), top);
            assert(zigzag_at(start, n + 1) == zigzag_at(start, n).next());
        }
        if curr > 0 {
            curr = -curr;
        } else if quarter_up {
            let m: i32 = -curr;
            curr = m - m / 2;
            quarter_up = false;
        } else {
            let m: i32 = -curr;
            curr = m + m / 2;
            quarter_up = true;
        }
        proof {
            n = n + 1;
        }
    }
}

/// The spacing sequence where it is finite, and nothing where it is not, or
/// where the widths are out of order.
pub fn try_spacing_seq(widest: i32, stroke_width: i32) -> (result: Option<Vec<i32>>)
    ensures
        result is Some <==> 0 < stroke_width < widest && spacing_halts(
            widest as int,
            stroke_width as int,
        ),
        result is Some ==> offsets(result->Some_0@) == spacing_model(
            widest as int,
            stroke_width as int,
        ),
{
    if 0 < stroke_width && stroke_width < widest && spacing_converges(widest, stroke_width) {
        Some(spacing_seq(widest, stroke_width))
    } else {
        None
    }
}

/// Before the first hit, an offset about to be halved exceeds `stroke`, and
/// twice any other offset does.
pub proof fn lemma_above_half(start: int, stroke: int, steps: nat, k: nat)
    requires
        stroke > 0,
        first_hit(start, stroke, steps),
        k < steps,
    ensures
        zigzag_at(start, k).quarter_up ==> magnitude(zigzag_at(start, k).curr) > stroke,
        2 * magnitude(zigzag_at(start, k).curr) > stroke,
    decreases k,
{
    let z = zigzag_at(start, k);
    assert(!hit(start, stroke, k));
    if z.quarter_up {
        if magnitude(z.curr) < stroke {
            lemma_never_hits(start, stroke, k, steps);
        }
    } else {
        lemma_above_half(start, stroke, steps, (k - 1) as nat);
    }
}

/// Where the spacing sequence is finite and `widest` exceeds twice `stroke`:
/// it starts with 0, and each later offset has a magnitude that is not
/// `stroke`, above half of `stroke`, and `widest - 2 * stroke` at most.
pub proof fn spacing_offsets_in_range(widest: int, stroke: int)
    requires
        0 < stroke,
        2 * stroke < widest,
        spacing_halts(widest, stroke),
    ensures
        spacing_model(widest, stroke).len() == spacing_steps(widest, stroke) + 1,
        spacing_model(widest, stroke)[0] == 0,
        forall|i: int|
            1 <= i < spacing_model(widest, stroke).len() ==> {
                let m = magnitude(#[trigger] spacing_model(widest, stroke)[i]);
                &&& m != stroke
                &&& stroke < 2 * m
                &&& m <= widest - 2 * stroke
            },
{
    let start = spacing_start(widest, stroke);
    let steps = spacing_steps(widest, stroke);
    let model = spacing_model(widest, stroke);
    assert forall|i: int| 1 <= i < model.len() implies {
        let m = magnitude(#[trigger] model[i]);
        &&& m != stroke
        &&& stroke < 2 * m
        &&& m <= widest - 2 * stroke
    } by {
        let k = (i - 1) as nat;
        assert(model[i] == zigzag_at(start, k).curr);
        assert(!hit(start, stroke, k));
        lemma_above_half(start, stroke, steps, k);
        assert(zigzag_at(start, 0).bounded(start));
        lemma_stays_bounded(start, 0, k, start);
    }
}

/// For a stroke of 1 or 2, where the sequence is finite and `widest` exceeds
/// twice `stroke`: each offset after the first has a magnitude strictly
/// between `stroke` and `widest`.
pub proof fn spacing_offsets_clear_narrow_stroke(widest: int, stroke: int)
    requires
        0 < stroke <= 2,
        2 * stroke < widest,
        spacing_halts(widest, stroke),
    ensures
        forall|i: int|
            1 <= i < spacing_model(widest, stroke).len() ==> stroke < magnitude(
                #[trigger] spacing_model(widest, stroke)[i],
            ) < widest,
{
    spacing_offsets_in_range(widest, stroke);
}

/// From a state about to halve whose offset has magnitude 2 at least, the
/// zig-zag reaches magnitude 2.
pub proof fn lemma_reaches_two(start: int, n: nat) -> (later: nat)
    requires
        zigzag_at(start, n).quarter_up,
        magnitude(zigzag_at(start, n).curr) >= 2,
    ensures
        hit(start, 2, later),
    decreases magnitude(zigzag_at(start, n).curr), (if zigzag_at(start, n).curr > 0 {
        1int
    } else {
        0int
    }),
{
    let z = zigzag_at(start, n);
    assert(zigzag_at(start, n + 1) == z.next());
    if magnitude(z.curr) == 2 {
        n
    } else if z.curr > 0 {
        lemma_reaches_two(start, n + 1)
    } else {
        let c = zigzag_at(start, n + 1);
        assert(zigzag_at(start, n + 2) == c.next());
        assert(zigzag_at(start, n + 3) == c.next().next());
        if magnitude(c.curr) == 2 {
            n + 1
        } else {
            lemma_reaches_two(start, n + 3)
        }
    }
}

/// With a stroke of 2 the spacing sequence is finite for every `widest` from 6.
pub proof fn spacing_halts_with_stroke_two(widest: int)
    requires
        widest >= 6,
    ensures
        spacing_halts(widest, 2),
{
    let start = spacing_start(widest, 2);
    let later = lemma_reaches_two(start, 0);
    let least = lemma_least_hit(start, 2, later);
}

/// With a stroke of 2 and `widest` from 7, the spacing sequence holds an
/// offset besides the leading 0.
pub proof fn spacing_has_offsets_with_stroke_two(widest: int)
    requires
        widest >= 7,
    ensures
        spacing_halts(widest, 2),
        spacing_model(widest, 2).len() >= 2,
{
    spacing_halts_with_stroke_two(widest);
    let start = spacing_start(widest, 2);
    let steps = spacing_steps(widest, 2);
    assert(first_hit(start, 2, steps));
    if steps == 0 {
        assert(hit(start, 2, 0));
    }
}

} // verus!
