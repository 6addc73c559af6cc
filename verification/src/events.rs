//! Thinning out the stream of input-device events that the page is sent.

use vstd::prelude::*;
use vstd::arithmetic::div_mod::{
    lemma_fundamental_div_mod, lemma_fundamental_div_mod_converse, lemma_mod_bound,
};

verus! {

/// A mouse position sent to the page.
#[derive(Debug, PartialEq, Eq, Clone, Copy)]
pub enum MouseSend {
    MouseMove(i32, i32),
}

/// Of the microphone's sample blocks, every third is sent.
pub const MIC_EVENT_PERIOD: u32 = 3;

/// Of the mouse moves, every thirtieth is sent.
pub const MOUSE_EVENT_PERIOD: u32 = 30;

/// A tick of an event counter fires when the new count is a multiple of the period.
pub open spec fn tick_fires(count: int, period: int) -> bool {
    (count + 1) % period == 0
}

/// Counts one more event; says whether this event is one to pass on.
pub fn throttle_tick(count: u32, period: u32) -> (r: (u32, bool))
    requires
        period > 0,
        count < u32::MAX,
    ensures
        r.0 == count + 1,
        r.1 == tick_fires(count as int, period as int),
{
    let next = count + 1;
    (next, next % period == 0)
}

/// Handles one block of microphone samples: the new count, and whether the
/// block is sent on.
pub fn on_mic_block(count: u32) -> (r: (u32, bool))
    requires
        count < u32::MAX,
    ensures
        r.0 == count + 1,
        r.1 == tick_fires(count as int, MIC_EVENT_PERIOD as int),
{
    throttle_tick(count, MIC_EVENT_PERIOD)
}

/// What one mouse move to `pos` sends, at event count `count`.
pub open spec fn mouse_step(count: int, pos: (i32, i32)) -> Option<MouseSend> {
    if tick_fires(count, MOUSE_EVENT_PERIOD as int) {
        Some(MouseSend::MouseMove(pos.0, pos.1))
    } else {
        None
    }
}

/// Handles one mouse move to `(x, y)`: the new count, and the position to
/// send when this move is one to pass on.
pub fn on_mouse_move(count: u32, x: i32, y: i32) -> (r: (u32, Option<MouseSend>))
    requires
        count < u32::MAX,
    ensures
        r.0 == count + 1,
        r.1 == mouse_step(count as int, (x, y)),
{
    let (next, fire) = throttle_tick(count, MOUSE_EVENT_PERIOD);
    if fire {
        (next, Some(MouseSend::MouseMove(x, y)))
    } else {
        (next, None)
    }
}

/// Of any `period` consecutive ticks exactly one fires, so two ticks that
/// fire lie at least `period` counts apart.
pub proof fn lemma_one_in_each_period(c: u32, d: u32, period: u32)
    requires
        period > 0,
    ensures
        c < d && tick_fires(c as int, period as int) && tick_fires(d as int, period as int) ==> d - c >= period,
        (c as int) + (period as int) < u32::MAX ==> exists|k: u32|
            c <= k < c + period && #[trigger] tick_fires(k as int, period as int),
{
    let p = period as int;
    if c < d && tick_fires(c as int, period as int) && tick_fires(d as int, period as int) {
        let q1 = (d + 1) / p;
        let q2 = (c + 1) / p;
        lemma_fundamental_div_mod(d + 1, p);
        lemma_fundamental_div_mod(c + 1, p);
        assert(d - c >= p) by (nonlinear_arith)
            requires
                p > 0,
                d + 1 == p * q1,
                c + 1 == p * q2,
                d - c > 0,
        ;
    }
    if (c as int) + p < u32::MAX {
        let r = (c + 1) % p;
        let k: int = if r == 0 { c as int } else { c + p - r };
        assert(0 <= r < p) by (nonlinear_arith)
            requires
                p > 0,
                r == (c + 1) % p,
        ;
        assert((k + 1) % p == 0) by (nonlinear_arith)
            requires
                p > 0,
                r == (c + 1) % p,
                k == if r == 0 { c as int } else { c + p - r },
        ;
        assert(tick_fires((k as u32) as int, period as int));
    }
}


/// The items of `items` that a run of throttle ticks passes on, in order,
/// when the counter starts at `count` and the `k`-th item is handled by the
/// `k`-th tick.
pub open spec fn passed_on<T>(count: int, items: Seq<T>, period: int) -> Seq<T>
    decreases items.len(),
{
    if items.len() == 0 {
        Seq::empty()
    } else {
        let before = passed_on(count, items.drop_last(), period);
        if tick_fires(count + items.len() - 1, period) {
            before.push(items.last())
        } else {
            before
        }
    }
}

/// What a run of mouse moves to the positions `ps` sends, in order, when the
/// counter starts at `count`.
pub open spec fn mouse_run(count: int, ps: Seq<(i32, i32)>) -> Seq<MouseSend>
    decreases ps.len(),
{
    if ps.len() == 0 {
        Seq::empty()
    } else {
        let before = mouse_run(count, ps.drop_last());
        match mouse_step(count + ps.len() - 1, ps.last()) {
            Some(m) => before.push(m),
            None => before,
        }
    }
}

proof fn lemma_div_step(n: int, p: int)
    requires
        p > 0,
        n > 0,
    ensures
        n % p == 0 ==> (n - 1) / p == n / p - 1 && n / p >= 1,
        n % p != 0 ==> (n - 1) / p == n / p,
{
    lemma_fundamental_div_mod(n, p);
    lemma_mod_bound(n, p);
    let q = n / p;
    let r = n % p;
    if r == 0 {
        assert(q >= 1) by (nonlinear_arith)
            requires
                n == p * q,
                n > 0,
                p > 0,
        ;
        assert(n - 1 == (q - 1) * p + (p - 1)) by (nonlinear_arith)
            requires
                n == p * q + r,
                r == 0,
        ;
        lemma_fundamental_div_mod_converse(n - 1, p, q - 1, p - 1);
    } else {
        assert(n - 1 == q * p + (r - 1)) by (nonlinear_arith)
            requires
                n == p * q + r,
        ;
        lemma_fundamental_div_mod_converse(n - 1, p, q, r - 1);
    }
}

/// A run of throttle ticks that starts from zero passes on exactly every
/// `period`-th item: the items at positions `period`, `2 * period`, ...
/// (counting from one), in order.
pub proof fn lemma_passed_on_from_zero<T>(items: Seq<T>, period: int)
    requires
        period > 0,
    ensures
        passed_on(0, items, period) == Seq::new(
            (items.len() as int / period) as nat,
            |j: int| items[period * j + period - 1],
        ),
    decreases items.len(),
{
    let p = period;
    let n = items.len() as int;
    if n == 0 {
        assert(passed_on(0, items, p) =~= Seq::new(
            (n / p) as nat,
            |j: int| items[p * j + p - 1],
        ));
    } else {
        let d = items.drop_last();
        lemma_passed_on_from_zero(d, p);
        lemma_div_step(n, p);
        let m = (n - 1) / p;
        assert forall|j: int| 0 <= j < m implies #[trigger] passed_on(0, d, p)[j] == items[p * j + p
            - 1] by {
            assert(p * j + p <= p * m) by (nonlinear_arith)
                requires
                    0 <= j < m,
                    p > 0,
            ;
            lemma_fundamental_div_mod(n - 1, p);
            lemma_mod_bound(n - 1, p);
            assert(p * j + p - 1 < n - 1);
        }
        if n % p == 0 {
            lemma_fundamental_div_mod(n, p);
            assert(p * (n / p - 1) + p - 1 == n - 1) by (nonlinear_arith)
                requires
                    n == p * (n / p) + n % p,
                    n % p == 0,
            ;
            assert(passed_on(0, items, p) =~= Seq::new(
                (n / p) as nat,
                |j: int| items[p * j + p - 1],
            ));
        } else {
            assert(passed_on(0, items, p) =~= Seq::new(
                (n / p) as nat,
                |j: int| items[p * j + p - 1],
            ));
        }
    }
}

/// Of the microphone's blocks, a run from a zero count passes on exactly
/// the third, sixth, ninth, ... block, in order.
pub proof fn lemma_mic_blocks_passed_on<T>(blocks: Seq<T>)
    ensures
        passed_on(0, blocks, MIC_EVENT_PERIOD as int) == Seq::new(
            blocks.len() / 3,
            |j: int| blocks[3 * j + 2],
        ),
{
    lemma_passed_on_from_zero(blocks, MIC_EVENT_PERIOD as int);
    assert(passed_on(0, blocks, MIC_EVENT_PERIOD as int) =~= Seq::new(
        blocks.len() / 3,
        |j: int| blocks[3 * j + 2],
    ));
}

proof fn lemma_mouse_run_passes_on(count: int, ps: Seq<(i32, i32)>)
    ensures
        mouse_run(count, ps) == passed_on(count, ps, MOUSE_EVENT_PERIOD as int).map_values(
            |q: (i32, i32)| MouseSend::MouseMove(q.0, q.1),
        ),
    decreases ps.len(),
{
    let f = |q: (i32, i32)| MouseSend::MouseMove(q.0, q.1);
    if ps.len() == 0 {
        assert(mouse_run(count, ps) =~= passed_on(count, ps, MOUSE_EVENT_PERIOD as int).map_values(f));
    } else {
        lemma_mouse_run_passes_on(count, ps.drop_last());
        assert(mouse_run(count, ps) =~= passed_on(count, ps, MOUSE_EVENT_PERIOD as int).map_values(f));
    }
}

/// Of the mouse moves, a run from a zero count sends exactly the thirtieth,
/// sixtieth, ... position, in order, and nothing else.
pub proof fn lemma_mouse_moves_sent(ps: Seq<(i32, i32)>)
    ensures
        mouse_run(0, ps) == Seq::new(
            ps.len() / 30,
            |j: int| MouseSend::MouseMove(ps[30 * j + 29].0, ps[30 * j + 29].1),
        ),
{
    lemma_mouse_run_passes_on(0, ps);
    lemma_passed_on_from_zero(ps, MOUSE_EVENT_PERIOD as int);
    assert(mouse_run(0, ps) =~= Seq::new(
        ps.len() / 30,
        |j: int| MouseSend::MouseMove(ps[30 * j + 29].0, ps[30 * j + 29].1),
    ));
}

} // verus!
