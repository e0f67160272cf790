use vstd::prelude::*;
use crate::frame::{Frame, FrameView, views, lemma_views_push, delay_of, delay_millis, get_delay_millis, uniform, MAX_CENTISECS};
use crate::tempo::{speed, with_delays};
use crate::rng::{Rng, get_random_below};

verus! {

/// `c` copies of `f` one after another.
pub open spec fn replicated(f: Seq<FrameView>, c: nat) -> Seq<FrameView> {
    Seq::new(c * f.len(), |k: int| f[k % (f.len() as int)])
}

/// The fewest copies of `len` frames that reach `interval` frames.
pub open spec fn first_copies(len: nat, interval: nat) -> nat {
    ((interval - 1) / len as int + 1) as nat
}

/// Frames to delete from `c` copies so that a multiple of `interval` is left.
pub open spec fn excess(len: nat, interval: nat, c: nat) -> nat {
    (c * len) % interval
}

/// Copies made: from `c` on, one more while over a fifth of a copy would be deleted.
pub open spec fn copies_from(len: nat, interval: nat, c: nat) -> nat
    decreases interval - c,
{
    if c < interval && 5 * excess(len, interval, c) > len {
        copies_from(len, interval, c + 1)
    } else {
        c
    }
}

/// Copies that `align_gif` makes of `len` frames for `interval`.
pub open spec fn aligned_copies(len: nat, interval: nat) -> nat {
    copies_from(len, interval, first_copies(len, interval))
}

/// Length of the result of `align_gif`.
pub open spec fn aligned_len(len: nat, interval: nat) -> nat {
    let c = aligned_copies(len, interval);
    (c * len - excess(len, interval, c)) as nat
}

/// `r` keeps, in order, some of the frames of `c` copies of `f`: the `j`-th
/// frame of `r` is frame `idx[j]` of the copies, with `idx` increasing.
pub open spec fn kept_in_order(r: Seq<FrameView>, f: Seq<FrameView>, c: nat, idx: Seq<int>) -> bool {
    &&& idx.len() == r.len()
    &&& forall|j: int| 0 <= j < idx.len() ==> 0 <= #[trigger] idx[j] < c * f.len()
    &&& forall|j: int, k: int| 0 <= j < k < idx.len() ==> idx[j] < idx[k]
    &&& forall|j: int| 0 <= j < r.len() ==> #[trigger] r[j] == f[idx[j] % (f.len() as int)]
}

/// Appends a copy of every frame of `frames`.
fn append_copy(aligned: &mut Vec<Frame>, frames: &Vec<Frame>)
    ensures
        views(final(aligned)@) == views(old(aligned)@) + views(frames@),
        final(aligned)@.len() == old(aligned)@.len() + frames@.len(),
{
    let ghost start = views(aligned@);
    let mut i: usize = 0;
    while i < frames.len()
        invariant
            i <= frames@.len(),
            views(aligned@) == start + views(frames@).take(i as int),
            aligned@.len() == start.len() + i,
            start.len() == old(aligned)@.len(),
        decreases frames.len() - i,
    {
        let d = frames[i].duplicate();
        let ghost before = aligned@;
        aligned.push(d);
        proof {
            lemma_views_push(before, d);
        }
        i = i + 1;
        assert(views(aligned@) =~= start + views(frames@).take(i as int));
    }
    assert(views(frames@).take(i as int) =~= views(frames@));
}

proof fn lemma_replicated_grow(f: Seq<FrameView>, c: nat)
    requires
        f.len() > 0,
    ensures
        replicated(f, c) + f == replicated(f, c + 1),
{
    let l = f.len() as int;
    assert((c + 1) * l == c * l + l) by (nonlinear_arith);
    assert forall|k: int| 0 <= k < (c + 1) * l implies #[trigger] (replicated(f, c) + f)[k] == f[k % l] by {
        if k < c * l {
        } else {
            vstd::arithmetic::div_mod::lemma_fundamental_div_mod_converse(k, l, c as int, k - c * l);
        }
    }
    assert((c + 1) * l == c * l + l) by (nonlinear_arith);
    assert(replicated(f, c) + f =~= replicated(f, c + 1));
}

proof fn lemma_copies_stop(len: nat, interval: nat, c: nat)
    requires
        len > 0,
        interval > 0,
        c == interval,
    ensures
        excess(len, interval, c) == 0,
{
    vstd::arithmetic::div_mod::lemma_mod_multiples_basic(len as int, interval as int);
    assert(c * len == len * interval) by (nonlinear_arith)
        requires c == interval;
}

proof fn lemma_fifth(t: int, l: int)
    requires
        t >= 0,
        l >= 0,
    ensures
        (t > l / 5) == (5 * t > l),
{
    vstd::arithmetic::div_mod::lemma_fundamental_div_mod(l, 5);
}

/// Where the frames kept from copy `cp` start, after `i` deletions made round
/// robin over `k` copies of `len` frames: deletion `i` falls in copy `i % k`,
/// so copy `cp` has lost `i / k` frames, and one more if `cp < i % k`.
pub open spec fn copy_start(cp: int, i: int, k: int, len: int) -> int {
    cp * len - cp * (i / k) - if cp < i % k { cp } else { i % k }
}

/// The kept frames `idx` come copy by copy, each copy `cp` in the block from
/// `copy_start(cp)` to `copy_start(cp + 1)`: so copy `cp` loses `e / k`
/// frames, or one more for the first `e % k` copies.
pub open spec fn round_robin(idx: Seq<int>, len: nat, k: nat, e: nat) -> bool {
    forall|j: int| 0 <= j < idx.len() ==> copy_start(#[trigger] idx[j] / (len as int), e as int, k as int, len as int) <= j
        < copy_start(idx[j] / (len as int) + 1, e as int, k as int, len as int)
}

/// Removing position `index`, within the block of copy `i % k`, from kept
/// indices laid out round robin after `i` deletions lays them out round robin
/// after `i + 1`.
proof fn lemma_round_robin_step(idx: Seq<int>, len: int, k: int, i: int, index: int, pick: int)
    requires
        len > 0,
        k >= 1,
        i >= 0,
        i / k < len,
        0 <= pick < len - i / k,
        index == pick + (i % k) * (len - i / k - 1),
        0 <= index < idx.len(),
        forall|j: int| 0 <= j < idx.len() ==> 0 <= #[trigger] idx[j] < k * len,
        forall|j: int| 0 <= j < idx.len() ==> copy_start(#[trigger] idx[j] / len, i, k, len) <= j
            < copy_start(idx[j] / len + 1, i, k, len),
    ensures
        forall|j: int| 0 <= j < idx.remove(index).len() ==> copy_start(#[trigger] idx.remove(index)[j] / len, i + 1, k, len) <= j
            < copy_start(idx.remove(index)[j] / len + 1, i + 1, k, len),
{
    let r = i / k;
    let c = i % k;
    vstd::arithmetic::div_mod::lemma_fundamental_div_mod(i, k);
    let m = len - r;
    assert(m >= 1);
    // The starts after i deletions, and after one more.
    assert forall|cp: int| copy_start(cp, i, k, len) == cp * m - (if cp < c { cp } else { c }) by {
        assert(cp * len - cp * r == cp * m) by (nonlinear_arith) requires m == len - r;
    }
    if c + 1 < k {
        assert(i + 1 == r * k + (c + 1)) by (nonlinear_arith) requires i == k * r + c;
        vstd::arithmetic::div_mod::lemma_fundamental_div_mod_converse(i + 1, k, r, c + 1);
        assert((i + 1) / k == r && (i + 1) % k == c + 1);
    } else {
        assert(i + 1 == (r + 1) * k + 0) by (nonlinear_arith) requires i == k * r + c, c + 1 == k;
        vstd::arithmetic::div_mod::lemma_fundamental_div_mod_converse(i + 1, k, r + 1, 0);
        assert((i + 1) / k == r + 1 && (i + 1) % k == 0);
    }
    assert forall|cp: int| 0 <= cp <= k implies #[trigger] copy_start(cp, i + 1, k, len) == copy_start(cp, i, k, len)
        - (if cp > c { 1int } else { 0 }) by {
        if c + 1 < k {
            assert(copy_start(cp, i + 1, k, len) == cp * len - cp * r - (if cp < c + 1 { cp } else { c + 1 }));
        } else {
            assert(cp * len - cp * (r + 1) == cp * len - cp * r - cp) by (nonlinear_arith);
            assert(copy_start(cp, i + 1, k, len) == cp * len - cp * (r + 1));
        }
    }
    // Blocks grow with the copy.
    assert forall|c1: int, c2: int| c1 < c2 implies #[trigger] copy_start(c1, i, k, len) <= #[trigger] copy_start(c2, i, k, len) by {
        assert(c1 * m + (c2 - c1) <= c2 * m) by (nonlinear_arith) requires c1 < c2, m >= 1;
    }
    assert(c * len - c * r - c == c * (m - 1)) by (nonlinear_arith) requires m == len - r;
    assert(copy_start(c, i, k, len) == c * (m - 1));
    assert((c + 1) * len - (c + 1) * r - c == c * (m - 1) + m) by (nonlinear_arith) requires m == len - r;
    assert(copy_start(c + 1, i, k, len) == c * (m - 1) + m);
    let t = idx.remove(index);
    assert forall|j: int| 0 <= j < t.len() implies copy_start(#[trigger] t[j] / len, i + 1, k, len) <= j
        < copy_start(t[j] / len + 1, i + 1, k, len) by {
        let jj = if j < index { j } else { j + 1 };
        let v = idx[jj];
        vstd::arithmetic::div_mod::lemma_fundamental_div_mod(v, len);
        let q = v / len;
        assert(0 <= q < k) by (nonlinear_arith)
            requires v == len * q + v % len, 0 <= v % len < len, 0 <= v < k * len;
        if j < index {
            let cp = idx[j] / len;
            assert(t[j] == idx[j]);
            assert(copy_start(cp, i, k, len) <= j < copy_start(cp + 1, i, k, len));
            if cp > c {
                assert(copy_start(c + 1, i, k, len) <= copy_start(cp, i, k, len));
            }
        } else {
            let cp = idx[j + 1] / len;
            assert(t[j] == idx[j + 1]);
            assert(copy_start(cp, i, k, len) <= j + 1 < copy_start(cp + 1, i, k, len));
            if cp < c {
                assert(copy_start(cp + 1, i, k, len) <= copy_start(c, i, k, len));
            }
        }
    }
}

/// `a` is a possible result of `align_gif` on `f` and `interval`.
pub open spec fn is_alignment(a: Seq<FrameView>, f: Seq<FrameView>, interval: nat) -> bool {
    &&& f.len() == 0 ==> a.len() == 0
    &&& f.len() > 0 ==> {
        &&& a.len() == aligned_len(f.len(), interval)
        &&& a.len() % interval == 0
        &&& a.len() >= interval
        &&& exists|idx: Seq<int>| kept_in_order(a, f, aligned_copies(f.len(), interval), idx)
            && round_robin(idx, f.len(), aligned_copies(f.len(), interval), excess(f.len(), interval, aligned_copies(f.len(), interval)))
    }
}

/// What `align_gif` hands back: an alignment, or, where `f.len() * interval`
/// does not fit a `usize`, the frames as they are.
pub open spec fn align_outcome(a: Seq<FrameView>, f: Seq<FrameView>, interval: nat) -> bool {
    if f.len() * interval <= usize::MAX {
        is_alignment(a, f, interval)
    } else {
        a == f
    }
}

/// Lengthens `frames` to a multiple of `interval` frames: copies of the whole
/// sequence are appended until there are at least `interval` frames and at
/// most a fifth of a copy is to go, then the excess is deleted, one frame at a
/// random place within one copy per step, the copies taking turns.
/// An empty sequence stays empty. Where `frames.len() * interval` would not
/// fit a `usize`, a copy of the frames is handed back.
pub fn align_gif(frames: &Vec<Frame>, interval: usize, rng: &mut Rng) -> (r: Vec<Frame>)
    requires
        interval > 0,
    ensures
        align_outcome(views(r@), views(frames@), interval as nat),
{
    let len = frames.len();
    if len == 0 {
        return Vec::new();
    }
    assert(len as u128 * interval as u128 <= 0xffff_ffff_ffff_ffff * 0xffff_ffff_ffff_ffff) by (nonlinear_arith)
        requires len <= 0xffff_ffff_ffff_ffff, interval <= 0xffff_ffff_ffff_ffff;
    if len as u128 * interval as u128 > usize::MAX as u128 {
        return crate::frame::duplicate_all(frames);
    }
    let ghost f = views(frames@);
    let ghost n = interval as nat;
    let mut aligned: Vec<Frame> = Vec::new();
    let mut copies: usize = 0;
    assert(replicated(f, 0) =~= Seq::<FrameView>::empty());
    while aligned.len() < interval
        invariant
            len == frames@.len(),
            f == views(frames@),
            len > 0,
            len * interval <= usize::MAX,
            views(aligned@) == replicated(f, copies as nat),
            aligned@.len() == copies * len,
            copies == 0 || (copies - 1) * len < interval,
            copies <= interval,
            n == interval as nat,
        decreases interval - copies,
    {
        append_copy(&mut aligned, frames);
        proof {
            lemma_replicated_grow(f, copies as nat);
            assert((copies + 1) * len == copies * len + len) by (nonlinear_arith);
            assert(copies * len < interval);
            assert((copies + 1) * len <= interval * len) by (nonlinear_arith)
                requires copies * len < interval, len > 0;
            assert(copies < interval) by (nonlinear_arith)
                requires copies * len < interval, len > 0;
        }
        copies = copies + 1;
    }
    proof {
        vstd::arithmetic::div_mod::lemma_fundamental_div_mod((interval - 1) as int, len as int);
        let q = (interval - 1) as int / len as int;
        let rm = (interval - 1) as int % len as int;
        assert(copies as int == q + 1) by (nonlinear_arith)
            requires
                copies * len >= interval,
                copies == 0 || (copies - 1) * len < interval,
                interval - 1 == len * q + rm,
                0 <= rm < len,
                interval > 0,
                len > 0,
        ;
        assert(copies <= interval) by (nonlinear_arith)
            requires
                copies == 0 || (copies - 1) * len < interval,
                len > 0,
                interval > 0,
        ;
    }
    assert(copies as nat == first_copies(len as nat, n));
    let mut to_delete = aligned.len() % interval;
    proof {
        lemma_fifth(to_delete as int, len as int);
    }
    while to_delete > len / 5
        invariant
            len == frames@.len(),
            f == views(frames@),
            len > 0,
            interval > 0,
            len * interval <= usize::MAX,
            copies <= interval,
            views(aligned@) == replicated(f, copies as nat),
            aligned@.len() == copies * len,
            to_delete == excess(len as nat, n, copies as nat),
            to_delete < interval,
            aligned_copies(len as nat, n) == copies_from(len as nat, n, copies as nat),
            n == interval as nat,
            copies >= 1,
            copies * len <= usize::MAX,
            copies * len >= interval,
        decreases interval - copies,
    {
        proof {
            assert(copies < interval) by {
                if copies == interval {
                    lemma_copies_stop(len as nat, n, copies as nat);
                }
            }
            assert(5 * to_delete > len);
            assert(copies_from(len as nat, n, copies as nat) == copies_from(len as nat, n, (copies + 1) as nat));
            lemma_replicated_grow(f, copies as nat);
            assert((copies + 1) * len == copies * len + len) by (nonlinear_arith);
            assert((copies + 1) * len <= interval * len) by (nonlinear_arith)
                requires copies < interval, len > 0;
        }
        append_copy(&mut aligned, frames);
        copies = copies + 1;
        to_delete = aligned.len() % interval;
        proof {
            lemma_fifth(to_delete as int, len as int);
        }
    }
    let ghost c = copies as nat;
    assert(5 * to_delete <= len);
    assert(aligned_copies(len as nat, n) == c);
    let ghost mut idx: Seq<int> = Seq::new((copies * len) as nat, |k: int| k);
    proof {
        assert forall|j: int| 0 <= j < idx.len() implies copy_start(#[trigger] idx[j] / (len as int), 0, c as int, len as int) <= j
            < copy_start(idx[j] / (len as int) + 1, 0, c as int, len as int) by {
            vstd::arithmetic::div_mod::lemma_fundamental_div_mod(j, len as int);
            let q = j / (len as int);
            assert(q * len <= j < (q + 1) * len) by (nonlinear_arith)
                requires j == len * q + j % (len as int), 0 <= j % (len as int) < len;
        }
    }
    let mut current_copy: usize = 0;
    let mut i: usize = 0;
    while i < to_delete
        invariant
            len == frames@.len(),
            f == views(frames@),
            len > 0,
            c == copies,
            c == aligned_copies(len as nat, n),
            n == interval as nat,
            to_delete == excess(len as nat, n, c),
            1 <= copies,
            copies * len >= interval,
            interval > 0,
            to_delete == (copies * len) % (interval as int),
            to_delete < interval,
            copies * len <= usize::MAX,
            to_delete * 5 <= len,
            i <= to_delete,
            current_copy < copies,
            current_copy == i % copies,
            aligned@.len() == copies * len - i,
            kept_in_order(views(aligned@), f, c, idx),
            round_robin(idx, len as nat, c, i as nat),
        decreases to_delete - i,
    {
        let r = i / copies;
        proof {
            vstd::arithmetic::div_mod::lemma_fundamental_div_mod(i as int, copies as int);
            assert(r <= i) by (nonlinear_arith) requires i == copies * r + current_copy, copies >= 1, current_copy >= 0;
        }
        let cur_frame_len = len - r;
        let pick = get_random_below(rng, cur_frame_len);
        proof {
            assert(pick <= cur_frame_len - 1);
            assert(pick + current_copy * (cur_frame_len - 1) < copies * len - i) by (nonlinear_arith)
                requires
                    pick <= cur_frame_len - 1,
                    current_copy < copies,
                    cur_frame_len == len - r,
                    i == copies * r + current_copy,
                    r < len;
            assert(current_copy * (cur_frame_len - 1) <= copies * len) by (nonlinear_arith)
                requires current_copy < copies, cur_frame_len <= len;
        }
        let index = pick + current_copy * (cur_frame_len - 1);
        proof {
            lemma_round_robin_step(idx, len as int, c as int, i as int, index as int, pick as int);
        }
        let ghost before = aligned@;
        aligned.remove(index);
        proof {
            let old_idx = idx;
            idx = idx.remove(index as int);
            assert(views(aligned@) =~= views(before).remove(index as int));
            assert forall|j: int| 0 <= j < views(aligned@).len() implies #[trigger] views(aligned@)[j] == f[idx[j] % (f.len() as int)] by {
                if j < index {
                    assert(views(before)[j] == f[old_idx[j] % (f.len() as int)]);
                } else {
                    assert(views(before)[j + 1] == f[old_idx[j + 1] % (f.len() as int)]);
                }
            }
            assert forall|j: int, k: int| 0 <= j < k < idx.len() implies idx[j] < idx[k] by {
                let jj = if j < index { j } else { j + 1 };
                let kk = if k < index { k } else { k + 1 };
                assert(old_idx[jj] < old_idx[kk]);
            }
            assert forall|j: int| 0 <= j < idx.len() implies 0 <= #[trigger] idx[j] < c * f.len() by {
                let jj = if j < index { j } else { j + 1 };
                assert(0 <= old_idx[jj] < c * f.len());
            }
        }
        proof {
            assert(round_robin(idx, len as nat, c, (i + 1) as nat));
            if current_copy + 1 < copies {
                assert(i + 1 == r * copies + (current_copy + 1)) by (nonlinear_arith)
                    requires i == copies * r + current_copy;
                vstd::arithmetic::div_mod::lemma_fundamental_div_mod_converse(i + 1, copies as int, r as int, current_copy + 1);
            } else {
                assert(i + 1 == (r + 1) * copies + 0) by (nonlinear_arith)
                    requires i == copies * r + current_copy, current_copy + 1 == copies;
                vstd::arithmetic::div_mod::lemma_fundamental_div_mod_converse(i + 1, copies as int, r + 1, 0);
            }
        }
        let next_copy = if current_copy + 1 < copies { current_copy + 1 } else { 0 };
        current_copy = next_copy;
        i = i + 1;
    }
    proof {
        assert(aligned@.len() == copies * len - to_delete);
        vstd::arithmetic::div_mod::lemma_fundamental_div_mod((copies * len) as int, interval as int);
        let q = (copies * len) as int / interval as int;
        assert(aligned@.len() == interval * q);
        vstd::arithmetic::div_mod::lemma_mod_multiples_basic(q, interval as int);
        assert(interval * q == q * interval) by (nonlinear_arith);
        assert((aligned@.len() as int) % (interval as int) == 0);
        assert(q >= 1) by (nonlinear_arith)
            requires
                copies * len >= interval,
                copies * len == interval * q + to_delete,
                to_delete < interval,
                interval > 0;
        assert(interval * q >= interval) by (nonlinear_arith)
            requires q >= 1, interval > 0;
        assert(kept_in_order(views(aligned@), views(frames@), c, idx));
        assert(aligned@.len() == aligned_len(len as nat, n));
        assert(aligned@.len() % n == 0);
        assert(views(aligned@).len() == aligned@.len());
    }
    aligned
}

/// Pass `k` of `align_speed`, up to its `i`-th insertion: a copy of `f[j]`
/// goes in at position `2 * j + k`, for `j` from zero on.
pub open spec fn insert_pass(s: Seq<FrameView>, f: Seq<FrameView>, k: nat, i: nat) -> Seq<FrameView>
    decreases i,
{
    if i == 0 {
        s
    } else {
        insert_pass(s, f, k, (i - 1) as nat).insert(2 * (i - 1) + k, f[i - 1])
    }
}

/// `f` after `passes` passes of insertion.
pub open spec fn spread(f: Seq<FrameView>, passes: nat) -> Seq<FrameView>
    decreases passes,
{
    if passes == 0 {
        f
    } else {
        insert_pass(spread(f, (passes - 1) as nat), f, passes, f.len())
    }
}

/// The floor under the delay that `align_speed` aims at: `target`, or two
/// centiseconds if that is more.
pub open spec fn speed_floor(target: nat) -> nat {
    if target < 2 { 2 } else { target }
}

/// Passes that `align_speed` makes for a delay of `ms / 10` centiseconds: the
/// fewest after which `ms / (10 * (passes + 1))` is at most `speed_floor(target)`.
pub open spec fn speed_passes(ms: nat, target: nat) -> nat {
    if ms == 0 { 0 } else { ((ms - 1) as int / (10 * speed_floor(target)) as int) as nat }
}

/// `a / b` rounded to the nearest integer, halves up.
pub open spec fn round_div(a: nat, b: nat) -> nat {
    ((2 * a + b) as int / (2 * b) as int) as nat
}

/// Centiseconds per frame after `align_speed`.
pub open spec fn sped_centisecs(ms: nat, target: nat) -> nat {
    round_div(ms, 10 * (speed_passes(ms, target) + 1))
}

proof fn lemma_insert_pass_len(s: Seq<FrameView>, f: Seq<FrameView>, k: nat, i: nat)
    requires
        k >= 1,
        i <= f.len(),
        s.len() == k * f.len(),
    ensures
        insert_pass(s, f, k, i).len() == s.len() + i,
    decreases i,
{
    if i > 0 {
        lemma_insert_pass_len(s, f, k, (i - 1) as nat);
        assert(2 * (i - 1) + k <= k * f.len() + i - 1) by (nonlinear_arith)
            requires k >= 1, i <= f.len(), i >= 1;
    }
}

proof fn lemma_spread_len(f: Seq<FrameView>, p: nat)
    ensures
        spread(f, p).len() == (p + 1) * f.len(),
    decreases p,
{
    if p > 0 {
        let q = (p - 1) as nat;
        lemma_spread_len(f, q);
        assert(spread(f, p) == insert_pass(spread(f, q), f, p, f.len()));
        assert(q + 1 == p);
        assert(spread(f, q).len() == p * f.len());
        lemma_insert_pass_len(spread(f, q), f, p, f.len());
        assert(spread(f, p).len() == p * f.len() + f.len());
        assert((p + 1) * f.len() == p * f.len() + f.len()) by (nonlinear_arith);
    } else {
        assert((p + 1) * f.len() == f.len()) by (nonlinear_arith)
            requires p == 0;
    }
}

/// What `align_speed` makes of `f` for `target`, where it succeeds.
pub open spec fn speed_aligned(f: Seq<FrameView>, target: nat) -> Seq<FrameView> {
    if f.len() == 0 || delay_millis(f[0].delay) <= 10 * target {
        f
    } else {
        let ms = delay_millis(f[0].delay);
        with_delays(spread(f, speed_passes(ms, target)), delay_of(sped_centisecs(ms, target)))
    }
}

/// Slows the animation's frame rate down to at most `target` centiseconds per
/// frame (or two, if that is more) by duplicating frames, keeping its length in
/// time: when the first frame's delay is over `target`, it makes
/// `speed_passes` passes of insertion (pass `k` puts a copy of frame `j` at
/// position `2 * j + k`) and gives every frame the delay divided by the number
/// of copies, rounded. Returns `false`, with the frames as they were, where
/// the frames would outnumber `usize::MAX`.
pub fn align_speed(frames: &mut Vec<Frame>, target: u32) -> (done: bool)
    requires
        target <= MAX_CENTISECS,
    ensures
        done == speed_fits(views(old(frames)@), target as nat),
        done ==> views(final(frames)@) == speed_aligned(views(old(frames)@), target as nat),
        !done ==> final(frames)@ == old(frames)@,
        !done ==> old(frames)@.len() * (speed_passes(delay_millis(old(frames)@[0].delay), target as nat) + 1) > usize::MAX,
{
    if frames.len() == 0 {
        return true;
    }
    let ms = get_delay_millis(frames[0].delay);
    assert(views(frames@)[0].delay == frames@[0].delay);
    if ms <= 10 * target as u64 {
        return true;
    }
    let floor: u64 = if target < 2 { 2 } else { target as u64 };
    let passes: u64 = (ms - 1) / (10 * floor);
    let len = frames.len();
    proof {
        vstd::arithmetic::div_mod::lemma_fundamental_div_mod((ms - 1) as int, (10 * floor) as int);
        let rm = (ms - 1) as int % (10 * floor) as int;
        assert(passes * 20 <= ms) by (nonlinear_arith)
            requires
                ms - 1 == (10 * floor) * passes + rm,
                rm >= 0,
                floor >= 2;
        let a = passes as int + 1;
        let b = len as int;
        assert(a <= 0x1000_0000_0000_0000);
        assert(a * b <= 0x1000_0000_0000_0000 * 0x1_0000_0000_0000_0000) by (nonlinear_arith)
            requires
                0 <= a <= 0x1000_0000_0000_0000,
                0 <= b <= 0x1_0000_0000_0000_0000;
        assert(passes == speed_passes(ms as nat, target as nat));
    }
    if (passes as u128 + 1) * (len as u128) > usize::MAX as u128 {
        assert(len * (passes + 1) > usize::MAX) by (nonlinear_arith)
            requires (passes + 1) * len > usize::MAX;
        return false;
    }
    proof {
        assert(passes + 1 <= usize::MAX) by (nonlinear_arith)
            requires
                (passes + 1) * len <= usize::MAX,
                len >= 1;
    }
    let ghost f = views(frames@);
    let mut aligned = crate::frame::duplicate_all(frames);
    assert(aligned@.len() == views(aligned@).len());
    let mut p: usize = 1;
    proof {
        assert(((passes + 1) * len) as u128 == (passes as u128 + 1) * (len as u128));
    }
    while p as u64 <= passes
        invariant
            1 <= p <= passes + 1,
            len == frames@.len(),
            f == views(frames@),
            len > 0,
            (passes + 1) * len <= usize::MAX,
            passes + 1 <= usize::MAX,
            views(aligned@) == spread(f, (p - 1) as nat),
            aligned@.len() == p * len,
        decreases passes + 1 - p,
    {
        let ghost base = views(aligned@);
        let mut i: usize = 0;
        while i < len
            invariant
                1 <= p <= passes,
                len == frames@.len(),
                f == views(frames@),
                (passes + 1) * len <= usize::MAX,
                base == spread(f, (p - 1) as nat),
                base.len() == p * len,
                i <= len,
                views(aligned@) == insert_pass(base, f, p as nat, i as nat),
                aligned@.len() == p * len + i,
            decreases len - i,
        {
            proof {
                assert(2 * i + p <= p * len + i) by (nonlinear_arith)
                    requires p >= 1, i < len;
                assert(p * len + i < (passes + 1) * len) by (nonlinear_arith)
                    requires p <= passes, i < len;
            }
            let d = frames[i].duplicate();
            let ghost before = aligned@;
            aligned.insert(2 * i + p, d);
            proof {
                lemma_insert_pass_len(base, f, p as nat, i as nat);
                assert(views(aligned@) =~= views(before).insert(2 * i + p, d@));
            }
            i = i + 1;
        }
        proof {
            assert((p + 1) * len == p * len + len) by (nonlinear_arith);
        }
        p = p + 1;
    }
    let ghost t = target as nat;
    let ghost dd = 10 * (passes + 1);
    proof {
        assert(passes == speed_passes(ms as nat, t));
        lemma_sped_bound(ms as nat, t);
    }
    let cs = ((2 * ms as u128 + 10 * (passes as u128 + 1)) / (20 * (passes as u128 + 1))) as u32;
    assert(cs == sped_centisecs(ms as nat, t));
    speed(&mut aligned, cs);
    *frames = aligned;
    true
}

/// The delay that `align_speed` leaves is at most `speed_floor(target)`.
pub proof fn lemma_sped_bound(ms: nat, target: nat)
    ensures
        sped_centisecs(ms, target) <= speed_floor(target),
{
    let t = speed_floor(target);
    let k = speed_passes(ms, target);
    let d = 10 * (k + 1);
    if ms > 0 {
        vstd::arithmetic::div_mod::lemma_fundamental_div_mod((ms - 1) as int, (10 * t) as int);
        let rm = (ms - 1) as int % (10 * t) as int;
        assert(ms <= t * d) by (nonlinear_arith)
            requires
                (ms - 1) == (10 * t) * k + rm,
                rm < 10 * t,
                d == 10 * (k + 1),
                t >= 2;
    }
    vstd::arithmetic::div_mod::lemma_fundamental_div_mod((2 * ms + d) as int, (2 * d) as int);
    let q = (2 * ms + d) as int / (2 * d) as int;
    let r = (2 * ms + d) as int % (2 * d) as int;
    assert(q <= t) by (nonlinear_arith)
        requires
            2 * ms + d == 2 * d * q + r,
            0 <= r,
            ms <= t * d,
            d > 0;
}

/// Whether `align_speed` can slow `f` down: the copies it needs fit a `usize`.
pub open spec fn speed_fits(f: Seq<FrameView>, target: nat) -> bool {
    f.len() == 0 || delay_millis(f[0].delay) <= 10 * target
        || f.len() * (speed_passes(delay_millis(f[0].delay), target) + 1) <= usize::MAX
}

proof fn lemma_insert_pass_uniform(s: Seq<FrameView>, f: Seq<FrameView>, k: nat, i: nat, w: nat, h: nat)
    requires
        k >= 1,
        i <= f.len(),
        s.len() == k * f.len(),
        uniform(s, w, h),
        uniform(f, w, h),
    ensures
        uniform(insert_pass(s, f, k, i), w, h),
    decreases i,
{
    if i > 0 {
        lemma_insert_pass_uniform(s, f, k, (i - 1) as nat, w, h);
        lemma_insert_pass_len(s, f, k, (i - 1) as nat);
        assert(2 * (i - 1) + k <= k * f.len() + i - 1) by (nonlinear_arith)
            requires k >= 1, i <= f.len(), i >= 1;
        let t = insert_pass(s, f, k, (i - 1) as nat);
        let u = t.insert(2 * (i - 1) + k, f[i - 1]);
        assert forall|j: int| 0 <= j < u.len() implies (#[trigger] u[j]).wf() && u[j].width == w && u[j].height == h by {
            if j < 2 * (i - 1) + k {
                assert(u[j] == t[j]);
            } else if j > 2 * (i - 1) + k {
                assert(u[j] == t[j - 1]);
            }
        }
    }
}

proof fn lemma_spread_uniform(f: Seq<FrameView>, p: nat, w: nat, h: nat)
    requires
        uniform(f, w, h),
    ensures
        uniform(spread(f, p), w, h),
    decreases p,
{
    if p > 0 {
        let q = (p - 1) as nat;
        lemma_spread_uniform(f, q, w, h);
        lemma_spread_len(f, q);
        assert(q + 1 == p);
        lemma_insert_pass_uniform(spread(f, q), f, p, f.len(), w, h);
    }
}

/// `align_speed` keeps every frame's size and never shortens the sequence; its
/// frames last at most `speed_floor(target)` centiseconds each, or as long as
/// they did when the first was already no longer than `target`.
pub proof fn lemma_speed_aligned(f: Seq<FrameView>, target: nat, w: nat, h: nat)
    requires
        uniform(f, w, h),
        target <= MAX_CENTISECS,
    ensures
        uniform(speed_aligned(f, target), w, h),
        speed_aligned(f, target).len() >= f.len(),
        f.len() > 0 ==> delay_millis(speed_aligned(f, target)[0].delay) <= 10 * speed_floor(target),
        f.len() > 0 && delay_millis(f[0].delay) <= 10 * target ==> speed_aligned(f, target) == f,
{
    if f.len() > 0 && delay_millis(f[0].delay) > 10 * target {
        let ms = delay_millis(f[0].delay);
        let p = speed_passes(ms, target);
        lemma_spread_uniform(f, p, w, h);
        lemma_spread_len(f, p);
        assert((p + 1) * f.len() >= f.len()) by (nonlinear_arith);
        lemma_sped_bound(ms, target);
        let c = sped_centisecs(ms, target);
        assert(c * 10 <= 0xffff_ffff);
        let out = speed_aligned(f, target);
        assert(out[0] == spread(f, p)[0].with_delay(delay_of(c)));
        assert forall|j: int| 0 <= j < out.len() implies (#[trigger] out[j]).wf() && out[j].width == w && out[j].height == h by {
            assert(out[j] == spread(f, p)[j].with_delay(delay_of(c)));
        }
    }
}

/// Aligning keeps every frame's size.
pub proof fn lemma_alignment_uniform(a: Seq<FrameView>, f: Seq<FrameView>, n: nat, w: nat, h: nat)
    requires
        align_outcome(a, f, n),
        uniform(f, w, h),
    ensures
        uniform(a, w, h),
{
    if f.len() * n <= usize::MAX && f.len() > 0 {
        let idx = choose|idx: Seq<int>| kept_in_order(a, f, aligned_copies(f.len(), n), idx)
            && round_robin(idx, f.len(), aligned_copies(f.len(), n), excess(f.len(), n, aligned_copies(f.len(), n)));
        assert forall|j: int| 0 <= j < a.len() implies (#[trigger] a[j]).wf() && a[j].width == w && a[j].height == h by {
            assert(a[j] == f[idx[j] % (f.len() as int)]);
        }
    }
}

/// The longest period, in frames, that an effect aligns to.
pub const MAX_INTERVAL: u32 = 0xffff_ffff;

/// A period of `k` frames held within `[1, MAX_INTERVAL]`.
pub open spec fn clamp_interval(k: int) -> nat {
    if k < 1 {
        1
    } else if k > MAX_INTERVAL {
        MAX_INTERVAL as nat
    } else {
        k as nat
    }
}

/// `clamp_interval`, computed.
pub fn to_interval(k: u128) -> (r: usize)
    ensures
        r == clamp_interval(k as int),
        r >= 1,
{
    if k < 1 {
        1
    } else if k > MAX_INTERVAL as u128 {
        MAX_INTERVAL as usize
    } else {
        k as usize
    }
}

} // verus!
