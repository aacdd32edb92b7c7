//! Which limits of visible characters the frames of an animation show.
use vstd::prelude::*;

verus! {

/// Direction of an animation.
pub enum Mode {
    /// The text starts empty and grows.
    Forward,
    /// The text starts full and shrinks.
    Reverse,
}

/// How many frames the stepping from `cut` to `len` (both included) yields.
pub open spec fn frame_count(cut: nat, len: nat, step: nat) -> nat {
    if cut <= len {
        ((len - cut) / (step as int) + 1) as nat
    } else {
        0
    }
}

/// The limits that the stepped frames show: from `cut` up by `step` while at
/// most `len` (forward), or from `len` down by `step` while at least `cut`
/// (reverse).
pub open spec fn frames(cut: usize, len: usize, step: usize, mode: Mode) -> Seq<usize> {
    Seq::new(
        frame_count(cut as nat, len as nat, step as nat),
        |k: int|
            match mode {
                Mode::Forward => (cut + k * step) as usize,
                Mode::Reverse => (len - k * step) as usize,
            },
    )
}

/// The limit that the animation must end on: the full length going forward,
/// the cut going in reverse.
pub open spec fn end_frame(cut: usize, len: usize, mode: Mode) -> usize {
    match mode {
        Mode::Forward => len,
        Mode::Reverse => cut,
    }
}

/// The extra frame shown after the stepped ones: the end limit, unless the
/// last stepped frame (zero when there is none) already was it.
pub open spec fn closing_frame(stepped: Seq<usize>, end: usize) -> Option<usize> {
    let last = if stepped.len() > 0 {
        stepped.last()
    } else {
        0usize
    };
    if last != end {
        Some(end)
    } else {
        None
    }
}

/// Every limit that the animation shows, in order.
pub open spec fn shown_frames(cut: usize, len: usize, step: usize, mode: Mode) -> Seq<usize> {
    let stepped = frames(cut, len, step, mode);
    match closing_frame(stepped, end_frame(cut, len, mode)) {
        Some(e) => stepped.push(e),
        None => stepped,
    }
}

proof fn lemma_quotient(d: int, k: int, r: int, step: int)
    requires
        step > 0,
        0 <= r < step,
        d == k * step + r,
        k >= 0,
    ensures
        d / step == k,
{
    assert(d / step == k) by (nonlinear_arith)
        requires
            step > 0,
            0 <= r < step,
            d == k * step + r,
            k >= 0,
    ;
}

/// The stepped frames of an animation over the limits `cut..=len`, and the
/// closing frame shown after them, if any.
pub fn animation_plan(cut: usize, len: usize, step: usize, mode: Mode) -> (plan: (
    Vec<usize>,
    Option<usize>,
))
    requires
        step > 0,
    ensures
        plan.0@ == frames(cut, len, step, mode),
        plan.1 == closing_frame(plan.0@, end_frame(cut, len, mode)),
{
    let mut stepped: Vec<usize> = Vec::new();
    let forward = match mode {
        Mode::Forward => true,
        Mode::Reverse => false,
    };
    if cut <= len {
        let mut i: usize = if forward {
            cut
        } else {
            len
        };
        let ghost mut k: int = 0;
        loop
            invariant_except_break
                stepped@.len() == k,
                forall|j: int|
                    0 <= j < k ==> stepped@[j] == (if forward {
                        cut + j * step
                    } else {
                        len - j * step
                    }),
            invariant
                step > 0,
                cut <= len,
                0 <= k,
                forward <==> mode is Forward,
                cut <= i <= len,
                forward ==> i == cut + k * step,
                !forward ==> i == len - k * step,
            ensures
                stepped@.len() == frame_count(cut as nat, len as nat, step as nat),
                forall|j: int|
                    0 <= j < stepped@.len() ==> stepped@[j] == (if forward {
                        cut + j * step
                    } else {
                        len - j * step
                    }),
            decreases (if forward {
                len - i
            } else {
                i - cut
            }),
        {
            stepped.push(i);
            let room = if forward {
                len - i
            } else {
                i - cut
            };
            if room < step {
                proof {
                    lemma_quotient(len - cut, k, room as int, step as int);
                }
                break;
            }
            if forward {
                i = i + step;
            } else {
                i = i - step;
            }
            proof {
                assert((k + 1) * step == k * step + step) by (nonlinear_arith);
                k = k + 1;
            }
        }
    }
    proof {
        let f = frames(cut, len, step, mode);
        assert(stepped@.len() == f.len());
        assert forall|j: int| 0 <= j < f.len() implies stepped@[j] == f[j] by {
            match mode {
                Mode::Forward => {},
                Mode::Reverse => {},
            }
        }
        assert(stepped@ =~= f);
    }
    let end = if forward {
        len
    } else {
        cut
    };
    let n = stepped.len();
    let last = if n > 0 {
        stepped[n - 1]
    } else {
        0
    };
    let closing = if last != end {
        Some(end)
    } else {
        None
    };
    (stepped, closing)
}

/// Law: going forward the frames rise by `step` from `cut`, going in reverse
/// they fall by `step` from `len`, and all of them lie between `cut` and
/// `len`.
pub proof fn lemma_frames_in_order(cut: usize, len: usize, step: usize, mode: Mode, i: int)
    requires
        step > 0,
        0 <= i < frames(cut, len, step, mode).len(),
    ensures
        cut <= frames(cut, len, step, mode)[i] <= len,
        i == 0 ==> frames(cut, len, step, mode)[i] == (match mode {
            Mode::Forward => cut,
            Mode::Reverse => len,
        }),
        i + 1 < frames(cut, len, step, mode).len() ==> match mode {
            Mode::Forward => frames(cut, len, step, mode)[i + 1] == frames(cut, len, step, mode)[i]
                + step,
            Mode::Reverse => frames(cut, len, step, mode)[i + 1] == frames(cut, len, step, mode)[i]
                - step,
        },
{
    let n = frame_count(cut as nat, len as nat, step as nat);
    let q = (len - cut) / (step as int);
    assert(cut <= len);
    assert(0 <= i <= q);
    assert(q * step <= len - cut) by (nonlinear_arith)
        requires
            step > 0,
            len - cut >= 0,
            q == (len - cut) / (step as int),
    ;
    assert(0 <= i * step <= q * step) by (nonlinear_arith)
        requires
            0 <= i <= q,
            step > 0,
    ;
    assert((i + 1) * step == i * step + step) by (nonlinear_arith);
    if i + 1 < n {
        assert(0 <= (i + 1) * step <= q * step) by (nonlinear_arith)
            requires
                0 <= i + 1 <= q,
                step > 0,
        ;
    }
}

/// Law: when the animation shows anything, the last frame shown is its end
/// limit; it shows nothing only when `cut` is past `len` and the end limit
/// is zero.
pub proof fn lemma_animation_ends_at_end(cut: usize, len: usize, step: usize, mode: Mode)
    requires
        step > 0,
    ensures
        shown_frames(cut, len, step, mode).len() > 0 ==> shown_frames(cut, len, step, mode).last()
            == end_frame(cut, len, mode),
        shown_frames(cut, len, step, mode).len() == 0 <==> (cut > len && end_frame(cut, len, mode)
            == 0),
{
    if cut <= len {
        assert(frames(cut, len, step, mode).len() > 0) by {
            assert((len - cut) / (step as int) >= 0) by (nonlinear_arith)
                requires
                    step > 0,
                    len - cut >= 0,
            ;
        }
    }
}

/// Law: the stepping goes as far as it can: there are frames exactly when
/// `cut <= len`, and the last stepped frame is within one step of the far
/// end (`len` going forward, `cut` in reverse), so no further step fits.
pub proof fn lemma_frames_reach_the_end(cut: usize, len: usize, step: usize, mode: Mode)
    requires
        step > 0,
    ensures
        frames(cut, len, step, mode).len() > 0 <==> cut <= len,
        frames(cut, len, step, mode).len() > 0 ==> match mode {
            Mode::Forward => len - frames(cut, len, step, mode).last() < step,
            Mode::Reverse => frames(cut, len, step, mode).last() - cut < step,
        },
{
    if cut <= len {
        let x = len - cut;
        let q = x / (step as int);
        assert(0 <= q && 0 <= x - q * step < step) by (nonlinear_arith)
            requires
                step > 0,
                x >= 0,
                q == x / (step as int),
        ;
        assert(frames(cut, len, step, mode).len() == q + 1);
    }
}

/// The value of a stepped frame.
proof fn lemma_frame_value(cut: usize, len: usize, step: usize, mode: Mode, k: int)
    requires
        step > 0,
        0 <= k < frames(cut, len, step, mode).len(),
    ensures
        cut <= len,
        0 <= k * step <= len - cut,
        frames(cut, len, step, mode)[k] == match mode {
            Mode::Forward => cut + k * step,
            Mode::Reverse => len - k * step,
        },
{
    let q = (len - cut) / (step as int);
    assert(0 <= k * step <= len - cut) by (nonlinear_arith)
        requires
            step > 0,
            len - cut >= 0,
            q == (len - cut) / (step as int),
            0 <= k <= q,
    ;
}

/// Law: no limit is shown twice: going forward the limits shown rise
/// strictly, in reverse they fall strictly.
pub proof fn lemma_shown_frames_strict(cut: usize, len: usize, step: usize, mode: Mode, i: int, j: int)
    requires
        step > 0,
        0 <= i < j < shown_frames(cut, len, step, mode).len(),
    ensures
        match mode {
            Mode::Forward => shown_frames(cut, len, step, mode)[i] < shown_frames(cut, len, step, mode)[j],
            Mode::Reverse => shown_frames(cut, len, step, mode)[i] > shown_frames(cut, len, step, mode)[j],
        },
{
    let f = frames(cut, len, step, mode);
    let n = f.len() as int;
    let sh = shown_frames(cut, len, step, mode);
    let end = end_frame(cut, len, mode);
    if sh.len() > n {
        assert(sh == f.push(end));
    } else {
        assert(sh == f);
    }
    assert(sh[i] == f[i]);
    lemma_frame_value(cut, len, step, mode, i);
    if j < n {
        assert(sh[j] == f[j]);
        lemma_frame_value(cut, len, step, mode, j);
        assert(i * step < j * step) by (nonlinear_arith)
            requires
                i < j,
                step > 0,
        ;
    } else {
        assert(sh[j] == end);
        lemma_frame_value(cut, len, step, mode, n - 1);
        assert(i * step <= (n - 1) * step) by (nonlinear_arith)
            requires
                i <= n - 1,
                step > 0,
        ;
        assert(f.last() == f[n - 1]);
        assert(f[n - 1] != end);
    }
}

} // verus!
