//! Sprite-sheet frame selection: which cell of a sprite sheet an
//! animated entity shows, advanced by accumulated frame time.

use vstd::prelude::*;
use vstd::arithmetic::div_mod::lemma_add_mod_noop;
use vstd::arithmetic::div_mod::lemma_mod_bound;
use vstd::arithmetic::div_mod::lemma_small_mod;

verus! {

/// Selects the current cell of a sprite sheet.  Frames are numbered row
/// by row; the playable range is `[min, max)`, the sheet is `max_width`
/// cells wide, and an animated selector steps one frame every `wait`
/// nanoseconds of accumulated play time.
#[derive(Clone, Copy, Debug, PartialEq, Eq, Structural)]
pub struct SpriteSelector {
    /// First frame of the playable range.
    pub min: u32,
    /// One past the last frame of the playable range.
    pub max: u32,
    /// Cells per row of the sprite sheet; at least one.
    pub max_width: u32,
    /// Whether the animation is running.
    pub on: bool,
    /// Nanoseconds of play time per frame; nothing animates without it.
    pub wait: Option<u128>,
    /// Accumulated play time, in nanoseconds, not yet turned into frames.
    pub time: u128,
    /// The frame currently shown.
    pub at: u32,
}

/// The selector after one frame-advance pass: accumulated time is spent
/// in whole frames, the frame steps forward modulo `max` and never below
/// `min`, and the remainder of the time is kept.
pub open spec fn spec_advanced(s: SpriteSelector) -> SpriteSelector {
    match s.wait {
        Some(w) => if s.on && w >= 1 && s.time / w > 0 {
            SpriteSelector { at: spec_stepped_frame(s, w), time: (s.time % w) as u128, ..s }
        } else {
            s
        },
        None => s,
    }
}

/// The frame shown after spending `s.time / w` whole frames of play
/// time: stepped modulo `max`, raised to `min` when the wrap lands below
/// the playable range.
pub open spec fn spec_stepped_frame(s: SpriteSelector, w: u128) -> u32 {
    let f = (s.at + s.time / w) % (s.max as int);
    if f < s.min {
        s.min
    } else {
        f as u32
    }
}

impl SpriteSelector {
    /// Basic shape of a usable selector: a non-empty playable range, a
    /// sheet at least one cell wide, a positive frame duration where one
    /// is set, and a current frame inside the range.
    pub open spec fn wf(self) -> bool {
        &&& self.min < self.max
        &&& self.max_width >= 1
        &&& (match self.wait {
            Some(w) => w >= 1,
            None => true,
        })
        &&& self.min <= self.at < self.max
    }

    /// Makes a selector showing `start`, clamped into the playable
    /// range, with the animation stopped and no time accumulated.
    pub fn new(start: u32, min: u32, max: u32, width: u32, wait: Option<u128>) -> (s:
        SpriteSelector)
        requires
            min < max,
            width >= 1,
            match wait {
                Some(w) => w >= 1,
                None => true,
            },
        ensures
            s.wf(),
            s == (SpriteSelector {
                min,
                max,
                max_width: width,
                on: false,
                wait,
                time: 0,
                at: if start < min {
                    min
                } else if start > max - 1 {
                    (max - 1) as u32
                } else {
                    start
                },
            }),
    {
        let at = if start < min {
            min
        } else if start > max - 1 {
            max - 1
        } else {
            start
        };
        SpriteSelector { min, max, max_width: width, on: false, wait, time: 0, at }
    }

    /// Starts the animation; a selector without a frame duration has
    /// nothing to play and stays as it is.
    pub fn play(&mut self)
        ensures
            *final(self) == (SpriteSelector {
                on: match old(self).wait {
                    Some(_) => true,
                    None => old(self).on,
                },
                ..*old(self)
            }),
    {
        if self.wait.is_some() {
            self.on = true;
        }
    }

    /// Stops the animation; the current frame stays shown.
    pub fn stop(&mut self)
        ensures
            *final(self) == (SpriteSelector { on: false, ..*old(self) }),
    {
        self.on = false;
    }

    /// Accumulates `delta` nanoseconds of play time while the animation
    /// runs; a stopped selector ignores time.
    pub fn add_time(&mut self, delta: u128)
        requires
            old(self).time + delta <= u128::MAX,
        ensures
            *final(self) == (SpriteSelector {
                time: if old(self).on {
                    (old(self).time + delta) as u128
                } else {
                    old(self).time
                },
                ..*old(self)
            }),
    {
        if self.on {
            self.time = self.time + delta;
        }
    }

    /// Spends the accumulated play time in whole frames: the frame steps
    /// forward by `time / wait` modulo `max`, never below `min`, and the
    /// remainder of the time is kept for the next pass.
    pub fn update(&mut self)
        requires
            old(self).wf(),
        ensures
            final(self).wf(),
            *final(self) == spec_advanced(*old(self)),
    {
        if self.on {
            match self.wait {
                Some(w) => {
                    let skip = self.time / w;
                    if skip > 0 {
                        let maxw: u128 = self.max as u128;
                        let skip_m = skip % maxw;
                        let stepped = ((self.at as u128) + skip_m) % maxw;
                        proof {
                            let a = old(self).at as int;
                            let sk = old(self).time as int / (w as int);
                            let m = old(self).max as int;
                            lemma_add_mod_noop(a, sk, m);
                            lemma_small_mod(old(self).at as nat, old(self).max as nat);
                            lemma_mod_bound(a + (sk % m), m);
                            lemma_mod_bound(sk, m);
                            assert(stepped == (a + sk) % m);
                        }
                        let f = if stepped < self.min as u128 {
                            self.min
                        } else {
                            stepped as u32
                        };
                        self.at = f;
                        self.time = self.time % w;
                    }
                },
                None => {},
            }
        }
    }

    /// The sheet cell of frame `frame`: column, then row.
    pub fn cell(&self, frame: u32) -> (c: (u32, u32))
        requires
            self.max_width >= 1,
        ensures
            c.0 == frame % self.max_width,
            c.1 == frame / self.max_width,
    {
        (frame % self.max_width, frame / self.max_width)
    }

    /// The sheet cell currently shown.
    pub fn current_cell(&self) -> (c: (u32, u32))
        requires
            self.max_width >= 1,
        ensures
            c.0 == self.at % self.max_width,
            c.1 == self.at / self.max_width,
    {
        self.cell(self.at)
    }

    /// Shows frame `frame` of the playable range, counted from `min`;
    /// refused when it lies past the range's end.
    pub fn _set(&mut self, frame: u32) -> (r: Result<(), ()>)
        requires
            frame + old(self).min <= u32::MAX,
        ensures
            old(self).min + frame < old(self).max ==> r == Ok::<(), ()>(()) && *final(self) == (
            SpriteSelector { at: (old(self).min + frame) as u32, ..*old(self) }),
            old(self).min + frame >= old(self).max ==> r == Err::<(), ()>(()) && *final(self)
                == *old(self),
    {
        let at = frame + self.min;
        if at < self.max {
            self.at = at;
            Ok(())
        } else {
            Err(())
        }
    }

    /// The sheet cell of frame `frame` of the playable range, counted
    /// from `min`; refused when it lies past the range's end.
    pub fn cell_at(&self, frame: u32) -> (r: Result<(u32, u32), ()>)
        requires
            frame + self.min <= u32::MAX,
            self.max_width >= 1,
        ensures
            self.min + frame < self.max ==> r == Ok::<(u32, u32), ()>(
                (
                    ((self.min + frame) as u32) % self.max_width,
                    ((self.min + frame) as u32) / self.max_width,
                ),
            ),
            self.min + frame >= self.max ==> r == Err::<(u32, u32), ()>(()),
    {
        let at = frame + self.min;
        if at < self.max {
            Ok(self.cell(at))
        } else {
            Err(())
        }
    }
}

/// The per-frame system that feeds elapsed wall time to every sprite
/// selector and then advances their frames.
pub struct SpriteSelectorUpdate;

impl SpriteSelectorUpdate {
    /// One pass over all selectors: each running selector accumulates
    /// `delta` nanoseconds and spends it in whole frames; a tick of no
    /// elapsed time changes nothing.
    pub fn run(selectors: &mut Vec<SpriteSelector>, delta: u128)
        requires
            forall|k: int|
                0 <= k < old(selectors)@.len() ==> (#[trigger] old(selectors)@[k]).wf() && old(
                    selectors,
                )@[k].time + delta <= u128::MAX,
        ensures
            final(selectors)@.len() == old(selectors)@.len(),
            forall|k: int|
                0 <= k < old(selectors)@.len() ==> final(selectors)@[k] == (if delta > 0 {
                    spec_advanced(
                        SpriteSelector {
                            time: if old(selectors)@[k].on {
                                (old(selectors)@[k].time + delta) as u128
                            } else {
                                old(selectors)@[k].time
                            },
                            ..(#[trigger] old(selectors)@[k])
                        },
                    )
                } else {
                    old(selectors)@[k]
                }),
            forall|k: int|
                0 <= k < old(selectors)@.len() ==> (#[trigger] final(selectors)@[k]).wf(),
    {
        if delta == 0 {
            return ;
        }
        let n = selectors.len();
        let mut k: usize = 0;
        while k < n
            invariant
                k <= n,
                n == selectors@.len(),
                n == old(selectors)@.len(),
                forall|i: int|
                    0 <= i < n ==> (#[trigger] old(selectors)@[i]).wf() && old(selectors)@[i].time
                        + delta <= u128::MAX,
                forall|i: int| k <= i < n ==> selectors@[i] == old(selectors)@[i],
                forall|i: int|
                    0 <= i < k ==> #[trigger] selectors@[i] == (SpriteSelector {
                        time: if old(selectors)@[i].on {
                            (old(selectors)@[i].time + delta) as u128
                        } else {
                            old(selectors)@[i].time
                        },
                        ..old(selectors)@[i]
                    }),
            decreases n - k,
        {
            let s = &mut selectors[k];
            s.add_time(delta);
            k = k + 1;
        }
        let mut k2: usize = 0;
        while k2 < n
            invariant
                k2 <= n,
                n == selectors@.len(),
                n == old(selectors)@.len(),
                forall|i: int|
                    0 <= i < n ==> (#[trigger] old(selectors)@[i]).wf() && old(selectors)@[i].time
                        + delta <= u128::MAX,
                forall|i: int|
                    k2 <= i < n ==> #[trigger] selectors@[i] == (SpriteSelector {
                        time: if old(selectors)@[i].on {
                            (old(selectors)@[i].time + delta) as u128
                        } else {
                            old(selectors)@[i].time
                        },
                        ..old(selectors)@[i]
                    }) && selectors@[i].wf(),
                forall|i: int|
                    0 <= i < k2 ==> #[trigger] selectors@[i] == spec_advanced(
                        SpriteSelector {
                            time: if old(selectors)@[i].on {
                                (old(selectors)@[i].time + delta) as u128
                            } else {
                                old(selectors)@[i].time
                            },
                            ..old(selectors)@[i]
                        },
                    ) && selectors@[i].wf(),
            decreases n - k2,
        {
            let s = &mut selectors[k2];
            s.update();
            k2 = k2 + 1;
        }
    }
}

/// The per-frame system that plays or stops every animated entity's
/// sprite according to whether the scene's clock is running.  The
/// accompanying rotation of the entities is the renderer's float work
/// and stays with it.
pub struct ActorUpdate;

impl ActorUpdate {
    /// Starts every selector when the clock runs and stops every
    /// selector when it stands still.
    pub fn run(selectors: &mut Vec<SpriteSelector>, animate: bool)
        ensures
            final(selectors)@.len() == old(selectors)@.len(),
            forall|k: int|
                0 <= k < old(selectors)@.len() ==> final(selectors)@[k] == (SpriteSelector {
                    on: if animate {
                        match (#[trigger] old(selectors)@[k]).wait {
                            Some(_) => true,
                            None => old(selectors)@[k].on,
                        }
                    } else {
                        false
                    },
                    ..old(selectors)@[k]
                }),
    {
        let n = selectors.len();
        let mut k: usize = 0;
        while k < n
            invariant
                k <= n,
                n == selectors@.len(),
                n == old(selectors)@.len(),
                forall|i: int| k <= i < n ==> selectors@[i] == old(selectors)@[i],
                forall|i: int|
                    0 <= i < k ==> #[trigger] selectors@[i] == (SpriteSelector {
                        on: if animate {
                            match old(selectors)@[i].wait {
                                Some(_) => true,
                                None => old(selectors)@[i].on,
                            }
                        } else {
                            false
                        },
                        ..old(selectors)@[i]
                    }),
            decreases n - k,
        {
            let s = &mut selectors[k];
            if animate {
                s.play();
            } else {
                s.stop();
            }
            k = k + 1;
        }
    }
}

} // verus!
