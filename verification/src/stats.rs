//! Frame times: the pace of the frames and the report of how they went.
use crate::text;
use crate::text::digits_of;
use vstd::prelude::*;

verus! {

/// The time of a frame in nanoseconds: sixty per second.
pub const FRAME: u64 = 16_667_000;

/// Sums over the frames so far.
#[derive(Clone, Copy, Debug, PartialEq, Eq, Structural)]
pub struct FrameStats {
    pub frames: u64,
    pub tick_us: u64,
    pub draw_us: u64,
    pub max_tick_us: u64,
    pub max_draw_us: u64,
    pub overruns: u64,
}

impl Default for FrameStats {
    fn default() -> (r: Self)
        ensures
            r == (FrameStats {
                frames: 0,
                tick_us: 0,
                draw_us: 0,
                max_tick_us: 0,
                max_draw_us: 0,
                overruns: 0,
            }),
    {
        FrameStats {
            frames: 0,
            tick_us: 0,
            draw_us: 0,
            max_tick_us: 0,
            max_draw_us: 0,
            overruns: 0,
        }
    }
}

impl FrameStats {
    /// The sums with another frame.
    pub open spec fn recorded(self, tick_us: u64, draw_us: u64) -> FrameStats {
        FrameStats {
            frames: (self.frames + 1) as u64,
            tick_us: (self.tick_us + tick_us) as u64,
            draw_us: (self.draw_us + draw_us) as u64,
            max_tick_us: if tick_us > self.max_tick_us {
                tick_us
            } else {
                self.max_tick_us
            },
            max_draw_us: if draw_us > self.max_draw_us {
                draw_us
            } else {
                self.max_draw_us
            },
            overruns: self.overruns,
        }
    }

    /// A frame has gone by.
    pub fn record(&mut self, tick_us: u64, draw_us: u64)
        requires
            old(self).frames < u64::MAX,
            old(self).tick_us + tick_us <= u64::MAX,
            old(self).draw_us + draw_us <= u64::MAX,
        ensures
            *final(self) == old(self).recorded(tick_us, draw_us),
            *final(self) == (FrameStats {
                frames: (old(self).frames + 1) as u64,
                tick_us: (old(self).tick_us + tick_us) as u64,
                draw_us: (old(self).draw_us + draw_us) as u64,
                max_tick_us: if tick_us > old(self).max_tick_us {
                    tick_us
                } else {
                    old(self).max_tick_us
                },
                max_draw_us: if draw_us > old(self).max_draw_us {
                    draw_us
                } else {
                    old(self).max_draw_us
                },
                overruns: old(self).overruns,
            }),
    {
        self.frames = self.frames + 1;
        self.tick_us = self.tick_us + tick_us;
        self.draw_us = self.draw_us + draw_us;
        if tick_us > self.max_tick_us {
            self.max_tick_us = tick_us;
        }
        if draw_us > self.max_draw_us {
            self.max_draw_us = draw_us;
        }
    }

    /// When the frame after the one that was due at `due` is due, and how long it is until
    /// then.
    pub open spec fn paced(due: u64, now: u64) -> (u64, Option<u64>) {
        if due + FRAME > now {
            ((due + FRAME) as u64, Some((due + FRAME - now) as u64))
        } else {
            (now, None)
        }
    }

    /// The end of a frame that was due at `due`: how long to wait for the next
    /// one, and when that is due. A frame that is late counts as an overrun, and
    /// the lost time is not caught up.
    pub fn pace(&mut self, due: u64, now: u64) -> (r: (u64, Option<u64>))
        requires
            due + FRAME <= u64::MAX,
            old(self).overruns < u64::MAX,
        ensures
            r == FrameStats::paced(due, now),
            r.1 is None ==> final(self).overruns == old(self).overruns + 1,
            due + FRAME > now ==> {
                &&& r.0 == due + FRAME
                &&& r.1 == Some((due + FRAME - now) as u64)
                &&& *final(self) == *old(self)
            },
            due + FRAME <= now ==> {
                &&& r.0 == now
                &&& r.1 is None
                &&& *final(self) == (FrameStats {
                    overruns: (old(self).overruns + 1) as u64,
                    ..*old(self)
                })
            },
    {
        let next: u64 = due + FRAME;
        if next > now {
            (next, Some(next - now))
        } else {
            self.overruns = self.overruns + 1;
            (now, None)
        }
    }

    /// The report, once there have been frames.
    pub open spec fn summary(self) -> Seq<char> {
        "chromatui stats: "@ + text::digits(self.frames as nat) + " frames | tick avg "@
            + text::digits((self.tick_us / self.frames) as nat) + "µs max "@ + text::digits(
            self.max_tick_us as nat,
        ) + "µs | draw avg "@ + text::digits((self.draw_us / self.frames) as nat) + "µs max "@
            + text::digits(self.max_draw_us as nat) + "µs | "@ + text::digits(
            self.overruns as nat,
        ) + " overruns (>16.6ms)"@
    }

    /// The report, once there have been frames.
    pub fn report(&self) -> (r: Option<String>)
        ensures
            self.frames == 0 ==> r is None,
            self.frames > 0 ==> r is Some && r->0@ == self.summary(),
    {
        if self.frames == 0 {
            return None;
        }
        let mut r: String = "chromatui stats: ".to_string();
        let n: String = digits_of(self.frames);
        r.append(n.as_str());
        r.append(" frames | tick avg ");
        let n: String = digits_of(self.tick_us / self.frames);
        r.append(n.as_str());
        r.append("µs max ");
        let n: String = digits_of(self.max_tick_us);
        r.append(n.as_str());
        r.append("µs | draw avg ");
        let n: String = digits_of(self.draw_us / self.frames);
        r.append(n.as_str());
        r.append("µs max ");
        let n: String = digits_of(self.max_draw_us);
        r.append(n.as_str());
        r.append("µs | ");
        let n: String = digits_of(self.overruns);
        r.append(n.as_str());
        r.append(" overruns (>16.6ms)");
        Some(r)
    }
}

/// The sums and the greatest of two lists of times.
pub open spec fn gone_by(times: Seq<(u64, u64)>) -> (int, int, int, int)
    decreases times.len(),
{
    if times.len() == 0 {
        (0, 0, 0, 0)
    } else {
        let (a, b, c, d) = gone_by(times.drop_last());
        let (t, u) = times.last();
        (
            a + t,
            b + u,
            if t > c {
                t as int
            } else {
                c
            },
            if u > d {
                u as int
            } else {
                d
            },
        )
    }
}

/// The statistics after frames that took these times.
pub open spec fn after_frames(times: Seq<(u64, u64)>) -> FrameStats
    decreases times.len(),
{
    if times.len() == 0 {
        FrameStats {
            frames: 0,
            tick_us: 0,
            draw_us: 0,
            max_tick_us: 0,
            max_draw_us: 0,
            overruns: 0,
        }
    } else {
        after_frames(times.drop_last()).recorded(times.last().0, times.last().1)
    }
}

/// The statistics count the frames, sum up their times and keep the longest of each kind.
pub proof fn law_statistics_sum_up(times: Seq<(u64, u64)>)
    requires
        times.len() <= u64::MAX,
        gone_by(times).0 <= u64::MAX,
        gone_by(times).1 <= u64::MAX,
    ensures
        ({
            let (s, (a, b, c, d)) = (after_frames(times), gone_by(times));
            &&& s.frames == times.len()
            &&& s.tick_us == a
            &&& s.draw_us == b
            &&& s.max_tick_us == c
            &&& s.max_draw_us == d
            &&& c <= a
            &&& d <= b
        }),
    decreases times.len(),
{
    if times.len() > 0 {
        law_statistics_sum_up(times.drop_last());
    }
}

/// Frames that are done in time come sixty to the second: the next is due 16.667 ms after the
/// last, and the wait ends just then. A late one is not waited for, and the lost time is not
/// caught up.
pub proof fn law_frames_keep_their_pace(due: u64, now: u64)
    requires
        due + 16_667_000 <= u64::MAX,
    ensures
        ({
            let (next, wait) = FrameStats::paced(due, now);
            &&& now < due + 16_667_000 ==> next == due + 16_667_000 && wait is Some && now
                + wait->0 == next
            &&& now >= due + 16_667_000 ==> next == now && wait is None
        }),
{
}

} // verus!
