//! Track data: the inbound packet shape and the per-aircraft track state.
use vstd::prelude::*;
use std::collections::VecDeque;
use crate::grid::GridCoord;
use crate::math::Vector2D;

verus! {

/// One inbound position report, already reduced to plain integer values:
/// meters, meters per second, meters of altitude.
pub struct AdsbPacket {
    pub id: String,
    pub callsign: Option<String>,
    pub px: i64,
    pub py: i64,
    pub vx: i64,
    pub vy: i64,
    pub alt: i64,
}

/// How many prior positions a track remembers (drop-oldest).
pub const HISTORY_CAP: usize = 32;

/// Per-aircraft track state.
pub struct Aircraft {
    pub position: Vector2D,
    pub velocity: Vector2D,
    pub altitude: i64,
    pub last_seen: u64,
    pub grid_coord: GridCoord,
    pub history: VecDeque<Vector2D>,
}

impl Aircraft {
    /// The remembered prior positions, oldest first.
    pub open spec fn spec_history(self) -> Seq<Vector2D> {
        self.history@
    }

    pub open spec fn wf(self) -> bool {
        self.spec_history().len() <= HISTORY_CAP
    }

    pub fn new(
        position: Vector2D,
        velocity: Vector2D,
        altitude: i64,
        grid_coord: GridCoord,
        now: u64,
    ) -> (a: Aircraft)
        ensures
            a.wf(),
            a.position == position,
            a.velocity == velocity,
            a.altitude == altitude,
            a.grid_coord == grid_coord,
            a.last_seen == now,
            a.spec_history() == Seq::<Vector2D>::empty(),
    {
        let history: VecDeque<Vector2D> = VecDeque::with_capacity(HISTORY_CAP);
        proof {
            assert(history@ =~= Seq::<Vector2D>::empty());
        }
        Aircraft { position, velocity, altitude, grid_coord, last_seen: now, history }
    }

    /// Pushes the prior position into the bounded history (dropping the
    /// oldest entry when full) and replaces position, velocity, grid cell
    /// and last-seen time.
    pub fn update(
        &mut self,
        position: Vector2D,
        velocity: Vector2D,
        grid_coord: GridCoord,
        now: u64,
    )
        requires
            old(self).wf(),
        ensures
            final(self).wf(),
            final(self).position == position,
            final(self).velocity == velocity,
            final(self).altitude == old(self).altitude,
            final(self).grid_coord == grid_coord,
            final(self).last_seen == now,
            final(self).spec_history() == (if old(self).spec_history().len() < HISTORY_CAP {
                old(self).spec_history().push(old(self).position)
            } else {
                old(self).spec_history().push(old(self).position).drop_first()
            }),
    {
        self.history.push_back(self.position);
        if self.history.len() > HISTORY_CAP {
            self.history.pop_front();
            proof {
                assert(self.history@ =~= old(self).spec_history().push(
                    old(self).position,
                ).drop_first());
            }
        }
        self.position = position;
        self.velocity = velocity;
        self.grid_coord = grid_coord;
        self.last_seen = now;
    }

    /// The remembered prior positions, oldest first.
    pub fn history_snapshot(&self) -> (h: Vec<Vector2D>)
        ensures
            h@ == self.spec_history(),
    {
        let mut out: Vec<Vector2D> = Vec::new();
        let n = self.history.len();
        for i in 0..n
            invariant
                n == self.history@.len(),
                out@ =~= self.history@.take(i as int),
        {
            out.push(self.history[i]);
            proof {
                assert(out@ =~= self.history@.take(i + 1));
            }
        }
        proof {
            assert(self.history@.take(n as int) =~= self.history@);
        }
        out
    }
}

} // verus!
