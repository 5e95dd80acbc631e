//! The line-editing state machine: turns a sequence of drag gestures into
//! a validated, finalized station path for a new line.
//!
//! The editor owns only topology decisions. Every visual effect (creating,
//! snapping or removing a segment sprite) is emitted as a `SegmentAction`
//! for the rendering side to apply; segments are named by opaque handles.

use vstd::prelude::*;

use crate::metro::{LineId, Metro, StationId};

verus! {

/// Opaque handle of the visual segment representing one edge under
/// construction.
pub type SegmentId = u64;

/// One edge of a line under construction. Its end is unset while the tip
/// of the line follows the pointer.
#[derive(Clone, Copy, Debug)]
pub struct PathNode {
    pub start_station_id: StationId,
    pub end_station_id: Option<StationId>,
    pub segment: SegmentId,
}

/// What kind of drag the player started, as carried by the handle widget.
#[derive(Clone, Copy, Debug)]
pub enum LineDragHandle {
    New { station_id: StationId },
    Extend { station_id: StationId, line_id: LineId },
    Edit { station_ids: (StationId, StationId), line_id: LineId },
}

/// The editing state. Only `DrawingNew` carries behavior; `Extending` and
/// `Editing` are reserved variants for future editing modes and every
/// operation reports them as unsupported.
pub enum LineDragState {
    Idle,
    DrawingNew { path: Vec<PathNode>, line_id: LineId },
    Extending { path: Vec<StationId>, line_id: LineId },
    Editing { line_id: LineId, path: Vec<StationId>, stations: (StationId, StationId) },
}

/// A visual side effect for the rendering collaborator to apply.
#[derive(Clone, Copy, Debug)]
pub enum SegmentAction {
    /// Create the segment visual, starting at `start_station`, colored for
    /// `line_id`, its free end following the pointer.
    Spawn { segment: SegmentId, start_station: StationId, line_id: LineId },
    /// Destroy the segment visual.
    Remove { segment: SegmentId },
    /// Snap the free end of the segment to the position of `station`.
    AttachEnd { segment: SegmentId, station: StationId },
}

/// Outcome of starting a drag gesture.
#[derive(Clone, Copy, Debug)]
pub enum GestureStart {
    /// A new line began; its first segment was spawned at the start station.
    Started { line_id: LineId, segment: SegmentId },
    /// Every available line slot is in use: nothing happened.
    NoLineAvailable,
    /// The handle kind is reserved and not supported yet.
    Unsupported,
}

/// The finalized result of a committed drag: an ordered station sequence
/// for a line.
pub struct LinePathChanged {
    pub line_id: LineId,
    pub new_path: Vec<StationId>,
}

/// Marker event: the set of active lines changed after a topology edit.
pub struct ActiveLinesChanged;

/// Event: the drag currently hovers a station.
pub struct LineDragHoversStation {
    pub station_id: StationId,
}

/// Whether some node of the path already starts at station `s`.
pub open spec fn revisits_start(p: Seq<PathNode>, s: StationId) -> bool {
    exists|i: int| 0 <= i < p.len() && (#[trigger] p[i]).start_station_id == s
}

/// The path after a detach gesture: the open node is dropped and the node
/// before it is reopened.
pub open spec fn detached_path(p: Seq<PathNode>) -> Seq<PathNode>
    recommends
        p.len() >= 2,
{
    p.take(p.len() - 1).update(
        p.len() - 2,
        (PathNode {
            start_station_id: p[p.len() - 2].start_station_id,
            end_station_id: None,
            segment: p[p.len() - 2].segment,
        }),
    )
}

/// The path after the open node closes at station `s` and a fresh open
/// node with segment `seg` is appended.
pub open spec fn extended_path(p: Seq<PathNode>, s: StationId, seg: SegmentId) -> Seq<PathNode>
    recommends
        p.len() >= 1,
{
    p.update(
        p.len() - 1,
        (PathNode {
            start_station_id: p[p.len() - 1].start_station_id,
            end_station_id: Some(s),
            segment: p[p.len() - 1].segment,
        }),
    ).push(PathNode { start_station_id: s, end_station_id: None, segment: seg })
}

/// A line color, each channel in thousandths (0 ..= 1000); rendering
/// scales the channels to its own color depth.
#[derive(Clone, Copy, PartialEq, Eq, Structural, Debug)]
pub struct LineColor {
    pub red: u16,
    pub green: u16,
    pub blue: u16,
}

/// The fixed palette of ten distinct line colors, indexed by line id.
pub open spec fn line_color_spec(l: int) -> LineColor {
    if l == 0 {
        LineColor { red: 400, green: 800, blue: 900 }  // soft cyan
    } else if l == 1 {
        LineColor { red: 900, green: 600, blue: 400 }  // warm peach
    } else if l == 2 {
        LineColor { red: 500, green: 400, blue: 800 }  // lavender
    } else if l == 3 {
        LineColor { red: 700, green: 900, blue: 400 }  // limey green
    } else if l == 4 {
        LineColor { red: 900, green: 400, blue: 700 }  // rose pink
    } else if l == 5 {
        LineColor { red: 400, green: 900, blue: 600 }  // mint green
    } else if l == 6 {
        LineColor { red: 800, green: 500, blue: 400 }  // muted coral
    } else if l == 7 {
        LineColor { red: 400, green: 600, blue: 900 }  // soft blue
    } else if l == 8 {
        LineColor { red: 900, green: 800, blue: 400 }  // mellow yellow
    } else {
        LineColor { red: 600, green: 400, blue: 900 }  // soft violet
    }
}

/// The palette color of a line, derived deterministically from its id.
pub fn line_color(line_id: LineId) -> (c: LineColor)
    requires
        line_id < 10,
    ensures
        c == line_color_spec(line_id as int),
{
    if line_id == 0 {
        LineColor { red: 400, green: 800, blue: 900 }
    } else if line_id == 1 {
        LineColor { red: 900, green: 600, blue: 400 }
    } else if line_id == 2 {
        LineColor { red: 500, green: 400, blue: 800 }
    } else if line_id == 3 {
        LineColor { red: 700, green: 900, blue: 400 }
    } else if line_id == 4 {
        LineColor { red: 900, green: 400, blue: 700 }
    } else if line_id == 5 {
        LineColor { red: 400, green: 900, blue: 600 }
    } else if line_id == 6 {
        LineColor { red: 800, green: 500, blue: 400 }
    } else if line_id == 7 {
        LineColor { red: 400, green: 600, blue: 900 }
    } else if line_id == 8 {
        LineColor { red: 900, green: 800, blue: 400 }
    } else {
        LineColor { red: 600, green: 400, blue: 900 }
    }
}

/// The line-editing state machine.
pub struct LineEditor {
    pub state: LineDragState,
    /// Edge trigger for station hover: set once a hover has been handled,
    /// cleared when the pointer leaves every station, so each station
    /// entry is processed exactly once.
    pub hover_handled: bool,
    /// Source of fresh segment handles.
    pub next_segment: SegmentId,
}

impl LineEditor {
    /// The path under construction; empty unless drawing.
    pub open spec fn drawing_path(self) -> Seq<PathNode> {
        match self.state {
            LineDragState::DrawingNew { path, .. } => path@,
            _ => Seq::empty(),
        }
    }

    /// The line id of the path under construction; 0 unless drawing.
    pub open spec fn drawing_line(self) -> LineId {
        match self.state {
            LineDragState::DrawingNew { line_id, .. } => line_id,
            _ => 0,
        }
    }

    /// While drawing, the path is a chain: at least one node, exactly the
    /// last node open, consecutive nodes linked, no station started twice,
    /// and segment handles fresh and distinct.
    pub open spec fn wf(self) -> bool {
        self.state is DrawingNew ==> {
            let p = self.drawing_path();
            &&& p.len() >= 1
            &&& p[p.len() - 1].end_station_id is None
            &&& forall|i: int|
                0 <= i < p.len() - 1 ==> (#[trigger] p[i]).end_station_id == Some(
                    p[i + 1].start_station_id,
                )
            &&& forall|i: int, j: int|
                0 <= i < j < p.len() ==> p[i].start_station_id != p[j].start_station_id
            &&& forall|i: int| 0 <= i < p.len() ==> (#[trigger] p[i]).segment < self.next_segment
            &&& forall|i: int, j: int| 0 <= i < j < p.len() ==> p[i].segment != p[j].segment
        }
    }

    /// A fresh editor, idle.
    pub fn new() -> (e: LineEditor)
        ensures
            e.wf(),
            e.state is Idle,
            e.hover_handled,
            e.next_segment == 0,
    {
        LineEditor { state: LineDragState::Idle, hover_handled: true, next_segment: 0 }
    }

    /// Starts a drag gesture on `handle`. For a "new line" handle, the
    /// lowest line id not active in the graph and below `available_lines`
    /// is allocated; when every slot is taken the gesture does not start
    /// (an informational outcome, not an error). The reserved handle kinds
    /// report `Unsupported`.
    pub fn gesture_start(
        &mut self,
        handle: &LineDragHandle,
        metro: &Metro,
        available_lines: usize,
    ) -> (r: GestureStart)
        requires
            old(self).wf(),
            old(self).state is Idle,
            old(self).next_segment < u64::MAX,
            metro.wf(),
        ensures
            final(self).wf(),
            (match *handle {
                LineDragHandle::New { station_id } => match r {
                    GestureStart::Started { line_id, segment } => {
                        &&& segment == old(self).next_segment
                        &&& final(self).next_segment == old(self).next_segment + 1
                        &&& line_id < available_lines
                        &&& !metro.line_active(line_id)
                        &&& forall|l2: usize| l2 < line_id ==> metro.line_active(l2)
                        &&& final(self).state is DrawingNew
                        &&& final(self).drawing_line() == line_id
                        &&& final(self).drawing_path().len() == 1
                        &&& final(self).drawing_path()[0].start_station_id == station_id
                        &&& final(self).drawing_path()[0].end_station_id is None
                        &&& final(self).drawing_path()[0].segment == segment
                        &&& final(self).hover_handled
                    },
                    GestureStart::NoLineAvailable => {
                        &&& forall|l2: usize| l2 < available_lines ==> metro.line_active(l2)
                        &&& *final(self) == *old(self)
                    },
                    GestureStart::Unsupported => false,
                },
                _ => r is Unsupported && *final(self) == *old(self),
            }),
    {
        match handle {
            LineDragHandle::New { station_id } => {
                match metro.lowest_inactive_line(available_lines) {
                    Some(line_id) => {
                        let segment = self.next_segment;
                        self.next_segment = segment + 1;
                        let mut path: Vec<PathNode> = Vec::new();
                        path.push(
                            PathNode {
                                start_station_id: *station_id,
                                end_station_id: None,
                                segment,
                            },
                        );
                        self.state = LineDragState::DrawingNew { path, line_id };
                        self.hover_handled = true;
                        GestureStart::Started { line_id, segment }
                    },
                    None => GestureStart::NoLineAvailable,
                }
            },
            _ => GestureStart::Unsupported,
        }
    }

    /// Handles one drag update, given the hit-test result supplied by the
    /// caller (the station currently under the pointer, if any). Station
    /// entries are edge-triggered: a station is processed once per entry,
    /// and leaving all stations re-arms the trigger. On the first frame
    /// over a station, in order: re-entering the open node's start detaches
    /// the last segment (a no-op on a single-node path); re-entering the
    /// very first station of a longer path is the reserved "close the
    /// loop" gesture and changes nothing; a station already used as a node
    /// start is rejected silently; otherwise the open node closes there
    /// and a fresh open node is appended.
    pub fn gesture_move(&mut self, hit: Option<StationId>) -> (r: Vec<SegmentAction>)
        requires
            old(self).wf(),
            old(self).next_segment < u64::MAX,
        ensures
            final(self).wf(),
            final(self).state is DrawingNew <==> old(self).state is DrawingNew,
            final(self).drawing_line() == old(self).drawing_line(),
            !(old(self).state is DrawingNew) ==> *final(self) == *old(self) && r@.len() == 0,
            old(self).state is DrawingNew && hit is None ==> {
                &&& final(self).drawing_path() == old(self).drawing_path()
                &&& final(self).next_segment == old(self).next_segment
                &&& !final(self).hover_handled
                &&& r@.len() == 0
            },
            old(self).state is DrawingNew && hit is Some && old(self).hover_handled ==> {
                &&& *final(self) == *old(self)
                &&& r@.len() == 0
            },
            ({
                let p = old(self).drawing_path();
                let s = hit->0;
                old(self).state is DrawingNew && hit is Some && !old(self).hover_handled ==> {
                    &&& final(self).hover_handled
                    &&& if s == p[p.len() - 1].start_station_id {
                        if p.len() > 1 {
                            &&& final(self).drawing_path() == detached_path(p)
                            &&& final(self).next_segment == old(self).next_segment
                            &&& r@.len() == 1
                            &&& r@[0] == (SegmentAction::Remove {
                                segment: p[p.len() - 1].segment,
                            })
                        } else {
                            &&& final(self).drawing_path() == p
                            &&& final(self).next_segment == old(self).next_segment
                            &&& r@.len() == 0
                        }
                    } else if p.len() > 2 && s == p[0].start_station_id {
                        // Reserved "close the loop" gesture: nothing changes.
                        &&& final(self).drawing_path() == p
                        &&& final(self).next_segment == old(self).next_segment
                        &&& r@.len() == 0
                    } else if revisits_start(p, s) {
                        // Backtracking onto an already-used station: rejected.
                        &&& final(self).drawing_path() == p
                        &&& final(self).next_segment == old(self).next_segment
                        &&& r@.len() == 0
                    } else {
                        &&& final(self).drawing_path() == extended_path(
                            p,
                            s,
                            old(self).next_segment,
                        )
                        &&& final(self).next_segment == old(self).next_segment + 1
                        &&& r@.len() == 2
                        &&& r@[0] == (SegmentAction::AttachEnd {
                            segment: p[p.len() - 1].segment,
                            station: s,
                        })
                        &&& r@[1] == (SegmentAction::Spawn {
                            segment: old(self).next_segment,
                            start_station: s,
                            line_id: old(self).drawing_line(),
                        })
                    }
                }
            }),
    {
        let mut actions: Vec<SegmentAction> = Vec::new();
        if !matches!(self.state, LineDragState::DrawingNew { .. }) {
            return actions;
        }
        let s = match hit {
            Some(s) => s,
            None => {
                self.hover_handled = false;
                return actions;
            },
        };
        if self.hover_handled {
            return actions;
        }
        self.hover_handled = true;
        let fresh_segment = self.next_segment;
        let ghost p = self.drawing_path();
        match &mut self.state {
            LineDragState::DrawingNew { path, line_id } => {
                let plen = path.len();
                let last_start = path[plen - 1].start_station_id;
                let last_seg = path[plen - 1].segment;
                if s == last_start {
                    if plen > 1 {
                        path.pop();
                        path[plen - 2].end_station_id = None;
                        actions.push(SegmentAction::Remove { segment: last_seg });
                        proof {
                            assert(path@ =~= detached_path(p));
                        }
                    }
                } else if plen > 2 && s == path[0].start_station_id {
                    // Reserved "close the loop" gesture: deliberately left
                    // unimplemented; the edge trigger is consumed.
                } else if path_has_start(path, s) {
                    // Rejected silently: closing onto an already-visited
                    // station would make an impossible loop.
                } else {
                    path[plen - 1].end_station_id = Some(s);
                    actions.push(SegmentAction::AttachEnd { segment: last_seg, station: s });
                    path.push(
                        PathNode { start_station_id: s, end_station_id: None, segment: fresh_segment },
                    );
                    actions.push(
                        SegmentAction::Spawn {
                            segment: fresh_segment,
                            start_station: s,
                            line_id: *line_id,
                        },
                    );
                    self.next_segment = fresh_segment + 1;
                    proof {
                        assert(path@ =~= extended_path(p, s, fresh_segment));
                    }
                }
            },
            _ => {
                proof {
                    assert(false);
                }
            },
        }
        actions
    }

    /// Ends the drag gesture. The open, unterminated segment is always
    /// discarded; if nothing committed remains the gesture aborts with no
    /// effect, otherwise the committed nodes become the finalized ordered
    /// station sequence for the allocated line.
    pub fn gesture_end(&mut self) -> (r: (Option<LinePathChanged>, Vec<SegmentAction>))
        requires
            old(self).wf(),
        ensures
            final(self).wf(),
            final(self).next_segment == old(self).next_segment,
            !(old(self).state is DrawingNew) ==> *final(self) == *old(self) && r.0 is None
                && r.1@.len() == 0,
            ({
                let p = old(self).drawing_path();
                old(self).state is DrawingNew ==> {
                    &&& final(self).state is Idle
                    &&& final(self).hover_handled == old(self).hover_handled
                    &&& r.1@.len() == 1
                    &&& r.1@[0] == (SegmentAction::Remove { segment: p[p.len() - 1].segment })
                    &&& (p.len() == 1 ==> r.0 is None)
                    &&& (p.len() > 1 ==> match r.0 {
                        Some(change) => {
                            &&& change.line_id == old(self).drawing_line()
                            &&& change.new_path@.len() == p.len()
                            &&& change.new_path@.len() >= 2
                            &&& forall|i: int|
                                0 <= i < p.len() ==> change.new_path@[i] == (
                                #[trigger] p[i]).start_station_id
                            &&& forall|i: int, j: int|
                                0 <= i < j < change.new_path@.len() ==> change.new_path@[i]
                                    != change.new_path@[j]
                        },
                        None => false,
                    })
                }
            }),
    {
        if !matches!(self.state, LineDragState::DrawingNew { .. }) {
            return (None, Vec::new());
        }
        let ghost p = self.drawing_path();
        let (l, new_path, last_seg, plen) = match &self.state {
            LineDragState::DrawingNew { path, line_id } => {
                let plen = path.len();
                let last_seg = path[plen - 1].segment;
                let mut np: Vec<StationId> = Vec::new();
                for i in 0..plen
                    invariant
                        plen == path@.len(),
                        np@.len() == i,
                        forall|i2: int|
                            0 <= i2 < i ==> np@[i2] == (#[trigger] path@[i2]).start_station_id,
                {
                    np.push(path[i].start_station_id);
                }
                proof {
                    assert forall|i2: int, j2: int|
                        0 <= i2 < j2 < np@.len() implies np@[i2] != np@[j2] by {
                        assert(np@[i2] == p[i2].start_station_id);
                        assert(np@[j2] == p[j2].start_station_id);
                    }
                }
                (*line_id, np, last_seg, plen)
            },
            _ => {
                proof {
                    assert(false);
                }
                (0, Vec::new(), 0, 0)
            },
        };
        let mut actions: Vec<SegmentAction> = Vec::new();
        actions.push(SegmentAction::Remove { segment: last_seg });
        self.state = LineDragState::Idle;
        if plen == 1 {
            (None, actions)
        } else {
            (Some(LinePathChanged { line_id: l, new_path }), actions)
        }
    }

    /// The handle of the segment whose free end follows the pointer, while
    /// drawing.
    pub fn open_segment(&self) -> (r: Option<SegmentId>)
        requires
            self.wf(),
        ensures
            match r {
                Some(seg) => self.state is DrawingNew && seg == self.drawing_path()[self.drawing_path().len() - 1].segment,
                None => !(self.state is DrawingNew),
            },
    {
        match &self.state {
            LineDragState::DrawingNew { path, .. } => Some(path[path.len() - 1].segment),
            _ => None,
        }
    }
}

/// Whether some node of the path starts at station `s` (linear scan).
fn path_has_start(path: &Vec<PathNode>, s: StationId) -> (b: bool)
    ensures
        b == revisits_start(path@, s),
{
    for i in 0..path.len()
        invariant
            forall|i2: int| 0 <= i2 < i ==> (#[trigger] path@[i2]).start_station_id != s,
    {
        if path[i].start_station_id == s {
            return true;
        }
    }
    false
}

} // verus!
