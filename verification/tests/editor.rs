use metro::editor::{line_color, GestureStart, LineColor, LineDragHandle, LineDragState, LineEditor, SegmentAction};
use metro::metro::Metro;

fn start_new(editor: &mut LineEditor, metro: &Metro, station: usize) -> (usize, u64) {
    match editor.gesture_start(&LineDragHandle::New { station_id: station }, metro, 3) {
        GestureStart::Started { line_id, segment } => (line_id, segment),
        _ => panic!("gesture should have started"),
    }
}

/// Starting at station 0 and moving over station 1 commits the path [0, 1]
/// for the allocated line id.
#[test]
fn gesture_round_trip() {
    let m = Metro::new();
    let mut editor = LineEditor::new();
    let (line_id, first_segment) = start_new(&mut editor, &m, 0);
    assert_eq!(line_id, 0);

    // The pointer leaves station 0, re-arming the hover trigger...
    assert!(editor.gesture_move(None).is_empty());
    // ... and enters station 1: the open segment snaps there and a new
    // open segment is spawned.
    let actions = editor.gesture_move(Some(1));
    assert_eq!(actions.len(), 2);
    assert!(matches!(
        actions[0],
        SegmentAction::AttachEnd { segment, station } if segment == first_segment && station == 1
    ));
    assert!(matches!(
        actions[1],
        SegmentAction::Spawn { start_station: 1, .. }
    ));

    let (change, end_actions) = editor.gesture_end();
    let change = change.expect("a path should have been committed");
    assert_eq!(change.line_id, 0);
    assert_eq!(change.new_path, vec![0, 1]);
    // Only the dangling open segment is discarded.
    assert_eq!(end_actions.len(), 1);
    assert!(matches!(end_actions[0], SegmentAction::Remove { .. }));
    assert!(matches!(editor.state, LineDragState::Idle));
}

/// Moving back over an already-visited station is rejected silently, while
/// moving back onto the open segment's start detaches it; a drag whose
/// path shrank to nothing commits nothing.
#[test]
fn backtrack_rejection_and_detach() {
    let m = Metro::new();
    let mut editor = LineEditor::new();
    start_new(&mut editor, &m, 0);

    editor.gesture_move(None);
    editor.gesture_move(Some(1));

    // Backtracking over station 0 (already a node start, not the open
    // node's start): rejected, path unchanged.
    editor.gesture_move(None);
    assert!(editor.gesture_move(Some(0)).is_empty());

    // Re-entering station 1, the open node's start: detach. The open
    // segment is removed and the previous one reopens.
    editor.gesture_move(None);
    let actions = editor.gesture_move(Some(1));
    assert_eq!(actions.len(), 1);
    assert!(matches!(actions[0], SegmentAction::Remove { .. }));

    // Nothing committed remains: gesture end aborts back to idle.
    let (change, _) = editor.gesture_end();
    assert!(change.is_none());
    assert!(matches!(editor.state, LineDragState::Idle));
}

/// Detaching the only segment of the path is a no-op.
#[test]
fn detach_single_segment_is_noop() {
    let m = Metro::new();
    let mut editor = LineEditor::new();
    start_new(&mut editor, &m, 0);

    editor.gesture_move(None);
    assert!(editor.gesture_move(Some(0)).is_empty());

    // The path still holds its single open node; ending commits nothing.
    let (change, _) = editor.gesture_end();
    assert!(change.is_none());
}

/// Re-entering the path's first station on a longer path is the reserved
/// "close the loop" gesture: state is untouched and the drag goes on.
#[test]
fn close_the_loop_is_deferred() {
    let m = Metro::new();
    let mut editor = LineEditor::new();
    start_new(&mut editor, &m, 0);

    editor.gesture_move(None);
    editor.gesture_move(Some(1));
    editor.gesture_move(None);
    editor.gesture_move(Some(2));
    editor.gesture_move(None);
    // Path now holds three nodes; station 0 is its very first station.
    assert!(editor.gesture_move(Some(0)).is_empty());

    let (change, _) = editor.gesture_end();
    let change = change.expect("the path so far should commit");
    assert_eq!(change.new_path, vec![0, 1, 2]);
}

/// Station entries are edge-triggered: staying over the same station, or
/// re-entering without leaving, fires no second action.
#[test]
fn hover_is_edge_triggered() {
    let m = Metro::new();
    let mut editor = LineEditor::new();
    start_new(&mut editor, &m, 0);

    // The drag starts over station 0; hovering it again is not a detach.
    assert!(editor.gesture_move(Some(0)).is_empty());
    editor.gesture_move(None);
    editor.gesture_move(Some(1));
    // Still over station 1: no new node, no actions.
    assert!(editor.gesture_move(Some(1)).is_empty());
    let (change, _) = editor.gesture_end();
    assert_eq!(change.expect("committed").new_path, vec![0, 1]);
}

/// While line id 0 is active in the graph, a new gesture picks id 1.
#[test]
fn line_id_skips_active_ids() {
    let mut m = Metro::new();
    m.add_connection(0, 1, 0);
    let mut editor = LineEditor::new();
    let (line_id, _) = start_new(&mut editor, &m, 2);
    assert_eq!(line_id, 1);
}

/// With every line slot active the gesture does not start.
#[test]
fn exhausted_line_pool_aborts_gesture() {
    let mut m = Metro::new();
    m.add_connection(0, 1, 0);
    m.add_connection(1, 2, 1);
    m.add_connection(2, 0, 2);
    let mut editor = LineEditor::new();
    let r = editor.gesture_start(&LineDragHandle::New { station_id: 0 }, &m, 3);
    assert!(matches!(r, GestureStart::NoLineAvailable));
    assert!(matches!(editor.state, LineDragState::Idle));
}

/// The reserved extend and edit handles report "not supported".
#[test]
fn reserved_handles_are_unsupported() {
    let m = Metro::new();
    let mut editor = LineEditor::new();
    let r = editor.gesture_start(
        &LineDragHandle::Extend { station_id: 0, line_id: 0 },
        &m,
        3,
    );
    assert!(matches!(r, GestureStart::Unsupported));
    let r = editor.gesture_start(
        &LineDragHandle::Edit { station_ids: (0, 1), line_id: 0 },
        &m,
        3,
    );
    assert!(matches!(r, GestureStart::Unsupported));
    assert!(matches!(editor.state, LineDragState::Idle));
}

/// A drag that ends in mid-air commits nothing and despawns its segment.
#[test]
fn midair_end_commits_nothing() {
    let m = Metro::new();
    let mut editor = LineEditor::new();
    let (_, segment) = start_new(&mut editor, &m, 1);
    editor.gesture_move(None);
    let (change, actions) = editor.gesture_end();
    assert!(change.is_none());
    assert_eq!(actions.len(), 1);
    assert!(matches!(actions[0], SegmentAction::Remove { segment: s } if s == segment));
}

/// The open segment is queryable while drawing and gone when idle.
#[test]
fn open_segment_follows_state() {
    let m = Metro::new();
    let mut editor = LineEditor::new();
    assert!(editor.open_segment().is_none());
    let (_, segment) = start_new(&mut editor, &m, 0);
    assert_eq!(editor.open_segment(), Some(segment));
    editor.gesture_end();
    assert!(editor.open_segment().is_none());
}

/// The palette is deterministic and its ten colors are pairwise distinct.
#[test]
fn line_colors_distinct() {
    let colors: Vec<_> = (0..10).map(line_color).collect();
    assert_eq!(colors[0], LineColor { red: 400, green: 800, blue: 900 });
    assert_eq!(colors[9], LineColor { red: 600, green: 400, blue: 900 });
    for a in 0..10 {
        for b in 0..a {
            assert_ne!(colors[a], colors[b]);
        }
    }
}
