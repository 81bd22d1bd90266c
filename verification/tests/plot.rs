use log_print::plot::{classify, keep_latest, Continuity, LineFramer, PlotSessions, PlotStream, SessionError};

#[test]
fn lines_are_cut_at_newlines_across_payloads() {
    let mut f = LineFramer::new();
    let (lines, oversized) = f.feed(b"{\"v\":1}\r\n{\"v\"", 16);
    assert_eq!(lines, vec![b"{\"v\":1}".to_vec()]);
    assert_eq!(oversized, 0);
    assert_eq!(f.pending(), 4);
    let (lines, _) = f.feed(b":2}\n", 16);
    assert_eq!(lines, vec![b"{\"v\":2}".to_vec()]);
    assert_eq!(f.pending(), 0);
}

#[test]
fn oversized_lines_are_dropped_up_to_their_newline() {
    let mut f = LineFramer::new();
    let (lines, oversized) = f.feed(b"abcdefgh\nok\n", 4);
    assert_eq!(lines, vec![b"ok".to_vec()]);
    assert_eq!(oversized, 1);
}

#[test]
fn sequence_continuity_is_classified() {
    assert_eq!(classify("", 0, "e", 7), Continuity::Next);
    assert_eq!(classify("e", 3, "e", 4), Continuity::Next);
    assert_eq!(classify("e", 3, "e", 3), Continuity::Duplicate);
    assert_eq!(classify("e", 3, "e", 6), Continuity::Jump { from: 4 });
    assert_eq!(classify("e", 3, "f", 1), Continuity::EpochChanged { from: 1 });
}

#[test]
fn plotted_stream_counts_lines_duplicates_oversized_and_invalid_text() {
    let mut p = PlotStream::new(256);
    let (c, lines) = p.ingest("e1", 1, b"{\"value\":1");
    assert_eq!((c, lines.len()), (Continuity::Next, 0));
    let (_, lines) = p.ingest("e1", 2, b"2.5}\n{\"value\":null}\n");
    assert_eq!(lines, vec![b"{\"value\":12.5}".to_vec(), b"{\"value\":null}".to_vec()]);
    let (_, lines) = p.ingest("e1", 3, &vec![b'x'; 300]);
    assert!(lines.is_empty());
    let (_, lines) = p.ingest("e1", 4, b"\n\xff\n");
    assert_eq!(lines, vec![b"\xff".to_vec()]);
    let c = p.counters();
    assert_eq!((c.records, c.lines, c.oversized_lines, c.invalid_utf8), (4, 3, 1, 1));
    assert_eq!(p.pending_bytes(), 0);
    let (c, lines) = p.ingest("e1", 4, b"temp=9\n");
    assert_eq!((c, lines.len()), (Continuity::Duplicate, 0));
    assert_eq!(p.counters().duplicate_records, 1);
}

#[test]
fn plotted_stream_gaps_clear_the_partial_line() {
    let mut p = PlotStream::new(64);
    let (_, lines) = p.ingest("e1", 1, b"temp=4\ntemp=1");
    assert_eq!(lines, vec![b"temp=4".to_vec()]);
    p.gap("e1", 3);
    assert_eq!(p.pending_bytes(), 0);
    let (c, lines) = p.ingest("e1", 3, b"7\ntemp=5\n");
    assert_eq!(c, Continuity::Next);
    assert_eq!(lines, vec![b"7".to_vec(), b"temp=5".to_vec()]);
    let (c, _) = p.ingest("e1", 3, b"temp=9\n");
    assert_eq!(c, Continuity::Duplicate);
    let (c, lines) = p.ingest("e1", 6, b"partial");
    assert_eq!((c, lines.len()), (Continuity::Jump { from: 4 }, 0));
    let (c, lines) = p.ingest("e2", 1, b"\nx\n");
    assert_eq!(c, Continuity::EpochChanged { from: 1 });
    assert_eq!(lines, vec![b"".to_vec(), b"x".to_vec()]);
    assert_eq!(p.counters().gaps, 3);
}

#[test]
fn invalid_patch_is_atomic_and_bounded() {
    let mut sessions = PlotSessions::new();
    assert_eq!(sessions.create("a", 2048, 1), Ok(()));
    assert_eq!(sessions.patch("a", 1, 2048, 9), Err(SessionError::SeriesCount));
    assert_eq!(sessions.patch("a", 2, 16, 1), Err(SessionError::RevisionConflict { current: 1 }));
    assert_eq!(sessions.patch("a", 1, 16, 1), Ok(2));
    let mut points: Vec<u64> = Vec::new();
    for n in 1..100u64 {
        points.push(n);
        keep_latest(&mut points, 16);
    }
    assert_eq!(points.len(), 16);
    assert_eq!(points[0], 84);
}

#[test]
fn plot_sessions_are_few_and_share_a_point_budget() {
    let mut sessions = PlotSessions::new();
    assert_eq!(sessions.create("big", 8192, 8), Ok(()));
    assert_eq!(sessions.create("big", 16, 1), Err(SessionError::SessionExists));
    assert_eq!(sessions.create("more", 8192, 8), Ok(()));
    assert_eq!(sessions.create("over", 16, 1), Err(SessionError::PointBudget));
    assert_eq!(sessions.patch("big", 1, 8192, 7), Ok(2));
    assert_eq!(sessions.create("fits", 8192, 1), Ok(()));
    assert_eq!(sessions.create("x", 15, 1), Err(SessionError::MaxPoints));
    assert_eq!(sessions.patch("none", 1, 16, 1), Err(SessionError::UnknownSession));
    let mut small = PlotSessions::new();
    for n in 0..16 {
        assert_eq!(small.create(&format!("s{n}"), 16, 1), Ok(()));
    }
    assert_eq!(small.create("s16", 16, 1), Err(SessionError::TooManySessions));
}
