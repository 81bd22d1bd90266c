use log_print::proto::{accept_welcome, WelcomeError, WelcomeReply};
use log_print::limits::{MAX_DATAGRAM, MAX_WIRE};
use log_print::proto::{clamp_nanos, datagram, frame_line, now_ns, CoreOptions, FrameError, FrameReader, FrameStep, TransportKind, UnknownTransport};

#[test]
fn transport_is_tcp_by_default_and_config_only_accepts_two_roles() {
    assert_eq!(CoreOptions::default().transport, TransportKind::Tcp);
    assert_eq!(TransportKind::parse("udp"), Ok(TransportKind::Udp));
    assert!(TransportKind::parse("quic").is_err());
    assert_eq!(TransportKind::Udp.name(), "udp");
    assert!(CoreOptions::default().check());
}

#[test]
fn oversized_frames_fail_before_a_newline_arrives() {
    let bytes = vec![b'a'; MAX_WIRE + 1];
    let mut r = FrameReader::new();
    assert_eq!(r.push(&bytes), Err(FrameError::FrameTooLarge));
    let mut r = FrameReader::new();
    let (n, step) = r.push(b"{\"id\":1}").unwrap();
    assert_eq!((n, step), (8, FrameStep::More));
    assert_eq!(r.finish(), Err(FrameError::TruncatedFrame));
}

#[test]
fn frames_split_at_newlines_and_end_cleanly() {
    let input = b"{\"n\":1}\n{\"n\":2}\n";
    let mut r = FrameReader::new();
    let (n, step) = r.push(input).unwrap();
    assert_eq!((n, step), (8, FrameStep::Frame(b"{\"n\":1}\n".to_vec())));
    let (m, step) = r.push(&input[n..]).unwrap();
    assert_eq!((m, step), (8, FrameStep::Frame(b"{\"n\":2}\n".to_vec())));
    assert_eq!(r.finish(), Ok(()));
    let mut r = FrameReader::new();
    assert_eq!(r.push(b"ab").unwrap(), (2, FrameStep::More));
    assert_eq!(r.push(b"c\nd").unwrap(), (2, FrameStep::Frame(b"abc\n".to_vec())));
}

#[test]
fn frame_and_datagram_size_limits() {
    assert_eq!(frame_line(vec![b'x'; MAX_WIRE]), Err(FrameError::FrameTooLarge));
    assert_eq!(frame_line(b"{}".to_vec()), Ok(b"{}\n".to_vec()));
    assert_eq!(frame_line(vec![b'x'; MAX_WIRE - 1]).unwrap().len(), MAX_WIRE);
    assert_eq!(datagram(vec![0; MAX_DATAGRAM + 1]), Err(FrameError::DatagramTooLarge));
    assert_eq!(datagram(vec![0; MAX_DATAGRAM]).unwrap().len(), MAX_DATAGRAM);
    assert_eq!(TransportKind::Tcp.reply_budget(), MAX_WIRE - 1);
    assert_eq!(TransportKind::Udp.reply_budget(), MAX_DATAGRAM);
}

#[test]
fn clock_saturates_at_u64() {
    assert_eq!(clamp_nanos(5), 5);
    assert_eq!(clamp_nanos(u128::MAX), u64::MAX);
    assert!(now_ns() > 1_600_000_000_000_000_000);
}

#[test]
fn unknown_transport_names_the_two_accepted() {
    assert_eq!(TransportKind::parse("tcp"), Ok(TransportKind::Tcp));
    assert_eq!(TransportKind::parse("TCP"), Err(UnknownTransport));
    assert_eq!(UnknownTransport.message(), "transport must be tcp or udp");
}

fn welcome(id: u64, error: Option<(&str, &str)>, protocol: Option<&str>) -> WelcomeReply {
    WelcomeReply {
        is_response: true,
        id,
        error: error.map(|(c, m)| (c.to_string(), m.to_string())),
        protocol: protocol.map(|p| p.to_string()),
        stream_id: Some("id-1".to_string()),
        stream_alias: Some("alpha".to_string()),
        reads: Some(vec!["id-2".to_string()]),
    }
}

#[test]
fn plugin_registration_accepts_only_a_welcome_of_this_protocol() {
    let s = accept_welcome(welcome(0, None, Some("log-print/2"))).unwrap();
    assert_eq!(s.own_stream, Some("id-1".to_string()));
    assert_eq!(s.read_streams, vec!["id-2".to_string()]);
    assert_eq!(s.aliases, vec![("id-1".to_string(), "id-1".to_string()), ("alpha".to_string(), "id-1".to_string())]);
    assert_eq!(
        accept_welcome(welcome(0, Some(("authentication_failed", "invalid plugin identity/token")), None)).unwrap_err(),
        WelcomeError::Refused { code: "authentication_failed".into(), message: "invalid plugin identity/token".into() }
    );
    assert_eq!(accept_welcome(welcome(0, None, Some("log-print/1"))).unwrap_err(), WelcomeError::InvalidWelcome);
    assert_eq!(accept_welcome(welcome(3, None, Some("log-print/2"))).unwrap_err(), WelcomeError::InvalidWelcome);
    let mut event = welcome(0, None, Some("log-print/2"));
    event.is_response = false;
    assert_eq!(accept_welcome(event).unwrap_err(), WelcomeError::InvalidWelcome);
    let mut bare = welcome(0, None, Some("log-print/2"));
    bare.stream_id = None;
    bare.reads = None;
    let s = accept_welcome(bare).unwrap();
    assert!(s.own_stream.is_none() && s.read_streams.is_empty() && s.aliases.is_empty());
}
