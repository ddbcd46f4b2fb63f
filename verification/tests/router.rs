//! End-to-end tests of the router: session creation, request routing and
//! fan-out, polling, and the fail-fast delivery rule, driven by the in-memory
//! engine.

use perspective_server::engine::MockEngine;
use perspective_server::error::ServerError;
use perspective_server::server::Server;
use perspective_server::sink::BufferSink;
use perspective_server::sink::SessionHandler;

#[test]
fn scenario_ping_pong_fan_out() {
    // One request on the first session whose engine batch is addressed to the
    // second session: only the second sink fires, exactly once.
    let mut engine = MockEngine::new();
    engine.stage_reply(1, b"pong".to_vec());
    let mut server = Server::new(engine);
    let s1 = server.new_session(BufferSink::new());
    let s2 = server.new_session(BufferSink::new());
    assert_eq!(s1.session_id(), 0);
    assert_eq!(s2.session_id(), 1);

    let r = s1.handle_request(&mut server, b"ping");
    assert!(r.is_ok());

    let sink1 = server.sink_for(s1.session_id()).unwrap();
    assert_eq!(sink1.received().len(), 0);
    let sink2 = server.sink_for(s2.session_id()).unwrap();
    assert_eq!(sink2.received().len(), 1);
    assert_eq!(sink2.received()[0].as_slice(), b"pong");

    assert!(s1.close(&mut server).is_ok());
    assert!(s2.close(&mut server).is_ok());
}

#[test]
fn created_identifiers_are_pairwise_distinct() {
    let mut server = Server::new(MockEngine::new());
    assert!(server.can_create_session());
    let mut ids: Vec<u32> = Vec::new();
    let mut sessions = Vec::new();
    for _ in 0..8 {
        let s = server.new_session(BufferSink::new());
        ids.push(s.session_id());
        sessions.push(s);
    }
    for i in 0..ids.len() {
        for j in 0..ids.len() {
            if i != j {
                assert_ne!(ids[i], ids[j]);
            }
        }
    }
    for s in sessions {
        assert!(s.close(&mut server).is_ok());
    }
}

#[test]
fn fan_out_delivers_to_each_recipient() {
    let mut engine = MockEngine::new();
    engine.stage_reply(0, b"to a".to_vec());
    engine.stage_reply(1, b"to b".to_vec());
    engine.stage_reply(2, b"to c".to_vec());
    let mut server = Server::new(engine);
    let a = server.new_session(BufferSink::new());
    let b = server.new_session(BufferSink::new());
    let c = server.new_session(BufferSink::new());

    assert!(a.handle_request(&mut server, b"req").is_ok());

    assert_eq!(server.sink_for(a.session_id()).unwrap().received().len(), 1);
    assert_eq!(server.sink_for(a.session_id()).unwrap().received()[0].as_slice(), b"to a");
    assert_eq!(server.sink_for(b.session_id()).unwrap().received().len(), 1);
    assert_eq!(server.sink_for(b.session_id()).unwrap().received()[0].as_slice(), b"to b");
    assert_eq!(server.sink_for(c.session_id()).unwrap().received().len(), 1);
    assert_eq!(server.sink_for(c.session_id()).unwrap().received()[0].as_slice(), b"to c");

    assert!(a.close(&mut server).is_ok());
    assert!(b.close(&mut server).is_ok());
    assert!(c.close(&mut server).is_ok());
}

#[test]
fn one_sink_gets_its_payloads_in_batch_order() {
    let mut engine = MockEngine::new();
    engine.stage_reply(0, b"first".to_vec());
    engine.stage_reply(1, b"elsewhere".to_vec());
    engine.stage_reply(0, b"second".to_vec());
    let mut server = Server::new(engine);
    let a = server.new_session(BufferSink::new());
    let b = server.new_session(BufferSink::new());

    assert!(a.handle_request(&mut server, b"req").is_ok());

    let got = server.sink_for(a.session_id()).unwrap().received();
    assert_eq!(got.len(), 2);
    assert_eq!(got[0].as_slice(), b"first");
    assert_eq!(got[1].as_slice(), b"second");

    assert!(a.close(&mut server).is_ok());
    assert!(b.close(&mut server).is_ok());
}

#[test]
fn delivery_failure_aborts_the_rest_of_the_batch() {
    let mut engine = MockEngine::new();
    engine.stage_reply(0, b"ok".to_vec());
    engine.stage_reply(1, b"refused".to_vec());
    engine.stage_reply(2, b"never sent".to_vec());
    let mut server = Server::new(engine);
    let a = server.new_session(BufferSink::new());
    let b = server.new_session(BufferSink::refusing_from(0, 7));
    let c = server.new_session(BufferSink::new());

    let r = a.handle_request(&mut server, b"req");
    assert_eq!(r, Err(ServerError::Delivery(7)));

    // The first delivery went through, the failing one was attempted (the
    // sink records the attempt), the third was never attempted.
    assert_eq!(server.sink_for(a.session_id()).unwrap().received().len(), 1);
    assert_eq!(server.sink_for(b.session_id()).unwrap().received().len(), 1);
    assert_eq!(server.sink_for(b.session_id()).unwrap().received()[0].as_slice(), b"refused");
    assert_eq!(server.sink_for(c.session_id()).unwrap().received().len(), 0);

    assert!(a.close(&mut server).is_ok());
    assert!(b.close(&mut server).is_ok());
    assert!(c.close(&mut server).is_ok());
}

#[test]
fn poll_delivers_buffered_output_to_the_right_recipients() {
    let mut engine = MockEngine::new();
    engine.stage_async(0, b"for a".to_vec());
    engine.stage_async(1, b"for b".to_vec());
    let mut server = Server::new(engine);
    let a = server.new_session(BufferSink::new());
    let b = server.new_session(BufferSink::new());

    // The request itself has no direct responses; the buffered output stays
    // pending until a poll flushes it.
    assert!(a.handle_request(&mut server, b"req").is_ok());
    assert_eq!(server.sink_for(a.session_id()).unwrap().received().len(), 0);
    assert_eq!(server.sink_for(b.session_id()).unwrap().received().len(), 0);

    assert!(b.poll(&mut server).is_ok());
    assert_eq!(server.sink_for(a.session_id()).unwrap().received().len(), 1);
    assert_eq!(server.sink_for(a.session_id()).unwrap().received()[0].as_slice(), b"for a");
    assert_eq!(server.sink_for(b.session_id()).unwrap().received().len(), 1);
    assert_eq!(server.sink_for(b.session_id()).unwrap().received()[0].as_slice(), b"for b");

    // A second poll finds nothing left.
    assert!(a.poll(&mut server).is_ok());
    assert_eq!(server.sink_for(a.session_id()).unwrap().received().len(), 1);
    assert_eq!(server.sink_for(b.session_id()).unwrap().received().len(), 1);

    assert!(a.close(&mut server).is_ok());
    assert!(b.close(&mut server).is_ok());
}

#[test]
fn closing_the_same_identifier_twice_fails_loudly() {
    let mut server = Server::new(MockEngine::new());
    let s = server.new_session(BufferSink::new());
    let id = s.session_id();
    assert!(s.close(&mut server).is_ok());
    assert_eq!(server.close_session(id), Err(ServerError::UnknownSession));
}

#[test]
fn closing_an_unknown_identifier_fails_loudly() {
    let mut server = Server::new(MockEngine::new());
    let keep = server.new_session(BufferSink::new());
    assert_eq!(server.close_session(42), Err(ServerError::UnknownSession));
    assert!(server.close_session(keep.session_id()).is_ok());
}

#[test]
fn output_for_a_closed_session_is_dropped() {
    let mut engine = MockEngine::new();
    engine.stage_reply(0, b"late".to_vec());
    let mut server = Server::new(engine);
    let a = server.new_session(BufferSink::new());
    let b = server.new_session(BufferSink::new());
    assert!(a.close(&mut server).is_ok());
    assert!(server.sink_for(0).is_none());

    // The batch addressed to the closed session is silently discarded.
    assert!(b.handle_request(&mut server, b"req").is_ok());
    assert_eq!(server.sink_for(b.session_id()).unwrap().received().len(), 0);

    assert!(b.close(&mut server).is_ok());
}

#[test]
fn output_for_an_unknown_identifier_is_dropped() {
    let mut engine = MockEngine::new();
    engine.stage_reply(99, b"nobody".to_vec());
    let mut server = Server::new(engine);
    let a = server.new_session(BufferSink::new());

    assert!(a.handle_request(&mut server, b"req").is_ok());
    assert_eq!(server.sink_for(a.session_id()).unwrap().received().len(), 0);

    assert!(a.close(&mut server).is_ok());
}

#[test]
fn requests_on_distinct_sessionskeep_the_registry_intact() {
    let mut server = Server::new(MockEngine::new());
    let mut sessions = Vec::new();
    for _ in 0..6 {
        sessions.push(server.new_session(BufferSink::new()));
    }
    for s in &sessions {
        assert!(s.handle_request(&mut server, b"work").is_ok());
    }
    // No insert was lost: every session still has its registry entry.
    for s in &sessions {
        assert!(server.sink_for(s.session_id()).is_some());
    }
    // No entry survives its close.
    for s in sessions {
        let id = s.session_id();
        assert!(s.close(&mut server).is_ok());
        assert!(server.sink_for(id).is_none());
    }
}

#[test]
fn buffer_sink_records_every_attempt_and_refuses_from_its_limit() {
    let mut sink = BufferSink::refusing_from(1, 5);
    assert_eq!(sink.send_response(b"one"), Ok(()));
    assert_eq!(sink.send_response(b"two"), Err(ServerError::Delivery(5)));
    assert_eq!(sink.received().len(), 2);
    assert_eq!(sink.received()[0].as_slice(), b"one");
    assert_eq!(sink.received()[1].as_slice(), b"two");
}
