//! Dispatcher, queue, and supervisor behaviour.
use neighbor_chat::client::{
    ClientState, ConnectionState, DispatchEffect, OutboundQueue, ReadStep, RecvOutcome,
    StopReason, Supervisor, SupervisorAction, write_step,
};
use neighbor_chat::ident::Uuid;
use neighbor_chat::packet::{ChatMessage, Packet};
use neighbor_chat::packet_builder::PacketBuilder;
use neighbor_chat::{data_dir, get_channel_name, match_join_status};

fn chat(text: &str) -> ChatMessage {
    ChatMessage {
        id: Uuid::new_v4(),
        inReplyTo: None,
        message: String::from(text),
        user: String::from("telemakos"),
        directMessageTo: None,
        sent: 16782697319,
    }
}

#[test]
fn user_count_suffix_is_stripped() {
    assert_eq!(get_channel_name(String::from("General 12")), "General");
    assert_eq!(get_channel_name(String::from("My Channel 3")), "My Channel");
    assert_eq!(get_channel_name(String::from("NoCount")), "");
}

#[test]
fn join_status_matcher_captures_the_channel() {
    assert_eq!(
        match_join_status("You joined the channel Pizza"),
        Some(String::from("Pizza"))
    );
    assert_eq!(match_join_status("You joined the channelPizza"), None);
    assert_eq!(match_join_status("arbitrary other status text"), None);
    assert_eq!(
        match_join_status("You joined the channel  My Channel"),
        Some(String::from("My Channel"))
    );
}

#[test]
fn chat_lands_in_the_active_channel() {
    let mut state = ClientState::new();
    let eff = state.dispatch(Packet::Status {
        status: String::from("You joined the channel General"),
    });
    assert!(matches!(eff, DispatchEffect::Quiet));
    assert_eq!(state.active_channel, "General");

    let m = chat("hello neighbors");
    let eff = state.dispatch(Packet::Chat(m.clone()));
    assert!(matches!(eff, DispatchEffect::Quiet));

    let general = state.store.messages_in("General");
    assert_eq!(general.len(), 1);
    assert_eq!(general[0], m);
    assert_eq!(state.store.messages_in("Pizza").len(), 0);
    assert_eq!(state.store.messages_in("").len(), 0);
}

#[test]
fn channel_list_replaces_the_registry_wholesale() {
    let mut state = ClientState::new();
    let eff = state.dispatch(Packet::ListChannels {
        channels: Some(vec![String::from("General 12"), String::from("My Channel 3")]),
    });
    assert!(matches!(eff, DispatchEffect::Quiet));
    assert_eq!(
        state.channels,
        vec![String::from("General"), String::from("My Channel")]
    );

    let eff = state.dispatch(Packet::ListChannels {
        channels: Some(vec![String::from("Pizza 1")]),
    });
    assert!(matches!(eff, DispatchEffect::Quiet));
    assert_eq!(state.channels, vec![String::from("Pizza")]);

    let eff = state.dispatch(Packet::ListChannels { channels: None });
    assert!(matches!(eff, DispatchEffect::Quiet));
    assert_eq!(state.channels, vec![String::from("Pizza")]);
}

#[test]
fn topic_error_and_anomaly_dispatch() {
    let mut state = ClientState::new();
    let eff = state.dispatch(Packet::ChangeTopic {
        topic: String::from("gardening"),
    });
    assert!(matches!(eff, DispatchEffect::Quiet));
    assert_eq!(state.topic, "gardening");

    let eff = state.dispatch(Packet::Error {
        error: String::from("server hiccup"),
        clientshutdown: true,
    });
    match eff {
        DispatchEffect::LogError {
            error,
            clientshutdown,
        } => {
            assert_eq!(error, "server hiccup");
            assert!(clientshutdown);
        }
        _ => panic!("an error packet only asks to be logged"),
    }
    assert_eq!(state.topic, "gardening");

    let eff = state.dispatch(Packet::JoinChannel {
        channel: String::from("General"),
    });
    assert!(matches!(eff, DispatchEffect::LogAnomaly));

    let eff = state.dispatch(Packet::Status {
        status: String::from("motd: be kind"),
    });
    match eff {
        DispatchEffect::LogStatus { status } => assert_eq!(status, "motd: be kind"),
        _ => panic!("a plain status is informational"),
    }
    assert_eq!(state.active_channel, "");
}

#[test]
fn eof_stops_the_read_loop_cleanly() {
    let mut state = ClientState::new();
    let step = state.read_step(RecvOutcome::Eof);
    assert!(matches!(
        step,
        ReadStep::Stopped(StopReason::ConnectionAborted)
    ));
    let step = state.read_step(RecvOutcome::Failure);
    assert!(matches!(step, ReadStep::Stopped(StopReason::TransportError)));

    let mut sup = Supervisor::new();
    sup.begin_attempt();
    assert!(matches!(
        sup.on_connect_result(true),
        SupervisorAction::StartLoops
    ));
    let action = sup.on_read_loop_ended();
    assert!(matches!(action, SupervisorAction::TearDown));
    assert_eq!(sup.state, ConnectionState::Disconnected);
}

#[test]
fn malformed_lines_are_skipped_not_fatal() {
    let mut state = ClientState::new();
    let step = state.read_step(RecvOutcome::Line(b"{oops".to_vec()));
    assert!(matches!(step, ReadStep::SkippedLine(_)));
    let step = state.read_step(RecvOutcome::Line(
        Packet::ChangeTopic {
            topic: String::from("still alive"),
        }
        .into_bytes(),
    ));
    assert!(matches!(step, ReadStep::Continue(_)));
    assert_eq!(state.topic, "still alive");
}

#[test]
fn failed_then_successful_connect_clears_the_notification() {
    let mut sup = Supervisor::new();
    assert_eq!(sup.state, ConnectionState::Disconnected);
    assert_eq!(sup.notification_text(), "");

    sup.begin_attempt();
    assert_eq!(sup.state, ConnectionState::Connecting);
    let action = sup.on_connect_result(false);
    assert!(matches!(action, SupervisorAction::RetryAfterDelay));
    assert_eq!(sup.state, ConnectionState::Disconnected);
    assert_eq!(sup.notification_text(), "Error connecting to the server.");

    sup.begin_attempt();
    let action = sup.on_connect_result(true);
    assert!(matches!(action, SupervisorAction::StartLoops));
    assert_eq!(sup.state, ConnectionState::Connected);
    assert_eq!(sup.notification_text(), "");
}

#[test]
fn write_loop_drains_in_enqueue_order() {
    let mut q = OutboundQueue::new();
    let mut sent: Vec<Packet> = Vec::new();
    for i in 0..5 {
        let p = Packet::ChangeTopic {
            topic: format!("topic number {i}"),
        };
        assert!(q.try_enqueue(p.clone()));
        sent.push(p);
    }
    let mut wire: Vec<Vec<u8>> = Vec::new();
    while let Some(line) = write_step(&mut q) {
        wire.push(line);
    }
    assert_eq!(wire.len(), sent.len());
    for (line, p) in wire.iter().zip(sent.iter()) {
        assert_eq!(*line, p.clone().into_bytes());
    }
    assert_eq!(q.len(), 0);
}

#[test]
fn a_full_queue_refuses_instead_of_dropping() {
    let mut q = OutboundQueue::new();
    for _ in 0..100 {
        assert!(q.try_enqueue(Packet::ListChannels { channels: None }));
    }
    assert!(!q.try_enqueue(Packet::ListChannels { channels: None }));
    assert_eq!(q.len(), 100);
    assert!(write_step(&mut q).is_some());
    assert!(q.try_enqueue(Packet::ListChannels { channels: None }));
}

#[test]
fn builder_stamps_chat_packets() {
    let b = PacketBuilder::new(String::from("n/a"));
    assert_eq!(b.get_nickname(), "n/a");
    b.set_nickname(&String::from("telemakos"));
    assert_eq!(b.get_nickname(), "telemakos");

    match b.chat_message(String::from("hi")) {
        Packet::Chat(m) => {
            assert_eq!(m.message, "hi");
            assert_eq!(m.user, "telemakos");
            assert_eq!(m.inReplyTo, None);
            assert_eq!(m.directMessageTo, None);
            assert!(m.sent >= 0);
            assert_eq!((m.id.value >> 76) & 0xf, 4);
        }
        _ => panic!("chat_message builds a chat packet"),
    }
    assert_eq!(
        b.list_channels(),
        Packet::ListChannels { channels: None }
    );
    assert_eq!(
        b.join_channel(String::from("General")),
        Packet::JoinChannel {
            channel: String::from("General")
        }
    );
}

#[test]
fn builder_clones_share_the_nickname() {
    let b = PacketBuilder::new(String::from("n/a"));
    let handle = b.clone();
    b.set_nickname(&String::from("odysseus"));
    assert_eq!(handle.get_nickname(), "odysseus");
    handle.set_nickname(&String::from("nobody"));
    assert_eq!(b.get_nickname(), "nobody");
    match handle.chat_message(String::from("hi")) {
        Packet::Chat(m) => assert_eq!(m.user, "nobody"),
        _ => panic!("chat_message builds a chat packet"),
    }
}

#[test]
fn signals_share_one_cell() {
    let s = neighbor_chat::arc_mutex_signal::AMSignal::new(false);
    let t = s.clone();
    assert!(!s.get());
    t.set(true);
    assert!(s.get());
    s.set(false);
    assert!(!t.get());
}

#[test]
fn data_dir_names_a_path_when_the_platform_has_one() {
    if let Some(p) = data_dir() {
        assert!(!p.is_empty());
    }
}
