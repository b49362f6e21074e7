use sana::error::Error;
use sana::index_queue::{
    apply_batch, BrokerOperation, BrokerRegistration, EnqueueOutcome, QueueFile,
};
use sana::queue_broker::{
    accept_request, accept_response, after_request, answer_with, broker_endpoint, check_size,
    choose_broker, choose_endpoint, claim_reply, complete_reply, enqueue_reply, fail_reply,
    heartbeat_reply, invalidate, liveness, readiness, refusal_error, refuse, request_for,
    takes_requests, unreadiness, validate_broker_address, AfterRequest, BrokerHealth, ParsedUrl,
    QueueErrorKind, QueueOperation, QueueRequest, QueueResponse, QueueResponseKind,
    RegistrationProbe, MAX_QUEUE_MESSAGE_BYTES,
};
use sana::wal::WalCursor;

fn registration(generation: u64) -> BrokerRegistration {
    BrokerRegistration {
        address: "http://broker:8090".into(),
        owner_id: "owner".into(),
        generation,
    }
}

#[test]
fn broker_address_rejects_empty_and_non_http_urls() {
    assert!(matches!(
        broker_endpoint(""),
        Err(Error::InvalidQueueBroker(_))
    ));
    assert!(matches!(
        broker_endpoint("ftp://broker.internal"),
        Err(Error::InvalidQueueBroker(_))
    ));
}

#[test]
fn broker_addresses_lead_to_the_queue() {
    assert_eq!(
        broker_endpoint(" http://broker:8090 ").unwrap(),
        "http://broker:8090/v1/indexing-queue"
    );
    assert_eq!(
        broker_endpoint("HTTPS://Broker/base").unwrap(),
        "https://broker/base/v1/indexing-queue"
    );
    assert!(broker_endpoint("not a url").is_err());
    assert!(broker_endpoint("   ").is_err());
    assert!(validate_broker_address("http://broker").is_ok());
    assert!(validate_broker_address("ftp://broker").is_err());
}

#[test]
fn refused_addresses_say_why() {
    let text = |address: &str| match broker_endpoint(address) {
        Err(Error::InvalidQueueBroker(text)) => text,
        other => panic!("{other:?}"),
    };
    assert_eq!(text(" \u{2003} "), "registered broker address is empty");
    assert_eq!(
        text(" no\turl "),
        "invalid registered broker address \" no\\turl \": relative URL without a base"
    );
    assert_eq!(
        text("ftp://broker.internal"),
        "registered broker address must use http or https, got \"ftp\""
    );
}

#[test]
fn endpoints_are_chosen_by_scheme() {
    let url = |scheme: &str| {
        Ok(ParsedUrl { scheme: scheme.to_string(), text: "x".to_string() })
    };
    let joined = || Ok("u".to_string());
    assert_eq!(choose_endpoint(" a", "a", url("http"), joined()).unwrap(), "u");
    assert_eq!(choose_endpoint(" a", "a", url("https"), joined()).unwrap(), "u");
    let text = |r: Result<String, Error>| match r {
        Err(Error::InvalidQueueBroker(text)) => text,
        other => panic!("{other:?}"),
    };
    assert_eq!(
        text(choose_endpoint(" a", "a", url("file"), joined())),
        "registered broker address must use http or https, got \"file\""
    );
    assert_eq!(
        text(choose_endpoint(" a", "a", Err("why".into()), joined())),
        "invalid registered broker address \" a\": why"
    );
    assert_eq!(
        text(choose_endpoint(" a", "a", url("http"), Err("not so".into()))),
        "invalid registered broker address \" a\": not so"
    );
    assert_eq!(
        text(choose_endpoint(" ", "", url("http"), joined())),
        "registered broker address is empty"
    );
}

/// Asks the broker that is remembered, or else the registered one, to notify about a
/// namespace, and asks a replacement once where that broker was replaced.
fn ask(
    queue: &mut QueueFile,
    cached: &mut Option<BrokerRegistration>,
    namespace: &str,
) -> Result<(), Error> {
    for _ in 0..2 {
        let broker = choose_broker(cached.take(), queue.broker.clone())?;
        *cached = Some(broker.clone());
        let ops = vec![BrokerOperation::Enqueue {
            namespace: namespace.into(),
            target_cursor: WalCursor::new(0, 1),
            timestamp_ms: 1,
        }];
        let result = apply_batch(queue, &ops, Some(&broker)).map(|_| ());
        match after_request(&result) {
            AfterRequest::Done => return result,
            AfterRequest::AskReplacement => *cached = invalidate(cached.take(), &broker),
            AfterRequest::Forget => {
                *cached = invalidate(cached.take(), &broker);
                return result;
            }
        }
    }
    Err(Error::InvalidQueueBroker("replaced twice".into()))
}

#[test]
fn client_rediscovers_replacement_after_stale_broker_response() {
    let mut queue = QueueFile::empty();
    let mut cached = None;
    queue.register_broker("http://127.0.0.1:1", "first").unwrap();
    ask(&mut queue, &mut cached, "alpha").unwrap();
    assert_eq!(cached.as_ref().map(|b| b.owner_id.as_str()), Some("first"));

    queue.register_broker("http://127.0.0.1:2", "second").unwrap();
    ask(&mut queue, &mut cached, "beta").unwrap();
    assert_eq!(cached.as_ref().map(|b| b.owner_id.as_str()), Some("second"));
    assert_eq!(
        queue.jobs.iter().map(|job| job.namespace.as_str()).collect::<Vec<_>>(),
        vec!["alpha", "beta"]
    );
}

#[test]
fn clients_forget_brokers_that_may_be_gone() {
    let stale: Result<(), Error> = Err(Error::InvalidQueueBroker("stale".into()));
    assert_eq!(after_request(&stale), AfterRequest::AskReplacement);
    let lost: Result<(), Error> = Err(Error::Io("timeout".into()));
    assert_eq!(after_request(&lost), AfterRequest::Forget);
    let refused: Result<(), Error> = Err(Error::InvalidQueueClaim("no".into()));
    assert_eq!(after_request(&refused), AfterRequest::Done);
    assert_eq!(after_request(&Ok::<(), Error>(())), AfterRequest::Done);

    assert!(invalidate(Some(registration(1)), &registration(1)).is_none());
    assert!(invalidate(Some(registration(2)), &registration(1)).is_some());
    let chosen = choose_broker(None, Some(registration(3))).unwrap();
    assert_eq!(chosen.generation, 3);
    assert!(matches!(choose_broker(None, None), Err(Error::InvalidQueueBroker(_))));
}

#[test]
fn refusals_reach_the_client_as_they_were() {
    for error in [
        Error::InvalidWrite("w".into()),
        Error::InvalidQueueClaim("c".into()),
        Error::InvalidQueueBroker("b".into()),
    ] {
        let (status, body) = refuse(error);
        assert!(status == 400 || status == 409);
        assert!(matches!(
            refusal_error("409 Conflict", body),
            Error::InvalidWrite(_) | Error::InvalidQueueClaim(_) | Error::InvalidQueueBroker(_)
        ));
    }
    let (status, body) = refuse(Error::Corrupt("x".into()));
    assert_eq!(status, 500);
    assert_eq!(body.kind, QueueErrorKind::Internal);
    assert!(matches!(
        refusal_error("500 Internal Server Error", body),
        Error::Corrupt(m)
            if m == "queue broker returned HTTP 500 Internal Server Error: corrupt data: x"
    ));
}

#[test]
fn answers_to_another_question_are_told() {
    let text = |r: Error| match r {
        Error::Corrupt(text) => text,
        other => panic!("{other:?}"),
    };
    assert_eq!(
        text(claim_reply(QueueResponseKind::Heartbeat { lease_expires_at_ms: 7 }).unwrap_err()),
        "queue broker returned Heartbeat { lease_expires_at_ms: 7 } for claim"
    );
    let mut queue = QueueFile::empty();
    queue.enqueue("alpha", WalCursor::new(0, 1), 1).unwrap();
    let (job, _) = queue.claim("w\"1", 10, 5).unwrap().into_parts();
    let expected = format!("{job:?}");
    let response = QueueResponseKind::Claimed { job };
    assert_eq!(
        text(fail_reply(response).unwrap_err()),
        format!("queue broker returned Claimed {{ job: {expected} }} for fail")
    );
}

#[test]
fn messages_of_another_version_are_refused() {
    let operation = || QueueOperation::Claim { worker_id: "w".into(), lease_ms: 1 };
    assert!(accept_request(request_for(operation())).is_ok());
    assert!(matches!(
        accept_request(QueueRequest { version: 2, operation: operation() }),
        Err(Error::InvalidWrite(_))
    ));
    assert!(accept_response(answer_with(QueueResponseKind::Completed)).is_ok());
    assert!(matches!(
        accept_response(QueueResponse { version: 9, result: QueueResponseKind::Completed }),
        Err(Error::Corrupt(_))
    ));
    assert!(check_size(MAX_QUEUE_MESSAGE_BYTES as u64).is_ok());
    assert!(matches!(
        check_size(MAX_QUEUE_MESSAGE_BYTES as u64 + 1),
        Err(Error::Corrupt(_))
    ));
}

#[test]
fn replies_belong_to_their_requests() {
    let added = EnqueueOutcome::Added { job_id: 4 };
    assert_eq!(
        enqueue_reply(QueueResponseKind::Enqueued { outcome: added }).unwrap(),
        added
    );
    assert!(enqueue_reply(QueueResponseKind::Completed).is_err());
    assert!(claim_reply(QueueResponseKind::Claimed { job: None }).unwrap().is_none());
    assert!(claim_reply(QueueResponseKind::Failed).is_err());
    assert_eq!(
        heartbeat_reply(QueueResponseKind::Heartbeat { lease_expires_at_ms: 9 }).unwrap(),
        9
    );
    assert!(heartbeat_reply(QueueResponseKind::Failed).is_err());
    assert!(complete_reply(QueueResponseKind::Completed).is_ok());
    assert!(complete_reply(QueueResponseKind::Failed).is_err());
    assert!(fail_reply(QueueResponseKind::Failed).is_ok());
    assert!(fail_reply(QueueResponseKind::Completed).is_err());
}

#[test]
fn probes_say_how_the_broker_is() {
    assert_eq!(liveness(true).status, 200);
    assert_eq!(liveness(false).status, 500);
    let draining = BrokerHealth { ready: false, healthy: true };
    assert_eq!(unreadiness(draining).unwrap().state, "draining");
    assert!(takes_requests(draining).is_err());
    let stopped = BrokerHealth { ready: true, healthy: false };
    assert_eq!(unreadiness(stopped).unwrap().state, "broker_loop_stopped");
    assert!(takes_requests(stopped).is_err());
    let fine = BrokerHealth { ready: true, healthy: true };
    assert!(unreadiness(fine).is_none());
    assert!(takes_requests(fine).is_ok());

    let own = registration(1);
    let found = readiness(&RegistrationProbe::Found(Some(registration(1))), &own);
    assert_eq!((found.status, found.word().as_str()), (200, "ok"));
    let stale = readiness(&RegistrationProbe::Found(Some(registration(2))), &own);
    assert_eq!((stale.status, stale.state.as_str()), (503, "stale_broker"));
    assert_eq!(readiness(&RegistrationProbe::Found(None), &own).state, "stale_broker");
    assert_eq!(readiness(&RegistrationProbe::Failed, &own).state, "backend_unavailable");
    assert_eq!(readiness(&RegistrationProbe::TimedOut, &own).state, "backend_timeout");
    assert_eq!(stale.word(), "unavailable");
}
