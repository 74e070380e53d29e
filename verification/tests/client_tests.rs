use taskbroker::authentication::Authentication;
use taskbroker::binary::{get_size, get_size_array};
use taskbroker::client::{parse_uuid, Client, Request, Response};
use taskbroker::models::Priority;
use taskbroker::queue_server::QueueServer;

fn id_string(id: u128) -> String {
    uuid::Uuid::from_u128(id).hyphenated().to_string()
}

#[test]
fn parse_uuid_reads_the_canonical_form() {
    assert_eq!(
        parse_uuid("00000000-0000-0000-0000-0000000000ff"),
        Some(255)
    );
    assert_eq!(
        parse_uuid("00000000-0000-0000-0000-000000000000"),
        Some(0)
    );
    assert_eq!(
        parse_uuid("ffffffff-ffff-ffff-ffff-ffffffffffff"),
        Some(u128::MAX)
    );
    assert_eq!(
        parse_uuid("FFFFFFFF-FFFF-FFFF-FFFF-FFFFFFFFFFFF"),
        Some(u128::MAX)
    );
}

#[test]
fn parse_uuid_refuses_other_shapes() {
    assert_eq!(parse_uuid(""), None);
    assert_eq!(parse_uuid("not-a-uuid"), None);
    assert_eq!(parse_uuid("00000000-0000-0000-0000-0000000000fg"), None);
    assert_eq!(parse_uuid("000000000000-0000-0000-0000-00000000ff"), None);
    assert_eq!(parse_uuid("00000000-0000-0000-0000-0000000000ff0"), None);
}

#[test]
fn parse_uuid_round_trips_through_the_canonical_rendering() {
    let id: u128 = 0x0123_4567_89ab_cdef_0011_2233_4455_6677;
    assert_eq!(parse_uuid(id_string(id).as_str()), Some(id));
}

#[test]
fn frame_sizes_round_trip() {
    assert_eq!(get_size_array(7), vec![7, 0, 0, 0]);
    assert_eq!(get_size(&[7, 0, 0, 0]), Some(7));
    let neg = get_size_array(-2);
    assert_eq!(get_size(neg.as_slice()), Some(-2));
    assert_eq!(get_size(&[1, 2]), None);
}

#[test]
fn session_closes_without_a_handshake() {
    let mut qs = QueueServer::new().unwrap();
    let auth = Authentication::new();
    let mut client = Client::new();

    let (response, keep_open) = client.handle_request(
        &mut qs,
        &auth,
        Request::Pop {
            available_capabilities: vec![],
            wait_for_message: false,
        },
    );
    assert!(matches!(response, Response::Error { .. }));
    assert!(!keep_open);
}

#[test]
fn session_closes_on_a_failed_login() {
    let mut qs = QueueServer::new().unwrap();
    let mut auth = Authentication::with_cost(6);
    auth.add_user("guest".to_string(), "guest".to_string())
        .unwrap();
    let mut client = Client::new();

    let (response, keep_open) = client.handle_request(
        &mut qs,
        &auth,
        Request::Authenticate {
            username: "guest".to_string(),
            password: "wrong".to_string(),
        },
    );
    assert!(matches!(
        response,
        Response::Authenticate { success: false }
    ));
    assert!(!keep_open);
}

#[test]
fn session_serves_a_full_exchange() {
    let mut qs = QueueServer::new().unwrap();
    let mut auth = Authentication::with_cost(6);
    auth.add_default_user("guest".to_string(), "guest".to_string())
        .unwrap();
    let mut client = Client::new();

    let (response, keep_open) = client.handle_request(
        &mut qs,
        &auth,
        Request::Authenticate {
            username: "guest".to_string(),
            password: "guest".to_string(),
        },
    );
    assert!(matches!(response, Response::Authenticate { success: true }));
    assert!(keep_open);

    let (response, _) = client.handle_request(
        &mut qs,
        &auth,
        Request::Enqueue {
            message: b"job".to_vec(),
            priority: Priority::High,
            required_capabilities: vec![],
        },
    );
    let created = match response {
        Response::Enqueue { id } => id,
        _ => panic!("expected an enqueue response"),
    };

    let (response, _) = client.handle_request(
        &mut qs,
        &auth,
        Request::Pop {
            available_capabilities: vec![],
            wait_for_message: false,
        },
    );
    match response {
        Response::Pop {
            had_result,
            id,
            message,
        } => {
            assert!(had_result);
            assert_eq!(id, created);
            assert_eq!(message, b"job".to_vec());
        }
        _ => panic!("expected a pop response"),
    }

    let (response, _) = client.handle_request(
        &mut qs,
        &auth,
        Request::Acknowledge {
            id: id_string(created),
        },
    );
    assert!(matches!(response, Response::Acknowledge));

    let (response, _) = client.handle_request(
        &mut qs,
        &auth,
        Request::Pop {
            available_capabilities: vec![],
            wait_for_message: false,
        },
    );
    assert!(matches!(
        response,
        Response::Pop {
            had_result: false,
            ..
        }
    ));
}

#[test]
fn malformed_acknowledge_id_is_an_error_and_keeps_the_session() {
    let mut qs = QueueServer::new().unwrap();
    let mut auth = Authentication::with_cost(6);
    auth.add_default_user("guest".to_string(), "guest".to_string())
        .unwrap();
    let mut client = Client::new();

    client.handle_request(
        &mut qs,
        &auth,
        Request::Authenticate {
            username: "guest".to_string(),
            password: "guest".to_string(),
        },
    );

    let (response, keep_open) = client.handle_request(
        &mut qs,
        &auth,
        Request::Acknowledge {
            id: "garbage".to_string(),
        },
    );
    assert!(matches!(response, Response::Error { .. }));
    assert!(keep_open);
}

#[test]
fn dropped_connection_requeues_its_messages() {
    let mut qs = QueueServer::new().unwrap();
    let mut auth = Authentication::with_cost(6);
    auth.add_default_user("guest".to_string(), "guest".to_string())
        .unwrap();
    let mut client = Client::new();

    client.handle_request(
        &mut qs,
        &auth,
        Request::Authenticate {
            username: "guest".to_string(),
            password: "guest".to_string(),
        },
    );

    let created = qs.enqueue(b"job".to_vec(), Priority::High, vec![]).unwrap();
    let (response, _) = client.handle_request(
        &mut qs,
        &auth,
        Request::Pop {
            available_capabilities: vec![],
            wait_for_message: false,
        },
    );
    assert!(matches!(response, Response::Pop { had_result: true, .. }));

    client.drop_connection(&mut qs);

    // The message is back in circulation.
    assert_eq!(qs.pop(vec![], false).unwrap().unwrap().id, created.id);
}
