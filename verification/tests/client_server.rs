use merklefile::client::{
    compute_merkle_root_hash, download_outcome, proof_outcome, upload_outcome,
    verify_merkle_proof, ClientError, ClientMessage, ServerMessage,
};
use merklefile::file_map::FileMap;
use merklefile::merkle_tree::MerkleTree;
use merklefile::server::{handle_request, Session, SessionAction, SessionEvent, SessionState, Store};
use merklefile::wire::{frame_request, payload_length};

fn hex(text: &str) -> Vec<u8> {
    let digits: Vec<u8> = text
        .bytes()
        .map(|c| match c {
            b'0'..=b'9' => c - b'0',
            b'a'..=b'f' => c - b'a' + 10,
            _ => panic!("not a hex digit"),
        })
        .collect();
    digits.chunks(2).map(|pair| pair[0] * 16 + pair[1]).collect()
}

fn files_of(pairs: &[(&str, &[u8])]) -> FileMap {
    let mut files = FileMap::new();
    for (name, content) in pairs {
        files.insert(name.to_string(), content.to_vec());
    }
    files
}

fn upload(store: &mut Store, pairs: &[(&str, &[u8])]) -> Vec<u8> {
    let request = ServerMessage::Upload { client_files: files_of(pairs) };
    match handle_request(store, request) {
        ClientMessage::Success { data } => data,
        other => panic!("upload answered with {:?}", other),
    }
}

#[test]
fn test_client_server_interaction() {
    // Set up the server's store; each request below is one connection.
    let mut store = Store::new();

    // Simulate client actions
    let mut files = FileMap::new();
    files.insert("test_file_1.txt".to_string(), b"Hello World".to_vec());
    files.insert(
        "test_file_2.txt".to_string(),
        b"This is file 2 contents".to_vec(),
    );
    files.insert("test_file_3.txt".to_string(), b"See you again".to_vec());

    let client_root_hash = compute_merkle_root_hash(files.values());
    println!("Client root hash: {:?}", client_root_hash);

    // Upload files
    let response = handle_request(&mut store, ServerMessage::Upload { client_files: files });
    let upload_result = upload_outcome(response);
    assert!(upload_result.is_ok(), "Files upload failed");

    // Download file and request Merkle proof
    let response = handle_request(
        &mut store,
        ServerMessage::Download { filename: "test_file_2.txt".to_string() },
    );
    let download_result = download_outcome(response);
    assert!(download_result.is_ok(), "File 2 download failed");

    let response = handle_request(
        &mut store,
        ServerMessage::GetMerkleProof { filename: "test_file_2.txt".to_string() },
    );
    let proof_result = proof_outcome(response);
    assert!(proof_result.is_ok(), "Merkle proof request failed");
    let server_proof = proof_result.unwrap();

    // Verify Merkle proof
    let downloaded_data = download_result.unwrap();
    let is_valid_proof = verify_merkle_proof(&server_proof, &client_root_hash, &downloaded_data);
    assert!(is_valid_proof, "Merkle proof verification failed");

    // Check if file contents are actually similar
    assert_eq!(
        downloaded_data,
        b"This is file 2 contents".to_vec(),
        "Downloaded data does not match what was uploaded"
    );
}

#[test]
fn end_to_end_with_short_names() {
    let mut store = Store::new();
    let pairs: [(&str, &[u8]); 3] = [
        ("f1", b"Hello World"),
        ("f2", b"This is file 2 contents"),
        ("f3", b"See you again"),
    ];
    let local_root = compute_merkle_root_hash(vec![
        b"Hello World".to_vec(),
        b"This is file 2 contents".to_vec(),
        b"See you again".to_vec(),
    ]);
    let server_root = upload(&mut store, &pairs);
    assert_eq!(server_root, local_root);

    let content = store.download("f2").unwrap();
    assert_eq!(content, b"This is file 2 contents".to_vec());
    let proof = store.proof_for_file("f2").unwrap();
    assert_eq!(proof.len(), 2);
    assert!(verify_merkle_proof(&proof, &local_root, &content));
    assert!(!verify_merkle_proof(&proof, &local_root, &b"Hello World".to_vec()));
}

#[test]
fn a_new_store_publishes_the_digest_of_the_empty_blob() {
    let store = Store::new();
    assert_eq!(
        store.root_hash(),
        hex("e3b0c44298fc1c149afbf4c8996fb92427ae41e4649b934ca495991b7852b855")
    );
    assert_eq!(store.download("anything"), None);
    assert_eq!(store.proof_for_file("anything"), None);
}

#[test]
fn uploading_nothing_keeps_the_empty_root() {
    let mut store = Store::new();
    let root = upload(&mut store, &[]);
    assert_eq!(root, MerkleTree::new(vec![vec![]]).get_root_hash());
}

#[test]
fn second_upload_publishes_the_root_over_both_files() {
    let mut store = Store::new();
    let first = upload(&mut store, &[("a.txt", b"A")]);
    assert_eq!(first, compute_merkle_root_hash(vec![b"A".to_vec()]));
    let second = upload(&mut store, &[("b.txt", b"B")]);
    assert_eq!(
        second,
        MerkleTree::new(vec![b"A".to_vec(), b"B".to_vec()]).get_root_hash()
    );
    assert_eq!(store.root_hash(), second);
}

#[test]
fn the_tree_follows_the_names_not_the_order_of_arrival() {
    let mut store = Store::new();
    upload(&mut store, &[("b.txt", b"B")]);
    let root = upload(&mut store, &[("a.txt", b"A")]);
    assert_eq!(
        root,
        compute_merkle_root_hash(vec![b"A".to_vec(), b"B".to_vec()])
    );
    let proof = store.proof_for_file("b.txt").unwrap();
    assert!(verify_merkle_proof(&proof, &root, &b"B".to_vec()));
    assert_eq!(proof, MerkleTree::new(vec![b"A".to_vec(), b"B".to_vec()]).get_proof_for(1));
}

#[test]
fn overwriting_alone_leaves_the_root_as_it_was() {
    let mut store = Store::new();
    let before = upload(&mut store, &[("a", b"one"), ("b", b"two")]);
    let after = upload(&mut store, &[("a", b"changed")]);
    assert_eq!(after, before);
    // The new content is served, but the published tree still speaks of the old one.
    assert_eq!(store.download("a"), Some(b"changed".to_vec()));
    let proof = store.proof_for_file("a").unwrap();
    assert!(verify_merkle_proof(&proof, &after, &b"one".to_vec()));
    assert!(!verify_merkle_proof(&proof, &after, &b"changed".to_vec()));
}

#[test]
fn overwriting_together_with_a_new_name_rebuilds_the_tree() {
    let mut store = Store::new();
    upload(&mut store, &[("a", b"one"), ("b", b"two")]);
    upload(&mut store, &[("a", b"changed")]);
    let root = upload(&mut store, &[("b", b"second"), ("c", b"three")]);
    assert_eq!(
        root,
        compute_merkle_root_hash(vec![
            b"changed".to_vec(),
            b"second".to_vec(),
            b"three".to_vec()
        ])
    );
    for (name, content) in [("a", "changed"), ("b", "second"), ("c", "three")] {
        let proof = store.proof_for_file(name).unwrap();
        assert!(verify_merkle_proof(&proof, &root, &content.as_bytes().to_vec()));
    }
}

#[test]
fn unknown_names_are_answered_with_an_error() {
    let mut store = Store::new();
    upload(&mut store, &[("known", b"x")]);
    let root = store.root_hash();

    let response = handle_request(
        &mut store,
        ServerMessage::Download { filename: "unknown".to_string() },
    );
    match &response {
        ClientMessage::Error { message } => assert_eq!(message, "File not found"),
        other => panic!("download answered with {:?}", other),
    }
    match download_outcome(response) {
        Err(ClientError::Server { message }) => assert_eq!(message, "File not found"),
        other => panic!("unexpected outcome {:?}", other),
    }

    let response = handle_request(
        &mut store,
        ServerMessage::GetMerkleProof { filename: "unknown".to_string() },
    );
    match &response {
        ClientMessage::Error { message } => assert_eq!(message, "File not found"),
        other => panic!("proof request answered with {:?}", other),
    }
    match proof_outcome(response) {
        Err(ClientError::Server { message }) => assert_eq!(message, "File not found"),
        other => panic!("unexpected outcome {:?}", other),
    }
    assert_eq!(store.root_hash(), root);
    assert_eq!(store.download("known"), Some(b"x".to_vec()));
}

#[test]
fn download_answers_with_the_content() {
    let mut store = Store::new();
    upload(&mut store, &[("k", &[0u8, 255, 10, 13, 0])]);
    let response = handle_request(&mut store, ServerMessage::Download { filename: "k".to_string() });
    match response {
        ClientMessage::Success { data } => assert_eq!(data, vec![0u8, 255, 10, 13, 0]),
        other => panic!("download answered with {:?}", other),
    }
}

#[test]
fn outcomes_tell_the_kinds_of_response_apart() {
    let proof = vec![(vec![1u8, 2], true)];

    assert_eq!(upload_outcome(ClientMessage::Success { data: vec![1, 2] }).unwrap(), vec![1, 2]);
    assert!(matches!(
        upload_outcome(ClientMessage::MerkleProof { proof: proof.clone() }),
        Err(ClientError::UnexpectedResponse)
    ));
    match upload_outcome(ClientMessage::Error { message: "no".to_string() }) {
        Err(ClientError::Server { message }) => assert_eq!(message, "no"),
        other => panic!("unexpected outcome {:?}", other),
    }

    assert_eq!(download_outcome(ClientMessage::Success { data: vec![3] }).unwrap(), vec![3]);
    assert!(matches!(
        download_outcome(ClientMessage::MerkleProof { proof: proof.clone() }),
        Err(ClientError::UnexpectedResponse)
    ));

    assert_eq!(
        proof_outcome(ClientMessage::MerkleProof { proof: proof.clone() }).unwrap(),
        proof
    );
    assert!(matches!(
        proof_outcome(ClientMessage::Success { data: vec![] }),
        Err(ClientError::UnexpectedResponse)
    ));
}

#[test]
fn errors_have_their_words() {
    assert_eq!(ClientError::UnexpectedResponse.message(), "Unexpected response");
    assert_eq!(
        ClientError::Server { message: "File not found".to_string() }.message(),
        "File not found"
    );
}

#[test]
fn local_root_is_the_tree_root() {
    let data = vec![vec![1u8, 2], vec![3u8], vec![]];
    assert_eq!(
        compute_merkle_root_hash(data.clone()),
        MerkleTree::new(data).get_root_hash()
    );
    assert_eq!(
        compute_merkle_root_hash(vec![b"abc".to_vec()]),
        hex("ba7816bf8f01cfea414140de5dae2223b00361a396177a9cb410ff61f20015ad")
    );
}

#[test]
fn local_verification_agrees_with_the_tree() {
    let data = vec![vec![1u8], vec![2u8], vec![3u8]];
    let tree = MerkleTree::new(data.clone());
    let root = tree.get_root_hash();
    let proof = tree.get_proof_for(2);
    assert!(verify_merkle_proof(&proof, &root, &data[2]));
    assert!(!verify_merkle_proof(&proof, &root, &data[0]));
}

#[test]
fn a_session_runs_from_prefix_to_close() {
    let mut store = Store::new();
    let mut session = Session::new();
    assert_eq!(session.state(), SessionState::AwaitingLength);

    let payload = vec![0u8; 77];
    let frame = frame_request(&payload);
    let mut prefix = [0u8; 8];
    prefix.copy_from_slice(&frame[..8]);
    assert_eq!(payload_length(&prefix), 77);

    match session.step(SessionEvent::LengthRead { prefix }, &mut store) {
        SessionAction::ReadPayload { length } => assert_eq!(length, 77),
        other => panic!("unexpected action {:?}", other),
    }
    assert_eq!(session.state(), SessionState::AwaitingPayload { length: 77 });

    let request = ServerMessage::Upload { client_files: files_of(&[("a", b"A")]) };
    match session.step(SessionEvent::RequestRead { request }, &mut store) {
        SessionAction::Respond { response: ClientMessage::Success { data } } => {
            assert_eq!(data, compute_merkle_root_hash(vec![b"A".to_vec()]));
        }
        other => panic!("unexpected action {:?}", other),
    }
    assert_eq!(session.state(), SessionState::Dispatched);

    assert!(matches!(
        session.step(SessionEvent::ResponseWritten, &mut store),
        SessionAction::Close
    ));
    assert_eq!(session.state(), SessionState::ResponseSent);

    assert!(matches!(
        session.step(SessionEvent::ResponseWritten, &mut store),
        SessionAction::Close
    ));
    assert_eq!(session.state(), SessionState::Closed);
    assert_eq!(store.download("a"), Some(b"A".to_vec()));
}

#[test]
fn a_failure_closes_the_session_without_a_response() {
    let mut store = Store::new();
    let root = store.root_hash();

    let mut session = Session::new();
    assert!(matches!(session.step(SessionEvent::Failed, &mut store), SessionAction::Close));
    assert_eq!(session.state(), SessionState::Closed);

    let mut session = Session::new();
    session.step(SessionEvent::LengthRead { prefix: [0, 0, 0, 0, 0, 0, 0, 5] }, &mut store);
    assert!(matches!(session.step(SessionEvent::Failed, &mut store), SessionAction::Close));
    assert_eq!(session.state(), SessionState::Closed);

    assert_eq!(store.root_hash(), root);
}

#[test]
fn a_write_failure_keeps_what_the_upload_stored() {
    let mut store = Store::new();
    let mut session = Session::new();
    session.step(SessionEvent::LengthRead { prefix: [0, 0, 0, 0, 0, 0, 0, 1] }, &mut store);
    let request = ServerMessage::Upload { client_files: files_of(&[("a", b"A")]) };
    session.step(SessionEvent::RequestRead { request }, &mut store);
    assert!(matches!(session.step(SessionEvent::Failed, &mut store), SessionAction::Close));
    assert_eq!(session.state(), SessionState::Closed);
    assert_eq!(store.download("a"), Some(b"A".to_vec()));
    assert_eq!(store.root_hash(), compute_merkle_root_hash(vec![b"A".to_vec()]));
}

#[test]
fn a_request_out_of_turn_closes_the_session_and_is_not_served() {
    let mut store = Store::new();
    let root = store.root_hash();

    let mut session = Session::new();
    let request = ServerMessage::Upload { client_files: files_of(&[("a", b"A")]) };
    assert!(matches!(
        session.step(SessionEvent::RequestRead { request }, &mut store),
        SessionAction::Close
    ));
    assert_eq!(session.state(), SessionState::Closed);
    assert_eq!(store.root_hash(), root);
    assert_eq!(store.download("a"), None);

    // A closed session stays closed.
    let request = ServerMessage::Download { filename: "a".to_string() };
    assert!(matches!(
        session.step(SessionEvent::RequestRead { request }, &mut store),
        SessionAction::Close
    ));
    assert!(matches!(
        session.step(SessionEvent::LengthRead { prefix: [0; 8] }, &mut store),
        SessionAction::Close
    ));
    assert_eq!(session.state(), SessionState::Closed);
}
