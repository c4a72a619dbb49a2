//! Tests of the handshake codec and the session key exchange.

use mril_transfer_protocol::errors::TransferError;
use mril_transfer_protocol::shake::{complete_handshake, prepare_handshake, Handshake, Shake};
use openssl::pkey::PKey;
use openssl::rsa::Rsa;

#[test]
fn write_read_and_perform_handshake_stream() {
    let client_data = "Hello I'm the client";
    let server_data = "Hello I'm the server";

    let client_key = Rsa::generate(2048).unwrap();
    let server_key = Rsa::generate(2048).unwrap();

    let client_public_key =
        PKey::public_key_from_pem(&client_key.public_key_to_pem().unwrap()).unwrap();
    let server_public_key =
        PKey::public_key_from_pem(&server_key.public_key_to_pem().unwrap()).unwrap();

    let client_shake = Shake {
        data: String::from(client_data).as_bytes().to_vec(),
        public_key: client_public_key.public_key_to_pem().unwrap(),
    };

    let server_shake = Shake {
        data: String::from(server_data).as_bytes().to_vec(),
        public_key: server_public_key.public_key_to_pem().unwrap(),
    };

    let client_wire = client_shake.clone().to_buffer();
    let server_wire = server_shake.clone().to_buffer();

    // Data transmitted from the client.
    let (shake_from_client, _) = Shake::from_buffer(&client_wire, 0).unwrap();
    // Data transmitted from the server.
    let (shake_from_server, _) = Shake::from_buffer(&server_wire, 0).unwrap();

    let shake_from_client_data_string =
        String::from_utf8_lossy(&shake_from_client.data).to_string();
    let shake_from_server_data_string =
        String::from_utf8_lossy(&shake_from_server.data).to_string();

    let shake_from_client_public_key = shake_from_client.public_key.clone();
    let shake_from_server_public_key = shake_from_server.public_key.clone();

    let _client_session = Handshake::SHAKEN(shake_from_server, client_key);
    let _server_session = Handshake::SHAKEN(shake_from_client, server_key);

    /*
        checks whether the server and client received the
        correct message which they sent to each other.
    */
    assert_eq!(String::from(client_data), shake_from_client_data_string);
    assert_eq!(String::from(server_data), shake_from_server_data_string);

    /*
        checks whether the server and client received the correct message
        which they sent to each other, validating they are accure is important
        to ensure encryption will be perform with the correct keys.
    */
    assert_eq!(
        shake_from_client_public_key,
        client_public_key.public_key_to_pem().unwrap()
    );
    assert_eq!(
        shake_from_server_public_key,
        server_public_key.public_key_to_pem().unwrap()
    );
}

#[test]
fn prepare_and_complete_handshake() {
    let prepared_a = prepare_handshake(vec![97, 119, 97]).unwrap();
    let prepared_b = prepare_handshake(vec![1, 2, 3, 4]).unwrap();

    // Party A receives B's message, and B receives A's.
    let (session_a, used_a) = complete_handshake(prepared_a.key, &prepared_b.message, 0).unwrap();
    let (session_b, used_b) = complete_handshake(prepared_b.key, &prepared_a.message, 0).unwrap();
    assert_eq!(used_a, prepared_b.message.len());
    assert_eq!(used_b, prepared_a.message.len());

    match session_a {
        Handshake::SHAKEN(peer, _key) => {
            assert_eq!(peer.public_key, prepared_b.public_key);
            assert_eq!(peer.data, vec![1, 2, 3, 4]);
        }
        Handshake::UNSHAKEN => panic!("session must be keyed after the exchange"),
    }
    match session_b {
        Handshake::SHAKEN(peer, _key) => {
            assert_eq!(peer.public_key, prepared_a.public_key);
            assert_eq!(peer.data, vec![97, 119, 97]);
        }
        Handshake::UNSHAKEN => panic!("session must be keyed after the exchange"),
    }
}

#[test]
fn handshake_rejects_invalid_key_material() {
    // A structurally sound message whose key blob is not a public key.
    let shake = Shake {
        data: vec![1, 2, 3],
        public_key: vec![42; 64],
    };
    let wire = shake.to_buffer();
    assert_eq!(
        Shake::from_buffer(&wire, 0).unwrap_err(),
        TransferError::InvalidKeyMaterial
    );
}

#[test]
fn handshake_short_read() {
    let key = Rsa::generate(2048).unwrap();
    let pem = key.public_key_to_pem().unwrap();
    let shake = Shake {
        data: vec![9, 9],
        public_key: pem,
    };
    let wire = shake.to_buffer();
    for cut in [1usize, 4, wire.len() - 2] {
        let truncated: Vec<u8> = wire[..wire.len() - cut].to_vec();
        assert_eq!(
            Shake::from_buffer(&truncated, 0).unwrap_err(),
            TransferError::ShortRead
        );
    }
    assert_eq!(
        Shake::from_buffer(&vec![0, 0], 0).unwrap_err(),
        TransferError::ShortRead
    );
}

#[test]
fn handshake_message_layout() {
    let key = Rsa::generate(2048).unwrap();
    let pem = key.public_key_to_pem().unwrap();
    let shake = Shake {
        data: vec![7, 8, 9],
        public_key: pem.clone(),
    };
    let wire = shake.to_buffer();
    assert_eq!(wire.len(), 3 + pem.len() + 3 + 3);
    assert_eq!(
        &wire[0..3],
        &mril_transfer_protocol::utils::usize_to_u8_bytes(pem.len(), 3)[..]
    );
    assert_eq!(&wire[3..3 + pem.len()], &pem[..]);
    assert_eq!(&wire[3 + pem.len() + 3..], &[7, 8, 9]);
}
