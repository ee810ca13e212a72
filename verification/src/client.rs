//! The messages of the protocol, and what a client does without the
//! network: compute a root, check a proof, and read the server's answer to
//! each kind of request.

use crate::file_map::FileMap;
use crate::merkle_tree::{blobs_view, merkle_root, proof_verifies, proof_view, MerkleTree};
use vstd::prelude::*;

verus! {

/// A request, sent by a client to the server.
#[derive(Debug)]
pub enum ServerMessage {
    /// Store these files, replacing the content of those already there.
    Upload { client_files: FileMap },
    /// Send back the content of the named file.
    Download { filename: String },
    /// Send back the inclusion proof of the named file.
    GetMerkleProof { filename: String },
}

/// A response, sent by the server to a client.
#[derive(Debug)]
pub enum ClientMessage {
    /// For an upload, the root after it; for a download, the file's content.
    Success { data: Vec<u8> },
    /// The inclusion proof that was asked for.
    MerkleProof { proof: Vec<(Vec<u8>, bool)> },
    /// The request could not be served.
    Error { message: String },
}

impl ServerMessage {
    /// The files of an upload are in order.
    pub open spec fn wf(&self) -> bool {
        self matches ServerMessage::Upload { client_files } ==> client_files.wf()
    }
}

/// Why a request came to nothing on the client's side.
#[derive(Debug)]
pub enum ClientError {
    /// The server answered with an error.
    Server { message: String },
    /// The server answered with a response of a kind that does not fit the
    /// request.
    UnexpectedResponse,
}

impl ClientError {
    /// The error in words: the server's own message, or that the response
    /// was unexpected.
    pub fn message(&self) -> (text: String)
        ensures
            self matches ClientError::Server { message } ==> text@ == message@,
            self is UnexpectedResponse ==> text@ == "Unexpected response"@,
    {
        match self {
            ClientError::Server { message } => message.clone(),
            ClientError::UnexpectedResponse => "Unexpected response".to_owned(),
        }
    }
}

/// The root of the tree over `data`.
pub fn compute_merkle_root_hash(data: Vec<Vec<u8>>) -> (root: Vec<u8>)
    requires
        data.len() >= 1,
    ensures
        root@ == merkle_root(blobs_view(data@)),
{
    let merkle_tree = MerkleTree::new(data);
    merkle_tree.get_root_hash()
}

/// Whether `proof` leads from the blob `leaf` to `root`.
pub fn verify_merkle_proof(proof: &[(Vec<u8>, bool)], root: &Vec<u8>, leaf: &Vec<u8>) -> (valid:
    bool)
    ensures
        valid == proof_verifies(proof_view(proof@), root@, leaf@),
{
    MerkleTree::verify_proof(proof, root, leaf)
}

/// Reads the answer to an upload: the root that the server reports.
pub fn upload_outcome(response: ClientMessage) -> (outcome: Result<Vec<u8>, ClientError>)
    ensures
        match response {
            ClientMessage::Success { data } => outcome == Ok::<Vec<u8>, ClientError>(data),
            ClientMessage::Error { message } => outcome == Err::<Vec<u8>, ClientError>(
                ClientError::Server { message },
            ),
            ClientMessage::MerkleProof { .. } => outcome == Err::<Vec<u8>, ClientError>(
                ClientError::UnexpectedResponse,
            ),
        },
{
    match response {
        ClientMessage::Success { data } => Ok(data),
        ClientMessage::Error { message } => Err(ClientError::Server { message }),
        ClientMessage::MerkleProof { .. } => Err(ClientError::UnexpectedResponse),
    }
}

/// Reads the answer to a download: the content of the file.
pub fn download_outcome(response: ClientMessage) -> (outcome: Result<Vec<u8>, ClientError>)
    ensures
        match response {
            ClientMessage::Success { data } => outcome == Ok::<Vec<u8>, ClientError>(data),
            ClientMessage::Error { message } => outcome == Err::<Vec<u8>, ClientError>(
                ClientError::Server { message },
            ),
            ClientMessage::MerkleProof { .. } => outcome == Err::<Vec<u8>, ClientError>(
                ClientError::UnexpectedResponse,
            ),
        },
{
    match response {
        ClientMessage::Success { data } => Ok(data),
        ClientMessage::Error { message } => Err(ClientError::Server { message }),
        ClientMessage::MerkleProof { .. } => Err(ClientError::UnexpectedResponse),
    }
}

/// Reads the answer to a request for a proof: the proof.
pub fn proof_outcome(response: ClientMessage) -> (outcome: Result<
    Vec<(Vec<u8>, bool)>,
    ClientError,
>)
    ensures
        match response {
            ClientMessage::MerkleProof { proof } => outcome == Ok::<
                Vec<(Vec<u8>, bool)>,
                ClientError,
            >(proof),
            ClientMessage::Error { message } => outcome == Err::<
                Vec<(Vec<u8>, bool)>,
                ClientError,
            >(ClientError::Server { message }),
            ClientMessage::Success { .. } => outcome == Err::<Vec<(Vec<u8>, bool)>, ClientError>(
                ClientError::UnexpectedResponse,
            ),
        },
{
    match response {
        ClientMessage::MerkleProof { proof } => Ok(proof),
        ClientMessage::Error { message } => Err(ClientError::Server { message }),
        ClientMessage::Success { .. } => Err(ClientError::UnexpectedResponse),
    }
}

} // verus!
