//! The store that a server keeps, and what it does with one request.
//!
//! The store holds the files and the tree that is published over them. An
//! upload that brings a new name rebuilds the tree over the contents of all
//! files, in ascending order of their names. An upload that only replaces
//! contents leaves the tree as it is, so the published root then still
//! speaks of the contents that were replaced.

use crate::client::{ClientMessage, ServerMessage};
use crate::file_map::{
    ascending, contents_of, entries_map, index_of, lemma_entry_in_map, lemma_insert_entry,
    name_before, FileMap,
};
use crate::merkle_tree::{blobs_view, proof_path, proof_view, MerkleTree, MerkleTreeView};
use crate::wire::{be_value, payload_length};
use vstd::prelude::*;

verus! {

/// What a store holds: its files, one `(name, content)` pair each, in
/// ascending order of the names, and the published tree.
pub struct StoreView {
    pub files: Seq<(Seq<char>, Seq<u8>)>,
    pub tree: MerkleTreeView,
}

impl StoreView {
    /// The tree over a single empty blob, which an empty store publishes.
    pub open spec fn empty_tree() -> MerkleTreeView {
        MerkleTreeView::of(seq![Seq::<u8>::empty()])
    }

    /// The files as a map from name to content.
    pub open spec fn file_map(self) -> Map<Seq<char>, Seq<u8>> {
        entries_map(self.files)
    }

    /// The files are in order, the tree is sound, and it has one leaf for
    /// each file, or is the empty store's tree while there is no file.
    pub open spec fn wf(self) -> bool {
        &&& ascending(self.files)
        &&& self.tree.wf()
        &&& self.files.len() == 0 ==> self.tree == Self::empty_tree()
        &&& self.files.len() > 0 ==> self.tree.leaf_hashes.len() == self.files.len()
    }

    /// Whether `incoming` holds a name that the store does not have.
    pub open spec fn lacks_some(self, incoming: Map<Seq<char>, Seq<u8>>) -> bool {
        exists|name: Seq<char>|
            incoming.contains_key(name) && !(#[trigger] self.file_map().contains_key(name))
    }

    /// Whether `after` is this store once `incoming` has been uploaded:
    /// every incoming file is stored under its name, the other files are
    /// kept, and the tree is rebuilt over all contents if a name is new,
    /// and untouched if none is.
    pub open spec fn uploaded(self, incoming: Map<Seq<char>, Seq<u8>>, after: StoreView) -> bool {
        &&& ascending(after.files)
        &&& after.file_map() == self.file_map().union_prefer_right(incoming)
        &&& self.lacks_some(incoming) ==> after.tree == MerkleTreeView::of(
            contents_of(after.files),
        )
        &&& !self.lacks_some(incoming) ==> after.tree == self.tree && after.files.len()
            == self.files.len()
    }
}

/// The files of a server and the tree published over them.
#[derive(Debug)]
pub struct Store {
    files: FileMap,
    tree: MerkleTree,
}

impl View for Store {
    type V = StoreView;

    closed spec fn view(&self) -> StoreView {
        StoreView { files: self.files.entries(), tree: self.tree@ }
    }
}

impl Store {
    /// The store of a server that has just started: no file, and the tree
    /// over a single empty blob.
    pub fn new() -> (store: Self)
        ensures
            store@.wf(),
            store@.files.len() == 0,
            store@.tree == StoreView::empty_tree(),
    {
        let mut leaves: Vec<Vec<u8>> = Vec::new();
        leaves.push(Vec::new());
        assert(blobs_view(leaves@) =~= seq![Seq::<u8>::empty()]);
        Store { files: FileMap::new(), tree: MerkleTree::new(leaves) }
    }

    /// Stores `client_files`, each under its name, and returns the root that
    /// is published afterwards.
    pub fn upload(&mut self, client_files: &FileMap) -> (root: Vec<u8>)
        requires
            old(self)@.wf(),
            client_files.wf(),
        ensures
            final(self)@.wf(),
            old(self)@.uploaded(client_files@, final(self)@),
            root@ == final(self)@.tree.root,
    {
        let ghost before = self@;
        let ghost incoming = client_files.entries();
        let mut new_data = false;
        let mut i: usize = 0;
        while i < client_files.len()
            invariant
                i <= incoming.len(),
                incoming == client_files.entries(),
                ascending(incoming),
                self.files.wf(),
                self.tree@ == before.tree,
                self.files@ == before.file_map().union_prefer_right(
                    entries_map(incoming.take(i as int)),
                ),
                new_data == exists|j: int|
                    0 <= j < i && !before.file_map().contains_key((#[trigger] incoming[j]).0),
                new_data ==> self.files.entries().len() >= 1,
                !new_data ==> self.files.entries().len() == before.files.len(),
            decreases incoming.len() - i,
        {
            let (name, content) = client_files.entry(i);
            let ghost taken = incoming.take(i as int);
            proof {
                assert(ascending(taken));
                assert forall|j: int| 0 <= j < i implies name_before(
                    (#[trigger] taken[j]).0,
                    name@,
                ) by {
                    assert(taken[j] == incoming[j]);
                }
                lemma_insert_entry(taken, i as int, name@, content@);
                assert(taken.insert(i as int, (name@, content@)) =~= incoming.take(i + 1));
                assert(before.file_map().union_prefer_right(entries_map(taken)).insert(
                    name@,
                    content@,
                ) =~= before.file_map().union_prefer_right(
                    entries_map(taken).insert(name@, content@),
                ));
                assert(!entries_map(taken).contains_key(name@));
            }
            if self.files.insert(name.clone(), content.clone()).is_none() {
                new_data = true;
            }
            i += 1;
        }
        proof {
            assert(incoming.take(i as int) =~= incoming);
            if before.lacks_some(client_files@) {
                let name = choose|name: Seq<char>|
                    client_files@.contains_key(name) && !(
                    #[trigger] before.file_map().contains_key(name));
                let j = index_of(incoming, name);
                assert(!before.file_map().contains_key(incoming[j].0));
            }
            if new_data {
                let j = choose|j: int|
                    0 <= j < i && !before.file_map().contains_key((#[trigger] incoming[j]).0);
                lemma_entry_in_map(incoming, j);
            }
            assert(new_data == before.lacks_some(client_files@));
        }
        if new_data {
            let all_data = self.files.values();
            self.tree = MerkleTree::new(all_data);
        }
        self.tree.get_root_hash()
    }

    /// The content of the file `filename`, or `None` if the store has no
    /// file of that name.
    pub fn download(&self, filename: &str) -> (content: Option<Vec<u8>>)
        requires
            self@.wf(),
        ensures
            match content {
                Some(data) => self@.file_map().contains_key(filename@) && data@
                    == self@.file_map()[filename@],
                None => !self@.file_map().contains_key(filename@),
            },
    {
        match self.files.get(filename) {
            Some(data) => Some(data.clone()),
            None => None,
        }
    }

    /// The inclusion proof of the file `filename` in the published tree, or
    /// `None` if the store has no file of that name. The leaf is found by
    /// the file's place among all files in ascending order of their names.
    pub fn proof_for_file(&self, filename: &str) -> (found: Option<Vec<(Vec<u8>, bool)>>)
        requires
            self@.wf(),
        ensures
            match found {
                Some(proof) => self@.file_map().contains_key(filename@) && proof_view(proof@)
                    == proof_path(self@.tree.leaf_hashes, index_of(self@.files, filename@)),
                None => !self@.file_map().contains_key(filename@),
            },
    {
        match self.files.position(filename) {
            Some(index) => Some(self.tree.get_proof_for(index)),
            None => None,
        }
    }

    /// The published root.
    pub fn root_hash(&self) -> (root: Vec<u8>)
        ensures
            root@ == self@.tree.root,
    {
        self.tree.get_root_hash()
    }
}

/// Whether `response` is the answer that `request` is owed by a store that
/// was `before` and is `after`.
pub open spec fn answers(
    before: StoreView,
    request: ServerMessage,
    after: StoreView,
    response: ClientMessage,
) -> bool {
    match request {
        ServerMessage::Upload { client_files } => {
            &&& before.uploaded(client_files@, after)
            &&& response matches ClientMessage::Success { data }
            &&& data@ == after.tree.root
        },
        ServerMessage::Download { filename } => {
            &&& after == before
            &&& if before.file_map().contains_key(filename@) {
                &&& response matches ClientMessage::Success { data }
                &&& data@ == before.file_map()[filename@]
            } else {
                not_found(response)
            }
        },
        ServerMessage::GetMerkleProof { filename } => {
            &&& after == before
            &&& if before.file_map().contains_key(filename@) {
                &&& response matches ClientMessage::MerkleProof { proof }
                &&& proof_view(proof@) == proof_path(
                    before.tree.leaf_hashes,
                    index_of(before.files, filename@),
                )
            } else {
                not_found(response)
            }
        },
    }
}

/// Whether `response` is the error that says that no file has the name
/// asked for.
pub open spec fn not_found(response: ClientMessage) -> bool {
    response matches ClientMessage::Error { message } && message@ == "File not found"@
}

/// Serves one request against `store` and returns the response to send.
pub fn handle_request(store: &mut Store, request: ServerMessage) -> (response: ClientMessage)
    requires
        old(store)@.wf(),
        request.wf(),
    ensures
        final(store)@.wf(),
        answers(old(store)@, request, final(store)@, response),
{
    match request {
        ServerMessage::Upload { client_files } => {
            let root_hash = store.upload(&client_files);
            ClientMessage::Success { data: root_hash }
        },
        ServerMessage::Download { filename } => {
            match store.download(filename.as_str()) {
                Some(data) => ClientMessage::Success { data },
                None => ClientMessage::Error { message: "File not found".to_owned() },
            }
        },
        ServerMessage::GetMerkleProof { filename } => {
            match store.proof_for_file(filename.as_str()) {
                Some(proof) => ClientMessage::MerkleProof { proof },
                None => ClientMessage::Error { message: "File not found".to_owned() },
            }
        },
    }
}

/// Where the handling of one connection stands. A connection carries one
/// request and one response.
#[derive(Debug, Clone, Copy, PartialEq, Eq, Structural)]
pub enum SessionState {
    /// Nothing has been read yet; the length prefix is due.
    AwaitingLength,
    /// The prefix has been read; a payload of `length` bytes is due.
    AwaitingPayload { length: u64 },
    /// The request has been served; its response is being written.
    Dispatched,
    /// The response has been written; the connection is to be ended.
    ResponseSent,
    /// The connection is over.
    Closed,
}

/// What happened on the connection.
#[derive(Debug)]
pub enum SessionEvent {
    /// The bytes of the length prefix were read.
    LengthRead { prefix: [u8; 8] },
    /// The payload was read in full and held this request.
    RequestRead { request: ServerMessage },
    /// The response was written in full.
    ResponseWritten,
    /// Reading, decoding or writing failed, or the stream ended early.
    Failed,
}

/// What to do next on the connection.
#[derive(Debug)]
pub enum SessionAction {
    /// Read `length` bytes of payload and decode them.
    ReadPayload { length: u64 },
    /// Encode `response` and write it.
    Respond { response: ClientMessage },
    /// End the connection.
    Close,
}

/// The state that follows `state` on `event`: from the prefix to the
/// payload, to the response, to its end; anything else closes the session at
/// once.
pub open spec fn next_state(state: SessionState, event: SessionEvent) -> SessionState {
    match (state, event) {
        (SessionState::AwaitingLength, SessionEvent::LengthRead { prefix }) => {
            SessionState::AwaitingPayload { length: be_value(prefix@) as u64 }
        },
        (SessionState::AwaitingPayload { .. }, SessionEvent::RequestRead { .. }) => {
            SessionState::Dispatched
        },
        (SessionState::Dispatched, SessionEvent::ResponseWritten) => SessionState::ResponseSent,
        _ => SessionState::Closed,
    }
}

/// The handling of one connection.
#[derive(Debug)]
pub struct Session {
    state: SessionState,
}

impl View for Session {
    type V = SessionState;

    closed spec fn view(&self) -> SessionState {
        self.state
    }
}

impl Session {
    /// The session of a connection that has just been accepted.
    pub fn new() -> (session: Self)
        ensures
            session@ == SessionState::AwaitingLength,
    {
        Session { state: SessionState::AwaitingLength }
    }

    /// Where the session stands.
    pub fn state(&self) -> (state: SessionState)
        ensures
            state == self@,
    {
        self.state
    }

    /// Takes in `event` and says what to do next. The store is touched only
    /// when a request arrives while its payload is awaited: the request is
    /// then served, and its response handed out to be written. The session
    /// asks for the connection to be ended once the response is written, and
    /// whenever it closes.
    pub fn step(&mut self, event: SessionEvent, store: &mut Store) -> (action: SessionAction)
        requires
            old(store)@.wf(),
            event matches SessionEvent::RequestRead { request } ==> request.wf(),
        ensures
            final(store)@.wf(),
            final(self)@ == next_state(old(self)@, event),
            match final(self)@ {
                SessionState::AwaitingPayload { length } => {
                    &&& action == SessionAction::ReadPayload { length }
                    &&& final(store)@ == old(store)@
                },
                SessionState::Dispatched => {
                    &&& event matches SessionEvent::RequestRead { request }
                    &&& action matches SessionAction::Respond { response }
                    &&& answers(old(store)@, request, final(store)@, response)
                },
                _ => {
                    &&& action is Close
                    &&& final(store)@ == old(store)@
                },
            },
    {
        match (self.state, event) {
            (SessionState::AwaitingLength, SessionEvent::LengthRead { prefix }) => {
                let length = payload_length(&prefix);
                self.state = SessionState::AwaitingPayload { length };
                SessionAction::ReadPayload { length }
            },
            (SessionState::AwaitingPayload { .. }, SessionEvent::RequestRead { request }) => {
                let response = handle_request(store, request);
                self.state = SessionState::Dispatched;
                SessionAction::Respond { response }
            },
            (SessionState::Dispatched, SessionEvent::ResponseWritten) => {
                self.state = SessionState::ResponseSent;
                SessionAction::Close
            },
            _ => {
                self.state = SessionState::Closed;
                SessionAction::Close
            },
        }
    }
}

} // verus!
