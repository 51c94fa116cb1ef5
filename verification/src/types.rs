//! Application-layer schemas carried over the overlay, and the command
//! and event vocabulary shared with the controller.

use vstd::prelude::*;
use crossbeam_channel::Sender;
use crate::packet::Packet;

verus! {

/// A request to a web-style content server.
#[derive(Debug)]
pub enum WebRequest {
    ServerTypeQuery,
    TextFilesListQuery,
    FileQuery { file_id: String },
    MediaQuery { media_id: String },
}

/// A web-style content server's answer.
#[derive(Debug)]
pub enum WebResponse {
    ServerTypeResponse { server_type: String },
    TextFilesListResponse { files: Vec<String> },
    FileResponse { file_size: usize, file_data: Vec<u8> },
    MediaResponse { media_data: Vec<u8> },
    ErrorNotFound,
    ErrorUnsupportedRequest,
}

/// A request to a chat server.
#[derive(Debug)]
pub enum ChatRequest {
    ServerTypeQuery,
    RegistrationToChat { client_id: u8 },
    ClientListQuery,
    MessageFor { client_id: u8, message: String },
}

/// A chat server's answer.
#[derive(Debug)]
pub enum ChatResponse {
    ServerType { server_id: u8, server_type: ServerType },
    ClientList { list_of_client_ids: Vec<u8> },
    MessageFrom { client_id: u8, message: String },
    ErrorWrongClientId,
    RegistrationSuccess,
}

/// One chat message between two endpoints.
#[derive(Debug, Clone)]
pub struct Message {
    pub from: u8,
    pub to: u8,
    pub text: String,
}

impl Message {
    pub fn new(from: u8, to: u8, text: String) -> (r: Message)
        ensures
            r.from == from,
            r.to == to,
            r.text@ == text@,
    {
        Message { from, to, text }
    }
}

/// What a chat client is asked to do.
#[derive(Debug)]
pub enum ChatCommand {
    GetChatsHistory,
    GetRegisteredClients,
    SendMessage(Message),
}

/// What a chat client reports.
#[derive(Debug)]
pub enum ChatEvent {
    ChatHistory(std::collections::HashMap<u8, Vec<Message>>),
    RegisteredClients(Vec<u8>),
    MessageSent,
    MessageReceived(Message),
}

/// What the controller asks of a node.
#[derive(Debug)]
pub enum NodeCommand {
    AddSender(u8, Sender<Packet>),
    RemoveSender(u8),
    Shutdown,
}

impl NodeCommand {
    /// The neighbor registration this command carries, if it is one.
    pub fn as_add_sender(self) -> (r: Option<(u8, Sender<Packet>)>)
        ensures
            match self {
                NodeCommand::AddSender(id, s) => r == Some((id, s)),
                _ => r is None,
            },
    {
        match self {
            NodeCommand::AddSender(id, sender) => Some((id, sender)),
            _ => None,
        }
    }

    /// Whether this command registers a neighbor.
    pub fn is_add_sender(&self) -> (b: bool)
        ensures
            b == (self is AddSender),
    {
        match self {
            NodeCommand::AddSender(_, _) => true,
            _ => false,
        }
    }
}

/// The kind of client an endpoint runs.
#[derive(Debug, Clone, PartialEq, Eq, Structural)]
pub enum ClientType {
    ChatClient,
    WebBrowser,
}

/// The kind of server an endpoint runs.
#[derive(Debug, Clone, PartialEq, Eq, Structural)]
pub enum ServerType {
    ChatServer,
    MediaServer,
}

} // verus!
