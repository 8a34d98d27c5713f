//! What a client sends when it syncs its changes.
use vstd::prelude::*;

verus! {

/// A change of one file.
#[derive(Debug, Clone)]
pub enum SyncRequestFile {
    Add { path: String, content: Vec<u8> },
    Update { path: String, content: Vec<u8> },
    Delete { path: String },
}

/// The contents of a change.
pub enum ChangeView {
    Add(Seq<char>, Seq<u8>),
    Update(Seq<char>, Seq<u8>),
    Delete(Seq<char>),
}

impl View for SyncRequestFile {
    type V = ChangeView;

    open spec fn view(&self) -> ChangeView {
        match self {
            SyncRequestFile::Add { path, content } => ChangeView::Add(path@, content@),
            SyncRequestFile::Update { path, content } => ChangeView::Update(path@, content@),
            SyncRequestFile::Delete { path } => ChangeView::Delete(path@),
        }
    }
}

/// The changes of a package, with the client's latest history.
#[derive(Debug)]
pub struct SyncRequest {
    pub files: Vec<SyncRequestFile>,
    pub package_name: String,
    pub latest_ftd: String,
}

} // verus!
