//! The storage server: the one owner of the index, which takes the requests
//! of all callers one at a time.
//!
//! The server is either idle, a `StorageServer`, or busy with one request, a
//! `Processing`. Taking a request consumes the idle server, and only the end
//! of that request gives it back: no second request can begin in between.
//! What touches the disk is not done here. A `Processing` names the effect it
//! waits for; the caller carries it out and resumes with the outcome.

use crate::index::{
    add_file_of, all_tags, insert_all, insertable, lemma_insert_all, lists, of_type, with_tags,
    FileIndex,
};
use crate::metadata::{records, strings, FileErr, FileMetadata, FileRecord};
use crate::path::{indexable, join, join_of};
use crate::scan::record_of;
use vstd::prelude::*;

verus! {

/// What a caller asks of the server.
#[derive(Debug, PartialEq, Eq)]
pub enum Request {
    /// All records.
    GetAllFiles,
    /// All tags.
    GetAllTags,
    /// The records that have every one of these tags.
    GetFilesOfTags(Vec<String>),
    /// The records of this type.
    GetFilesOfType(String),
    /// The path of the file with this identifier.
    GetFilePath(u64),
    /// Store a file of this name with this content, and index it.
    CreateFile(String, Vec<u8>),
}

/// What the server answers.
#[derive(Debug, PartialEq, Eq)]
pub enum Response {
    /// Records, in no particular order.
    Files(Vec<FileMetadata>),
    /// Tags, each once, in no particular order.
    Tags(Vec<String>),
    /// The path that was asked for.
    Path(Result<String, FileErr>),
    /// How storing a file ended.
    Created(Result<(), FileErr>),
}

/// What the caller has to do for the server before a request can go on.
#[derive(Debug, PartialEq, Eq)]
pub enum Effect {
    /// Write `content` to the file at `path`, creating the directory it lies
    /// in where that is missing.
    WriteFile { path: String, content: Vec<u8> },
    /// Write `files` to the index file at `index_file`.
    Persist { index_file: String, files: Vec<FileMetadata> },
}

/// An `Effect` as mathematical values.
pub enum EffectView {
    WriteFile { path: Seq<char>, content: Seq<u8> },
    Persist { index_file: Seq<char>, files: Seq<FileRecord> },
}

impl View for Effect {
    type V = EffectView;

    open spec fn view(&self) -> EffectView {
        match self {
            Effect::WriteFile { path, content } => EffectView::WriteFile {
                path: path@,
                content: content@,
            },
            Effect::Persist { index_file, files } => EffectView::Persist {
                index_file: index_file@,
                files: records(files@),
            },
        }
    }
}

/// What an idle server holds.
pub struct ServerState {
    /// The records of the index, by identifier.
    pub index: Map<u64, FileRecord>,
    /// The path of the index file.
    pub index_file: Seq<char>,
    /// The directory that stored files are written to.
    pub received_dir: Seq<char>,
}

/// The server while it is idle.
#[derive(Debug)]
pub struct StorageServer {
    index: FileIndex,
    received_dir: String,
}

/// The server while it is busy with a request, waiting for an effect.
#[derive(Debug)]
pub struct Processing {
    server: StorageServer,
    effect: Effect,
}

/// Where the server stands after a step.
#[derive(Debug)]
pub enum Step {
    /// The request is answered and the server is idle again.
    Reply(StorageServer, Response),
    /// The request goes on once an effect has been carried out.
    Pending(Processing),
}

impl View for StorageServer {
    type V = ServerState;

    closed spec fn view(&self) -> ServerState {
        ServerState {
            index: self.index@,
            index_file: self.index.index_file_view(),
            received_dir: self.received_dir@,
        }
    }
}

/// Whether `response` answers `request` on the index `index`.
pub open spec fn answers(index: Map<u64, FileRecord>, request: Request, response: Response) -> bool {
    match request {
        Request::GetAllFiles => response matches Response::Files(files) && lists(
            records(files@),
            index,
        ),
        Request::GetAllTags => response matches Response::Tags(tags) && strings(
            tags@,
        ).no_duplicates() && strings(tags@).to_set() == all_tags(index),
        Request::GetFilesOfTags(tags) => response matches Response::Files(files) && lists(
            records(files@),
            with_tags(index, strings(tags@)),
        ),
        Request::GetFilesOfType(ty) => response matches Response::Files(files) && lists(
            records(files@),
            of_type(index, ty@),
        ),
        Request::GetFilePath(id) => response matches Response::Path(path) && match path {
            Ok(p) => index.contains_key(id) && p@ == index[id].path,
            Err(e) => !index.contains_key(id) && e == FileErr::IdInvalid,
        },
        Request::CreateFile(_, _) => false,
    }
}

/// Whether `step` is what an idle server in state `state` does on `request`:
/// a question about the index is answered at once and changes nothing; a file
/// to be stored is first to be written under its name in the directory for
/// stored files.
pub open spec fn receives(state: ServerState, request: Request, step: Step) -> bool {
    match request {
        Request::CreateFile(name, content) => step matches Step::Pending(busy) && busy.state()
            == state && busy.effect_view() == (EffectView::WriteFile {
            path: join_of(state.received_dir, name@),
            content: content@,
        }),
        _ => step matches Step::Reply(server, response) && server@ == state && answers(
            state.index,
            request,
            response,
        ),
    }
}

/// Whether `step` is what a server in state `state` does once the effect
/// `effect` has ended, well (`done`) or not.
///
/// A file that could not be written ends the request with
/// `FailedToCreateFile`. A file that was written is added to the index: an
/// identifier that is taken ends the request with `DuplicateId`, otherwise
/// the index as it then stands is to be persisted. After that, the request
/// ends with success, or with `DBError` where the index could not be written;
/// the index in memory keeps the new record either way.
pub open spec fn resumes(state: ServerState, effect: EffectView, done: bool, step: Step) -> bool {
    match effect {
        EffectView::WriteFile { path, content } => if !done {
            step matches Step::Reply(server, response) && server@ == state && response
                == Response::Created(Err(FileErr::FailedToCreateFile))
        } else {
            match add_file_of(state.index, path) {
                Ok(index) => step matches Step::Pending(busy) && busy.state() == (ServerState {
                    index,
                    ..state
                }) && (busy.effect_view() matches EffectView::Persist { index_file, files }
                    && index_file == state.index_file && lists(files, index)),
                Err(e) => step matches Step::Reply(server, response) && server@ == state
                    && response == Response::Created(Err(e)),
            }
        },
        EffectView::Persist { index_file, files } => step matches Step::Reply(server, response)
            && server@ == state && response == Response::Created(
            if done {
                Ok(())
            } else {
                Err(FileErr::DBError)
            },
        ),
    }
}

/// The index after files of the names `names` were stored one after the
/// other, each written well: what `resumes` does to the index, request after
/// request.
pub open spec fn store_all(
    index: Map<u64, FileRecord>,
    received_dir: Seq<char>,
    names: Seq<Seq<char>>,
) -> Result<Map<u64, FileRecord>, FileErr>
    decreases names.len(),
{
    if names.len() == 0 {
        Ok(index)
    } else {
        match store_all(index, received_dir, names.drop_last()) {
            Ok(before) => add_file_of(before, join_of(received_dir, names.last())),
            Err(e) => Err(e),
        }
    }
}

/// The records of files of the names `names`, stored in `received_dir`.
pub open spec fn stored(received_dir: Seq<char>, names: Seq<Seq<char>>) -> Seq<FileRecord> {
    Seq::new(names.len(), |i: int| record_of(join_of(received_dir, names[i]), None))
}

/// Files stored one after the other are all in the index afterwards: where
/// the names give indexable paths whose identifiers are new to the index and
/// differ from each other, every one of the requests succeeds, each file has
/// its record under its own identifier, what the index held before is still
/// there, and the index has grown by the number of the files.
pub proof fn lemma_store_all(
    index: Map<u64, FileRecord>,
    received_dir: Seq<char>,
    names: Seq<Seq<char>>,
)
    requires
        forall|i: int|
            0 <= i < names.len() ==> indexable(join_of(received_dir, #[trigger] names[i]), false),
        insertable(index, stored(received_dir, names)),
    ensures
        store_all(index, received_dir, names) matches Ok(after) && {
            &&& after == insert_all(index, stored(received_dir, names))
            &&& forall|i: int|
                0 <= i < names.len() ==> after.contains_key(
                    (#[trigger] stored(received_dir, names)[i]).id,
                ) && after[stored(received_dir, names)[i].id] == stored(received_dir, names)[i]
            &&& forall|k: u64|
                index.contains_key(k) ==> after.contains_key(k) && #[trigger] after[k] == index[k]
            &&& index.dom().finite() ==> after.dom().finite() && after.len() == index.len()
                + names.len()
        },
    decreases names.len(),
{
    let list = stored(received_dir, names);
    lemma_insert_all(index, list);
    if names.len() > 0 {
        let init = names.drop_last();
        let shorter = stored(received_dir, init);
        let path = join_of(received_dir, names.last());
        assert(shorter == list.drop_last());
        assert(list.last() == record_of(path, None));
        assert forall|i: int| 0 <= i < init.len() implies indexable(
            join_of(received_dir, #[trigger] init[i]),
            false,
        ) by {
            assert(init[i] == names[i]);
        }
        assert(insertable(index, shorter)) by {
            assert forall|i: int| 0 <= i < shorter.len() implies !index.contains_key(
                (#[trigger] shorter[i]).id,
            ) by {
                assert(shorter[i] == list[i]);
            }
            assert forall|i: int, j: int| 0 <= i < j < shorter.len() implies (
            #[trigger] shorter[i]).id != (#[trigger] shorter[j]).id by {
                assert(shorter[i] == list[i] && shorter[j] == list[j]);
            }
        }
        lemma_store_all(index, received_dir, init);
        lemma_insert_all(index, shorter);
        let before = insert_all(index, shorter);
        assert(!before.contains_key(list.last().id)) by {
            assert(!index.contains_key(list[list.len() - 1].id));
            if exists|i: int| 0 <= i < shorter.len() && (#[trigger] shorter[i]).id == list.last().id {
                let i = choose|i: int|
                    0 <= i < shorter.len() && (#[trigger] shorter[i]).id == list.last().id;
                assert(list[i].id != list[list.len() - 1].id);
            }
        }
        assert(names.last() == names[names.len() - 1]);
    }
}

impl StorageServer {
    /// Makes an idle server that owns `index` and has stored files written to
    /// `received_dir`.
    pub fn new(index: FileIndex, received_dir: &str) -> (server: Self)
        ensures
            server@ == (ServerState {
                index: index@,
                index_file: index.index_file_view(),
                received_dir: received_dir@,
            }),
    {
        StorageServer { index, received_dir: received_dir.to_owned() }
    }

    /// The index that the server owns.
    pub fn index(&self) -> (index: &FileIndex)
        ensures
            index@ == self@.index,
            index.index_file_view() == self@.index_file,
    {
        &self.index
    }

    /// Takes a request. A question about the index comes back answered, with
    /// the server idle again; a file to be stored makes the server busy until
    /// the file has been written and the index persisted.
    pub fn receive(self, request: Request) -> (step: Step)
        ensures
            receives(self@, request, step),
    {
        match request {
            Request::GetAllFiles => {
                let files = self.index.files();
                Step::Reply(self, Response::Files(files))
            },
            Request::GetAllTags => {
                let tags = self.index.tags();
                Step::Reply(self, Response::Tags(tags))
            },
            Request::GetFilesOfTags(tags) => {
                let files = self.index.files_of_tag(&tags);
                Step::Reply(self, Response::Files(files))
            },
            Request::GetFilesOfType(ty) => {
                let files = self.index.files_of_type(ty);
                Step::Reply(self, Response::Files(files))
            },
            Request::GetFilePath(id) => {
                let path = self.index.get_file_path(id);
                Step::Reply(self, Response::Path(path))
            },
            Request::CreateFile(name, content) => {
                let path = join(self.received_dir.as_str(), name.as_str());
                Step::Pending(Processing { server: self, effect: Effect::WriteFile { path, content } })
            },
        }
    }
}

impl Processing {
    /// What the server held when it last was idle, with what the request has
    /// changed since.
    pub closed spec fn state(&self) -> ServerState {
        self.server@
    }

    /// The effect that the server waits for.
    pub closed spec fn effect_view(&self) -> EffectView {
        self.effect@
    }

    /// Returns the effect that the server waits for.
    pub fn effect(&self) -> (effect: &Effect)
        ensures
            effect@ == self.effect_view(),
    {
        &self.effect
    }

    /// Goes on with the request after the effect has ended, well (`done`) or
    /// not.
    pub fn resume(self, done: bool) -> (step: Step)
        ensures
            resumes(self.state(), self.effect_view(), done, step),
    {
        let Processing { server, effect } = self;
        match effect {
            Effect::WriteFile { path, content } => {
                if !done {
                    return Step::Reply(server, Response::Created(Err(FileErr::FailedToCreateFile)));
                }
                let mut server = server;
                match server.index.add_file(path.as_str()) {
                    Ok(()) => {
                        let files = server.index.files();
                        let index_file = server.index.index_file().to_owned();
                        Step::Pending(
                            Processing { server, effect: Effect::Persist { index_file, files } },
                        )
                    },
                    Err(e) => Step::Reply(server, Response::Created(Err(e))),
                }
            },
            Effect::Persist { index_file, files } => {
                if done {
                    Step::Reply(server, Response::Created(Ok(())))
                } else {
                    Step::Reply(server, Response::Created(Err(FileErr::DBError)))
                }
            },
        }
    }
}

} // verus!
