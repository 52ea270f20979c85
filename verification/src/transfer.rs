//! The decisions of uploads and downloads: which local items are sent and
//! where, what an existing remote item means, and how progress is reported.
//! Reading and writing the files is left to the caller.
use crate::files::{join_remote, joined, valid_item_name, Event};
use crate::text::{chars_of, decimal, decimal_digits, push_chars};
use vstd::prelude::*;

verus! {

/// Folders nested deeper than this under an uploaded folder are refused.
pub const MAX_UPLOAD_DEPTH: usize = 64;

/// What a local item to upload is, as its own metadata says (links are not followed).
#[derive(Clone, Copy, Debug, PartialEq, Eq, Structural)]
pub enum LocalKind {
    Symlink,
    Folder,
    File,
    Other,
}

/// What looking up a remote path gave.
pub enum RemoteStat {
    Folder,
    /// Something that is not a folder.
    Other,
    /// The server reported that nothing is there.
    Missing,
    /// Any other failure, with its message.
    Failed(String),
}

/// How a local item is uploaded.
pub enum UploadItem {
    /// A folder whose contents go into `destination`.
    Folder { destination: String },
    /// A file that ends up at `destination`.
    File { destination: String },
}

pub open spec fn cancelled_text() -> Seq<char> {
    "Transfer cancelled."@
}

pub open spec fn too_deep_text() -> Seq<char> {
    "Folder nesting exceeds 64 levels."@
}

pub open spec fn symlink_text(local: Seq<char>) -> Seq<char> {
    "Symbolic links are not uploaded: "@ + local
}

pub open spec fn unsupported_local_name_text() -> Seq<char> {
    "Unsupported local filename"@
}

pub open spec fn not_uploadable_text() -> Seq<char> {
    "Only regular files and folders can be uploaded."@
}

/// What `join_remote` gives for `parent` and `name`, viewed.
pub open spec fn join_result(parent: Seq<char>, name: Seq<char>) -> Result<Seq<char>, Seq<char>> {
    if valid_item_name(name) {
        Ok(joined(parent, name))
    } else {
        Err(crate::files::unsupported_name_text())
    }
}

/// How a local item is uploaded into `remote`, or why it is refused: a
/// cancelled transfer stops, folders nest at most 64 levels, links are not
/// followed, the name must be text and a single path part, and only files and
/// folders are sent. `local` is the item's path as shown to the user, `name`
/// its last part when that is text.
pub open spec fn upload_plan(
    cancelled: bool,
    depth: nat,
    kind: LocalKind,
    local: Seq<char>,
    name: Option<Seq<char>>,
    remote: Seq<char>,
) -> Result<(bool, Seq<char>), Seq<char>> {
    if cancelled {
        Err(cancelled_text())
    } else if depth > MAX_UPLOAD_DEPTH {
        Err(too_deep_text())
    } else if kind == LocalKind::Symlink {
        Err(symlink_text(local))
    } else {
        match name {
            None => Err(unsupported_local_name_text()),
            Some(n) => match join_result(remote, n) {
                Err(e) => Err(e),
                Ok(destination) => if kind == LocalKind::Folder {
                    Ok((true, destination))
                } else if kind == LocalKind::File {
                    Ok((false, destination))
                } else {
                    Err(not_uploadable_text())
                },
            },
        }
    }
}

/// Whether a transfer may go on with its next step, `depth` folders down:
/// not once it was cancelled, and not deeper than the nesting limit.
pub fn transfer_gate(cancelled: bool, depth: usize) -> (r: Result<(), String>)
    ensures
        cancelled ==> (r matches Err(e) && e@ == cancelled_text()),
        !cancelled && depth > MAX_UPLOAD_DEPTH ==> (r matches Err(e) && e@ == too_deep_text()),
        !cancelled && depth <= MAX_UPLOAD_DEPTH ==> r is Ok,
{
    if cancelled {
        return Err("Transfer cancelled.".to_owned());
    }
    if depth > MAX_UPLOAD_DEPTH {
        return Err("Folder nesting exceeds 64 levels.".to_owned());
    }
    Ok(())
}

pub open spec fn item_view(r: Result<UploadItem, String>) -> Result<(bool, Seq<char>), Seq<char>> {
    match r {
        Ok(UploadItem::Folder { destination }) => Ok((true, destination@)),
        Ok(UploadItem::File { destination }) => Ok((false, destination@)),
        Err(e) => Err(e@),
    }
}

/// How the local item at `local` (shown as such) is uploaded into `remote`.
pub fn plan_upload(
    cancelled: bool,
    depth: usize,
    kind: LocalKind,
    local: &str,
    name: Option<&str>,
    remote: &str,
) -> (r: Result<UploadItem, String>)
    ensures
        item_view(r) == upload_plan(
            cancelled,
            depth as nat,
            kind,
            local@,
            match name {
                Some(n) => Some(n@),
                None => None,
            },
            remote@,
        ),
{
    match transfer_gate(cancelled, depth) {
        Err(e) => {
            return Err(e);
        },
        Ok(()) => {},
    }
    if kind == LocalKind::Symlink {
        let mut message = "Symbolic links are not uploaded: ".to_owned();
        push_chars(&mut message, &chars_of(local));
        return Err(message);
    }
    let name = match name {
        Some(n) => n,
        None => {
            return Err("Unsupported local filename".to_owned());
        },
    };
    let destination = match join_remote(remote, name) {
        Ok(d) => d,
        Err(e) => {
            return Err(e);
        },
    };
    match kind {
        LocalKind::Folder => Ok(UploadItem::Folder { destination }),
        LocalKind::File => Ok(UploadItem::File { destination }),
        _ => Err("Only regular files and folders can be uploaded.".to_owned()),
    }
}

pub open spec fn folder_exists_text(destination: Seq<char>) -> Seq<char> {
    "Destination already exists: "@ + destination
}

pub open spec fn file_exists_text(destination: Seq<char>) -> Seq<char> {
    "Destination already exists; no file was replaced: "@ + destination
}

/// For a folder upload: whether the remote folder has to be created, or why
/// the upload stops. An existing folder is reused; anything else in its
/// place stops the upload.
pub fn folder_destination(stat: RemoteStat, destination: &str) -> (r: Result<bool, String>)
    ensures
        match stat {
            RemoteStat::Folder => r == Ok::<bool, String>(false),
            RemoteStat::Missing => r == Ok::<bool, String>(true),
            RemoteStat::Other => r matches Err(e) && e@ == folder_exists_text(destination@),
            RemoteStat::Failed(e) => r == Err::<bool, String>(e),
        },
{
    match stat {
        RemoteStat::Folder => Ok(false),
        RemoteStat::Missing => Ok(true),
        RemoteStat::Other => {
            let mut message = "Destination already exists: ".to_owned();
            push_chars(&mut message, &chars_of(destination));
            Err(message)
        },
        RemoteStat::Failed(e) => Err(e),
    }
}

/// For a file upload: whether it may go on. Nothing that exists at the
/// destination is ever replaced.
pub fn file_destination(stat: RemoteStat, destination: &str) -> (r: Result<(), String>)
    ensures
        match stat {
            RemoteStat::Missing => r is Ok,
            RemoteStat::Folder | RemoteStat::Other => r matches Err(e) && e@ == file_exists_text(
                destination@,
            ),
            RemoteStat::Failed(e) => r == Err::<(), String>(e),
        },
{
    match stat {
        RemoteStat::Missing => Ok(()),
        RemoteStat::Failed(e) => Err(e),
        _ => {
            let mut message = "Destination already exists; no file was replaced: ".to_owned();
            push_chars(&mut message, &chars_of(destination));
            Err(message)
        },
    }
}

/// The hidden name a file is written under before it is renamed into place.
pub open spec fn temporary_name(pid: u32, nanos: u128) -> Seq<char> {
    ".relay-upload-"@ + decimal(pid as nat) + "-"@ + decimal(nanos as nat)
}

/// Where a file uploaded into `remote` is written first: a hidden name made
/// of the process id and the time in nanoseconds.
pub fn temporary_path(remote: &str, pid: u32, nanos: u128) -> (r: Result<String, String>)
    ensures
        match join_result(remote@, temporary_name(pid, nanos)) {
            Ok(p) => r matches Ok(q) && q@ == p,
            Err(e) => r matches Err(f) && f@ == e,
        },
{
    let mut name = ".relay-upload-".to_owned();
    push_chars(&mut name, &decimal_digits(pid as u128));
    push_chars(&mut name, &chars_of("-"));
    push_chars(&mut name, &decimal_digits(nanos));
    join_remote(remote, name.as_str())
}

pub open spec fn not_a_remote_file_text() -> Seq<char> {
    "Select a regular file to download."@
}

pub open spec fn local_exists_text(local: Seq<char>) -> Seq<char> {
    "Choose a new destination; "@ + local + " already exists."@
}

/// Whether a download may start: the remote item must be a regular file,
/// and nothing may exist at the local destination (shown as `local`).
pub fn download_check(remote_is_file: bool, local_exists: bool, local: &str) -> (r: Result<(), String>)
    ensures
        !remote_is_file ==> (r matches Err(e) && e@ == not_a_remote_file_text()),
        remote_is_file && local_exists ==> (r matches Err(e) && e@ == local_exists_text(local@)),
        remote_is_file && !local_exists ==> r is Ok,
{
    if !remote_is_file {
        return Err("Select a regular file to download.".to_owned());
    }
    if local_exists {
        let mut message = "Choose a new destination; ".to_owned();
        push_chars(&mut message, &chars_of(local));
        push_chars(&mut message, &chars_of(" already exists."));
        return Err(message);
    }
    Ok(())
}

/// The message once every item was uploaded into `remote`.
pub fn upload_done_message(remote: &str) -> (r: String)
    ensures
        r@ == "Upload complete: "@ + remote@,
{
    let mut message = "Upload complete: ".to_owned();
    push_chars(&mut message, &chars_of(remote));
    message
}

/// The message once a file was downloaded to `local` (as shown to the user).
pub fn download_done_message(local: &str) -> (r: String)
    ensures
        r@ == "Downloaded to "@ + local@,
{
    let mut message = "Downloaded to ".to_owned();
    push_chars(&mut message, &chars_of(local));
    message
}

/// The bytes copied so far of one transfer.
pub struct CopyProgress {
    pub name: String,
    pub done: u64,
    pub total: u64,
}

/// What a copy does after reading `count` bytes: it stops at the end of the
/// input, else it writes them and counts them.
pub enum CopyStep {
    /// The input is exhausted.
    Finished,
    /// The bytes were counted; a progress report is due when given.
    Counted(Option<Event>),
}

impl CopyProgress {
    /// A copy of `total` bytes named `name`, and the report it starts with.
    pub fn start(name: &str, total: u64) -> (r: (CopyProgress, Event))
        ensures
            r.0.name@ == name@,
            r.0.done == 0,
            r.0.total == total,
            r.1 matches Event::Progress { name: n, done, total: t } && n@ == name@ && done == 0
                && t == total,
    {
        let progress = CopyProgress { name: name.to_owned(), done: 0, total };
        let event = progress.report();
        (progress, event)
    }

    /// The report of where the copy stands.
    pub fn report(&self) -> (e: Event)
        ensures
            e matches Event::Progress { name, done, total } && name@ == self.name@ && done
                == self.done && total == self.total,
    {
        Event::Progress { name: self.name.clone(), done: self.done, total: self.total }
    }

    /// A read gave `count` bytes; `report_due` says that the last report is
    /// old enough for another one.
    pub fn read(&mut self, count: usize, report_due: bool) -> (r: CopyStep)
        requires
            old(self).done + count <= u64::MAX,
        ensures
            final(self).name == old(self).name,
            final(self).total == old(self).total,
            count == 0 ==> r is Finished && final(self).done == old(self).done,
            count > 0 ==> final(self).done == old(self).done + count,
            count > 0 && !report_due ==> r == CopyStep::Counted(None),
            count > 0 && report_due ==> (r matches CopyStep::Counted(Some(
                Event::Progress { name, done, total },
            )) && name@ == old(self).name@ && done == final(self).done && total == old(
                self,
            ).total),
    {
        if count == 0 {
            return CopyStep::Finished;
        }
        self.done = self.done + count as u64;
        if report_due {
            CopyStep::Counted(Some(self.report()))
        } else {
            CopyStep::Counted(None)
        }
    }
}

} // verus!
