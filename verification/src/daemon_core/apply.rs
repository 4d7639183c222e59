//! How one change of a file gets into the index.

use crate::daemon_core::worker::FileEvent;
use crate::indexer::file_types::{
    categorize_file_in_repo, category_in_repo, dual_indexed, excluded_dir,
    is_dual_indexed_language, is_excluded_dir, Category, FileCategory,
};
use crate::indexer::parsed::{need_of, parse_need, ParseNeed};
use crate::paths::extension;
use crate::text::{concat3, texts};
use vstd::prelude::*;

verus! {

/// What the name of a file asks for.
#[derive(Debug, Clone, Copy, PartialEq, Eq, Structural)]
pub enum EventNeed {
    /// Nothing: it is not indexed.
    Nothing,
    /// To parse it; `dual` says whether it is stored as text, too.
    Code { dual: bool },
    /// To parse it as a 1C dump in XML, and to store it as text where it holds no code.
    Xml,
    /// To store it as text.
    Text,
}

/// What the name of a file asks for.
pub open spec fn event_need(category: Category, name: Seq<char>) -> EventNeed {
    match category {
        Category::Binary => EventNeed::Nothing,
        Category::Code(language) => EventNeed::Code { dual: dual_indexed(language) },
        Category::Text => if need_of(category, name) is Xml {
            EventNeed::Xml
        } else {
            EventNeed::Text
        },
    }
}

/// Where the work on a change stands.
#[derive(Debug, Clone, Copy, PartialEq, Eq, Structural)]
pub enum EventPhase {
    AskDirectory,
    ScanDirectory,
    Read,
    ParseCode,
    WriteCode,
    ParseXml,
    WriteXml,
    WriteText,
    FindRecord,
    DeleteRecord,
    DeletePrefix,
    Applied,
    Failed,
}

/// What is to be done.
#[derive(Debug, Clone, Copy, PartialEq, Eq, Structural)]
pub enum EventAction {
    /// Ask whether the path is that of a directory.
    AskDirectory,
    /// Apply the creation of each file in the directory.
    ScanDirectory,
    /// Read the file.
    Read,
    /// Parse it with the parser for its extension.
    ParseCode,
    /// Write what was found in it; with `text`, store it as text, too.
    WriteCode { text: bool },
    /// Parse it as a 1C dump in XML.
    ParseXml,
    /// Write the code that was found in the dump.
    WriteXml,
    /// Store it as text.
    WriteText,
    /// Look for the row of the file.
    FindRecord,
    /// Delete that row.
    DeleteRecord,
    /// Delete the rows of all files below the path.
    DeletePrefix,
    /// The change is in the index.
    Applied,
    /// The change could not be applied.
    Failed,
}

/// How the last step went.
#[derive(Debug, Clone, Copy, PartialEq, Eq, Structural)]
pub enum EventAnswer {
    /// It went well; or it is so.
    Yes,
    /// It is not so; or it found nothing to do.
    No,
    /// What was looked for is not there.
    Missing,
    /// The file is binary.
    Binary,
    /// It failed.
    Failed,
}

/// The work on a change.
#[derive(Debug, Clone, Copy, PartialEq, Eq, Structural)]
pub struct EventRun {
    pub need: EventNeed,
    pub phase: EventPhase,
}

impl EventRun {
    /// The work in another phase.
    pub open spec fn to(self, phase: EventPhase) -> EventRun {
        EventRun { phase, ..self }
    }

    /// The last phase.
    pub open spec fn ends(self, ok: bool) -> EventRun {
        if ok {
            self.to(EventPhase::Applied)
        } else {
            self.to(EventPhase::Failed)
        }
    }

    /// The work before the first step. A file that is gone is looked for in the index; anything
    /// else may be a directory.
    pub open spec fn starting(event: FileEvent, name: Seq<char>, category: Category) -> EventRun {
        EventRun {
            need: event_need(category, name),
            phase: if event is Deleted {
                EventPhase::FindRecord
            } else {
                EventPhase::AskDirectory
            },
        }
    }

    /// The work after the step that was asked for, given how it went. A file that is gone
    /// before it could be read is no failure: editors save by renaming. A file that is not in
    /// the index at all was a directory, so everything below it goes.
    pub open spec fn after(self, answer: EventAnswer) -> EventRun {
        let s = self;
        let ok = answer is Yes;
        match self.phase {
            EventPhase::AskDirectory => if ok {
                s.to(EventPhase::ScanDirectory)
            } else {
                s.to(EventPhase::Read)
            },
            EventPhase::ScanDirectory => s.ends(ok),
            EventPhase::Read => match answer {
                EventAnswer::Yes => match s.need {
                    EventNeed::Nothing => s.to(EventPhase::Applied),
                    EventNeed::Code { .. } => s.to(EventPhase::ParseCode),
                    EventNeed::Xml => s.to(EventPhase::ParseXml),
                    EventNeed::Text => s.to(EventPhase::WriteText),
                },
                EventAnswer::Failed => s.to(EventPhase::Failed),
                _ => s.to(EventPhase::Applied),
            },
            EventPhase::ParseCode => match answer {
                EventAnswer::Yes => s.to(EventPhase::WriteCode),
                EventAnswer::Missing => s.to(EventPhase::Applied),
                _ => s.to(EventPhase::Failed),
            },
            EventPhase::WriteCode => s.ends(ok),
            EventPhase::ParseXml => if ok {
                s.to(EventPhase::WriteXml)
            } else {
                s.to(EventPhase::WriteText)
            },
            EventPhase::WriteXml => if ok {
                s.to(EventPhase::Applied)
            } else {
                s.to(EventPhase::WriteText)
            },
            EventPhase::WriteText => s.ends(ok),
            EventPhase::FindRecord => match answer {
                EventAnswer::Yes => s.to(EventPhase::DeleteRecord),
                EventAnswer::No => s.to(EventPhase::Applied),
                _ => s.to(EventPhase::DeletePrefix),
            },
            EventPhase::DeleteRecord => s.ends(ok),
            EventPhase::DeletePrefix => s.ends(ok),
            EventPhase::Applied => s,
            EventPhase::Failed => s,
        }
    }

    /// What is to be done in a phase.
    pub open spec fn wanted(self) -> EventAction {
        match self.phase {
            EventPhase::AskDirectory => EventAction::AskDirectory,
            EventPhase::ScanDirectory => EventAction::ScanDirectory,
            EventPhase::Read => EventAction::Read,
            EventPhase::ParseCode => EventAction::ParseCode,
            EventPhase::WriteCode => EventAction::WriteCode {
                text: self.need == (EventNeed::Code { dual: true }),
            },
            EventPhase::ParseXml => EventAction::ParseXml,
            EventPhase::WriteXml => EventAction::WriteXml,
            EventPhase::WriteText => EventAction::WriteText,
            EventPhase::FindRecord => EventAction::FindRecord,
            EventPhase::DeleteRecord => EventAction::DeleteRecord,
            EventPhase::DeletePrefix => EventAction::DeletePrefix,
            EventPhase::Applied => EventAction::Applied,
            EventPhase::Failed => EventAction::Failed,
        }
    }

    /// The work on a change before the first step. The file is told by its name, as the system
    /// has it: what parts a path differs.
    pub fn apply_event(
        event: &FileEvent,
        name: &str,
        repo_language: Option<&str>,
        extra_text_extensions: &Vec<String>,
    ) -> (r: EventRun)
        ensures
            r == EventRun::starting(
                *event,
                name@,
                category_in_repo(
                    name@,
                    match repo_language {
                        Some(language) => Some(language@),
                        None => None,
                    },
                    extra_text_extensions@,
                ),
            ),
    {
        let category = categorize_file_in_repo(name, repo_language, extra_text_extensions);
        let need = match &category {
            FileCategory::Binary => EventNeed::Nothing,
            FileCategory::Code(language) => EventNeed::Code {
                dual: is_dual_indexed_language(language.as_str()),
            },
            FileCategory::Text => match parse_need(&category, name) {
                ParseNeed::Xml => EventNeed::Xml,
                _ => EventNeed::Text,
            },
        };
        let phase = match event {
            FileEvent::Deleted(_) => EventPhase::FindRecord,
            _ => EventPhase::AskDirectory,
        };
        EventRun { need, phase }
    }

    fn in_phase(&self, phase: EventPhase) -> (r: EventRun)
        ensures
            r == self.to(phase),
    {
        EventRun { phase, ..*self }
    }

    fn end(&self, ok: bool) -> (r: EventRun)
        ensures
            r == self.ends(ok),
    {
        if ok {
            self.in_phase(EventPhase::Applied)
        } else {
            self.in_phase(EventPhase::Failed)
        }
    }

    /// The work after the step that was asked for, given how it went.
    pub fn next(&self, answer: EventAnswer) -> (r: EventRun)
        ensures
            r == self.after(answer),
    {
        let ok: bool = match answer {
            EventAnswer::Yes => true,
            _ => false,
        };
        match self.phase {
            EventPhase::AskDirectory => if ok {
                self.in_phase(EventPhase::ScanDirectory)
            } else {
                self.in_phase(EventPhase::Read)
            },
            EventPhase::ScanDirectory => self.end(ok),
            EventPhase::Read => match answer {
                EventAnswer::Yes => match self.need {
                    EventNeed::Nothing => self.in_phase(EventPhase::Applied),
                    EventNeed::Code { dual: _ } => self.in_phase(EventPhase::ParseCode),
                    EventNeed::Xml => self.in_phase(EventPhase::ParseXml),
                    EventNeed::Text => self.in_phase(EventPhase::WriteText),
                },
                EventAnswer::Failed => self.in_phase(EventPhase::Failed),
                _ => self.in_phase(EventPhase::Applied),
            },
            EventPhase::ParseCode => match answer {
                EventAnswer::Yes => self.in_phase(EventPhase::WriteCode),
                EventAnswer::Missing => self.in_phase(EventPhase::Applied),
                _ => self.in_phase(EventPhase::Failed),
            },
            EventPhase::WriteCode => self.end(ok),
            EventPhase::ParseXml => if ok {
                self.in_phase(EventPhase::WriteXml)
            } else {
                self.in_phase(EventPhase::WriteText)
            },
            EventPhase::WriteXml => if ok {
                self.in_phase(EventPhase::Applied)
            } else {
                self.in_phase(EventPhase::WriteText)
            },
            EventPhase::WriteText => self.end(ok),
            EventPhase::FindRecord => match answer {
                EventAnswer::Yes => self.in_phase(EventPhase::DeleteRecord),
                EventAnswer::No => self.in_phase(EventPhase::Applied),
                _ => self.in_phase(EventPhase::DeletePrefix),
            },
            EventPhase::DeleteRecord => self.end(ok),
            EventPhase::DeletePrefix => self.end(ok),
            EventPhase::Applied => *self,
            EventPhase::Failed => *self,
        }
    }

    /// What is to be done.
    pub fn action(&self) -> (r: EventAction)
        ensures
            r == self.wanted(),
    {
        match self.phase {
            EventPhase::AskDirectory => EventAction::AskDirectory,
            EventPhase::ScanDirectory => EventAction::ScanDirectory,
            EventPhase::Read => EventAction::Read,
            EventPhase::ParseCode => EventAction::ParseCode,
            EventPhase::WriteCode => EventAction::WriteCode {
                text: match self.need {
                    EventNeed::Code { dual } => dual,
                    _ => false,
                },
            },
            EventPhase::ParseXml => EventAction::ParseXml,
            EventPhase::WriteXml => EventAction::WriteXml,
            EventPhase::WriteText => EventAction::WriteText,
            EventPhase::FindRecord => EventAction::FindRecord,
            EventPhase::DeleteRecord => EventAction::DeleteRecord,
            EventPhase::DeletePrefix => EventAction::DeletePrefix,
            EventPhase::Applied => EventAction::Applied,
            EventPhase::Failed => EventAction::Failed,
        }
    }
}

/// A file that is gone before it could be read counts as applied.
pub proof fn law_vanished_file_is_no_failure(s: EventRun)
    requires
        s.wanted() is Read,
    ensures
        s.after(EventAnswer::Missing).wanted() is Applied,
{
}

/// A change whose last step failed is never passed off as applied.
pub proof fn law_failures_are_reported(s: EventRun)
    ensures
        s.wanted() is Read || s.wanted() is ParseCode || s.wanted() is WriteCode || s.wanted()
            is WriteText || s.wanted() is DeleteRecord || s.wanted() is DeletePrefix || s.wanted()
            is ScanDirectory ==> s.after(EventAnswer::Failed).wanted() is Failed,
{
}

/// A change counts as applied only where it was written or deleted, or where there was nothing
/// to do: the file is gone or binary, its name asks for nothing, no parser takes it, or the
/// index has no row of it.
pub proof fn law_applied_only_when_done(s: EventRun, answer: EventAnswer)
    requires
        !(s.wanted() is Applied),
        s.after(answer).wanted() is Applied,
    ensures
        match s.wanted() {
            EventAction::ScanDirectory => answer is Yes,
            EventAction::Read => s.need is Nothing || !(answer is Yes),
            EventAction::ParseCode => answer is Missing,
            EventAction::WriteCode { .. } => answer is Yes,
            EventAction::WriteXml => answer is Yes,
            EventAction::WriteText => answer is Yes,
            EventAction::FindRecord => answer is No,
            EventAction::DeleteRecord => answer is Yes,
            EventAction::DeletePrefix => answer is Yes,
            _ => false,
        },
{
}

/// A file that is gone leaves the index: its row is looked for, deleted where it is found, and
/// the change then counts as applied. Where there is no row, the rows of all files below the path
/// are deleted.
pub proof fn law_deleted_file_leaves_the_index(event: FileEvent, name: Seq<char>, category: Category)
    requires
        event is Deleted,
    ensures
        ({
            let look = EventRun::starting(event, name, category);
            let found = look.after(EventAnswer::Yes);
            let missing = look.after(EventAnswer::Missing);
            let unknown = look.after(EventAnswer::Failed);
            &&& look.wanted() is FindRecord
            &&& found.wanted() is DeleteRecord
            &&& found.after(EventAnswer::Yes).wanted() is Applied
            &&& found.after(EventAnswer::Failed).wanted() is Failed
            &&& missing.wanted() is DeletePrefix
            &&& missing.after(EventAnswer::Yes).wanted() is Applied
            &&& missing.after(EventAnswer::Failed).wanted() is Failed
            &&& unknown.wanted() is DeletePrefix
            &&& unknown.after(EventAnswer::Yes).wanted() is Applied
            &&& unknown.after(EventAnswer::Failed).wanted() is Failed
        }),
{
}

/// A directory that appears brings all files in it into the index.
pub proof fn law_new_directory_is_gone_over(event: FileEvent, name: Seq<char>, category: Category)
    requires
        !(event is Deleted),
    ensures
        ({
            let ask = EventRun::starting(event, name, category);
            let go_over = ask.after(EventAnswer::Yes);
            &&& ask.wanted() is AskDirectory
            &&& go_over.wanted() is ScanDirectory
            &&& go_over.after(EventAnswer::Yes).wanted() is Applied
            &&& go_over.after(EventAnswer::Failed).wanted() is Failed
        }),
{
}

/// A file that was created or modified gets into the index: it is read; code is parsed and what
/// was found in it is written, with its text where the language asks for that; a 1C dump in XML is
/// written as code, or as text where it holds no code or cannot be written as code; any other text
/// is written as text. The write that goes well is the last step.
pub proof fn law_changed_file_gets_into_the_index(
    event: FileEvent,
    name: Seq<char>,
    category: Category,
    not_a_directory: EventAnswer,
)
    requires
        !(event is Deleted),
        !(not_a_directory is Yes),
    ensures
        ({
            let read = EventRun::starting(event, name, category).after(not_a_directory);
            let next = read.after(EventAnswer::Yes);
            let then = next.after(EventAnswer::Yes);
            &&& read.wanted() is Read
            &&& match category {
                Category::Binary => next.wanted() is Applied,
                Category::Code(language) => {
                    &&& next.wanted() is ParseCode
                    &&& then.wanted() == (EventAction::WriteCode { text: dual_indexed(language) })
                    &&& then.after(EventAnswer::Yes).wanted() is Applied
                },
                Category::Text => if extension(name) == Some("xml"@) {
                    let text = next.after(EventAnswer::No);
                    let instead = then.after(EventAnswer::Failed);
                    &&& next.wanted() is ParseXml
                    &&& then.wanted() is WriteXml
                    &&& then.after(EventAnswer::Yes).wanted() is Applied
                    &&& text.wanted() is WriteText
                    &&& text.after(EventAnswer::Yes).wanted() is Applied
                    &&& instead.wanted() is WriteText
                    &&& instead.after(EventAnswer::Yes).wanted() is Applied
                } else {
                    &&& next.wanted() is WriteText
                    &&& then.wanted() is Applied
                },
            }
        }),
{
}

/// No step that goes well ends in a failure: only a file that cannot be read, code that cannot be
/// parsed, a write, a deletion or a directory that did not go well does.
pub proof fn law_failed_only_after_a_failure(s: EventRun, answer: EventAnswer)
    requires
        !(s.wanted() is Failed),
        s.after(answer).wanted() is Failed,
    ensures
        !(answer is Yes),
        match s.wanted() {
            EventAction::ScanDirectory => true,
            EventAction::Read => answer is Failed,
            EventAction::ParseCode => !(answer is Missing),
            EventAction::WriteCode { .. } => true,
            EventAction::WriteText => true,
            EventAction::DeleteRecord => true,
            EventAction::DeletePrefix => true,
            _ => false,
        },
{
}

/// What was done stays done: nothing follows the last step, and what the file asks for is the same
/// all along.
pub proof fn law_ended_work_stays(s: EventRun, answer: EventAnswer)
    ensures
        s.wanted() is Applied ==> s.after(answer).wanted() is Applied,
        s.wanted() is Failed ==> s.after(answer).wanted() is Failed,
        s.after(answer).need == s.need,
{
}

/// A file that turns out to be binary is neither parsed nor written.
pub proof fn law_binary_is_not_written(s: EventRun)
    requires
        s.wanted() is Read,
    ensures
        s.after(EventAnswer::Binary).wanted() is Applied,
        s.need is Nothing ==> s.after(EventAnswer::Yes).wanted() is Applied,
{
}

/// How far the work on a change is from its end.
pub open spec fn stage(phase: EventPhase) -> int {
    match phase {
        EventPhase::AskDirectory => 5,
        EventPhase::ScanDirectory => 1,
        EventPhase::Read => 4,
        EventPhase::ParseCode => 2,
        EventPhase::WriteCode => 1,
        EventPhase::ParseXml => 3,
        EventPhase::WriteXml => 2,
        EventPhase::WriteText => 1,
        EventPhase::FindRecord => 2,
        EventPhase::DeleteRecord => 1,
        EventPhase::DeletePrefix => 1,
        EventPhase::Applied => 0,
        EventPhase::Failed => 0,
    }
}

/// Every step brings the work nearer to its end.
pub proof fn law_event_ends(s: EventRun, answer: EventAnswer)
    requires
        stage(s.phase) > 0,
    ensures
        0 <= stage(s.after(answer).phase) < stage(s.phase),
{
}

/// What a directory holds.
#[derive(Debug)]
pub enum DirListing {
    /// The directory is gone.
    Vanished,
    /// The directory could not be read.
    Unreadable,
    Items(Vec<DirItem>),
}

/// What stands in a directory.
#[derive(Debug)]
pub enum DirItem {
    File(String),
    Dir(String, DirListing),
    /// Neither a file nor a directory.
    Other,
}

/// What came of going over a directory.
#[verifier::ext_equal]
pub struct Scan {
    /// The paths of the files in it, in order.
    pub files: Seq<Seq<char>>,
    /// Whether all of it could be read.
    pub ok: bool,
}

/// The path of an item of a directory; the name alone for one of the root.
pub open spec fn item_path(dir: Seq<char>, name: Seq<char>) -> Seq<char> {
    if dir.len() == 0 {
        name
    } else {
        dir + "/"@ + name
    }
}

fn path_of_item(dir: &str, name: &str) -> (r: String)
    ensures
        r@ == item_path(dir@, name@),
{
    if dir.is_empty() {
        name.to_owned()
    } else {
        concat3(dir, "/", name)
    }
}

/// Goes over a directory. Directories that are passed over are not entered; one that is gone by
/// now is no failure.
pub open spec fn scan(dir: Seq<char>, listing: DirListing) -> Scan
    decreases listing, 0int,
{
    match listing {
        DirListing::Vanished => Scan { files: Seq::empty(), ok: true },
        DirListing::Unreadable => Scan { files: Seq::empty(), ok: false },
        DirListing::Items(items) => scan_items(dir, items@, items@.len() as int),
    }
}

/// Goes over the first `n` items of a directory.
pub open spec fn scan_items(dir: Seq<char>, items: Seq<DirItem>, n: int) -> Scan
    decreases items, n,
{
    if n <= 0 || n > items.len() {
        Scan { files: Seq::empty(), ok: true }
    } else {
        let before = scan_items(dir, items, n - 1);
        match items[n - 1] {
            DirItem::File(name) => Scan {
                files: before.files.push(item_path(dir, name@)),
                ..before
            },
            DirItem::Dir(name, listing) => if excluded_dir(name@) {
                before
            } else {
                let inner = scan(item_path(dir, name@), listing);
                Scan { files: before.files + inner.files, ok: before.ok && inner.ok }
            },
            DirItem::Other => before,
        }
    }
}

/// Goes over a directory: puts the paths of the files in it behind `files`, and says whether all
/// of it could be read.
pub fn apply_dir_scan(dir: &str, listing: &DirListing, files: &mut Vec<String>) -> (ok: bool)
    ensures
        texts(final(files)@) == texts(old(files)@) + scan(dir@, *listing).files,
        ok == scan(dir@, *listing).ok,
    decreases *listing,
{
    let ghost start = texts(files@);
    match listing {
        DirListing::Vanished => {
            proof {
                assert(start + Seq::<Seq<char>>::empty() =~= start);
            }
            true
        },
        DirListing::Unreadable => {
            proof {
                assert(start + Seq::<Seq<char>>::empty() =~= start);
            }
            false
        },
        DirListing::Items(items) => {
            let mut ok: bool = true;
            let mut i: usize = 0;
            proof {
                assert(start + Seq::<Seq<char>>::empty() =~= start);
            }
            while i < items.len()
                invariant
                    i <= items@.len(),
                    *listing == DirListing::Items(*items),
                    texts(files@) == start + scan_items(dir@, items@, i as int).files,
                    ok == scan_items(dir@, items@, i as int).ok,
                decreases items.len() - i,
            {
                let ghost before = files@;
                let ghost s = scan_items(dir@, items@, i as int);
                match &items[i] {
                    DirItem::File(name) => {
                        files.push(path_of_item(dir, name.as_str()));
                        proof {
                            assert(texts(files@) =~= texts(before).push(
                                item_path(dir@, name@),
                            ));
                            assert(texts(files@) =~= start + s.files.push(
                                item_path(dir@, name@),
                            ));
                        }
                    },
                    DirItem::Dir(name, inner) => {
                        if !is_excluded_dir(name.as_str()) {
                            let path = path_of_item(dir, name.as_str());
                            proof {
                                assert(items@[i as int] == DirItem::Dir(*name, *inner));
                                assert(decreases_to!(*listing => listing->Items_0@[i as int]));
                                assert(decreases_to!(items@[i as int] => *inner));
                            }
                            let inner_ok: bool = apply_dir_scan(path.as_str(), inner, files);
                            proof {
                                assert(texts(files@) =~= start + (s.files + scan(
                                    path@,
                                    *inner,
                                ).files));
                            }
                            ok = ok && inner_ok;
                        }
                    },
                    DirItem::Other => {},
                }
                i += 1;
            }
            ok
        },
    }
}

/// A directory that is passed over adds nothing, whatever it holds. Otherwise the journal that
/// the database writes would be taken for a change.
pub proof fn law_excluded_directories_are_not_entered(
    dir: Seq<char>,
    items: Seq<DirItem>,
    n: int,
    name: String,
    listing: DirListing,
)
    requires
        0 < n <= items.len(),
        items[n - 1] == DirItem::Dir(name, listing),
        excluded_dir(name@),
    ensures
        scan_items(dir, items, n) == scan_items(dir, items, n - 1),
{
}

/// Going over a directory finds every file in it, at any depth, but for those in directories that
/// are passed over; and it says that all could be read only where all could.
pub proof fn law_directory_scan_finds_every_file(
    dir: Seq<char>,
    items: Seq<DirItem>,
    n: int,
    i: int,
)
    requires
        0 <= i < n <= items.len(),
    ensures
        match items[i] {
            DirItem::File(name) => scan_items(dir, items, n).files.contains(
                item_path(dir, name@),
            ),
            DirItem::Dir(name, listing) => !excluded_dir(name@) ==> {
                let inner = scan(item_path(dir, name@), listing);
                &&& forall|f: Seq<char>|
                    #[trigger] inner.files.contains(f) ==> scan_items(dir, items, n).files.contains(
                        f,
                    )
                &&& scan_items(dir, items, n).ok ==> inner.ok
            },
            DirItem::Other => true,
        },
    decreases n,
{
    let before = scan_items(dir, items, n - 1);
    let now = scan_items(dir, items, n);
    if i < n - 1 {
        law_directory_scan_finds_every_file(dir, items, n - 1, i);
        assert forall|f: Seq<char>| before.files.contains(f) implies #[trigger] now.files.contains(
            f,
        ) by {
            let k = choose|k: int| 0 <= k < before.files.len() && before.files[k] == f;
            assert(now.files[k] == f);
        }
        match items[i] {
            DirItem::File(name) => {
                assert(before.files.contains(item_path(dir, name@)));
            },
            DirItem::Dir(name, listing) => {
                if !excluded_dir(name@) {
                    let inner = scan(item_path(dir, name@), listing);
                    assert forall|f: Seq<char>| #[trigger]
                        inner.files.contains(f) implies now.files.contains(f) by {
                        assert(before.files.contains(f));
                    }
                }
            },
            DirItem::Other => {},
        }
    } else {
        match items[i] {
            DirItem::File(name) => {
                assert(now.files[before.files.len() as int] == item_path(dir, name@));
            },
            DirItem::Dir(name, listing) => {
                if !excluded_dir(name@) {
                    let inner = scan(item_path(dir, name@), listing);
                    assert forall|f: Seq<char>| #[trigger]
                        inner.files.contains(f) implies now.files.contains(f) by {
                        let k = choose|k: int| 0 <= k < inner.files.len() && inner.files[k] == f;
                        assert(now.files[before.files.len() + k] == f);
                    }
                }
            },
            DirItem::Other => {},
        }
    }
}

/// Going over a directory finds nothing else: every path comes from a file in it, or from a
/// directory in it that is not passed over; and what could not be read is said.
pub proof fn law_directory_scan_finds_nothing_else(
    dir: Seq<char>,
    items: Seq<DirItem>,
    n: int,
    f: Seq<char>,
)
    requires
        0 <= n <= items.len(),
        scan_items(dir, items, n).files.contains(f),
    ensures
        exists|i: int|
            0 <= i < n && match #[trigger] items[i] {
                DirItem::File(name) => f == item_path(dir, name@),
                DirItem::Dir(name, listing) => !excluded_dir(name@) && scan(
                    item_path(dir, name@),
                    listing,
                ).files.contains(f),
                DirItem::Other => false,
            },
    decreases n,
{
    if n > 0 {
        let before = scan_items(dir, items, n - 1);
        let now = scan_items(dir, items, n);
        let k = choose|k: int| 0 <= k < now.files.len() && now.files[k] == f;
        if k < before.files.len() {
            assert(before.files[k] == f);
            law_directory_scan_finds_nothing_else(dir, items, n - 1, f);
            let i = choose|i: int|
                0 <= i < n - 1 && match #[trigger] items[i] {
                    DirItem::File(name) => f == item_path(dir, name@),
                    DirItem::Dir(name, listing) => !excluded_dir(name@) && scan(
                        item_path(dir, name@),
                        listing,
                    ).files.contains(f),
                    DirItem::Other => false,
                };
            assert(0 <= i < n);
        } else {
            match items[n - 1] {
                DirItem::File(name) => {},
                DirItem::Dir(name, listing) => {
                    let inner = scan(item_path(dir, name@), listing);
                    assert(inner.files[k - before.files.len()] == f);
                },
                DirItem::Other => {},
            }
            assert(0 <= n - 1 < n);
        }
    }
}

/// A directory that could be read is what its items are, one that is gone holds nothing and is no
/// failure, and one that could not be read is a failure.
pub proof fn law_unreadable_directory_is_a_failure(dir: Seq<char>, items: Vec<DirItem>)
    ensures
        scan(dir, DirListing::Vanished).ok && scan(dir, DirListing::Vanished).files.len() == 0,
        !scan(dir, DirListing::Unreadable).ok && scan(dir, DirListing::Unreadable).files.len() == 0,
        scan(dir, DirListing::Items(items)) == scan_items(dir, items@, items@.len() as int),
        scan_items(dir, items@, 0).ok,
{
}

} // verus!
