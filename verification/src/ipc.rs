//! The messages between the two panes.
use crate::preview::app::{ReqView, ShowReq};
use crate::text::{lemma_strs_push, strs};
use vstd::prelude::*;

verus! {

broadcast use {vstd::string::group_string_axioms, lemma_strs_push};

/// From the list to the preview.
#[derive(Debug)]
pub enum ToPreview {
    /// Show this diff.
    Show(ShowReq),
    Scroll { delta: i32 },
    Page { down: bool, full: bool },
    /// Nothing is selected any more.
    Clear,
    /// A whole-file note.
    AddNote { file: String, text: String, cached: bool },
    FocusNote { id: u64 },
    EditNote { id: u64, text: String },
    DeleteNote { id: u64 },
    SendNotes,
    /// Open the editor on this file.
    Edit { file: String },
    /// Run git interactively on the preview's terminal.
    GitInPane { argv: Vec<String> },
    Quit,
}

#[verifier::ext_equal]
pub enum ToPreviewView {
    Show(ReqView),
    Scroll { delta: i32 },
    Page { down: bool, full: bool },
    Clear,
    AddNote { file: Seq<char>, text: Seq<char>, cached: bool },
    FocusNote { id: u64 },
    EditNote { id: u64, text: Seq<char> },
    DeleteNote { id: u64 },
    SendNotes,
    Edit { file: Seq<char> },
    GitInPane { argv: Seq<Seq<char>> },
    Quit,
}

impl View for ToPreview {
    type V = ToPreviewView;

    open spec fn view(&self) -> ToPreviewView {
        match self {
            ToPreview::Show(req) => ToPreviewView::Show(req@),
            ToPreview::Scroll { delta } => ToPreviewView::Scroll { delta: *delta },
            ToPreview::Page { down, full } => ToPreviewView::Page { down: *down, full: *full },
            ToPreview::Clear => ToPreviewView::Clear,
            ToPreview::AddNote { file, text, cached } => ToPreviewView::AddNote {
                file: file@,
                text: text@,
                cached: *cached,
            },
            ToPreview::FocusNote { id } => ToPreviewView::FocusNote { id: *id },
            ToPreview::EditNote { id, text } => ToPreviewView::EditNote { id: *id, text: text@ },
            ToPreview::DeleteNote { id } => ToPreviewView::DeleteNote { id: *id },
            ToPreview::SendNotes => ToPreviewView::SendNotes,
            ToPreview::Edit { file } => ToPreviewView::Edit { file: file@ },
            ToPreview::GitInPane { argv } => ToPreviewView::GitInPane { argv: strs(argv@) },
            ToPreview::Quit => ToPreviewView::Quit,
        }
    }
}

/// What the list knows of a note.
#[derive(Debug)]
pub struct NoteInfo {
    pub id: u64,
    pub file: String,
    /// Line range in the new file; 0-0 = whole file.
    pub start: u32,
    pub end: u32,
    pub text: String,
    /// Whether the note was written against the staged diff.
    pub cached: bool,
}

#[verifier::ext_equal]
pub struct NoteInfoView {
    pub id: u64,
    pub file: Seq<char>,
    pub start: u32,
    pub end: u32,
    pub text: Seq<char>,
    pub cached: bool,
}

impl View for NoteInfo {
    type V = NoteInfoView;

    open spec fn view(&self) -> NoteInfoView {
        NoteInfoView {
            id: self.id,
            file: self.file@,
            start: self.start,
            end: self.end,
            text: self.text@,
            cached: self.cached,
        }
    }
}

pub open spec fn infos_view(s: Seq<NoteInfo>) -> Seq<NoteInfoView> {
    s.map_values(|n: NoteInfo| n@)
}

/// From the preview to the list.
#[derive(Debug)]
pub enum ToList {
    /// The preview is up.
    Ready,
    /// The editor on this file was closed.
    EditDone { file: String },
    /// The interactive git run ended.
    GitDone { ok: bool },
    /// The notes changed.
    Notes { notes: Vec<NoteInfo> },
    /// Open the notes view.
    ShowNotesView,
    /// Open the editor on the current selection.
    EditSelection,
}

} // verus!
