//! A buffer: a text, and everything the editor remembers about it.
pub mod buffer_trait;
pub mod gap_buffer;
pub mod lines;
pub mod mark;
pub mod overlay;
pub mod scan;
pub mod syntax;
pub mod undo;

use vstd::prelude::*;
use crate::buffer::buffer_trait::{BufferTrait, max_text_len};
use crate::buffer::lines::{lemma_line_col_offset, offset_to_line_col};
use crate::buffer::mark::{region_bounds, spec_region, Mark};
use crate::commands::{Invocation, PrefixArg};
use crate::buffer::overlay::OverlayTable;
use crate::buffer::scan::ScanCache;
use crate::buffer::syntax::SyntaxCache;
use crate::buffer::undo::{GroupView, UndoHistory};
use crate::input::KeyEvent;

verus! {

/// A text and what the editor keeps beside it.
///
/// `F` is the face an overlay is drawn in, `R` the scanner's checkpoint, `S`
/// a highlighted span and `T` the highlighter's lexer state: each belongs to
/// the layer that produces it, and the buffer only holds them.
pub struct Buffer<B, F, R, S, T> {
    pub name: String,
    pub text: B,
    pub file_path: Option<String>,
    pub is_modified: bool,
    /// Keys bound for this buffer alone, each to a command's name.
    pub local_keymap: Option<Vec<(KeyEvent, String)>>,
    pub current_mode: String,
    /// This buffer's edit history: recorded changes for undo and redo.
    pub undo: UndoHistory,
    /// Faces put on this buffer's text by something other than its mode: a
    /// search marking its matches, a diagnostic from elsewhere. Unlike
    /// everything else here that knows a position, these survive edits.
    pub overlays: OverlayTable<F>,
    /// Where the mark is, when this buffer has one.
    pub mark: Option<Mark>,
    /// Bumped by every change to the text, so that a result computed from an
    /// older text can be recognised and refused.
    pub version: u64,
    /// What has been worked out about reading this buffer as balanced
    /// expressions.
    pub scan: ScanCache<R>,
    /// What has been worked out about colouring this buffer.
    pub syntax: SyntaxCache<S, T>,
    /// Whether this buffer refuses to have its text changed. Point still
    /// moves freely: reading a read-only buffer is the point of having one.
    pub read_only: bool,
}

impl<B: BufferTrait, F, R, S, T> Buffer<B, F, R, S, T> {
    /// Whether every part of the buffer is in order.
    pub open spec fn wf(&self) -> bool {
        &&& self.text.wf()
        &&& self.undo.inv()
        &&& self.overlays.inv()
        &&& self.scan.inv()
        &&& self.syntax.inv()
    }

    /// Everything a fresh buffer starts with, around TEXT.
    pub open spec fn fresh(&self, name: Seq<char>) -> bool {
        &&& self.wf()
        &&& self.name@ == name
        &&& self.text.point() == 0
        &&& self.file_path is None
        &&& !self.is_modified
        &&& self.local_keymap is None
        &&& self.current_mode@ == "fundamental-mode"@
        &&& self.undo.done() == Seq::<GroupView>::empty()
        &&& self.undo.undone() == Seq::<GroupView>::empty()
        &&& self.undo.open() is None
        &&& self.overlays@.len() == 0
        &&& self.mark is None
        &&& self.version == 0
        &&& self.scan.valid_points().len() == 0
        &&& self.syntax.spec_valid_to() == 0
        &&& !self.read_only
    }

    /// An empty buffer called NAME.
    pub fn new(name: &str) -> (r: Self)
        ensures
            r.fresh(name@),
            r.text@ == Seq::<char>::empty(),
    {
        Self::with_text(name, B::new_empty())
    }

    /// A buffer called NAME holding TEXT, with point at its start.
    pub fn from_text(name: &str, text: &str) -> (r: Self)
        requires
            text@.len() <= max_text_len(),
        ensures
            r.fresh(name@),
            r.text@ == text@,
    {
        Self::with_text(name, B::from_text(text))
    }

    fn with_text(name: &str, text: B) -> (r: Self)
        requires
            text.wf(),
            text.point() == 0,
        ensures
            r.fresh(name@),
            r.text == text,
    {
        let mode = String::from_str("fundamental-mode");
        proof {
            reveal_strlit("fundamental-mode");
        }
        Self {
            name: name.to_owned(),
            text,
            file_path: None,
            is_modified: false,
            local_keymap: None,
            current_mode: mode,
            undo: UndoHistory::default(),
            mark: None,
            overlays: OverlayTable::default(),
            version: 0,
            scan: ScanCache::default(),
            syntax: SyntaxCache::default(),
            read_only: false,
        }
    }

    /// Where a scan of this buffer that will be asked about POS may carry on
    /// from, or nothing when it has to start at the top.
    ///
    /// Here rather than at each call site because the three things that
    /// decide it -- the version, the mode and the line POS is on -- all live
    /// on the buffer, and a caller that read two of them and forgot the third
    /// would get a plausible answer computed under the wrong table.
    pub fn scan_resume(&self, pos: usize) -> (r: Option<&R>)
        requires
            self.wf(),
        ensures
            ({
                let p = if pos <= self.text@.len() {
                    pos as int
                } else {
                    self.text@.len() as int
                };
                let line = offset_to_line_col(self.text@, p).0;
                let n = self.scan.valid_points().len();
                let index = if line / 64 <= n {
                    line / 64
                } else {
                    n as int
                };
                if self.version != self.scan.spec_version() || self.current_mode@ != self.scan.spec_mode()
                    || index == 0 {
                    r is None
                } else {
                    r == Some(&self.scan.valid_points()[index - 1])
                }
            }),
    {
        let len = self.text.len();
        let p = if pos <= len {
            pos
        } else {
            len
        };
        let line = self.text.cursor_1d_to_2d(p).0;
        self.scan.resume_for(self.current_mode.as_str(), self.version, line)
    }

    /// Put point at POINT, as far as the text reaches, and the mark at MARK
    /// -- or take the mark away. This is how a search shows what it found:
    /// point at one end of the match and the mark at the other, so the match
    /// is the region and whatever draws a selection draws it.
    pub fn place(&mut self, point: usize, mark: Option<usize>)
        requires
            old(self).wf(),
        ensures
            final(self).wf(),
            final(self).text@ == old(self).text@,
            final(self).text.point() == (if point <= old(self).text@.len() {
                point as nat
            } else {
                old(self).text@.len()
            }),
            final(self).mark == (match mark {
                Some(at) => Some(Mark { at, active: true }),
                None => None,
            }),
    {
        self.mark = match mark {
            Some(at) => Some(Mark::new(at)),
            None => None,
        };
        let len = self.text.len();
        let target = if point <= len {
            point
        } else {
            len
        };
        let (line, col) = self.text.cursor_1d_to_2d(target);
        proof {
            self.text.lemma_wf();
            lemma_line_col_offset(self.text@, target as int);
        }
        self.text.cursor_move(line, col);
    }

    /// What the editor can answer on the user's behalf for a command starting
    /// now in this buffer: the prefix argument, and the active region as it
    /// stands, ordered and clamped. Taken once, when the command starts.
    pub fn invocation(&self, prefix_arg: Option<PrefixArg>) -> (r: Invocation)
        requires
            self.wf(),
        ensures
            r.prefix_arg == prefix_arg,
            r.region matches Some(b) ==> spec_region(self.mark, self.text.point() as int, self.text@.len() as int)
                == Some((b.0 as int, b.1 as int)),
            r.region is None ==> spec_region(self.mark, self.text.point() as int, self.text@.len() as int) is None,
    {
        let region = region_bounds(self.mark, self.text.cursor_pos_1d(), self.text.len());
        Invocation { prefix_arg, region }
    }
}

} // verus!
