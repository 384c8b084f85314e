//! Recursive import resolution, as a step machine.
//!
//! A configuration document is an ordered list of import references plus a
//! fragment of command entries.  Loading starts from a root document and
//! walks the imports depth-first, in list order; a document's own entries
//! are merged only after all of its imports, so they are rejected against
//! everything merged before them.  Reading and parsing files is not this
//! library's business: the [`Loader`] asks for one document at a time by
//! its resolved path, and the caller answers with the parsed document, so
//! the whole merge order and every duplicate decision stay verified here.

use vstd::prelude::*;

use crate::config::{
    CommandEntry, Config, EntryView, entries_view, merge_seq, strings_view, tree_wf,
};
use crate::config::lemma_merge_preserves_wf;
use crate::error::{ErrorView, HumorError};

verus! {

/// One parsed configuration document: its import references, in order,
/// and its own command entries.  Transient — consumed by the merge.
pub struct ConfigDocument {
    pub imports: Vec<String>,
    pub entries: Vec<CommandEntry>,
}

/// Ghost mirror of [`ConfigDocument`].
#[verifier::ext_equal]
pub ghost struct DocumentView {
    pub imports: Seq<Seq<char>>,
    pub entries: Seq<EntryView>,
}

impl View for ConfigDocument {
    type V = DocumentView;

    open spec fn view(&self) -> DocumentView {
        DocumentView { imports: strings_view(self.imports@), entries: entries_view(self.entries@) }
    }
}

/// A document whose imports are still being walked: the directory its
/// own imports resolve against, the imports with the index of the next
/// one to load, and its own entries, kept back until the imports are
/// done.
pub(crate) struct Frame {
    pub(crate) base_dir: String,
    pub(crate) imports: Vec<String>,
    pub(crate) next_import: usize,
    pub(crate) entries: Vec<CommandEntry>,
}

/// Ghost mirror of a pending document.
#[verifier::ext_equal]
pub ghost struct FrameView {
    pub base_dir: Seq<char>,
    pub imports: Seq<Seq<char>>,
    pub next_import: int,
    pub entries: Seq<EntryView>,
}

impl View for Frame {
    type V = FrameView;

    closed spec fn view(&self) -> FrameView {
        FrameView {
            base_dir: self.base_dir@,
            imports: strings_view(self.imports@),
            next_import: self.next_import as int,
            entries: entries_view(self.entries@),
        }
    }
}

/// What a loading step asks of the caller: read and parse the document at
/// a path, or nothing — loading is complete.
#[derive(Debug, PartialEq, Eq)]
pub enum LoadStep {
    NeedFile(String),
    Done,
}

/// The state of one load: the tree accumulated so far, the stack of
/// documents whose imports are still being walked, and the path whose
/// document is awaited, if any.
pub struct Loader {
    tree: Config,
    frames: Vec<Frame>,
    pending: Option<String>,
}

/// Ghost mirror of the loader state.
#[verifier::ext_equal]
pub ghost struct LoaderView {
    pub tree: Seq<EntryView>,
    pub frames: Seq<FrameView>,
    pub pending: Option<Seq<char>>,
}

impl View for Loader {
    type V = LoaderView;

    closed spec fn view(&self) -> LoaderView {
        LoaderView {
            tree: self.tree@,
            frames: self.frames@.map_values(|f: Frame| f@),
            pending: match self.pending {
                Some(p) => Some(p@),
                None => None,
            },
        }
    }
}

/// Where the last path separator splits `p`: the length of the part
/// before it, or zero if `p` holds no separator.
pub open spec fn parent_len(p: Seq<char>) -> int
    decreases p.len(),
{
    if p.len() == 0 {
        0
    } else if p.last() == '/' {
        p.len() - 1
    } else {
        parent_len(p.drop_last())
    }
}

/// The containing directory of the document at `p`: everything before
/// the last path separator, or empty if there is none.
pub open spec fn parent_dir_of(p: Seq<char>) -> Seq<char> {
    p.take(parent_len(p))
}

/// A path under a directory: the file alone when the directory is empty,
/// else the two joined by a separator.
pub open spec fn joined_path(dir: Seq<char>, file: Seq<char>) -> Seq<char> {
    if dir.len() == 0 {
        file
    } else {
        dir + "/"@ + file
    }
}

/// What one advance of the walk does to a loader state: with no pending
/// document, either ask for the top document's next import, resolved
/// against that document's directory; or, its imports done, merge its
/// entries and pop it, stopping at the first duplicate; or, the stack
/// empty, report the load complete.  Exactly one of `request` and `dup`
/// is set unless the load is complete, in which case neither is.
#[verifier::ext_equal]
pub ghost struct AdvanceView {
    pub tree: Seq<EntryView>,
    pub frames: Seq<FrameView>,
    pub request: Option<Seq<char>>,
    pub dup: Option<EntryView>,
}

/// The walk itself, one import request at a time; see [`AdvanceView`].
pub open spec fn spec_advance(tree: Seq<EntryView>, frames: Seq<FrameView>) -> AdvanceView
    decreases frames.len(),
{
    if frames.len() == 0 {
        AdvanceView { tree, frames, request: None, dup: None }
    } else {
        let top = frames.last();
        if top.next_import < top.imports.len() {
            let stepped = FrameView {
                base_dir: top.base_dir,
                imports: top.imports,
                next_import: top.next_import + 1,
                entries: top.entries,
            };
            AdvanceView {
                tree,
                frames: frames.update(frames.len() - 1, stepped),
                request: Some(joined_path(top.base_dir, top.imports[top.next_import])),
                dup: None,
            }
        } else {
            let out = merge_seq(tree, top.entries);
            match out.dup {
                None => spec_advance(out.tree, frames.drop_last()),
                Some(e) => AdvanceView {
                    tree: out.tree,
                    frames: frames.drop_last(),
                    request: None,
                    dup: Some(e),
                },
            }
        }
    }
}

/// Law: the walk preserves the tree invariant — whatever documents a
/// load merges, and wherever it stops, the tree it leaves behind never
/// holds two entries with the same (domain, name) pair, if the tree it
/// started from did not.
pub proof fn lemma_advance_preserves_wf(tree: Seq<EntryView>, frames: Seq<FrameView>)
    requires
        tree_wf(tree),
    ensures
        tree_wf(spec_advance(tree, frames).tree),
    decreases frames.len(),
{
    if frames.len() == 0 {
    } else {
        let top = frames.last();
        if top.next_import < top.imports.len() {
        } else {
            lemma_merge_preserves_wf(tree, top.entries);
            if merge_seq(tree, top.entries).dup is None {
                lemma_advance_preserves_wf(merge_seq(tree, top.entries).tree, frames.drop_last());
            }
        }
    }
}

fn parent_dir(path: &str) -> (r: String)
    ensures
        r@ == parent_dir_of(path@),
{
    let n = path.unicode_len();
    proof {
        assert(path@.take(n as int) =~= path@);
    }
    let mut i: usize = n;
    while i > 0
        invariant
            0 <= i <= n,
            n == path@.len(),
            parent_len(path@) == parent_len(path@.take(i as int)),
        decreases i,
    {
        proof {
            assert(path@.take(i as int).last() == path@[i as int - 1]);
        }
        if path.get_char(i - 1) == '/' {
            let r = path.substring_char(0, i - 1).to_owned();
            proof {
                assert(path@.take(i as int - 1) =~= path@.subrange(0, i as int - 1));
            }
            return r;
        }
        proof {
            assert(path@.take(i as int).drop_last() =~= path@.take(i as int - 1));
        }
        i -= 1;
    }
    proof {
        assert(path@.take(0) =~= Seq::<char>::empty());
    }
    String::new()
}

fn join_path(dir: &str, file: &str) -> (r: String)
    ensures
        r@ == joined_path(dir@, file@),
{
    if dir.unicode_len() == 0 {
        file.to_owned()
    } else {
        dir.to_owned().concat("/").concat(file)
    }
}

/// The well-known path of the default configuration under the user's
/// home directory; it is loaded before the user's own document, and
/// treated as empty if absent.
pub fn default_config_path(home: &str) -> (r: String)
    ensures
        r@ == home@ + "/.humors/humor-base.yaml"@,
{
    home.to_owned().concat("/.humors/humor-base.yaml")
}

impl Loader {
    /// A fresh load, about to ask for the root document at `root_path`.
    pub fn start(root_path: String) -> (r: Loader)
        ensures
            r@.tree == Seq::<EntryView>::empty(),
            r@.frames == Seq::<FrameView>::empty(),
            r@.pending == Some(root_path@),
    {
        let r = Loader { tree: Config::new(), frames: Vec::new(), pending: Some(root_path) };
        proof {
            assert(r@.frames =~= Seq::<FrameView>::empty());
        }
        r
    }

    /// Whether the loader is waiting for a document to be handed in.
    pub fn awaiting(&self) -> (r: bool)
        ensures
            r == (self@.pending is Some),
    {
        self.pending.is_some()
    }

    /// The error for the awaited document turning out to be unreadable:
    /// `FileNotFound` naming the resolved path that was asked for.
    pub fn missing_file(&self) -> (r: HumorError)
        requires
            self@.pending is Some,
        ensures
            r@ == ErrorView::FileNotFound(self@.pending->Some_0),
    {
        match &self.pending {
            Some(p) => HumorError::FileNotFound(p.clone()),
            None => {
                proof {
                    assert(false);
                }
                HumorError::InvalidCommandStructure
            },
        }
    }

    /// Hand in the document that was asked for.  Its frame is pushed —
    /// its imports will be walked before its own entries are merged —
    /// and the walk advances to the next request, to completion, or to
    /// the first duplicate.
    pub fn provide(&mut self, doc: ConfigDocument) -> (r: Result<LoadStep, HumorError>)
        requires
            old(self)@.pending is Some,
        ensures
            ({
                let frame = FrameView {
                    base_dir: parent_dir_of(old(self)@.pending->Some_0),
                    imports: doc@.imports,
                    next_import: 0,
                    entries: doc@.entries,
                };
                let adv = spec_advance(old(self)@.tree, old(self)@.frames.push(frame));
                &&& final(self)@.tree == adv.tree
                &&& final(self)@.frames == adv.frames
                &&& match r {
                    Ok(LoadStep::NeedFile(p)) => adv.dup is None && adv.request is Some && p@
                        == adv.request->Some_0 && final(self)@.pending == adv.request,
                    Ok(LoadStep::Done) => adv.request is None && adv.dup is None
                        && final(self)@.pending is None,
                    Err(e) => adv.dup is Some && adv.request is None && e@
                        == (ErrorView::DuplicateCommand {
                        domain: adv.dup->Some_0.domain,
                        command: adv.dup->Some_0.name,
                    }) && final(self)@.pending is None,
                }
            }),
    {
        let path = match &self.pending {
            Some(p) => p.clone(),
            None => {
                proof {
                    assert(false);
                }
                String::new()
            },
        };
        let base_dir = parent_dir(path.as_str());
        let frame = Frame {
            base_dir,
            imports: doc.imports,
            next_import: 0,
            entries: doc.entries,
        };
        self.frames.push(frame);
        self.pending = None;
        proof {
            assert(self@.frames =~= old(self)@.frames.push(
                FrameView {
                    base_dir: parent_dir_of(old(self)@.pending->Some_0),
                    imports: strings_view(doc.imports@),
                    next_import: 0,
                    entries: entries_view(doc.entries@),
                },
            ));
        }
        self.advance()
    }

    /// Walk until the next import request, completion, or duplicate.
    fn advance(&mut self) -> (r: Result<LoadStep, HumorError>)
        requires
            old(self)@.pending is None,
        ensures
            ({
                let adv = spec_advance(old(self)@.tree, old(self)@.frames);
                &&& final(self)@.tree == adv.tree
                &&& final(self)@.frames == adv.frames
                &&& match r {
                    Ok(LoadStep::NeedFile(p)) => adv.dup is None && adv.request is Some && p@
                        == adv.request->Some_0 && final(self)@.pending == adv.request,
                    Ok(LoadStep::Done) => adv.request is None && adv.dup is None
                        && final(self)@.pending is None,
                    Err(e) => adv.dup is Some && adv.request is None && e@
                        == (ErrorView::DuplicateCommand {
                        domain: adv.dup->Some_0.domain,
                        command: adv.dup->Some_0.name,
                    }) && final(self)@.pending is None,
                }
            }),
        decreases old(self)@.frames.len(),
    {
        let ghost frames0 = self@.frames;
        if self.frames.len() == 0 {
            return Ok(LoadStep::Done);
        }
        let mut top = match self.frames.pop() {
            Some(f) => f,
            None => {
                proof {
                    assert(false);
                }
                Frame {
                    base_dir: String::new(),
                    imports: Vec::new(),
                    next_import: 0,
                    entries: Vec::new(),
                }
            },
        };
        proof {
            assert(frames0.last() == top@);
            assert(self@.frames =~= frames0.drop_last());
        }
        if top.next_import < top.imports.len() {
            let imp = top.imports[top.next_import].clone();
            let path = join_path(top.base_dir.as_str(), imp.as_str());
            top.next_import = top.next_import + 1;
            let ghost stepped = top@;
            self.frames.push(top);
            self.pending = Some(path.clone());
            proof {
                assert(self@.frames =~= frames0.update(frames0.len() - 1, stepped));
            }
            Ok(LoadStep::NeedFile(path))
        } else {
            match self.tree.merge_entries(&top.entries) {
                Ok(()) => self.advance(),
                Err(e) => Err(e),
            }
        }
    }

    /// Take the accumulated tree out of the loader.
    pub fn finish(self) -> (r: Config)
        ensures
            r@ == self@.tree,
    {
        self.tree
    }
}

} // verus!
