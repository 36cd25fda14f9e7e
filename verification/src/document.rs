use vstd::prelude::*;

use crate::changeset::ChangeSet;
use crate::history::History;
use crate::lsp::{
    events_m, events_of, Client, Position, TextDocumentIdentifier, VersionedTextDocumentIdentifier,
};
use crate::ops::{apply_ops, copy_chars, len_out};
use crate::selection::Selection;
use crate::state::State;
use crate::syntax::{LanguageConfiguration, Loader, Syntax};
use crate::transaction::Transaction;
use crate::uri::file_url;
use crate::Mode;
use vstd::pervasive::unreached;

verus! {

/// One analysis finding attached to the document, kept by position.
pub struct Diagnostic {
    pub start: usize,
    pub end: usize,
    pub line: usize,
    pub message: String,
}

/// A single open document: its text and selection, the pending change-set
/// since the last commit, the undo history, and the derived views that
/// every edit must keep consistent.
pub struct Document {
    pub state: State,
    /// Absolute file path on disk.
    pub path: Option<String>,
    /// Current editing mode.
    pub mode: Mode,
    pub restore_cursor: bool,
    /// Derived parse state.
    pub syntax: Option<Syntax>,
    /// Language scope name, usually `source.<lang>`.
    pub language: Option<String>,
    /// Changes composed since the last commit.
    pub changes: ChangeSet,
    /// State at the last commit, captured at the first uncommitted edit.
    pub old_state: Option<State>,
    /// Undo history.
    pub history: History,
    /// Document version, incremented once per committed revision.
    pub version: i32,
    pub diagnostics: Vec<Diagnostic>,
    /// Binding to the external analysis service.
    pub language_server: Option<Client>,
}

impl Document {
    /// Every representation agrees: the pending change-set carries the
    /// checkpoint to the current text, a checkpoint exists exactly while
    /// edits are pending, the history stands at the committed text, a
    /// trusted parse state reflects the current text, and a set path is
    /// absolute.
    pub open spec fn wf(&self) -> bool {
        &&& self.state.wf()
        &&& self.changes.wf()
        &&& self.history.wf()
        &&& self.version >= 0
        &&& self.changes.len_after == self.state@.doc.len()
        &&& match self.old_state {
            Some(os) => {
                &&& os.wf()
                &&& !self.changes.is_identity()
                &&& self.changes.len == os@.doc.len()
                &&& apply_ops(self.changes.m(), os@.doc) == self.state@.doc
                &&& self.history.current() == os@.doc
            },
            None => {
                &&& self.changes.is_identity()
                &&& self.changes.len == self.state@.doc.len()
                &&& self.history.current() == self.state@.doc
            },
        }
        &&& match self.syntax {
            Some(sy) => sy.valid ==> sy.text@ == self.state@.doc,
            None => true,
        }
        &&& match self.path {
            Some(p) => p@.len() > 0 && p@[0] == '/',
            None => true,
        }
    }

    /// A fresh document over the given state: version 0, no pending
    /// changes, no checkpoint, empty history.
    pub fn new(state: State) -> (r: Document)
        requires
            state.wf(),
        ensures
            r.wf(),
            r.state@ == state@,
            r.version == 0,
            r.mode == Mode::Normal,
            !r.restore_cursor,
            r.path is None,
            r.syntax is None,
            r.language is None,
            r.language_server is None,
            r.old_state is None,
            r.diagnostics@.len() == 0,
            r.changes.is_identity(),
            r.history.revisions@.len() == 0,
            r.history.cursor == 0,
    {
        let changes = ChangeSet::new(&state.doc);
        let ghost d = state@.doc;
        let history = History::new(Ghost(d));
        let r = Document {
            state,
            path: None,
            mode: Mode::Normal,
            restore_cursor: false,
            syntax: None,
            language: None,
            changes,
            old_state: None,
            history,
            version: 0,
            diagnostics: Vec::new(),
            language_server: None,
        };
        r
    }

    /// Replace the selection directly, outside any transaction.
    pub fn set_selection(&mut self, selection: Selection)
        requires
            old(self).wf(),
            selection.wf(),
        ensures
            final(self).wf(),
            final(self).state@.doc == old(self).state@.doc,
            final(self).state@.ranges == selection.ranges@,
            final(self).state@.primary == selection.primary_index as int,
            *final(self) == (Document { state: final(self).state, ..*old(self) }),
    {
        self.state.selection = selection;
    }

    /// Set or clear the absolute file path.
    pub fn set_path(&mut self, path: Option<String>)
        requires
            old(self).wf(),
            match path {
                Some(p) => p@.len() > 0 && p@[0] == '/',
                None => true,
            },
        ensures
            final(self).wf(),
            final(self).path == path,
            *final(self) == (Document { path: final(self).path, ..*old(self) }),
    {
        self.path = path;
    }

    /// Take on a language configuration: record its scope and rebuild the
    /// parse state from the whole current text. `None` clears both.
    pub fn set_language(&mut self, language_config: Option<&LanguageConfiguration>)
        requires
            old(self).wf(),
        ensures
            final(self).wf(),
            match language_config {
                Some(c) => final(self).language is Some && final(self).language.unwrap()@
                    == c.scope@ && final(self).syntax is Some
                    && final(self).syntax.unwrap().valid && final(self).syntax.unwrap().text@
                    == old(self).state@.doc,
                None => final(self).language is None && final(self).syntax is None,
            },
            *final(self) == (Document {
                language: final(self).language,
                syntax: final(self).syntax,
                ..*old(self)
            }),
    {
        match language_config {
            Some(config) => {
                self.language = Some(config.scope.clone());
                self.syntax = Some(Syntax::new(&self.state.doc));
            },
            None => {
                self.syntax = None;
                self.language = None;
            },
        }
    }

    /// Look a scope up in the registry and take on what it finds: an
    /// unknown scope clears language and parse state.
    pub fn set_language2(&mut self, scope: &String, loader: &Loader)
        requires
            old(self).wf(),
        ensures
            final(self).wf(),
            loader.has_scope(scope@) ==> final(self).language is Some
                && final(self).language.unwrap()@ == scope@ && final(self).syntax is Some,
            !loader.has_scope(scope@) ==> final(self).language is None
                && final(self).syntax is None,
            *final(self) == (Document {
                language: final(self).language,
                syntax: final(self).syntax,
                ..*old(self)
            }),
    {
        let language_config = loader.language_config_for_scope(scope);
        self.set_language(language_config);
    }

    /// Bind or unbind the external analysis service.
    pub fn set_language_server(&mut self, language_server: Option<Client>)
        requires
            old(self).wf(),
        ensures
            final(self).wf(),
            final(self).language_server == language_server,
            *final(self) == (Document {
                language_server: final(self).language_server,
                ..*old(self)
            }),
    {
        self.language_server = language_server;
    }
}

impl Document {
    /// Carry one transaction through the dependent views: mutate the
    /// state, bring the parse state along, and queue the protocol events
    /// tagged with the current version. The pending change-set, history
    /// and version are untouched.
    fn apply_inner(&mut self, transaction: &Transaction) -> (success: bool)
        requires
            old(self).state.wf(),
            transaction.wf(),
        ensures
            success <==> transaction.changes.len == old(self).state@.doc.len(),
            final(self).changes == old(self).changes,
            final(self).old_state == old(self).old_state,
            final(self).history == old(self).history,
            final(self).version == old(self).version,
            final(self).path == old(self).path,
            final(self).language == old(self).language,
            final(self).mode == old(self).mode,
            final(self).restore_cursor == old(self).restore_cursor,
            final(self).diagnostics == old(self).diagnostics,
            final(self).state.wf(),
            success ==> final(self).state@.doc == transaction.changes.applied(
                old(self).state@.doc,
            ),
            success ==> final(self).state@.doc.len() == len_out(transaction.changes.m()),
            success ==> match transaction.selection {
                Some(sel) => final(self).state@.ranges == sel.ranges@ && final(self).state@.primary == sel.primary_index as int,
                None => final(self).state@.ranges == old(self).state@.ranges && final(self).state@.primary == old(self).state@.primary,
            },
            !success ==> final(self).state == old(self).state,
            !success ==> final(self).syntax == old(self).syntax,
            !success ==> final(self).language_server == old(self).language_server,
            transaction.changes.is_identity() ==> final(self).syntax == old(self).syntax
                && final(self).language_server == old(self).language_server,
            success ==> match old(self).syntax {
                Some(sy) => final(self).syntax is Some && (
                transaction.changes.is_identity() ==> final(self).syntax == old(self).syntax) && (
                (!transaction.changes.is_identity() && sy.valid && sy.text@.len()
                    == transaction.changes.len) ==> (final(self).syntax.unwrap().valid && final(self).syntax.unwrap().text@ == final(self).state@.doc)) && (!sy.valid ==> !final(self).syntax.unwrap().valid),
                None => final(self).syntax is None,
            },
            success ==> match old(self).language_server {
                Some(client) => final(self).language_server is Some && ({
                    let newc = final(self).language_server.unwrap();
                    &&& newc.uri == client.uri
                    &&& (transaction.changes.is_identity() ==> newc == client)
                    &&& (!transaction.changes.is_identity() ==> (newc.pending@.len()
                        == client.pending@.len() + 1 && (forall|k: int|
                        0 <= k < client.pending@.len() ==> #[trigger] newc.pending@[k]
                            == client.pending@[k]) && newc.pending@.last().version == old(self).version && events_m(newc.pending@.last().events@) == events_of(
                        transaction.changes.m(),
                        old(self).state@.doc,
                        Position { line: 0, character: 0 },
                    )))
                }),
                None => final(self).language_server is None,
            },
    {
        let old_doc = copy_chars(&self.state.doc);
        let success = transaction.apply(&mut self.state);
        if !success {
            return false;
        }
        if !transaction.changes.is_empty() {
            match &mut self.syntax {
                Some(sy) => {
                    let _updated = sy.update(&self.state.doc, &transaction.changes);
                },
                None => {},
            }
            let version = self.version;
            match &mut self.language_server {
                Some(client) => {
                    client.text_document_did_change(
                        version,
                        &old_doc,
                        &self.state.doc,
                        &transaction.changes,
                    );
                },
                None => {},
            }
        }
        true
    }

    /// Apply a transaction: capture a checkpoint at the first pending
    /// edit, carry the edit through state, parse state and notification
    /// queue, and compose it into the pending change-set. Returns false,
    /// changing nothing, exactly when the transaction does not fit the
    /// text. The version does not move: only commits move it.
    pub fn apply(&mut self, transaction: &Transaction) -> (success: bool)
        requires
            old(self).wf(),
            transaction.wf(),
        ensures
            final(self).wf(),
            success <==> transaction.changes.len == old(self).state@.doc.len(),
            final(self).version == old(self).version,
            final(self).history == old(self).history,
            success ==> final(self).state@.doc == transaction.changes.applied(
                old(self).state@.doc,
            ),
            success ==> match transaction.selection {
                Some(sel) => final(self).state@.ranges == sel.ranges@ && final(self).state@.primary == sel.primary_index as int,
                None => final(self).state@.ranges == old(self).state@.ranges && final(self).state@.primary == old(self).state@.primary,
            },
            !success ==> *final(self) == *old(self),
            (success && old(self).changes.is_identity() && !transaction.changes.is_identity())
                ==> (final(self).old_state is Some && final(self).old_state.unwrap()@ == old(self).state@
                    && final(self).changes.m() == transaction.changes.m()
                    && !final(self).changes.is_identity()),
            (success && !old(self).changes.is_identity() && !final(self).changes.is_identity())
                ==> final(self).old_state == old(self).old_state,
            success ==> (final(self).changes.is_identity() <==> final(self).old_state is None),
            (success && transaction.changes.is_identity()) ==> final(self).old_state == old(self).old_state && final(self).changes == old(self).changes,
            success ==> match old(self).syntax {
                Some(sy) => final(self).syntax is Some && (
                transaction.changes.is_identity() ==> final(self).syntax == old(self).syntax) && (
                (!transaction.changes.is_identity() && sy.valid) ==> (final(self).syntax.unwrap().valid && final(self).syntax.unwrap().text@ == final(self).state@.doc)) && (!sy.valid ==> !final(self).syntax.unwrap().valid),
                None => final(self).syntax is None,
            },
            success ==> match old(self).language_server {
                Some(client) => final(self).language_server is Some && ({
                    let newc = final(self).language_server.unwrap();
                    &&& newc.uri == client.uri
                    &&& (transaction.changes.is_identity() ==> newc == client)
                    &&& (!transaction.changes.is_identity() ==> (newc.pending@.len()
                        == client.pending@.len() + 1 && (forall|k: int|
                        0 <= k < client.pending@.len() ==> #[trigger] newc.pending@[k]
                            == client.pending@[k]) && newc.pending@.last().version == old(self).version && events_m(newc.pending@.last().events@) == events_of(
                        transaction.changes.m(),
                        old(self).state@.doc,
                        Position { line: 0, character: 0 },
                    )))
                }),
                None => final(self).language_server is None,
            },
    {
        if transaction.changes.len != self.state.doc.len() {
            return false;
        }
        let txn_empty = transaction.changes.is_empty();
        if self.changes.is_empty() && !txn_empty {
            proof {
                self.changes.lemma_identity_len();
                if self.old_state is Some {
                    self.changes.lemma_identity_applied(self.old_state.unwrap()@.doc);
                }
            }
            let snap = self.state.snapshot();
            proof {
                self.changes.lemma_identity_applied(snap@.doc);
            }
            self.old_state = Some(snap);
        }
        let ghost pending0 = self.changes;
        let ghost osd0: Seq<char> = if self.old_state is Some {
            self.old_state.unwrap()@.doc
        } else {
            Seq::<char>::empty()
        };
        proof {
            if !txn_empty {
                assert(self.old_state is Some);
                assert(pending0.len == osd0.len());
                assert(apply_ops(pending0.m(), osd0) == self.state@.doc);
                assert(self.history.current() == osd0);
            }
        }
        let ghost mid = *self;
        let success = self.apply_inner(transaction);
        proof {
            assert(success);
        }
        if !txn_empty {
            let composed = self.changes.compose(&transaction.changes);
            self.changes = composed;
            proof {
                assert(self.old_state.unwrap()@.doc == osd0);
                assert(apply_ops(self.changes.m(), osd0) == apply_ops(
                    transaction.changes.m(),
                    apply_ops(pending0.m(), osd0),
                ));
                assert(apply_ops(pending0.m(), osd0) == mid.state@.doc);
            }
            if self.changes.is_empty() {
                // the edits since the checkpoint cancelled out: the text is
                // back at the checkpoint, so no checkpoint is needed
                proof {
                    self.changes.lemma_identity_applied(osd0);
                    self.changes.lemma_identity_len();
                }
                self.old_state = None;
            }
        } else {
            proof {
                transaction.changes.lemma_identity_applied(old(self).state@.doc);
            }
        }
        success
    }

    /// Fold the pending change-set into one history revision: build a
    /// transaction from it and the current selection, push it with its
    /// inverse, advance the version, and reset the accumulator. A no-op
    /// while nothing is pending.
    pub fn append_changes_to_history(&mut self)
        requires
            old(self).wf(),
            !old(self).changes.is_identity() ==> old(self).version < i32::MAX,
        ensures
            final(self).wf(),
            old(self).changes.is_identity() ==> *final(self) == *old(self),
            !old(self).changes.is_identity() ==> ({
                &&& final(self).version == old(self).version + 1
                &&& final(self).old_state is None
                &&& final(self).changes.is_identity()
                &&& final(self).state == old(self).state
                &&& final(self).history.cursor == old(self).history.cursor + 1
                &&& final(self).history.revisions@.len() == old(self).history.cursor + 1
                &&& final(self).history.current() == old(self).state@.doc
                &&& final(self).history.texts@ == old(self).history.texts@.take(
                    old(self).history.cursor + 1,
                ).push(old(self).state@.doc)
                &&& final(self).history.revisions@.last().transaction.selection is Some
                &&& final(self).history.revisions@.last().transaction.selection.unwrap().ranges@ == old(self).state@.ranges
                &&& final(self).history.revisions@.last().inversion.selection is Some
                &&& final(self).history.revisions@.last().inversion.selection.unwrap().ranges@ == old(self).old_state.unwrap()@.ranges
                &&& final(self).history.revisions@.last().inversion.selection.unwrap().primary_index as int
                    == old(self).old_state.unwrap()@.primary
                &&& final(self).syntax == old(self).syntax
                &&& final(self).language_server == old(self).language_server
                &&& final(self).path == old(self).path
            }),
    {
        if self.changes.is_empty() {
            return;
        }
        let os = match &self.old_state {
            Some(st) => st.snapshot(),
            None => unreached(),
        };
        self.old_state = None;
        let pending = self.changes.snapshot();
        let cs_new = ChangeSet::new(&self.state.doc);
        self.changes = cs_new;
        let sel = self.state.selection.snapshot();
        let transaction = Transaction::from_changes(pending).with_selection(sel);
        self.version = self.version + 1;
        self.history.commit_revision(transaction, &os);
    }

    /// Step one committed revision back. Pending edits are committed
    /// first, so an undo directly after edits restores the state just
    /// before them, text and selection alike. The inverse runs through the
    /// same path as `apply`, so the parse state follows the text and the
    /// events are queued, and the checkpoint is cleared. Returns false,
    /// changing nothing, when there is nothing to undo.
    pub fn undo(&mut self) -> (success: bool)
        requires
            old(self).wf(),
            !old(self).changes.is_identity() ==> old(self).version < i32::MAX - 1,
            (old(self).changes.is_identity() && old(self).history.cursor > 0) ==> old(self).version < i32::MAX,
        ensures
            final(self).wf(),
            final(self).changes.is_identity(),
            final(self).old_state is None,
            (old(self).changes.is_identity() && old(self).history.cursor == 0) ==> (!success
                && *final(self) == *old(self)),
            (old(self).changes.is_identity() && old(self).history.cursor > 0) ==> ({
                let stored = old(self).history.revisions@[old(self).history.cursor
                    - 1].inversion;
                &&& success
                &&& final(self).version == old(self).version + 1
                &&& final(self).history.cursor == old(self).history.cursor - 1
                &&& final(self).history.revisions@ == old(self).history.revisions@
                &&& final(self).history.texts@ == old(self).history.texts@
                &&& final(self).state@.doc == old(self).history.texts@[old(self).history.cursor - 1]
                &&& stored.selection is Some ==> (final(self).state@.ranges
                    == stored.selection.unwrap().ranges@ && final(self).state@.primary
                    == stored.selection.unwrap().primary_index as int)
            }),
            !old(self).changes.is_identity() ==> ({
                &&& success
                &&& final(self).version == old(self).version + 2
                &&& final(self).state@.doc == old(self).old_state.unwrap()@.doc
                &&& final(self).state@.ranges == old(self).old_state.unwrap()@.ranges
                &&& final(self).state@.primary == old(self).old_state.unwrap()@.primary
            }),
            success ==> match old(self).syntax {
                Some(sy) => final(self).syntax is Some && (sy.valid ==> (final(self).syntax.unwrap().valid && final(self).syntax.unwrap().text@ == final(self).state@.doc)) && (!sy.valid ==> !final(self).syntax.unwrap().valid),
                None => final(self).syntax is None,
            },
            success ==> ({
                let stored = final(self).history.revisions@[final(self).history.cursor as int].inversion;
                match old(self).language_server {
                    Some(client) => final(self).language_server is Some && ({
                        let newc = final(self).language_server.unwrap();
                        &&& newc.uri == client.uri
                        &&& (!stored.changes.is_identity() ==> (newc.pending@.len()
                            == client.pending@.len() + 1 && (forall|k: int|
                            0 <= k < client.pending@.len() ==> #[trigger] newc.pending@[k]
                                == client.pending@[k]) && newc.pending@.last().version == final(self).version && events_m(newc.pending@.last().events@) == events_of(
                            stored.changes.m(),
                            old(self).state@.doc,
                            Position { line: 0, character: 0 },
                        )))
                        &&& (stored.changes.is_identity() ==> newc.pending@ == client.pending@)
                    }),
                    None => final(self).language_server is None,
                }
            }),
    {
        self.append_changes_to_history();
        proof {
            if self.old_state is Some {
                self.changes.lemma_identity_applied(self.old_state.unwrap()@.doc);
            }
            assert(self.history.current() == self.state@.doc);
        }
        match self.history.undo() {
            None => false,
            Some(t) => {
                self.version = self.version + 1;
                let ghost prev_doc = self.state@.doc;
                let s = self.apply_inner(&t);
                proof {
                    assert(s);
                    if t.changes.is_identity() {
                        t.changes.lemma_identity_applied(prev_doc);
                    }
                }
                let cs = ChangeSet::new(&self.state.doc);
                self.changes = cs;
                self.old_state = None;
                s
            },
        }
    }

    /// Step one undone revision forward again: an immediate redo after an
    /// undo restores the exact pre-undo committed state. The transaction
    /// runs through the same path as `apply`, so the parse state follows
    /// the text and the events are queued, and the checkpoint is cleared.
    /// Pending edits are committed first and discard the redo branch, so a
    /// redo then finds nothing to redo. Returns false, beyond such a
    /// commit changing nothing, when no redo is available.
    pub fn redo(&mut self) -> (success: bool)
        requires
            old(self).wf(),
            !old(self).changes.is_identity() ==> old(self).version < i32::MAX,
            (old(self).changes.is_identity() && old(self).history.cursor < old(self).history.revisions@.len()) ==> old(self).version < i32::MAX,
        ensures
            final(self).wf(),
            final(self).changes.is_identity(),
            final(self).old_state is None,
            (old(self).changes.is_identity() && old(self).history.cursor == old(self).history.revisions@.len()) ==> (!success && *final(self) == *old(self)),
            (old(self).changes.is_identity() && old(self).history.cursor < old(self).history.revisions@.len()) ==> ({
                let stored = old(self).history.revisions@[old(self).history.cursor as int].transaction;
                &&& success
                &&& final(self).version == old(self).version + 1
                &&& final(self).history.cursor == old(self).history.cursor + 1
                &&& final(self).history.revisions@ == old(self).history.revisions@
                &&& final(self).history.texts@ == old(self).history.texts@
                &&& final(self).state@.doc == old(self).history.texts@[old(self).history.cursor + 1]
                &&& stored.selection is Some ==> (final(self).state@.ranges
                    == stored.selection.unwrap().ranges@ && final(self).state@.primary
                    == stored.selection.unwrap().primary_index as int)
            }),
            !old(self).changes.is_identity() ==> (!success && final(self).version == old(self).version + 1 && final(self).state@.doc == old(self).state@.doc),
            success ==> match old(self).syntax {
                Some(sy) => final(self).syntax is Some && (sy.valid ==> (final(self).syntax.unwrap().valid && final(self).syntax.unwrap().text@ == final(self).state@.doc)) && (!sy.valid ==> !final(self).syntax.unwrap().valid),
                None => final(self).syntax is None,
            },
            success ==> ({
                let stored = final(self).history.revisions@[final(self).history.cursor
                    - 1].transaction;
                match old(self).language_server {
                    Some(client) => final(self).language_server is Some && ({
                        let newc = final(self).language_server.unwrap();
                        &&& newc.uri == client.uri
                        &&& (!stored.changes.is_identity() ==> (newc.pending@.len()
                            == client.pending@.len() + 1 && (forall|k: int|
                            0 <= k < client.pending@.len() ==> #[trigger] newc.pending@[k]
                                == client.pending@[k]) && newc.pending@.last().version == final(self).version && events_m(newc.pending@.last().events@) == events_of(
                            stored.changes.m(),
                            old(self).state@.doc,
                            Position { line: 0, character: 0 },
                        )))
                        &&& (stored.changes.is_identity() ==> newc.pending@ == client.pending@)
                    }),
                    None => final(self).language_server is None,
                }
            }),
    {
        self.append_changes_to_history();
        proof {
            if self.old_state is Some {
                self.changes.lemma_identity_applied(self.old_state.unwrap()@.doc);
            }
            assert(self.history.current() == self.state@.doc);
        }
        match self.history.redo() {
            None => false,
            Some(t) => {
                self.version = self.version + 1;
                let ghost prev_doc = self.state@.doc;
                let s = self.apply_inner(&t);
                proof {
                    assert(s);
                    if t.changes.is_identity() {
                        t.changes.lemma_identity_applied(prev_doc);
                    }
                }
                let cs = ChangeSet::new(&self.state.doc);
                self.changes = cs;
                self.old_state = None;
                s
            },
        }
    }
}

impl Document {
    /// Current editing mode.
    #[inline]
    pub fn mode(&self) -> (r: Mode)
        ensures
            r == self.mode,
    {
        self.mode
    }

    /// Language scope name, usually `source.<lang>`.
    #[inline]
    pub fn language(&self) -> (r: Option<&String>)
        ensures
            match r {
                Some(l) => self.language is Some && l@ == self.language.unwrap()@,
                None => self.language is None,
            },
    {
        self.language.as_ref()
    }

    /// Document version; moves once per committed revision.
    #[inline]
    pub fn version(&self) -> (r: i32)
        ensures
            r == self.version,
    {
        self.version
    }

    /// Absolute file path, if the document is backed by one.
    #[inline]
    pub fn path(&self) -> (r: Option<&String>)
        ensures
            match r {
                Some(p) => self.path is Some && p@ == self.path.unwrap()@,
                None => self.path is None,
            },
    {
        self.path.as_ref()
    }

    /// The file-scheme locator for the document's path.
    pub fn url(&self) -> (r: Option<url::Url>)
        requires
            self.wf(),
        ensures
            r is Some <==> self.path is Some,
    {
        match &self.path {
            Some(p) => file_url(p),
            None => None,
        }
    }

    /// The current text.
    #[inline]
    pub fn text(&self) -> (r: &Vec<char>)
        ensures
            r == self.state.doc,
    {
        &self.state.doc
    }

    /// The current selection.
    #[inline]
    pub fn selection(&self) -> (r: &Selection)
        ensures
            r == self.state.selection,
    {
        &self.state.selection
    }

    /// The document's identity for the external service. The document
    /// must have a path.
    pub fn identifier(&self) -> (r: TextDocumentIdentifier)
        requires
            self.wf(),
            self.path is Some,
    {
        match self.url() {
            Some(uri) => TextDocumentIdentifier { uri },
            None => unreached(),
        }
    }

    /// The document's identity together with its version.
    pub fn versioned_identifier(&self) -> (r: VersionedTextDocumentIdentifier)
        requires
            self.wf(),
            self.path is Some,
        ensures
            r.version == self.version,
    {
        match self.url() {
            Some(uri) => VersionedTextDocumentIdentifier { uri, version: self.version },
            None => unreached(),
        }
    }
}

} // verus!
