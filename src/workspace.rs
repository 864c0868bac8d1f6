//! The document registry and the incremental query engine over it.
//!
//! Every mutation of a document gives it a fresh version drawn from a
//! registry-wide revision counter. A cached query result records the version
//! it was computed at and is served only while that version is current; a
//! stale result stays in place until the next request recomputes it. The
//! completion query reads the declared-function query, and is recomputed only
//! when that query's value has changed, not merely when it was recomputed.

use crate::ast::{declared_function_names, declared_functions, texts_of, AST};
use crate::edit::{apply_delta, edit_fits, lemma_edit_fits, replaced};
use crate::error::AnalysisError;
use crate::syntax::{EditedTree, Input, ParserService};
use crate::text::{char_at_position, Document, Position};
use vstd::prelude::*;
use vstd::utf8::encode_utf8;

verus! {

/// A range of positions, end excluded.
#[derive(Debug, Clone, Copy, PartialEq, Eq, Structural)]
pub struct Range {
    pub start: Position,
    pub end: Position,
}

/// One change of a document: its range replaced by `text`, or, without a
/// range, the whole text replaced.
pub struct ContentChange {
    pub range: Option<Range>,
    pub text: String,
}

/// What a completion item stands for.
#[derive(Debug, Clone, Copy, PartialEq, Eq, Structural)]
pub enum CompletionKind {
    Function,
}

/// A completion candidate.
pub struct CompletionItem {
    pub name: String,
    pub kind: CompletionKind,
}

/// What the registry holds of one open document: its text, the source of
/// its tree, and whether that tree was re-parsed from an edited older tree
/// rather than parsed from scratch.
pub struct DocumentView {
    pub text: Seq<char>,
    pub tree: Seq<u8>,
    pub reparsed: bool,
}

/// The text after `change` is applied to `before`.
pub open spec fn changed_text(before: Seq<char>, change: ContentChange, after: Seq<char>) -> bool {
    match change.range {
        None => after == change.text@,
        Some(r) => exists|cs: int, ce: int|
            char_at_position(before, r.start, cs) && char_at_position(before, r.end, ce) && cs
                <= ce && after == replaced(before, cs, ce, change.text@),
    }
}

/// `change` can be applied to `before`.
pub open spec fn applicable(before: Seq<char>, change: ContentChange) -> bool {
    match change.range {
        None => true,
        Some(r) => crate::edit::valid_range(before, r.start, r.end),
    }
}

/// The declared function names of a document, as a parse of its whole text
/// from scratch gives them; nothing when a captured span is not text of it.
pub open spec fn expected_functions(d: DocumentView) -> Option<Seq<Seq<char>>> {
    declared_functions(encode_utf8(d.text))
}

/// The names of completion items, in order.
pub open spec fn item_names(items: Seq<CompletionItem>) -> Seq<Seq<char>> {
    items.map(|i: int, c: CompletionItem| c.name@)
}

/// Every item stands for a function.
pub open spec fn all_functions(items: Seq<CompletionItem>) -> bool {
    forall|i: int| 0 <= i < items.len() ==> #[trigger] items[i].kind == CompletionKind::Function
}

/// The completion items for the functions `a`, in the same order.
pub fn function_items(a: &AST) -> (r: Vec<CompletionItem>)
    ensures
        item_names(r@) == a@,
        all_functions(r@),
{
    let mut items: Vec<CompletionItem> = Vec::new();
    let mut i: usize = 0;
    while i < a.functions.len()
        invariant
            i <= a.functions.len(),
            item_names(items@) == a@.take(i as int),
            all_functions(items@),
        decreases a.functions.len() - i,
    {
        let ghost before = item_names(items@);
        let name = a.functions[i].name.clone();
        items.push(CompletionItem { name, kind: CompletionKind::Function });
        assert(item_names(items@) =~= before.push(a@[i as int]));
        assert(a@.take(i + 1) =~= a@.take(i as int).push(a@[i as int]));
        i = i + 1;
    }
    assert(a@.take(i as int) =~= a@);
    items
}

/// A copy of `items`.
fn copy_items(items: &Vec<CompletionItem>) -> (r: Vec<CompletionItem>)
    requires
        all_functions(items@),
    ensures
        item_names(r@) == item_names(items@),
        all_functions(r@),
{
    let mut out: Vec<CompletionItem> = Vec::new();
    let mut i: usize = 0;
    while i < items.len()
        invariant
            i <= items.len(),
            all_functions(items@),
            item_names(out@) == item_names(items@).take(i as int),
            all_functions(out@),
        decreases items.len() - i,
    {
        let ghost before = item_names(out@);
        let name = items[i].name.clone();
        out.push(CompletionItem { name, kind: CompletionKind::Function });
        assert(item_names(out@) =~= before.push(item_names(items@)[i as int]));
        assert(item_names(items@).take(i + 1) =~= item_names(items@).take(i as int).push(
            item_names(items@)[i as int],
        ));
        i = i + 1;
    }
    assert(item_names(items@).take(i as int) =~= item_names(items@));
    out
}

/// A cached result of the declared-function query.
struct FunctionsMemo {
    /// The document version at which the value was last confirmed.
    verified_at: u64,
    /// The document version at which the value last changed.
    changed_at: u64,
    value: AST,
}

/// A cached result of the completion query.
struct CompletionsMemo {
    /// The `changed_at` of the declared-function result it was built from.
    functions_changed_at: u64,
    value: Vec<CompletionItem>,
}

/// One open document: its buffer, the tree of its current text if the parse
/// succeeded, and its cached query results.
struct Entry {
    uri: String,
    text: Document,
    version: u64,
    input: Option<Input>,
    functions: Option<FunctionsMemo>,
    completions: Option<CompletionsMemo>,
}

impl Entry {
    spec fn view(&self) -> DocumentView {
        DocumentView {
            text: self.text@,
            tree: self.input->0@,
            reparsed: !self.input->0.from_scratch(),
        }
    }

    /// The declared-function result is cached for the current version.
    spec fn cached(&self) -> bool {
        self.functions matches Some(f) && f.verified_at == self.version
    }

    fn is_cached(&self) -> (r: bool)
        ensures
            r == self.cached(),
    {
        match &self.functions {
            Some(f) => f.verified_at == self.version,
            None => false,
        }
    }

    spec fn wf(&self) -> bool {
        &&& self.input matches Some(i) && i@ == encode_utf8(self.text@)
        &&& self.functions matches Some(f) ==> {
            &&& f.changed_at <= f.verified_at <= self.version
            &&& f.verified_at == self.version ==> texts_of(encode_utf8(self.text@), f.value@)
            &&& f.verified_at == self.version && !self.view().reparsed ==> expected_functions(
                self.view(),
            ) == Some(f.value@)
        }
        &&& self.completions matches Some(c) ==> {
            &&& self.functions is Some
            &&& all_functions(c.value@)
            &&& c.functions_changed_at <= self.functions->0.changed_at
            &&& c.functions_changed_at == self.functions->0.changed_at ==> item_names(c.value@)
                == self.functions->0.value@
        }
    }

    /// The declared functions, from the cache while it is current.
    fn functions(&mut self, parser: &ParserService) -> (r: Result<AST, AnalysisError>)
        requires
            old(self).wf(),
        ensures
            final(self).wf(),
            final(self).view() == old(self).view(),
            final(self).uri == old(self).uri,
            final(self).version == old(self).version,
            !old(self).view().reparsed ==> (r is Ok <==> expected_functions(old(self).view()) is Some),
            !old(self).view().reparsed ==> (r matches Ok(a) ==> a@ == expected_functions(
                old(self).view(),
            )->0),
            r matches Ok(a) ==> texts_of(encode_utf8(old(self).text@), a@),
            old(self).cached() ==> r is Ok && final(self).functions == old(self).functions,
            r is Ok ==> final(self).cached(),
            r matches Ok(a) ==> final(self).functions->0.value@ == a@,
            r matches Err(e) ==> e == AnalysisError::InternalError,
    {
        if let Some(f) = &self.functions {
            if f.verified_at == self.version {
                return Ok(f.value.duplicate());
            }
        }
        let fresh = match &self.input {
            None => {
                return Err(AnalysisError::InternalError);
            },
            Some(input) => match declared_function_names(parser, input) {
                Ok(a) => a,
                Err(e) => {
                    return Err(e);
                },
            },
        };
        let changed_at = match &self.functions {
            Some(f) => if f.value.same_names(&fresh) {
                f.changed_at
            } else {
                self.version
            },
            None => self.version,
        };
        self.functions = Some(
            FunctionsMemo { verified_at: self.version, changed_at, value: fresh.duplicate() },
        );
        Ok(fresh)
    }

    /// The completion items, from the cache while the functions they were
    /// built from are unchanged.
    fn completions(&mut self, parser: &ParserService) -> (r: Result<Vec<CompletionItem>, AnalysisError>)
        requires
            old(self).wf(),
        ensures
            final(self).wf(),
            final(self).view() == old(self).view(),
            final(self).uri == old(self).uri,
            final(self).version == old(self).version,
            !old(self).view().reparsed ==> (r is Ok <==> expected_functions(old(self).view()) is Some),
            r matches Ok(items) ==> all_functions(items@),
            r matches Ok(items) ==> item_names(items@) == final(self).functions->0.value@,
            r matches Ok(items) ==> texts_of(encode_utf8(old(self).text@), item_names(items@)),
            !old(self).view().reparsed ==> (r matches Ok(items) ==> item_names(items@)
                == expected_functions(old(self).view())->0),
            old(self).cached() ==> r is Ok && final(self).functions == old(self).functions,
            r is Ok ==> final(self).cached(),
            r matches Err(e) ==> e == AnalysisError::InternalError,
    {
        let functions = match self.functions(parser) {
            Ok(a) => a,
            Err(e) => {
                return Err(e);
            },
        };
        let changed_at = match &self.functions {
            Some(f) => f.changed_at,
            None => {
                return Err(AnalysisError::InternalError);
            },
        };
        if let Some(c) = &self.completions {
            if c.functions_changed_at == changed_at {
                return Ok(copy_items(&c.value));
            }
        }
        let items = function_items(&functions);
        self.completions = Some(
            CompletionsMemo { functions_changed_at: changed_at, value: copy_items(&items) },
        );
        Ok(items)
    }
}

/// The largest revision number.
pub const REVISION_MAX: u64 = 0xffff_ffff_ffff_ffff;

/// The open documents, the shared parser, and the cached query results.
pub struct Workspace {
    entries: Vec<Entry>,
    parser: ParserService,
    revision: u64,
    evaluations: u64,
    docs: Ghost<Map<Seq<char>, DocumentView>>,
}

impl View for Workspace {
    type V = Map<Seq<char>, DocumentView>;

    closed spec fn view(&self) -> Map<Seq<char>, DocumentView> {
        self.docs@
    }
}

impl Workspace {
    /// The registry's invariant: one entry per identity, each consistent with
    /// its cache and with the view.
    pub closed spec fn wf(&self) -> bool {
        &&& forall|i: int|
            0 <= i < self.entries.len() ==> (#[trigger] self.entries[i]).wf()
                && self.entries[i].version <= self.revision
        &&& forall|i: int, j: int|
            0 <= i < self.entries.len() && 0 <= j < self.entries.len() && i != j
                ==> self.entries[i].uri@ != self.entries[j].uri@
        &&& forall|i: int|
            0 <= i < self.entries.len() ==> self.docs@.contains_key(
                (#[trigger] self.entries[i]).uri@,
            ) && self.docs@[self.entries[i].uri@] == self.entries[i].view()
        &&& forall|u: Seq<char>|
            self.docs@.contains_key(u) ==> exists|i: int|
                0 <= i < self.entries.len() && (#[trigger] self.entries[i]).uri@ == u
    }

    /// How many times the declared-function query has run rather than been
    /// served from the cache, up to the largest `u64`.
    pub closed spec fn evaluation_count(&self) -> u64 {
        self.evaluations
    }

    /// The index of the entry of `uri`.
    spec fn index_of(&self, uri: Seq<char>) -> int {
        choose|i: int| 0 <= i < self.entries.len() && self.entries[i].uri@ == uri
    }

    /// The declared-function result of `uri` is cached for its current text.
    pub closed spec fn is_cached(&self, uri: Seq<char>) -> bool {
        self@.contains_key(uri) && self.entries[self.index_of(uri)].cached()
    }

    /// The declared function names cached for `uri`.
    pub closed spec fn cached_names(&self, uri: Seq<char>) -> Seq<Seq<char>> {
        self.entries[self.index_of(uri)].functions->0.value@
    }

    proof fn lemma_index_of(&self, uri: Seq<char>, i: int)
        requires
            self.wf(),
            0 <= i < self.entries.len(),
            self.entries[i].uri@ == uri,
        ensures
            self.index_of(uri) == i,
            self@.contains_key(uri),
            self@[uri] == self.entries[i].view(),
    {
        assert(self.entries[i].uri@ == uri);
    }

    /// How many times the declared-function query has run.
    pub fn evaluations(&self) -> (r: u64)
        ensures
            r == self.evaluation_count(),
    {
        self.evaluations
    }

    /// All revision numbers have been handed out.
    pub closed spec fn exhausted(&self) -> bool {
        self.revision == REVISION_MAX
    }

    /// An empty registry, with the Kotlin grammar loaded. It always succeeds.
    pub fn new() -> (r: Result<Workspace, AnalysisError>)
        ensures
            r is Ok,
            r matches Ok(w) ==> w.wf() && w@ == Map::<Seq<char>, DocumentView>::empty()
                && !w.exhausted() && w.evaluation_count() == 0,
    {
        let parser = match ParserService::new() {
            Ok(p) => p,
            Err(e) => {
                return Err(e);
            },
        };
        Ok(
            Workspace {
                entries: Vec::new(),
                parser,
                revision: 0,
                evaluations: 0,
                docs: Ghost(Map::empty()),
            },
        )
    }

    /// Replacing one entry by one with the same identity, valid and no newer
    /// than the revision, keeps the invariant, with the view updated.
    proof fn lemma_replaced(old_w: Workspace, new_w: Workspace, i: int)
        requires
            old_w.wf(),
            0 <= i < old_w.entries.len(),
            new_w.entries@ == old_w.entries@.update(i, new_w.entries@[i]),
            new_w.entries@[i].wf(),
            new_w.entries@[i].uri@ == old_w.entries@[i].uri@,
            new_w.entries@[i].version <= new_w.revision,
            old_w.revision <= new_w.revision,
            new_w.docs@ == old_w.docs@.insert(old_w.entries@[i].uri@, new_w.entries@[i].view()),
        ensures
            new_w.wf(),
            new_w.docs@.dom() == old_w.docs@.dom(),
    {
        assert forall|k: int| 0 <= k < new_w.entries.len() implies (#[trigger] new_w.entries[k]).wf()
            && new_w.entries[k].version <= new_w.revision by {
            if k != i {
                assert(new_w.entries[k] == old_w.entries[k]);
            }
        }
        assert forall|k: int| 0 <= k < new_w.entries.len() implies new_w.docs@.contains_key(
            (#[trigger] new_w.entries[k]).uri@,
        ) && new_w.docs@[new_w.entries[k].uri@] == new_w.entries[k].view() by {
            if k != i {
                assert(new_w.entries[k] == old_w.entries[k]);
            }
        }
        assert forall|u: Seq<char>| new_w.docs@.contains_key(u) implies exists|k: int|
            0 <= k < new_w.entries.len() && (#[trigger] new_w.entries[k]).uri@ == u by {
            if u == old_w.entries@[i].uri@ {
                assert(new_w.entries[i].uri@ == u);
            } else {
                let k = choose|k: int|
                    0 <= k < old_w.entries.len() && (#[trigger] old_w.entries[k]).uri@ == u;
                assert(new_w.entries[k].uri@ == u);
            }
        }
        assert(new_w.docs@.dom() =~= old_w.docs@.dom());
    }

    /// Every tree held was parsed from the current text of its document, from
    /// scratch or by incremental re-parsing: a snapshot never pairs an edited
    /// buffer with a tree of an older text.
    pub proof fn lemma_snapshot_consistent(&self, uri: Seq<char>)
        requires
            self.wf(),
            self@.contains_key(uri),
        ensures
            self@[uri].tree == encode_utf8(self@[uri].text),
    {
        let i = choose|i: int| 0 <= i < self.entries.len() && (#[trigger] self.entries[i]).uri@ == uri;
        assert(self.entries[i].wf());
    }

    /// A cached declared-function result of a document whose tree was parsed
    /// from scratch is what a parse of its current text from scratch yields:
    /// the memoized path never diverges from a recomputation.
    pub proof fn lemma_cache_coherent(&self, uri: Seq<char>, full: Input)
        requires
            self.wf(),
            self.is_cached(uri),
            !self@[uri].reparsed,
            full.from_scratch(),
            full@ == encode_utf8(self@[uri].text),
        ensures
            declared_functions(full@) == Some(self.cached_names(uri)),
    {
        let i = choose|i: int| 0 <= i < self.entries.len() && (#[trigger] self.entries[i]).uri@ == uri;
        self.lemma_index_of(uri, i);
        assert(self.entries[i].wf());
    }

    fn find(&self, uri: &String) -> (r: Option<usize>)
        requires
            self.wf(),
        ensures
            r matches Some(i) ==> i < self.entries.len() && self.entries[i as int].uri@ == uri@,
            r is None <==> !self@.contains_key(uri@),
    {
        let mut i: usize = 0;
        while i < self.entries.len()
            invariant
                self.wf(),
                i <= self.entries.len(),
                forall|k: int| 0 <= k < i ==> self.entries[k].uri@ != uri@,
            decreases self.entries.len() - i,
        {
            if self.entries[i].uri == *uri {
                return Some(i);
            }
            i = i + 1;
        }
        None
    }

    /// Opens a document with text `text` and parses it. Fails with
    /// `AlreadyOpen` when `uri` is open, and with `InternalError` when no
    /// revision number is left; the registry is then unchanged.
    pub fn open(&mut self, uri: String, text: String) -> (r: Result<(), AnalysisError>)
        requires
            old(self).wf(),
        ensures
            final(self).wf(),
            r is Ok <==> !old(self)@.contains_key(uri@) && !old(self).exhausted(),
            r matches Err(e) ==> final(self)@ == old(self)@ && (e == AnalysisError::AlreadyOpen
                <==> old(self)@.contains_key(uri@)) && (e == AnalysisError::InternalError
                <==> !old(self)@.contains_key(uri@)),
            r is Ok ==> final(self)@.dom() == old(self)@.dom().insert(uri@),
            r is Ok ==> final(self)@[uri@] == (DocumentView {
                text: text@,
                tree: encode_utf8(text@),
                reparsed: false,
            }),
            r is Ok ==> !final(self).is_cached(uri@),
            final(self).evaluation_count() == old(self).evaluation_count(),
            r is Ok ==> forall|u: Seq<char>|
                u != uri@ && old(self)@.contains_key(u) ==> final(self)@[u] == old(self)@[u],
    {
        if self.find(&uri).is_some() {
            return Err(AnalysisError::AlreadyOpen);
        }
        if self.revision == REVISION_MAX {
            return Err(AnalysisError::InternalError);
        }
        self.revision = self.revision + 1;
        let doc = Document::from_str(text.as_str());
        let input = self.parser.parse(doc.bytes(), None);
        let entry = Entry {
            uri,
            text: doc,
            version: self.revision,
            input,
            functions: None,
            completions: None,
        };
        let ghost key = entry.uri@;
        let ghost view = entry.view();
        self.entries.push(entry);
        self.docs = Ghost(self.docs@.insert(key, view));
        proof {
            let n = self.entries.len() - 1;
            assert forall|u: Seq<char>| self.docs@.contains_key(u) implies exists|i: int|
                0 <= i < self.entries.len() && (#[trigger] self.entries[i]).uri@ == u by {
                if u == key {
                    assert(self.entries[n as int].uri@ == u);
                } else {
                    let i = choose|i: int|
                        0 <= i < old(self).entries.len() && (#[trigger] old(self).entries[i]).uri@
                            == u;
                    assert(self.entries[i].uri@ == u);
                }
            }
            assert(self.docs@.dom() =~= old(self).docs@.dom().insert(key));
            assert forall|k: int| 0 <= k < self.entries.len() - 1 implies self.entries[k].uri@
                != key by {
                assert(old(self).docs@.contains_key(old(self).entries[k].uri@));
            }
            self.lemma_index_of(key, n as int);
        }
        Ok(())
    }

    /// Applies `change` to the document `uri` and re-parses it, from the
    /// edited previous tree for a range change and from scratch for a whole
    /// replacement. Fails with `UnknownDocument` when `uri` is not open, with
    /// `InternalError` when no revision number is left, and with `RangeError`
    /// when the range is not one of the document; the registry is then
    /// unchanged.
    pub fn change(&mut self, uri: &String, change: &ContentChange) -> (r: Result<(), AnalysisError>)
        requires
            old(self).wf(),
        ensures
            final(self).wf(),
            r is Ok <==> old(self)@.contains_key(uri@) && !old(self).exhausted() && applicable(
                old(self)@[uri@].text,
                *change,
            ),
            r matches Err(e) ==> final(self)@ == old(self)@ && (e
                == AnalysisError::UnknownDocument <==> !old(self)@.contains_key(uri@)) && (e
                == AnalysisError::InternalError <==> old(self)@.contains_key(uri@)
                && old(self).exhausted()) && (e == AnalysisError::RangeError <==> old(
                self,
            )@.contains_key(uri@) && !old(self).exhausted()),
            r is Ok ==> final(self)@.dom() == old(self)@.dom(),
            r is Ok ==> changed_text(old(self)@[uri@].text, *change, final(self)@[uri@].text),
            r is Ok ==> final(self)@[uri@].tree == encode_utf8(final(self)@[uri@].text),
            r is Ok ==> final(self)@[uri@].reparsed == (change.range is Some),
            r is Ok ==> !final(self).is_cached(uri@),
            final(self).evaluation_count() == old(self).evaluation_count(),
            r is Ok ==> forall|u: Seq<char>|
                u != uri@ && old(self)@.contains_key(u) ==> final(self)@[u] == old(self)@[u],
    {
        let i = match self.find(uri) {
            Some(i) => i,
            None => {
                return Err(AnalysisError::UnknownDocument);
            },
        };
        if self.revision == REVISION_MAX {
            return Err(AnalysisError::InternalError);
        }
        let ghost old_entries = self.entries@;
        let mut entry = self.entries.remove(i);
        let ghost before = entry.text@;
        let old_tree: Option<EditedTree> = match &change.range {
            None => {
                entry.text = Document::from_str(change.text.as_str());
                None
            },
            Some(range) => match apply_delta(
                &mut entry.text,
                range.start,
                range.end,
                change.text.as_str(),
            ) {
                Ok(edit) => {
                    proof {
                        let (cs, ce) = choose|cs: int, ce: int|
                            char_at_position(before, range.start, cs) && char_at_position(
                                before,
                                range.end,
                                ce,
                            ) && entry.text@ == replaced(before, cs, ce, change.text@)
                                && crate::edit::describes_edit(
                                edit,
                                before,
                                entry.text@,
                                cs,
                                ce,
                                cs + change.text@.len(),
                            );
                        lemma_edit_fits(edit, before, entry.text@, cs, ce, cs + change.text@.len());
                    }
                    let previous = entry.input.take();
                    match previous {
                        Some(input) => Some(input.into_edited_tree(&edit)),
                        None => None,
                    }
                },
                Err(e) => {
                    self.entries.insert(i, entry);
                    proof {
                        assert(self.entries@ =~= old_entries.update(i as int, self.entries@[i as int]));
                        assert(self.docs@ =~= old(self).docs@.insert(
                            old_entries[i as int].uri@,
                            self.entries@[i as int].view(),
                        ));
                        Self::lemma_replaced(*old(self), *self, i as int);
                    }
                    return Err(e);
                },
            },
        };
        self.revision = self.revision + 1;
        entry.version = self.revision;
        let bytes = entry.text.bytes();
        assert(old_tree matches Some(t) ==> edit_fits(t.edit(), t.old_source(), bytes@));
        entry.input = self.parser.parse(bytes, old_tree.as_ref());
        let ghost key = entry.uri@;
        let ghost view = entry.view();
        self.entries.insert(i, entry);
        self.docs = Ghost(self.docs@.insert(key, view));
        proof {
            assert(self.entries@ =~= old_entries.update(i as int, self.entries@[i as int]));
            Self::lemma_replaced(*old(self), *self, i as int);
            self.lemma_index_of(uri@, i as int);
        }
        Ok(())
    }

    /// Closes the document `uri`, dropping its buffer, tree and cached
    /// results. Fails with `UnknownDocument` when it is not open.
    pub fn close(&mut self, uri: &String) -> (r: Result<(), AnalysisError>)
        requires
            old(self).wf(),
        ensures
            final(self).wf(),
            r is Ok <==> old(self)@.contains_key(uri@),
            r matches Err(e) ==> e == AnalysisError::UnknownDocument && final(self)@ == old(
                self,
            )@,
            r is Ok ==> final(self)@ == old(self)@.remove(uri@),
            final(self).exhausted() == old(self).exhausted(),
    {
        let i = match self.find(uri) {
            Some(i) => i,
            None => {
                return Err(AnalysisError::UnknownDocument);
            },
        };
        let ghost old_entries = self.entries@;
        let entry = self.entries.remove(i);
        let ghost key = entry.uri@;
        self.docs = Ghost(self.docs@.remove(key));
        proof {
            assert forall|a: int| 0 <= a < self.entries.len() implies self.docs@.contains_key(
                (#[trigger] self.entries[a]).uri@,
            ) && self.docs@[self.entries[a].uri@] == self.entries[a].view() by {
                if a < i {
                    assert(self.entries[a] == old_entries[a]);
                } else {
                    assert(self.entries[a] == old_entries[a + 1]);
                }
            }
            assert forall|u: Seq<char>| self.docs@.contains_key(u) implies exists|k: int|
                0 <= k < self.entries.len() && (#[trigger] self.entries[k]).uri@ == u by {
                let k = choose|k: int|
                    0 <= k < old_entries.len() && (#[trigger] old_entries[k]).uri@ == u;
                if k < i {
                    assert(self.entries[k].uri@ == u);
                } else {
                    assert(self.entries[k - 1].uri@ == u);
                }
            }
        }
        Ok(())
    }

    /// The declared functions of the document `uri`, in document order,
    /// served from the cache while its text is unchanged. For a tree parsed
    /// from scratch they are those of a fresh parse of the current text; for
    /// an incrementally re-parsed tree, they are texts of the document. Fails
    /// with `UnknownDocument` when it is not open, and with `InternalError`
    /// when its tree and text disagree.
    pub fn declared_function_names(&mut self, uri: &String) -> (r: Result<AST, AnalysisError>)
        requires
            old(self).wf(),
        ensures
            final(self).wf(),
            final(self)@ == old(self)@,
            final(self).exhausted() == old(self).exhausted(),
            r is Ok ==> old(self)@.contains_key(uri@),
            old(self)@.contains_key(uri@) && !old(self)@[uri@].reparsed ==> (r is Ok
                <==> expected_functions(old(self)@[uri@]) is Some),
            old(self)@.contains_key(uri@) && !old(self)@[uri@].reparsed ==> (r matches Ok(a)
                ==> a@ == expected_functions(old(self)@[uri@])->0),
            r matches Ok(a) ==> texts_of(encode_utf8(old(self)@[uri@].text), a@),
            r matches Err(e) ==> (e == AnalysisError::UnknownDocument <==> !old(
                self,
            )@.contains_key(uri@)) && (e == AnalysisError::InternalError <==> old(
                self,
            )@.contains_key(uri@)),
            old(self).is_cached(uri@) ==> r is Ok && r->Ok_0@ == old(self).cached_names(uri@)
                && final(self).evaluation_count() == old(self).evaluation_count(),
            old(self)@.contains_key(uri@) && !old(self).is_cached(uri@)
                && old(self).evaluation_count() < REVISION_MAX ==> final(self).evaluation_count()
                == old(self).evaluation_count() + 1,
            r matches Ok(a) ==> final(self).is_cached(uri@) && final(self).cached_names(uri@)
                == a@,
    {
        let i = match self.find(uri) {
            Some(i) => i,
            None => {
                return Err(AnalysisError::UnknownDocument);
            },
        };
        proof {
            self.lemma_index_of(uri@, i as int);
        }
        let ghost old_entries = self.entries@;
        let mut entry = self.entries.remove(i);
        let cached = entry.is_cached();
        let r = entry.functions(&self.parser);
        self.entries.insert(i, entry);
        if !cached && self.evaluations < REVISION_MAX {
            self.evaluations = self.evaluations + 1;
        }
        proof {
            assert(self.entries@ =~= old_entries.update(i as int, self.entries@[i as int]));
            assert(self.docs@ =~= old(self).docs@.insert(
                old_entries[i as int].uri@,
                self.entries@[i as int].view(),
            ));
            Self::lemma_replaced(*old(self), *self, i as int);
            self.lemma_index_of(uri@, i as int);
        }
        r
    }

    /// The completion items of the document `uri`: one function item per
    /// declared function, in document order, rebuilt only when the declared
    /// functions changed value. Fails as `declared_function_names` does.
    pub fn complete(&mut self, uri: &String) -> (r: Result<Vec<CompletionItem>, AnalysisError>)
        requires
            old(self).wf(),
        ensures
            final(self).wf(),
            final(self)@ == old(self)@,
            final(self).exhausted() == old(self).exhausted(),
            r is Ok ==> old(self)@.contains_key(uri@),
            old(self)@.contains_key(uri@) && !old(self)@[uri@].reparsed ==> (r is Ok
                <==> expected_functions(old(self)@[uri@]) is Some),
            old(self)@.contains_key(uri@) && !old(self)@[uri@].reparsed ==> (r matches Ok(items)
                ==> item_names(items@) == expected_functions(old(self)@[uri@])->0),
            r matches Ok(items) ==> all_functions(items@) && texts_of(
                encode_utf8(old(self)@[uri@].text),
                item_names(items@),
            ),
            r matches Err(e) ==> (e == AnalysisError::UnknownDocument <==> !old(
                self,
            )@.contains_key(uri@)) && (e == AnalysisError::InternalError <==> old(
                self,
            )@.contains_key(uri@)),
            old(self).is_cached(uri@) ==> r is Ok && item_names(r->Ok_0@) == old(
                self,
            ).cached_names(uri@) && final(self).evaluation_count() == old(
                self,
            ).evaluation_count(),
            old(self)@.contains_key(uri@) && !old(self).is_cached(uri@)
                && old(self).evaluation_count() < REVISION_MAX ==> final(self).evaluation_count()
                == old(self).evaluation_count() + 1,
            r matches Ok(items) ==> final(self).is_cached(uri@) && final(self).cached_names(uri@)
                == item_names(items@),
    {
        let i = match self.find(uri) {
            Some(i) => i,
            None => {
                return Err(AnalysisError::UnknownDocument);
            },
        };
        proof {
            self.lemma_index_of(uri@, i as int);
        }
        let ghost old_entries = self.entries@;
        let mut entry = self.entries.remove(i);
        let cached = entry.is_cached();
        let r = entry.completions(&self.parser);
        self.entries.insert(i, entry);
        if !cached && self.evaluations < REVISION_MAX {
            self.evaluations = self.evaluations + 1;
        }
        proof {
            assert(self.entries@ =~= old_entries.update(i as int, self.entries@[i as int]));
            assert(self.docs@ =~= old(self).docs@.insert(
                old_entries[i as int].uri@,
                self.entries@[i as int].view(),
            ));
            Self::lemma_replaced(*old(self), *self, i as int);
            self.lemma_index_of(uri@, i as int);
        }
        r
    }

    /// The text of the document `uri`, if it is open.
    pub fn document(&self, uri: &String) -> (r: Option<Document>)
        requires
            self.wf(),
        ensures
            r is Some <==> self@.contains_key(uri@),
            r matches Some(d) ==> d@ == self@[uri@].text,
    {
        match self.find(uri) {
            Some(i) => Some(self.entries[i].text.duplicate()),
            None => None,
        }
    }

    /// The text of the document `uri` and the tree parsed from it, read
    /// together; none when it is not open.
    pub fn snapshot(&self, uri: &String) -> (r: Option<Input>)
        requires
            self.wf(),
        ensures
            r is Some <==> self@.contains_key(uri@),
            r matches Some(i) ==> i@ == self@[uri@].tree && i@ == encode_utf8(self@[uri@].text),
            r matches Some(i) ==> i.from_scratch() == !self@[uri@].reparsed,
    {
        match self.find(uri) {
            Some(i) => {
                proof {
                    self.lemma_index_of(uri@, i as int);
                }
                match &self.entries[i].input {
                    Some(input) => Some(input.duplicate()),
                    None => None,
                }
            },
            None => None,
        }
    }

    /// The tree of the document `uri`, with the text it was parsed from,
    /// which is the document's current text; none when it is not open.
    pub fn parse_tree(&self, uri: &String) -> (r: Option<Input>)
        requires
            self.wf(),
        ensures
            r is Some <==> self@.contains_key(uri@),
            r matches Some(i) ==> i@ == self@[uri@].tree && i@ == encode_utf8(self@[uri@].text),
            r matches Some(i) ==> i.from_scratch() == !self@[uri@].reparsed,
    {
        self.snapshot(uri)
    }

    /// The UTF-8 bytes of the document `uri`, if it is open.
    pub fn bytes(&self, uri: &String) -> (r: Option<Vec<u8>>)
        requires
            self.wf(),
        ensures
            r is Some <==> self@.contains_key(uri@),
            r matches Some(b) ==> b@ == encode_utf8(self@[uri@].text),
    {
        match self.find(uri) {
            Some(i) => Some(self.entries[i].text.bytes()),
            None => None,
        }
    }
}

} // verus!
