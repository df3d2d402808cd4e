//! The terminal client's editing state and the server-pushed operations
//! that drive it: the mirrored buffer with its highlight overlay, cursors,
//! line input and status bar.

use vstd::prelude::*;
use vstd::string::StringSliceAdditionalSpecFns;
use vstd::string::StrSliceExecFns;
use vstd::string::StringExecFns;

use crate::buffer::{
    lemma_delete_lines_shift, lemma_insert_lines_shift, lemma_split_from_nonempty, spec_delete_lines,
    spec_insert_end, spec_insert_lines, spec_split_lines, BufferContent, BufferPosition,
    BufferRange, Cursor,
};
use crate::buffer::{spec_search_from, spec_search_ranges};
use crate::glob::spec_glob_match;
use crate::mode::Mode;
use crate::pattern::{spec_parse_pattern, Pattern, PatternV};
use crate::syntax::{chain_ok, converged, SyntaxCollection, SyntaxHandle, TokenKind};

verus! {

/// How a status message is shown.
#[derive(Debug, Clone, Copy, PartialEq, Eq, Structural)]
pub enum StatusMessageKind {
    Info,
    Error,
}

/// One operation the server pushes to a client.
#[derive(Debug, Clone, PartialEq, Eq)]
pub enum EditorOperation {
    Focused(bool),
    Buffer(String),
    Path(String),
    Mode(Mode),
    Insert(BufferPosition, String),
    Delete(BufferRange),
    CursorsClear(Cursor),
    Cursor(Cursor),
    InputAppend(char),
    InputKeep(u32),
    Search,
    ConfigValues(Vec<u8>),
    Theme(Vec<u8>),
    SyntaxExtension(String, String),
    SyntaxRule(String, TokenKind, String),
    SelectClear,
    SelectEntry(String),
    StatusMessage(StatusMessageKind, String),
    StatusMessageAppend(String),
    Spawn(String, Option<String>),
}

/// What handling an operation asks of the surrounding process: nothing, or
/// a process to spawn with optional input, whose output comes back later.
#[derive(Debug, Clone, PartialEq, Eq)]
pub enum ClientResponse {
    Nothing,
    Spawn(String, Option<String>),
}

/// The client's configuration: pushed values and theme, registered
/// syntaxes, and extension aliases.
pub struct Config {
    pub values: Vec<u8>,
    pub theme: Vec<u8>,
    pub syntaxes: SyntaxCollection,
    pub syntax_extensions: Vec<(String, String)>,
}

/// One connected client's editing state.
pub struct Client {
    pub config: Config,
    pub mode: Mode,
    pub path: String,
    pub buffer: BufferContent,
    pub highlighted_buffer: crate::syntax::HighlightedBuffer,
    pub syntax_handle: Option<SyntaxHandle>,
    pub main_cursor: Cursor,
    pub cursors: Vec<Cursor>,
    pub search_ranges: Vec<BufferRange>,
    pub has_focus: bool,
    pub input: String,
    pub select_entries: Vec<String>,
    pub status_message_kind: StatusMessageKind,
    pub status_message: String,
}

/// One rule appended under a glob: `hi` is the first registered syntax
/// carrying that glob (every earlier one carries another), or the index of
/// the fresh syntax registered for it at the end; the default syntax at
/// index 0 is never chosen.
pub open spec fn syntax_rule_applied(
    pre: SyntaxCollection,
    post: SyntaxCollection,
    gb: Seq<u8>,
    kind: TokenKind,
    pv: PatternV,
    hi: int,
) -> bool {
    &&& 1 <= hi < post.spec_len()
    &&& forall|j: int| 1 <= j < hi ==> (#[trigger] pre.spec_syntaxes()[j]).spec_glob() != gb
    &&& forall|j: int|
        0 <= j < pre.spec_len() && j != hi ==> #[trigger] post.spec_syntaxes()[j]
            == pre.spec_syntaxes()[j]
    &&& post.spec_syntaxes()[hi].spec_glob() == gb
    &&& if hi < pre.spec_len() {
        post.spec_len() == pre.spec_len() && pre.spec_syntaxes()[hi].spec_glob() == gb
            && post.spec_syntaxes()[hi].spec_rules() == pre.spec_syntaxes()[hi].spec_rules().push(
            (kind, pv),
        )
    } else {
        post.spec_len() == pre.spec_len() + 1 && hi == pre.spec_len()
            && post.spec_syntaxes()[hi].spec_rules() == seq![(kind, pv)]
    }
}

/// What one applied operation promises: how the state after it (`post`)
/// relates to the state before it (`pre`), and what response came back.
pub open spec fn op_effect(pre: Client, post: Client, op: EditorOperation, r: ClientResponse) -> bool {
    match op {
        EditorOperation::Focused(focused) => post.has_focus == focused && r
            == ClientResponse::Nothing,
        EditorOperation::Buffer(content) => post.buffer@ == spec_split_lines(
            vstd::utf8::encode_utf8(content@),
        ) && post.search_ranges@.len() == 0 && post.cursors@ == seq![post.main_cursor] && r
            == ClientResponse::Nothing,
        EditorOperation::Path(p) => post.path@ == p@ && post.buffer@ == pre.buffer@
            && post.config.syntaxes == pre.config.syntaxes && ({
            let pb = vstd::utf8::encode_utf8(p@);
            match post.syntax_handle {
                Some(h) => 1 <= h.spec_index() < pre.config.syntaxes.spec_len()
                    && spec_glob_match(
                    pre.config.syntaxes.spec_syntaxes()[h.spec_index()].spec_glob(),
                    pb,
                ) && (forall|j: int|
                    1 <= j < h.spec_index() ==> !spec_glob_match(
                        (#[trigger] pre.config.syntaxes.spec_syntaxes()[j]).spec_glob(),
                        pb,
                    )),
                None => forall|j: int|
                    1 <= j < pre.config.syntaxes.spec_len() ==> !spec_glob_match(
                        (#[trigger] pre.config.syntaxes.spec_syntaxes()[j]).spec_glob(),
                        pb,
                    ),
            }
        }) && r == ClientResponse::Nothing,
        EditorOperation::Mode(m) => post.mode == m && r == ClientResponse::Nothing,
        EditorOperation::Insert(position, text) => post.buffer@ == spec_insert_lines(
            pre.buffer@,
            position.line_index as int,
            position.column_byte_index as int,
            vstd::utf8::encode_utf8(text@),
        ) && post.search_ranges@.len() == 0 && r == ClientResponse::Nothing,
        EditorOperation::Delete(range) => post.buffer@ == spec_delete_lines(
            pre.buffer@,
            range.from.line_index as int,
            range.from.column_byte_index as int,
            range.to.line_index as int,
            range.to.column_byte_index as int,
        ) && post.search_ranges@.len() == 0 && r == ClientResponse::Nothing,
        EditorOperation::CursorsClear(cursor) => post.main_cursor == cursor
            && post.cursors@.len() == 0 && r == ClientResponse::Nothing,
        EditorOperation::Cursor(cursor) => post.cursors@ == pre.cursors@.push(cursor) && r
            == ClientResponse::Nothing,
        EditorOperation::InputAppend(c) => post.input@ == pre.input@.push(c) && r
            == ClientResponse::Nothing,
        EditorOperation::InputKeep(keep_count) => post.input@ == pre.input@.take(
            if keep_count <= pre.input@.len() {
                keep_count as int
            } else {
                pre.input@.len() as int
            },
        ) && r == ClientResponse::Nothing,
        EditorOperation::Search => post.input@ == pre.input@ && post.buffer@ == pre.buffer@
            && post.search_ranges@ == (if pre.input@.len() == 0 {
            Seq::<BufferRange>::empty()
        } else {
            spec_search_ranges(pre.buffer@, vstd::utf8::encode_utf8(pre.input@))
        }) && r == ClientResponse::Nothing,
        EditorOperation::ConfigValues(blob) => post.config.values@ == blob@ && r
            == ClientResponse::Nothing,
        EditorOperation::Theme(blob) => post.config.theme@ == blob@ && r
            == ClientResponse::Nothing,
        EditorOperation::SyntaxExtension(main, other) => ({
            let exts = post.config.syntax_extensions@;
            let prev = pre.config.syntax_extensions@;
            exts.len() == prev.len() + 1 && (forall|j: int|
                0 <= j < prev.len() ==> #[trigger] exts[j] == prev[j]) && exts.last().0@ == main@
                && exts.last().1@ == other@
        }) && r == ClientResponse::Nothing,
        EditorOperation::SyntaxRule(glob_text, kind, pattern_text) => r
            == ClientResponse::Nothing && (match spec_parse_pattern(
            vstd::utf8::encode_utf8(pattern_text@),
        ) {
            Some(pv) => exists|hi: int|
                #[trigger] syntax_rule_applied(
                    pre.config.syntaxes,
                    post.config.syntaxes,
                    vstd::utf8::encode_utf8(glob_text@),
                    kind,
                    pv,
                    hi,
                ),
            None => post.config.syntaxes == pre.config.syntaxes && post.status_message_kind
                == StatusMessageKind::Error && post.status_message@ == "invalid pattern"@,
        }),
        EditorOperation::SelectClear => post.select_entries@.len() == 0 && r
            == ClientResponse::Nothing,
        EditorOperation::SelectEntry(name) => post.select_entries@.len()
            == pre.select_entries@.len() + 1 && r == ClientResponse::Nothing,
        EditorOperation::StatusMessage(kind, message) => post.status_message_kind == kind
            && post.status_message@ == message@ && r == ClientResponse::Nothing,
        EditorOperation::StatusMessageAppend(message) => post.status_message@
            == pre.status_message@ + message@ && r == ClientResponse::Nothing,
        EditorOperation::Spawn(command, input) => r == ClientResponse::Spawn(command, input)
            && post == pre,
    }
}

impl Client {
    /// The state's standing invariant: the buffer is non-empty, a held
    /// syntax handle names a registered syntax, and the highlight overlay
    /// mirrors the buffer under that syntax.
    pub open spec fn wf(&self) -> bool {
        &&& self.buffer.wf()
        &&& self.config.syntaxes.spec_len() >= 1
        &&& match self.syntax_handle {
            Some(h) => 0 <= h.spec_index() < self.config.syntaxes.spec_len() && converged(
                self.config.syntaxes.spec_syntaxes()[h.spec_index()].spec_rules(),
                self.buffer@,
                self.highlighted_buffer.spec_lines(),
            ),
            None => true,
        }
    }

    pub fn new() -> (r: Self)
        ensures
            r.wf(),
            r.mode == Mode::Normal,
            r.has_focus,
            r.buffer@.len() == 1,
            r.input@ == Seq::<char>::empty(),
            r.status_message@ == Seq::<char>::empty(),
            r.syntax_handle is None,
    {
        proof {
            reveal_strlit("");
            assert(""@ =~= Seq::<char>::empty());
            assert(vstd::utf8::encode_utf8(""@) =~= Seq::<u8>::empty());
        }
        Client {
            config: Config {
                values: Vec::new(),
                theme: Vec::new(),
                syntaxes: SyntaxCollection::new(),
                syntax_extensions: Vec::new(),
            },
            mode: Mode::Normal,
            path: String::new(),
            buffer: BufferContent::from_str(""),
            highlighted_buffer: crate::syntax::HighlightedBuffer::new(),
            syntax_handle: None,
            main_cursor: Cursor::default(),
            cursors: Vec::new(),
            search_ranges: Vec::new(),
            has_focus: true,
            input: String::new(),
            select_entries: Vec::new(),
            status_message_kind: StatusMessageKind::Info,
            status_message: String::new(),
        }
    }

    /// Whether an operation can be applied to this state: positions it
    /// names lie within the buffer and results stay within the index type.
    pub open spec fn op_valid(&self, operation: EditorOperation) -> bool {
        match operation {
            EditorOperation::Insert(position, text) => {
                &&& position.line_index < self.buffer@.len()
                &&& position.column_byte_index <= self.buffer@[position.line_index as int].len()
                &&& ({
                    let end = spec_insert_end(
                        position.line_index as int,
                        position.column_byte_index as int,
                        vstd::utf8::encode_utf8(text@),
                    );
                    end.0 <= u32::MAX && end.1 <= u32::MAX
                })
            },
            EditorOperation::Delete(range) => {
                &&& range.from.spec_le(range.to)
                &&& range.to.line_index < self.buffer@.len()
                &&& range.from.column_byte_index <= self.buffer@[range.from.line_index as int].len()
                &&& range.to.column_byte_index <= self.buffer@[range.to.line_index as int].len()
            },
            EditorOperation::Search => {
                &&& self.buffer@.len() <= u32::MAX
                &&& forall|i: int|
                    0 <= i < self.buffer@.len() ==> (#[trigger] self.buffer@[i]).len() <= u32::MAX
            },
            _ => true,
        }
    }

    /// Applies one server operation. Most operations change one piece of
    /// state; `Insert` and `Delete` also repair the highlight overlay, and
    /// `Spawn` is handed back for the surrounding process to run.
    #[verifier::rlimit(100)]
    pub fn on_editor_operation(&mut self, operation: &EditorOperation) -> (r: ClientResponse)
        requires
            old(self).wf(),
            old(self).op_valid(*operation),
        ensures
            final(self).wf(),
            op_effect(*old(self), *final(self), *operation, r),
    {
        match operation {
            EditorOperation::Focused(focused) => {
                self.has_focus = *focused;
                ClientResponse::Nothing
            },
            EditorOperation::Buffer(content) => {
                self.search_ranges.clear();
                self.buffer = BufferContent::from_str(content.as_str());
                self.main_cursor = Cursor::default();
                self.cursors.clear();
                self.cursors.push(self.main_cursor);
                proof {
                    assert(self.cursors@ =~= seq![self.main_cursor]);
                }
                match self.syntax_handle {
                    Some(handle) => {
                        let syntax = self.config.syntaxes.get(handle);
                        self.highlighted_buffer.highligh_all(syntax, &self.buffer);
                    },
                    None => {},
                }
                ClientResponse::Nothing
            },
            EditorOperation::Path(p) => {
                self.path = p.clone();
                self.syntax_handle = self.config.syntaxes.find_handle_by_path(
                    p.as_str().as_bytes(),
                );
                match self.syntax_handle {
                    Some(handle) => {
                        let syntax = self.config.syntaxes.get(handle);
                        self.highlighted_buffer.highligh_all(syntax, &self.buffer);
                    },
                    None => {},
                }
                ClientResponse::Nothing
            },
            EditorOperation::Mode(m) => {
                self.mode = *m;
                ClientResponse::Nothing
            },
            EditorOperation::Insert(position, text) => {
                self.search_ranges.clear();
                let ghost old_buf = self.buffer@;
                let ghost old_hl = self.highlighted_buffer.spec_lines();
                let range = self.buffer.insert_text(*position, text.as_str());
                proof {
                    lemma_insert_lines_shift(
                        old_buf,
                        position.line_index as int,
                        position.column_byte_index as int,
                        vstd::utf8::encode_utf8(text@),
                    );
                    lemma_split_from_nonempty(vstd::utf8::encode_utf8(text@), 0);
                }
                match self.syntax_handle {
                    Some(handle) => {
                        let syntax = self.config.syntaxes.get(handle);
                        proof {
                            let rules = syntax.spec_rules();
                            let ins = range.to.line_index - range.from.line_index;
                            assert forall|i: int|
                                0 <= i < range.from.line_index implies chain_ok(
                                rules,
                                self.buffer@,
                                old_hl,
                                i,
                            ) by {
                                assert(chain_ok(rules, old_buf, old_hl, i));
                                assert(self.buffer@[i] == old_buf[i]);
                            }
                            assert forall|i: int|
                                range.from.line_index < i < old_hl.len() implies ({
                                let pr = crate::syntax::spec_parse_line(
                                    rules,
                                    self.buffer@[i + ins],
                                    old_hl[i - 1].state,
                                );
                                (#[trigger] old_hl[i]).tokens == pr.0 && old_hl[i].state == pr.1
                            }) by {
                                assert(chain_ok(rules, old_buf, old_hl, i));
                                assert(self.buffer@[i + ins] == old_buf[i]);
                            }
                        }
                        self.highlighted_buffer.on_insert(syntax, &self.buffer, range);
                    },
                    None => {},
                }
                ClientResponse::Nothing
            },
            EditorOperation::Delete(range) => {
                self.search_ranges.clear();
                let ghost old_buf = self.buffer@;
                let ghost old_hl = self.highlighted_buffer.spec_lines();
                self.buffer.delete_range(*range);
                proof {
                    lemma_delete_lines_shift(
                        old_buf,
                        range.from.line_index as int,
                        range.from.column_byte_index as int,
                        range.to.line_index as int,
                        range.to.column_byte_index as int,
                    );
                }
                match self.syntax_handle {
                    Some(handle) => {
                        let syntax = self.config.syntaxes.get(handle);
                        proof {
                            let rules = syntax.spec_rules();
                            let d = range.to.line_index - range.from.line_index;
                            assert forall|i: int|
                                0 <= i < range.from.line_index implies chain_ok(
                                rules,
                                self.buffer@,
                                old_hl,
                                i,
                            ) by {
                                assert(chain_ok(rules, old_buf, old_hl, i));
                                assert(self.buffer@[i] == old_buf[i]);
                            }
                            assert forall|i: int|
                                range.to.line_index < i < old_hl.len() implies ({
                                let pr = crate::syntax::spec_parse_line(
                                    rules,
                                    self.buffer@[i - d],
                                    old_hl[i - 1].state,
                                );
                                (#[trigger] old_hl[i]).tokens == pr.0 && old_hl[i].state == pr.1
                            }) by {
                                assert(chain_ok(rules, old_buf, old_hl, i));
                                assert(self.buffer@[i - d] == old_buf[i]);
                            }
                        }
                        self.highlighted_buffer.on_delete(syntax, &self.buffer, *range);
                    },
                    None => {},
                }
                ClientResponse::Nothing
            },
            EditorOperation::CursorsClear(cursor) => {
                self.main_cursor = *cursor;
                self.cursors.clear();
                ClientResponse::Nothing
            },
            EditorOperation::Cursor(cursor) => {
                self.cursors.push(*cursor);
                ClientResponse::Nothing
            },
            EditorOperation::InputAppend(c) => {
                crate::mode::push_char(&mut self.input, *c);
                ClientResponse::Nothing
            },
            EditorOperation::InputKeep(keep_count) => {
                let len = self.input.as_str().unicode_len();
                let keep = if (*keep_count as usize) <= len {
                    *keep_count as usize
                } else {
                    len
                };
                self.input = self.input.as_str().substring_char(0, keep).to_owned();
                ClientResponse::Nothing
            },
            EditorOperation::Search => {
                self.search_ranges.clear();
                let ghost cleared = self.search_ranges@;
                if self.input.as_str().unicode_len() > 0 {
                    proof {
                        let chars = self.input@;
                        assert(vstd::utf8::encode_utf8(chars) == vstd::utf8::encode_scalar(
                            chars[0] as u32,
                        ) + vstd::utf8::encode_utf8(chars.drop_first()));
                        assert(vstd::utf8::encode_scalar(chars[0] as u32).len() >= 1);
                    }
                    self.buffer.find_search_ranges(
                        self.input.as_str().as_bytes(),
                        &mut self.search_ranges,
                    );
                    proof {
                        let needle = vstd::utf8::encode_utf8(old(self).input@);
                        let found = spec_search_from(old(self).buffer@, needle, 0);
                        let want = spec_search_ranges(old(self).buffer@, needle);
                        assert forall|k: int|
                            0 <= k < found.len() implies self.search_ranges@[k] == want[k] by {
                            let rr = self.search_ranges@[cleared.len() + k];
                            assert(rr.from.line_index == found[k].0 && rr.from.column_byte_index
                                == found[k].1 && rr.to.line_index == found[k].0
                                && rr.to.column_byte_index == found[k].1 + needle.len());
                        }
                        assert(self.search_ranges@ =~= want);
                    }
                } else {
                    proof {
                        assert(self.search_ranges@ =~= Seq::<BufferRange>::empty());
                    }
                }
                ClientResponse::Nothing
            },
            EditorOperation::ConfigValues(blob) => {
                self.config.values = blob.clone();
                ClientResponse::Nothing
            },
            EditorOperation::Theme(blob) => {
                self.config.theme = blob.clone();
                ClientResponse::Nothing
            },
            EditorOperation::SyntaxExtension(main, other) => {
                self.config.syntax_extensions.push((main.clone(), other.clone()));
                ClientResponse::Nothing
            },
            EditorOperation::SyntaxRule(glob_text, kind, pattern_text) => {
                match Pattern::new(pattern_text.as_str()) {
                    Ok(pattern) => {
                        let ghost pv = pattern@;
                        let ghost pre_syntaxes = self.config.syntaxes;
                        let h = self.config.syntaxes.add_rule_for_glob(
                            glob_text.as_str().as_bytes(),
                            *kind,
                            pattern,
                        );
                        match self.syntax_handle {
                            Some(handle) => {
                                proof {
                                    SyntaxHandle::lemma_eq_index(handle, h);
                                }
                                if handle == h {
                                    let syntax = self.config.syntaxes.get(h);
                                    self.highlighted_buffer.highligh_all(syntax, &self.buffer);
                                }
                            },
                            None => {},
                        }
                        proof {
                            assert(syntax_rule_applied(
                                pre_syntaxes,
                                self.config.syntaxes,
                                vstd::utf8::encode_utf8(glob_text@),
                                *kind,
                                pv,
                                h.spec_index(),
                            ));
                        }
                    },
                    Err(_) => {
                        self.status_message_kind = StatusMessageKind::Error;
                        self.status_message = String::from_str("invalid pattern");
                    },
                }
                ClientResponse::Nothing
            },
            EditorOperation::SelectClear => {
                self.select_entries.clear();
                ClientResponse::Nothing
            },
            EditorOperation::SelectEntry(name) => {
                self.select_entries.push(name.clone());
                ClientResponse::Nothing
            },
            EditorOperation::StatusMessage(kind, message) => {
                self.status_message_kind = *kind;
                self.status_message = message.clone();
                ClientResponse::Nothing
            },
            EditorOperation::StatusMessageAppend(message) => {
                self.status_message.append(message.as_str());
                ClientResponse::Nothing
            },
            EditorOperation::Spawn(command, input) => {
                ClientResponse::Spawn(command.clone(), input.clone())
            },
        }
    }

    /// Applies a batch of configuration operations in order, as when a
    /// sourced configuration is replayed into a fresh client: the final
    /// state is the fold of `on_editor_operation` over the applicable
    /// operations, in their order.
    pub fn load_config(&mut self, operations: &Vec<EditorOperation>)
        requires
            old(self).wf(),
        ensures
            final(self).wf(),
            config_replay(*old(self), *final(self), operations@),
    {
        let n = operations.len();
        let mut i: usize = 0;
        let ghost mut states: Seq<Client> = seq![*old(self)];
        while i < n
            invariant
                0 <= i <= n,
                n == operations@.len(),
                self.wf(),
                states.len() == i + 1,
                states.first() == *old(self),
                states.last() == *self,
                forall|k: int|
                    0 <= k < i ==> #[trigger] config_step(
                        states[k],
                        states[k + 1],
                        operations@[k],
                    ),
            decreases n - i,
        {
            let op = &operations[i];
            let ghost mid = *self;
            let applicable = match op {
                EditorOperation::Insert(_, _) => false,
                EditorOperation::Delete(_) => false,
                EditorOperation::Search => self.buffer.fits_u32(),
                _ => true,
            };
            if applicable {
                proof {
                    assert(self.op_valid(*op));
                }
                let resp = self.on_editor_operation(op);
                proof {
                    assert(op_effect(mid, *self, *op, resp));
                }
            }
            proof {
                assert(config_step(mid, *self, operations@[i as int]));
                let prev = states;
                states = states.push(*self);
                assert forall|k: int| 0 <= k < i + 1 implies #[trigger] config_step(
                    states[k],
                    states[k + 1],
                    operations@[k],
                ) by {
                    if k < i {
                        assert(config_step(prev[k], prev[k + 1], operations@[k]));
                        assert(states[k] == prev[k] && states[k + 1] == prev[k + 1]);
                    } else {
                        assert(states[k] == mid && states[k + 1] == *self);
                    }
                }
            }
            i = i + 1;
        }
        proof {
            assert(is_config_trace(states, operations@));
            assert(exists|s: Seq<Client>|
                #[trigger] is_config_trace(s, operations@) && s.first() == *old(self) && s.last()
                    == *self) by {
                assert(is_config_trace(states, operations@) && states.first() == *old(self)
                    && states.last() == *self);
            }
        }
    }
}

/// Whether a sourced-configuration replay applies this operation to this
/// state: buffer edits are not part of a configuration, and a search asks
/// for a buffer within the position type's limits.
pub open spec fn config_op_applicable(pre: Client, op: EditorOperation) -> bool {
    match op {
        EditorOperation::Insert(_, _) => false,
        EditorOperation::Delete(_) => false,
        EditorOperation::Search => pre.buffer@.len() <= u32::MAX && (forall|i: int|
            0 <= i < pre.buffer@.len() ==> (#[trigger] pre.buffer@[i]).len() <= u32::MAX),
        _ => true,
    }
}

/// One replay step: an applicable operation acts as `on_editor_operation`
/// promises; any other leaves the state as it stood.
pub open spec fn config_step(pre: Client, post: Client, op: EditorOperation) -> bool {
    if config_op_applicable(pre, op) {
        exists|r: ClientResponse| #[trigger] op_effect(pre, post, op, r)
    } else {
        post == pre
    }
}

/// A chain of states stepping through every operation in order: one state
/// per prefix of the operations.
pub open spec fn is_config_trace(states: Seq<Client>, ops: Seq<EditorOperation>) -> bool {
    &&& states.len() == ops.len() + 1
    &&& forall|k: int|
        0 <= k < ops.len() ==> #[trigger] config_step(states[k], states[k + 1], ops[k])
}

/// A replay of the operations in order: some chain of `config_step`s leads
/// from the state before the first to the state after the last.
pub open spec fn config_replay(pre: Client, post: Client, ops: Seq<EditorOperation>) -> bool {
    exists|states: Seq<Client>|
        #[trigger] is_config_trace(states, ops) && states.first() == pre && states.last() == post
}

} // verus!
