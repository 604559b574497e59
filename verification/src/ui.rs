//! The editing state machines behind the terminal screens: single- and
//! multi-line text editing, cursor placement, and the mode cycles of the
//! browsing and node-editing panes.
//!
//! Everything here is pure state: reading keys and drawing widgets stay
//! with the terminal layer, which feeds keystrokes in as [`KeyInput`].

use vstd::prelude::*;
use vstd::string::StrSliceExecFns;

use crate::node::Node;

verus! {

/// The keystrokes the editing state machines react to; everything else is
/// `Other` and leaves the state unchanged.
#[derive(Clone, Copy, Debug, PartialEq, Eq, Structural)]
pub enum KeyInput {
    Char(char),
    Enter,
    Backspace,
    Tab,
    Other,
}

/// Relies on String::push: appends one character at the end.
#[verifier::external_body]
fn string_push(s: &mut String, c: char)
    ensures
        final(s)@ == old(s)@.push(c),
{
    s.push(c);
}

/// Relies on String::pop: removes and returns the last character, `None`
/// on an empty string.
#[verifier::external_body]
fn string_pop(s: &mut String) -> (r: Option<char>)
    ensures
        old(s)@.len() == 0 ==> r is None && final(s)@ == old(s)@,
        old(s)@.len() > 0 ==> r == Some(old(s)@.last()) && final(s)@ == old(s)@.drop_last(),
{
    s.pop()
}

/// A line of text after one keystroke: characters append, backspace
/// removes the last character, and a newline appends only where allowed.
pub open spec fn line_after(pre: Seq<char>, evt: KeyInput, allow_newline: bool) -> Seq<char> {
    match evt {
        KeyInput::Char(c) => pre.push(c),
        KeyInput::Enter => if allow_newline {
            pre.push('\n')
        } else {
            pre
        },
        KeyInput::Backspace => if pre.len() == 0 {
            pre
        } else {
            pre.drop_last()
        },
        _ => pre,
    }
}

/// Single-line editing: characters and backspace; newlines are ignored.
pub fn handle_input_single_line(target: &mut String, evt: KeyInput)
    ensures
        final(target)@ == line_after(old(target)@, evt, false),
{
    match evt {
        KeyInput::Char(c) => {
            string_push(target, c);
        },
        KeyInput::Backspace => {
            string_pop(target);
        },
        _ => {},
    }
}

/// Multi-line editing: as single-line, and the enter key appends a
/// newline.
pub fn handle_input_multi_line(target: &mut String, evt: KeyInput)
    ensures
        final(target)@ == line_after(old(target)@, evt, true),
{
    match evt {
        KeyInput::Char(c) => {
            string_push(target, c);
        },
        KeyInput::Enter => {
            string_push(target, '\n');
        },
        KeyInput::Backspace => {
            string_pop(target);
        },
        _ => {},
    }
}

/// How many newline characters the text holds: one less than its line
/// count.
pub open spec fn newline_count(s: Seq<char>) -> nat
    decreases s.len(),
{
    if s.len() == 0 {
        0
    } else {
        newline_count(s.drop_last()) + (if s.last() == '\n' {
            1nat
        } else {
            0nat
        })
    }
}

/// The character length of the text after its last newline.
pub open spec fn last_line_len(s: Seq<char>) -> nat
    decreases s.len(),
{
    if s.len() == 0 {
        0
    } else if s.last() == '\n' {
        0
    } else {
        last_line_len(s.drop_last()) + 1
    }
}

/// Where the cursor belongs after the text: one column past the last
/// character of the last line, on the last line's row.
pub fn cursor_offset(target: &str) -> (r: (u16, u16))
    requires
        last_line_len(target@) < u16::MAX,
        newline_count(target@) <= u16::MAX,
    ensures
        r.0 == 1 + last_line_len(target@),
        r.1 == newline_count(target@),
{
    let n = target.unicode_len();
    let mut x: usize = 0;
    let mut y: usize = 0;
    let mut i: usize = 0;
    while i < n
        invariant
            n == target@.len(),
            i <= n,
            x == last_line_len(target@.take(i as int)),
            y == newline_count(target@.take(i as int)),
            x <= i,
            y <= i,
        decreases n - i,
    {
        let c = target.get_char(i);
        proof {
            let t1 = target@.take(i + 1);
            assert(t1.drop_last() =~= target@.take(i as int));
            assert(t1.last() == target@[i as int]);
        }
        if c == '\n' {
            y = y + 1;
            x = 0;
        } else {
            x = x + 1;
        }
        i = i + 1;
    }
    proof {
        assert(target@.take(n as int) =~= target@);
    }
    ((x as u16) + 1, y as u16)
}

/// The pane the browsing screen is editing: the child list, the selected
/// node's title, or its description.
#[derive(Clone, Copy, Debug, PartialEq, Eq, Structural)]
pub enum NormalStateMode {
    List,
    Title,
    Description,
}

impl NormalStateMode {
    /// The next pane in the forward cycle.
    pub fn next(self) -> (r: Self)
        ensures
            r == (match self {
                NormalStateMode::List => NormalStateMode::Title,
                NormalStateMode::Title => NormalStateMode::Description,
                NormalStateMode::Description => NormalStateMode::List,
            }),
    {
        match self {
            NormalStateMode::List => NormalStateMode::Title,
            NormalStateMode::Title => NormalStateMode::Description,
            NormalStateMode::Description => NormalStateMode::List,
        }
    }

    /// The previous pane: one step back in the same cycle.
    pub fn last(self) -> (r: Self)
        ensures
            r == (match self {
                NormalStateMode::List => NormalStateMode::Description,
                NormalStateMode::Title => NormalStateMode::List,
                NormalStateMode::Description => NormalStateMode::Title,
            }),
    {
        match self {
            NormalStateMode::List => NormalStateMode::Description,
            NormalStateMode::Title => NormalStateMode::List,
            NormalStateMode::Description => NormalStateMode::Title,
        }
    }
}

/// The two segments of the node editor.
#[derive(Clone, Copy, Debug, PartialEq, Eq, Structural)]
pub enum NodeEditorMode {
    Title,
    Description,
}

/// The segment the editor moves to on a tab.
pub open spec fn mode_next(m: NodeEditorMode) -> NodeEditorMode {
    match m {
        NodeEditorMode::Title => NodeEditorMode::Description,
        NodeEditorMode::Description => NodeEditorMode::Title,
    }
}

impl NodeEditorMode {
    /// The other segment.
    pub fn next(self) -> (r: Self)
        ensures
            r == mode_next(self),
    {
        match self {
            NodeEditorMode::Title => NodeEditorMode::Description,
            NodeEditorMode::Description => NodeEditorMode::Title,
        }
    }
}

/// The stateless node-editor widget; its state lives in
/// [`NodeEditorState`].
pub struct NodeEditor {}

impl Default for NodeEditor {
    fn default() -> (r: Self)
        ensures
            r == (NodeEditor {  }),
    {
        Self {  }
    }
}

/// The record after an edit keystroke changed one text field; everything
/// else is kept.
pub open spec fn text_edited(pre: Node, post: Node, title: Seq<char>, descr: Seq<char>) -> bool {
    &&& post.id == pre.id
    &&& post.title@ == title
    &&& post.description@ == descr
    &&& post.scheduled == pre.scheduled
    &&& post.due == pre.due
}

/// The node being edited, if any, and which of its segments has focus.
pub struct NodeEditorState {
    node: Option<Node>,
    mode: NodeEditorMode,
}

impl NodeEditorState {
    /// The node under edit.
    pub closed spec fn spec_node(self) -> Option<Node> {
        self.node
    }

    /// The focused segment.
    pub closed spec fn spec_mode(self) -> NodeEditorMode {
        self.mode
    }

    /// An editor over the given node, starting on the title.
    pub fn new(node: Option<Node>) -> (r: Self)
        ensures
            r.spec_node() == node,
            r.spec_mode() == NodeEditorMode::Title,
    {
        Self { node, mode: NodeEditorMode::Title }
    }

    /// Replaces the node under edit and resets focus to the title.
    pub fn select(&mut self, new_node: Option<Node>)
        ensures
            final(self).spec_node() == new_node,
            final(self).spec_mode() == NodeEditorMode::Title,
    {
        self.node = new_node;
        self.mode = NodeEditorMode::Title;
    }

    /// A view of the node under edit.
    pub fn node(&self) -> (r: Option<&Node>)
        ensures
            match r {
                Some(n) => self.spec_node() == Some(*n),
                None => self.spec_node() is None,
            },
    {
        self.node.as_ref()
    }

    /// One keystroke: tab swaps segment, characters and backspace edit the
    /// focused text (newlines only in the description), anything else is
    /// ignored. Without a node nothing changes.
    pub fn handle_input(&mut self, evt: KeyInput)
        ensures
            old(self).spec_node() is None ==> *final(self) == *old(self),
            old(self).spec_node() matches Some(n) ==> (match evt {
                KeyInput::Tab => final(self).spec_node() == old(self).spec_node()
                    && final(self).spec_mode() == mode_next(old(self).spec_mode()),
                _ => final(self).spec_mode() == old(self).spec_mode()
                    && (final(self).spec_node() matches Some(n2) && (if old(self).spec_mode()
                    == NodeEditorMode::Title {
                    text_edited(n, n2, line_after(n.title@, evt, false), n.description@)
                } else {
                    text_edited(n, n2, n.title@, line_after(n.description@, evt, true))
                })),
            }),
    {
        match &mut self.node {
            None => {},
            Some(node) => {
                match evt {
                    KeyInput::Tab => {
                        self.mode = self.mode.next();
                    },
                    _ => {
                        match self.mode {
                            NodeEditorMode::Title => {
                                handle_input_single_line(&mut node.title, evt);
                            },
                            NodeEditorMode::Description => {
                                handle_input_multi_line(&mut node.description, evt);
                            },
                        }
                    },
                }
            },
        }
    }
}

} // verus!
