use taskgraph::node::Node;
use taskgraph::ui::KeyInput;
use taskgraph::ui::NodeEditorMode;
use taskgraph::ui::NodeEditorState;
use taskgraph::ui::NormalStateMode;
use taskgraph::ui::cursor_offset;
use taskgraph::ui::handle_input_multi_line;
use taskgraph::ui::handle_input_single_line;

#[test]
#[allow(non_snake_case)]
fn test_cursor_output__empty() {
    let offset = cursor_offset("");
    assert_eq!(offset, (1, 0));
}

#[test]
#[allow(non_snake_case)]
fn test_cursor_output__single_line() {
    let offset = cursor_offset("here's some characters");
    assert_eq!(offset, (23, 0));
}

#[test]
#[allow(non_snake_case)]
fn test_cursor_output__single_line_rune() {
    // note the special `’` is multiple bytes long
    let offset = cursor_offset("here’s some characters");
    assert_eq!(offset, (23, 0));
}

#[test]
#[allow(non_snake_case)]
fn test_cursor_output__multi_line() {
    // note the special `’` is multiple bytes long
    let offset = cursor_offset("here's some characters\nacross multiple lines");
    assert_eq!(offset, (22, 1));
}

#[test]
fn single_line_editing() {
    let mut s = String::new();
    handle_input_single_line(&mut s, KeyInput::Char('h'));
    handle_input_single_line(&mut s, KeyInput::Char('i'));
    assert_eq!(s, "hi");
    handle_input_single_line(&mut s, KeyInput::Enter);
    assert_eq!(s, "hi");
    handle_input_single_line(&mut s, KeyInput::Backspace);
    assert_eq!(s, "h");
    handle_input_single_line(&mut s, KeyInput::Backspace);
    handle_input_single_line(&mut s, KeyInput::Backspace);
    assert_eq!(s, "");
}

#[test]
fn multi_line_editing() {
    let mut s = String::from("a");
    handle_input_multi_line(&mut s, KeyInput::Enter);
    handle_input_multi_line(&mut s, KeyInput::Char('b'));
    assert_eq!(s, "a\nb");
    handle_input_multi_line(&mut s, KeyInput::Backspace);
    handle_input_multi_line(&mut s, KeyInput::Backspace);
    assert_eq!(s, "a");
}

#[test]
fn normal_mode_cycles() {
    assert!(matches!(NormalStateMode::List.next(), NormalStateMode::Title));
    assert!(matches!(NormalStateMode::Title.next(), NormalStateMode::Description));
    assert!(matches!(NormalStateMode::Description.next(), NormalStateMode::List));
    assert!(matches!(NormalStateMode::List.last(), NormalStateMode::Description));
    assert!(matches!(NormalStateMode::Title.last(), NormalStateMode::List));
    assert!(matches!(NormalStateMode::Description.last(), NormalStateMode::Title));
}

#[test]
fn editor_mode_cycles() {
    assert!(matches!(NodeEditorMode::Title.next(), NodeEditorMode::Description));
    assert!(matches!(NodeEditorMode::Description.next(), NodeEditorMode::Title));
}

#[test]
fn editor_state_edits_selected_node() {
    let mut node = Node::new();
    node.title = String::from("t");
    let mut state = NodeEditorState::new(Some(node));
    state.handle_input(KeyInput::Char('x'));
    assert_eq!(state.node().unwrap().title, "tx");
    // tab moves focus to the description, enter is allowed there
    state.handle_input(KeyInput::Tab);
    state.handle_input(KeyInput::Char('d'));
    state.handle_input(KeyInput::Enter);
    state.handle_input(KeyInput::Char('e'));
    assert_eq!(state.node().unwrap().description, "d\ne");
    assert_eq!(state.node().unwrap().title, "tx");
    // selecting a new node resets the focus to the title
    state.select(None);
    assert!(state.node().is_none());
    state.handle_input(KeyInput::Char('z'));
    assert!(state.node().is_none());
}
