use jim::mode::register::RegisterMap;
use jim::mode::visual::VisualMode;
use jim::mode::{CommandMode, InsertMode, Mode, NormalMode};

#[test]
fn test_mode_display() {
    assert_eq!(Mode::Normal.display(), "");
    assert_eq!(Mode::Insert.display(), "-- INSERT --");
    assert_eq!(Mode::Visual { line_wise: false }.display(), "-- VISUAL --");
    assert_eq!(Mode::Visual { line_wise: true }.display(), "-- VISUAL LINE --");
    assert_eq!(Mode::Command.display(), "-- COMMAND --");
}

#[test]
fn test_mode_state_constructors() {
    let cmd = CommandMode::new();
    assert_eq!(cmd.command_line, "");
    let _insert = InsertMode::new();
    let _normal = NormalMode::new();
}

#[test]
fn test_visual_selection_range() {
    let visual = VisualMode::new(10, false);
    assert_eq!(visual.get_selection_range(4), (4, 10));
    assert_eq!(visual.get_selection_range(25), (10, 25));
    assert_eq!(visual.get_selection_range(10), (10, 10));
    assert!(!visual.line_wise);
}

#[test]
fn test_registers_named_and_unnamed() {
    let mut registers = RegisterMap::new();
    registers.set(None, "plain".to_string(), false);
    assert_eq!(registers.get_unnamed(), "plain");
    assert_eq!(registers.get(None).unwrap(), "plain");

    registers.set(Some('a'), "one".to_string(), false);
    assert_eq!(registers.get(Some('a')).unwrap(), "one");
    // uppercase appends to the lowercase slot
    registers.set(Some('A'), "+two".to_string(), false);
    assert_eq!(registers.get(Some('a')).unwrap(), "one+two");
    assert_eq!(registers.get(Some('A')).unwrap(), "one+two");
    assert_eq!(registers.get(Some('q')), None);
}

#[test]
fn test_registers_yank_and_small_delete() {
    let mut registers = RegisterMap::new();
    registers.set(None, "yanked".to_string(), true);
    assert_eq!(registers.get(Some('0')).unwrap(), "yanked");

    registers.set(None, "cut".to_string(), false);
    assert_eq!(registers.get(Some('-')).unwrap(), "cut");
    // a multi-line delete leaves the small-delete register alone
    registers.set(None, "two\nlines".to_string(), false);
    assert_eq!(registers.get(Some('-')).unwrap(), "cut");
    // the last yank survives deletes
    assert_eq!(registers.get(Some('0')).unwrap(), "yanked");
}
