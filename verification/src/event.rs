use vstd::prelude::*;

use crate::model::ViewId;

verus! {

/// Whether keys edit the filter or drive the views.
#[derive(Clone, Copy, PartialEq, Eq, Structural, Debug)]
pub enum InputMode {
    Normal,
    Filter,
}

/// Whether the event loop goes on.
#[derive(Clone, Copy, PartialEq, Eq, Structural, Debug)]
pub enum HandleResult {
    Continue,
    Quit,
}

/// What handling a key decided for the event loop.
#[derive(Clone, Copy, PartialEq, Eq, Structural, Debug)]
pub struct KeyEventResult {
    pub should_quit: bool,
    pub input_mode: InputMode,
}

impl KeyEventResult {
    /// Whether the program should end.
    pub fn should_quit(&self) -> (b: bool)
        ensures
            b == self.should_quit,
    {
        self.should_quit
    }
}

/// The key of a key event.
#[derive(Clone, Copy, PartialEq, Eq, Structural, Debug)]
pub enum KeyCode {
    Char(char),
    Enter,
    Esc,
    Tab,
    BackTab,
    Backspace,
    Up,
    Down,
    Left,
    Right,
    PageUp,
    PageDown,
    Other,
}

/// Whether a key event is a press, a repeat or a release.
#[derive(Clone, Copy, PartialEq, Eq, Structural, Debug)]
pub enum KeyEventKind {
    Press,
    Repeat,
    Release,
}

/// A key event: the key, its kind and the modifier bits held with it.
#[derive(Clone, Copy, PartialEq, Eq, Structural, Debug)]
pub struct KeyEvent {
    pub code: KeyCode,
    pub kind: KeyEventKind,
    pub modifiers: u8,
}

/// What a key asks the application to do.
#[derive(Clone, Copy, PartialEq, Eq, Structural, Debug)]
pub enum Command {
    Nothing,
    Quit,
    ToggleFocus,
    NavigateDown,
    NavigateUp,
    PageDown,
    PageUp,
    NavigateLeft,
    NavigateRight,
    Select,
    Refresh,
    ToggleRecording,
    RunGc,
    MarkHeap,
    Copy,
    EnterFilter,
    GoTo(ViewId),
    LeaveFilter,
    FilterBackspace,
    FilterPush(char),
}

/// What a key asks for in each input mode.
pub open spec fn key_command_spec(mode: InputMode, code: KeyCode) -> Command {
    match mode {
        InputMode::Filter => match code {
            KeyCode::Esc | KeyCode::Enter => Command::LeaveFilter,
            KeyCode::Backspace => Command::FilterBackspace,
            KeyCode::Char(c) => Command::FilterPush(c),
            _ => Command::Nothing,
        },
        InputMode::Normal => match code {
            KeyCode::Char(c) => if c == 'q' || c == 'Q' {
                Command::Quit
            } else if c == 'j' {
                Command::NavigateDown
            } else if c == 'k' {
                Command::NavigateUp
            } else if c == 'h' {
                Command::NavigateLeft
            } else if c == 'l' {
                Command::NavigateRight
            } else if c == 'r' || c == 'R' {
                Command::Refresh
            } else if c == 's' || c == 'S' {
                Command::ToggleRecording
            } else if c == 'g' || c == 'G' {
                Command::RunGc
            } else if c == 'm' || c == 'M' {
                Command::MarkHeap
            } else if c == 'c' || c == 'C' {
                Command::Copy
            } else if c == 'f' || c == 'F' || c == '/' {
                Command::EnterFilter
            } else if c == '1' {
                Command::GoTo(ViewId::TeleOverview)
            } else if c == '2' {
                Command::GoTo(ViewId::CpuHotSpots)
            } else if c == '3' {
                Command::GoTo(ViewId::LiveAllocationHotSpots)
            } else if c == '4' {
                Command::GoTo(ViewId::DatabasesJdbc)
            } else {
                Command::Nothing
            },
            KeyCode::Tab | KeyCode::BackTab => Command::ToggleFocus,
            KeyCode::Down => Command::NavigateDown,
            KeyCode::Up => Command::NavigateUp,
            KeyCode::PageDown => Command::PageDown,
            KeyCode::PageUp => Command::PageUp,
            KeyCode::Left => Command::NavigateLeft,
            KeyCode::Right => Command::NavigateRight,
            KeyCode::Enter => Command::Select,
            _ => Command::Nothing,
        },
    }
}

/// What a key asks for in an input mode.
pub fn key_command(mode: InputMode, code: KeyCode) -> (c: Command)
    ensures
        c == key_command_spec(mode, code),
{
    match mode {
        InputMode::Filter => match code {
            KeyCode::Esc | KeyCode::Enter => Command::LeaveFilter,
            KeyCode::Backspace => Command::FilterBackspace,
            KeyCode::Char(c) => Command::FilterPush(c),
            _ => Command::Nothing,
        },
        InputMode::Normal => match code {
            KeyCode::Char(c) => if c == 'q' || c == 'Q' {
                Command::Quit
            } else if c == 'j' {
                Command::NavigateDown
            } else if c == 'k' {
                Command::NavigateUp
            } else if c == 'h' {
                Command::NavigateLeft
            } else if c == 'l' {
                Command::NavigateRight
            } else if c == 'r' || c == 'R' {
                Command::Refresh
            } else if c == 's' || c == 'S' {
                Command::ToggleRecording
            } else if c == 'g' || c == 'G' {
                Command::RunGc
            } else if c == 'm' || c == 'M' {
                Command::MarkHeap
            } else if c == 'c' || c == 'C' {
                Command::Copy
            } else if c == 'f' || c == 'F' || c == '/' {
                Command::EnterFilter
            } else if c == '1' {
                Command::GoTo(ViewId::TeleOverview)
            } else if c == '2' {
                Command::GoTo(ViewId::CpuHotSpots)
            } else if c == '3' {
                Command::GoTo(ViewId::LiveAllocationHotSpots)
            } else if c == '4' {
                Command::GoTo(ViewId::DatabasesJdbc)
            } else {
                Command::Nothing
            },
            KeyCode::Tab | KeyCode::BackTab => Command::ToggleFocus,
            KeyCode::Down => Command::NavigateDown,
            KeyCode::Up => Command::NavigateUp,
            KeyCode::PageDown => Command::PageDown,
            KeyCode::PageUp => Command::PageUp,
            KeyCode::Left => Command::NavigateLeft,
            KeyCode::Right => Command::NavigateRight,
            KeyCode::Enter => Command::Select,
            _ => Command::Nothing,
        },
    }
}

/// The filter text after a command: a character added or the last one removed; emptied when
/// the filter is entered.
pub open spec fn filter_after(filter: Seq<char>, c: Command) -> Seq<char> {
    match c {
        Command::FilterPush(ch) => filter.push(ch),
        Command::FilterBackspace => if filter.len() > 0 {
            filter.drop_last()
        } else {
            filter
        },
        Command::EnterFilter => seq![],
        _ => filter,
    }
}

/// The result of a key: quit on a quit key, the input mode the key leaves, and the command for
/// the application; only presses and repeats count.
pub open spec fn key_result_spec(mode: InputMode, key: KeyEvent) -> (KeyEventResult, Command) {
    if key.kind == KeyEventKind::Release {
        (KeyEventResult { should_quit: false, input_mode: mode }, Command::Nothing)
    } else {
        let c = key_command_spec(mode, key.code);
        (
            KeyEventResult {
                should_quit: c == Command::Quit,
                input_mode: if c == Command::LeaveFilter {
                    InputMode::Normal
                } else if c == Command::EnterFilter {
                    InputMode::Filter
                } else {
                    mode
                },
            },
            c,
        )
    }
}

/// Handles a key: edits the filter in filter mode, and tells what the application should do.
pub fn handle_key(mode: InputMode, filter_input: &mut String, key: KeyEvent) -> (r: (
    KeyEventResult,
    Command,
))
    ensures
        r == key_result_spec(mode, key),
        final(filter_input)@ == filter_after(old(filter_input)@, r.1),
{
    if key.kind == KeyEventKind::Release {
        return (KeyEventResult { should_quit: false, input_mode: mode }, Command::Nothing);
    }
    let c = key_command(mode, key.code);
    let mut input_mode = mode;
    match c {
        Command::FilterPush(ch) => {
            filter_input.push(ch);
        },
        Command::FilterBackspace => {
            let mut cs = crate::text::chars_of(filter_input.as_str());
            if cs.len() > 0 {
                cs.pop();
            }
            *filter_input = crate::text::string_of(cs.as_slice());
        },
        Command::EnterFilter => {
            *filter_input = String::new();
            input_mode = InputMode::Filter;
        },
        Command::LeaveFilter => {
            input_mode = InputMode::Normal;
        },
        _ => {},
    }
    (KeyEventResult { should_quit: c == Command::Quit, input_mode }, c)
}

/// The key event `key` with its key replaced by `code`.
pub open spec fn with_code(key: KeyEvent, code: KeyCode) -> KeyEvent {
    KeyEvent { code, ..key }
}

/// In normal mode the vim keys do what the arrow keys do (`j` down, `k` up, `h` left, `l`
/// right), letter commands ignore case, `/` opens the filter as `f` does, and Tab and BackTab
/// both switch the focus; on a press or repeat the four arrows navigate in their own four
/// directions.
pub proof fn lemma_normal_key_aliases(key: KeyEvent)
    ensures
        key_result_spec(InputMode::Normal, with_code(key, KeyCode::Char('j'))) == key_result_spec(
            InputMode::Normal,
            with_code(key, KeyCode::Down),
        ),
        key_result_spec(InputMode::Normal, with_code(key, KeyCode::Char('k'))) == key_result_spec(
            InputMode::Normal,
            with_code(key, KeyCode::Up),
        ),
        key_result_spec(InputMode::Normal, with_code(key, KeyCode::Char('h'))) == key_result_spec(
            InputMode::Normal,
            with_code(key, KeyCode::Left),
        ),
        key_result_spec(InputMode::Normal, with_code(key, KeyCode::Char('l'))) == key_result_spec(
            InputMode::Normal,
            with_code(key, KeyCode::Right),
        ),
        key_result_spec(InputMode::Normal, with_code(key, KeyCode::Tab)) == key_result_spec(
            InputMode::Normal,
            with_code(key, KeyCode::BackTab),
        ),
        key_result_spec(InputMode::Normal, with_code(key, KeyCode::Char('/'))) == key_result_spec(
            InputMode::Normal,
            with_code(key, KeyCode::Char('f')),
        ),
        forall|c: char|
            #![trigger key_result_spec(InputMode::Normal, with_code(key, KeyCode::Char(c)))]
            c == 'q' || c == 'r' || c == 's' || c == 'g' || c == 'm' || c == 'c' || c == 'f'
                ==> key_result_spec(InputMode::Normal, with_code(key, KeyCode::Char(c)))
                == key_result_spec(
                InputMode::Normal,
                with_code(key, KeyCode::Char(upper_ascii(c))),
            ),
        key.kind != KeyEventKind::Release ==> {
            &&& key_result_spec(InputMode::Normal, with_code(key, KeyCode::Up)).1 == Command::NavigateUp
            &&& key_result_spec(InputMode::Normal, with_code(key, KeyCode::Down)).1
                == Command::NavigateDown
            &&& key_result_spec(InputMode::Normal, with_code(key, KeyCode::Left)).1
                == Command::NavigateLeft
            &&& key_result_spec(InputMode::Normal, with_code(key, KeyCode::Right)).1
                == Command::NavigateRight
        },
{
}

/// The keys that ask for something in normal mode.
pub open spec fn command_keys() -> Seq<KeyCode> {
    seq![
        KeyCode::Char('q'),
        KeyCode::Tab,
        KeyCode::Down,
        KeyCode::Up,
        KeyCode::PageDown,
        KeyCode::PageUp,
        KeyCode::Left,
        KeyCode::Right,
        KeyCode::Enter,
        KeyCode::Char('r'),
        KeyCode::Char('s'),
        KeyCode::Char('g'),
        KeyCode::Char('m'),
        KeyCode::Char('c'),
        KeyCode::Char('f'),
        KeyCode::Char('1'),
        KeyCode::Char('2'),
        KeyCode::Char('3'),
        KeyCode::Char('4'),
    ]
}

/// In normal mode each command key asks for something, and no two of them for the same thing;
/// any other letter asks for nothing.
pub proof fn lemma_normal_commands_distinct()
    ensures
        forall|a: int|
            0 <= a < command_keys().len() ==> key_command_spec(
                InputMode::Normal,
                #[trigger] command_keys()[a],
            ) != Command::Nothing,
        forall|a: int, b: int|
            0 <= a < b < command_keys().len() ==> key_command_spec(
                InputMode::Normal,
                #[trigger] command_keys()[a],
            ) != key_command_spec(InputMode::Normal, #[trigger] command_keys()[b]),
        key_command_spec(InputMode::Normal, KeyCode::Char('x')) == Command::Nothing,
        key_command_spec(InputMode::Normal, KeyCode::Char('a')) == Command::Nothing,
{
    let ks = command_keys();
    assert forall|a: int, b: int| 0 <= a < b < ks.len() implies key_command_spec(
        InputMode::Normal,
        #[trigger] ks[a],
    ) != key_command_spec(InputMode::Normal, #[trigger] ks[b]) by {
        assert(ks[0] == KeyCode::Char('q'));
        assert(ks[1] == KeyCode::Tab);
        assert(ks[2] == KeyCode::Down);
        assert(ks[3] == KeyCode::Up);
        assert(ks[4] == KeyCode::PageDown);
        assert(ks[5] == KeyCode::PageUp);
        assert(ks[6] == KeyCode::Left);
        assert(ks[7] == KeyCode::Right);
        assert(ks[8] == KeyCode::Enter);
        assert(ks[9] == KeyCode::Char('r'));
        assert(ks[10] == KeyCode::Char('s'));
        assert(ks[11] == KeyCode::Char('g'));
        assert(ks[12] == KeyCode::Char('m'));
        assert(ks[13] == KeyCode::Char('c'));
        assert(ks[14] == KeyCode::Char('f'));
        assert(ks[15] == KeyCode::Char('1'));
        assert(ks[16] == KeyCode::Char('2'));
        assert(ks[17] == KeyCode::Char('3'));
        assert(ks[18] == KeyCode::Char('4'));
    }
}

/// The capital of an ASCII lower-case letter; any other character as it is.
pub open spec fn upper_ascii(c: char) -> char {
    if 'a' <= c <= 'z' {
        ((c as u32) - 32) as char
    } else {
        c
    }
}

/// The keys that move the selection.
pub open spec fn is_navigation_key_spec(code: KeyCode) -> bool {
    match code {
        KeyCode::Up | KeyCode::Down | KeyCode::Left | KeyCode::Right | KeyCode::PageUp
        | KeyCode::PageDown => true,
        KeyCode::Char(c) => c == 'h' || c == 'j' || c == 'k' || c == 'l',
        _ => false,
    }
}

/// Whether a key moves the selection.
pub fn is_navigation_key(code: KeyCode) -> (b: bool)
    ensures
        b == is_navigation_key_spec(code),
{
    match code {
        KeyCode::Up | KeyCode::Down | KeyCode::Left | KeyCode::Right | KeyCode::PageUp
        | KeyCode::PageDown => true,
        KeyCode::Char(c) => c == 'h' || c == 'j' || c == 'k' || c == 'l',
        _ => false,
    }
}

/// A press closer than this to the same press before it is a bounce.
pub const DEBOUNCE_MS: u64 = 180;

/// Drops key presses that bounce: the same key with the same modifiers again within
/// `DEBOUNCE_MS`; repeats and navigation keys always pass.
#[derive(Clone, Copy, Debug)]
pub struct KeyDebounce {
    pub last: Option<(KeyCode, u8, u64)>,
}

/// Whether a key event at `now_ms` passes, and the press remembered afterwards.
pub open spec fn debounce_spec(last: Option<(KeyCode, u8, u64)>, key: KeyEvent, now_ms: u64) -> (
    bool,
    Option<(KeyCode, u8, u64)>,
) {
    if key.kind == KeyEventKind::Release {
        (false, last)
    } else if key.kind == KeyEventKind::Repeat || is_navigation_key_spec(key.code) {
        (true, last)
    } else {
        let duplicate = match last {
            Some((code, modifiers, at)) => code == key.code && modifiers == key.modifiers && now_ms
                >= at && now_ms - at < DEBOUNCE_MS,
            None => false,
        };
        if duplicate {
            (false, last)
        } else {
            (true, Some((key.code, key.modifiers, now_ms)))
        }
    }
}

impl KeyDebounce {
    /// No press remembered.
    pub fn new() -> (d: KeyDebounce)
        ensures
            d.last is None,
    {
        KeyDebounce { last: None }
    }

    /// Whether a key event at `now_ms` (a monotonic clock in milliseconds) passes.
    pub fn should_accept(&mut self, key: KeyEvent, now_ms: u64) -> (b: bool)
        ensures
            (b, final(self).last) == debounce_spec(old(self).last, key, now_ms),
    {
        if key.kind == KeyEventKind::Release {
            return false;
        }
        if key.kind == KeyEventKind::Repeat || is_navigation_key(key.code) {
            return true;
        }
        let duplicate = match self.last {
            Some((code, modifiers, at)) => code == key.code && modifiers == key.modifiers && now_ms
                >= at && now_ms - at < DEBOUNCE_MS,
            None => false,
        };
        if duplicate {
            return false;
        }
        self.last = Some((key.code, key.modifiers, now_ms));
        true
    }
}

/// The value after the first `name` among the arguments.
pub open spec fn arg_value_spec(args: Seq<String>, name: Seq<char>, i: int) -> Option<Seq<char>>
    decreases args.len() - i,
{
    if i < 0 || i + 1 >= args.len() {
        None
    } else if args[i]@ == name {
        Some(args[i + 1]@)
    } else {
        arg_value_spec(args, name, i + 1)
    }
}

/// The value after the first `name` among the arguments (that has one after it).
pub fn arg_value(args: &[String], name: &str) -> (r: Option<String>)
    ensures
        match arg_value_spec(args@, name@, 0) {
            None => r is None,
            Some(v) => r is Some && r.unwrap()@ == v,
        },
{
    let nc = crate::text::chars_of(name);
    let mut i: usize = 0;
    while i < args.len() && i + 1 < args.len()
        invariant
            i <= args@.len(),
            nc@ == name@,
            arg_value_spec(args@, name@, 0) == arg_value_spec(args@, name@, i as int),
        decreases args@.len() - i,
    {
        let a = crate::text::chars_of(args[i].as_str());
        if crate::jvm::same_chars(a.as_slice(), nc.as_slice()) {
            return Some(args[i + 1].clone());
        }
        i = i + 1;
    }
    None
}

} // verus!
