//! The multiplexer host's decisions: input routing, mouse reports, key
//! bindings, the commands a pane is started with, and the rate of output
//! events.
use vstd::prelude::*;
use vstd::utf8::{encode_scalar, encode_utf8, is_scalar};
use crate::keys::Direction;
use crate::text::{ascii_bytes, digits};

pub mod budget;
pub mod geometry;
pub mod input;
pub mod output;
pub mod router;
pub mod session;
pub mod tabs;

pub use router::{Action, Command, InputRouter, MouseEvent};
use router::{mouse_report, CommandView};

verus! {

broadcast use vstd::string::group_string_axioms;

/// Whether a pane's output is to be announced now, at most every 250 ms; it
/// is, and the time is noted, when none was announced before or the last
/// was at least 250 ms ago.
pub fn output_event_due(last: &mut Option<u64>, now: u64) -> (due: bool)
    ensures
        due == match *old(last) {
            None => true,
            Some(previous) => now >= previous + 250,
        },
        *final(last) == (if due {
            Some(now)
        } else {
            *old(last)
        }),
{
    let due = match *last {
        None => true,
        Some(previous) => (if now >= previous {
            now - previous
        } else {
            0
        }) >= 250,
    };
    if due {
        *last = Some(now);
    }
    due
}

/// The byte a binding names: one byte, or `C-` and one byte for its control
/// code.
pub open spec fn bound_byte(b: Seq<u8>) -> Option<u8> {
    if b.len() == 3 && b[0] == 0x43 && b[1] == 0x2d {
        Some(
            (if 0x61 <= b[2] <= 0x7a {
                (b[2] - 32) as u8
            } else {
                b[2]
            }) & 0x1f,
        )
    } else if b.len() == 1 {
        Some(b[0])
    } else {
        None
    }
}

/// The byte a binding's key names.
pub fn binding_byte(value: &str) -> (r: Option<u8>)
    ensures
        r == bound_byte(encode_utf8(value@)),
{
    let b = value.as_bytes();
    if b.len() == 3 && b[0] == 0x43 && b[1] == 0x2d {
        let c = b[2];
        let upper = if 0x61 <= c && c <= 0x7a {
            c - 32
        } else {
            c
        };
        return Some(upper & 0x1f);
    }
    if b.len() == 1 {
        Some(b[0])
    } else {
        None
    }
}

/// A built-in action a key can be bound to.
#[derive(Clone, Copy, Debug, PartialEq, Eq, Structural)]
pub enum BuiltinAction {
    SplitHorizontal,
    SplitVertical,
    FocusLeft,
    FocusRight,
    FocusUp,
    FocusDown,
    ClosePane,
    NewPane,
    NewTab,
    NextTab,
    PreviousTab,
    Zoom,
    CopyMode,
    Detach,
    WorkspacePicker,
    Help,
}

/// The router command a built-in action runs.
pub open spec fn builtin_view(value: BuiltinAction) -> CommandView {
    match value {
        BuiltinAction::SplitHorizontal => CommandView::SplitHorizontal,
        BuiltinAction::SplitVertical => CommandView::SplitVertical,
        BuiltinAction::FocusLeft => CommandView::Focus(Direction::Left),
        BuiltinAction::FocusRight => CommandView::Focus(Direction::Right),
        BuiltinAction::FocusUp => CommandView::Focus(Direction::Up),
        BuiltinAction::FocusDown => CommandView::Focus(Direction::Down),
        BuiltinAction::ClosePane => CommandView::Close,
        BuiltinAction::NewPane => CommandView::NewPane,
        BuiltinAction::NewTab => CommandView::NewTab,
        BuiltinAction::NextTab => CommandView::NextTab,
        BuiltinAction::PreviousTab => CommandView::PreviousTab,
        BuiltinAction::Zoom => CommandView::Zoom,
        BuiltinAction::CopyMode => CommandView::CopyMode,
        BuiltinAction::Detach => CommandView::Detach,
        BuiltinAction::WorkspacePicker => CommandView::WorkspacePicker,
        BuiltinAction::Help => CommandView::Help,
    }
}

/// The router command a built-in action runs.
pub fn builtin_command(value: BuiltinAction) -> (c: Command)
    ensures
        c@ == builtin_view(value),
{
    match value {
        BuiltinAction::SplitHorizontal => Command::SplitHorizontal,
        BuiltinAction::SplitVertical => Command::SplitVertical,
        BuiltinAction::FocusLeft => Command::Focus(Direction::Left),
        BuiltinAction::FocusRight => Command::Focus(Direction::Right),
        BuiltinAction::FocusUp => Command::Focus(Direction::Up),
        BuiltinAction::FocusDown => Command::Focus(Direction::Down),
        BuiltinAction::ClosePane => Command::Close,
        BuiltinAction::NewPane => Command::NewPane,
        BuiltinAction::NewTab => Command::NewTab,
        BuiltinAction::NextTab => Command::NextTab,
        BuiltinAction::PreviousTab => Command::PreviousTab,
        BuiltinAction::Zoom => Command::Zoom,
        BuiltinAction::CopyMode => Command::CopyMode,
        BuiltinAction::Detach => Command::Detach,
        BuiltinAction::WorkspacePicker => Command::WorkspacePicker,
        BuiltinAction::Help => Command::Help,
    }
}

/// What a pane's program reports it is doing.
#[derive(Clone, Copy, Debug, PartialEq, Eq, Structural)]
pub enum AgentState {
    Working,
    Blocked,
    Idle,
    NoAgent,
}

/// An agent's state as the control protocol reports it.
#[derive(Clone, Copy, Debug, PartialEq, Eq, Structural)]
pub enum AgentStatus {
    Working,
    Blocked,
    Idle,
    NoAgent,
}

/// An agent's state as the control protocol reports it.
pub fn control_agent_state(state: AgentState) -> (s: AgentStatus)
    ensures
        s == match state {
            AgentState::Working => AgentStatus::Working,
            AgentState::Blocked => AgentStatus::Blocked,
            AgentState::Idle => AgentStatus::Idle,
            AgentState::NoAgent => AgentStatus::NoAgent,
        },
{
    match state {
        AgentState::Working => AgentStatus::Working,
        AgentState::Blocked => AgentStatus::Blocked,
        AgentState::Idle => AgentStatus::Idle,
        AgentState::NoAgent => AgentStatus::NoAgent,
    }
}

pub open spec fn string_views(v: Seq<String>) -> Seq<Seq<char>> {
    v.map_values(|s: String| s@)
}

/// The shell line that changes to `$1` and runs the rest: no text of the
/// user's is put into shell source.
pub open spec fn cd_script() -> Seq<char> {
    "cd -- \"$1\" && shift && exec \"$@\""@
}

/// The command a pane runs: `argv`, else the default command, wrapped in
/// `env` when it has variables to set and in `sh` when it starts elsewhere.
pub open spec fn contextual(
    argv: Seq<Seq<char>>,
    cwd: Option<Seq<char>>,
    env: Seq<(Seq<char>, Seq<char>)>,
    default_command: Seq<Seq<char>>,
    env_tool: Seq<char>,
    sh_tool: Seq<char>,
) -> Seq<Seq<char>> {
    let command = if argv.len() == 0 { default_command } else { argv };
    if cwd is None && env.len() == 0 {
        command
    } else {
        let wrapped = seq![env_tool] + settings(env);
        match cwd {
            Some(dir) => seq![sh_tool, "-c"@, cd_script(), "fux"@, dir] + wrapped + command,
            None => wrapped + command,
        }
    }
}

/// Each variable as `env` takes it: `NAME=value`.
pub open spec fn settings(env: Seq<(Seq<char>, Seq<char>)>) -> Seq<Seq<char>>
    decreases env.len(),
{
    if env.len() == 0 {
        Seq::empty()
    } else {
        settings(env.drop_last()).push(env.last().0 + seq!['='] + env.last().1)
    }
}

pub open spec fn pair_views(v: Seq<(String, String)>) -> Seq<(Seq<char>, Seq<char>)> {
    v.map_values(|kv: (String, String)| (kv.0@, kv.1@))
}

proof fn lemma_string_views_push(a: Seq<String>, x: String)
    ensures
        string_views(a.push(x)) == string_views(a).push(x@),
{
    assert(string_views(a.push(x)) =~= string_views(a).push(x@));
}

fn push_all(out: &mut Vec<String>, items: &Vec<String>)
    ensures
        string_views(final(out)@) == string_views(old(out)@) + string_views(items@),
{
    let mut i: usize = 0;
    while i < items.len()
        invariant
            i <= items@.len(),
            string_views(out@) == string_views(old(out)@) + string_views(items@.take(i as int)),
        decreases items.len() - i,
    {
        let ghost before = out@;
        let copy = crate::text::string_of(items[i].as_str());
        out.push(copy);
        proof {
            lemma_string_views_push(before, copy);
            assert(items@.take(i + 1) =~= items@.take(i as int).push(items@[i as int]));
            lemma_string_views_push(items@.take(i as int), items@[i as int]);
        }
        assert(string_views(out@) =~= string_views(old(out)@) + string_views(items@.take(i + 1)));
        i += 1;
    }
    assert(items@.take(i as int) =~= items@);
}

/// The command a pane runs: `argv`, else the default command, run through
/// `env` (found at `env_tool`) with the variables of `env`, in their order,
/// and through `sh` (at `sh_tool`) when it starts in `cwd`.
pub fn contextual_command(
    argv: Vec<String>,
    cwd: Option<&str>,
    env: Vec<(String, String)>,
    default_command: &Vec<String>,
    env_tool: String,
    sh_tool: String,
) -> (command: Vec<String>)
    ensures
        string_views(command@) == contextual(
            string_views(argv@),
            match cwd {
                Some(d) => Some(d@),
                None => None,
            },
            pair_views(env@),
            string_views(default_command@),
            env_tool@,
            sh_tool@,
        ),
{
    let mut command: Vec<String> = Vec::new();
    if argv.len() == 0 {
        push_all(&mut command, default_command);
    } else {
        push_all(&mut command, &argv);
    }
    assert(string_views(command@) =~= (if argv@.len() == 0 {
        string_views(default_command@)
    } else {
        string_views(argv@)
    }));
    if cwd.is_none() && env.len() == 0 {
        return command;
    }
    let mut wrapped: Vec<String> = Vec::new();
    wrapped.push(env_tool);
    let mut i: usize = 0;
    while i < env.len()
        invariant
            i <= env@.len(),
            string_views(wrapped@) == seq![env_tool@] + settings(pair_views(env@).take(i as int)),
        decreases env.len() - i,
    {
        let mut setting = crate::text::string_of(env[i].0.as_str());
        crate::text::push_char(&mut setting, '=');
        crate::text::push_str(&mut setting, env[i].1.as_str());
        let ghost text = setting@;
        assert(text =~= env@[i as int].0@ + seq!['='] + env@[i as int].1@);
        let ghost before = wrapped@;
        let ghost g = setting;
        wrapped.push(setting);
        proof {
            lemma_string_views_push(before, g);
            let pv = pair_views(env@);
            assert(pv.take(i + 1).drop_last() =~= pv.take(i as int));
            assert(pv.take(i + 1).last() == pv[i as int]);
            assert(pv[i as int] == (env@[i as int].0@, env@[i as int].1@));
            assert(settings(pv.take(i + 1)) == settings(pv.take(i as int)).push(text));
        }
        assert(string_views(wrapped@) =~= seq![env_tool@] + settings(pair_views(env@).take(i + 1)));
        i += 1;
    }
    assert(pair_views(env@).take(i as int) =~= pair_views(env@));
    assert(pair_views(env@).take(0) =~= Seq::<(Seq<char>, Seq<char>)>::empty());
    match cwd {
        Some(dir) => {
            let mut shell: Vec<String> = Vec::new();
            shell.push(sh_tool);
            shell.push(crate::text::string_of("-c"));
            shell.push(crate::text::string_of("cd -- \"$1\" && shift && exec \"$@\""));
            shell.push(crate::text::string_of("fux"));
            shell.push(crate::text::string_of(dir));
            push_all(&mut shell, &wrapped);
            push_all(&mut shell, &command);
            assert(string_views(shell@) =~= contextual(
                string_views(argv@),
                Some(dir@),
                pair_views(env@),
                string_views(default_command@),
                env_tool@,
                sh_tool@,
            ));
            shell
        },
        None => {
            push_all(&mut wrapped, &command);
            wrapped
        },
    }
}

/// Which mouse events a pane's program asked for.
#[derive(Clone, Copy, Debug, PartialEq, Eq, Structural)]
pub enum MouseMode {
    Off,
    Press,
    PressRelease,
    ButtonMotion,
    AnyMotion,
}

/// How a pane's program asked for mouse reports to be written.
#[derive(Clone, Copy, Debug, PartialEq, Eq, Structural)]
pub enum MouseEncoding {
    Default,
    Utf8,
    Sgr,
}

/// A pane's mouse modes.
#[derive(Clone, Copy, Debug, PartialEq, Eq, Structural)]
pub struct PaneModes {
    pub mouse_mode: MouseMode,
    pub mouse_encoding: MouseEncoding,
}

/// Whether a pane in `mode` is sent the event.
pub open spec fn mouse_wanted(m: MouseEvent, mode: MouseMode) -> bool {
    let motion = m.code & 32 != 0;
    let button_down = m.code & 3 != 3;
    match mode {
        MouseMode::Off => false,
        MouseMode::Press => !m.release && !motion,
        MouseMode::PressRelease => !motion,
        MouseMode::ButtonMotion => !motion || button_down,
        MouseMode::AnyMotion => true,
    }
}

/// The report for an event at a pane's cell, in the pane's encoding, if the
/// pane wants it and the encoding can write it: SGR, one byte per number
/// plus 32, or UTF-8 per number plus 32.
pub open spec fn mouse_bytes(m: MouseEvent, column: u16, row: u16, modes: PaneModes) -> Option<
    Seq<u8>,
> {
    if !mouse_wanted(m, modes.mouse_mode) {
        None
    } else if modes.mouse_encoding == MouseEncoding::Sgr {
        Some(mouse_report(m, column, row))
    } else {
        let code: u32 = if m.release { 3 } else { m.code as u32 };
        let a = (code + 32) as u32;
        let b = (column + 32) as u32;
        let c = (row + 32) as u32;
        let head = seq![0x1bu8, 0x5bu8, 0x4du8];
        if modes.mouse_encoding == MouseEncoding::Default {
            if a <= 255 && b <= 255 && c <= 255 {
                Some(head + seq![a as u8, b as u8, c as u8])
            } else {
                None
            }
        } else if is_scalar(a) && is_scalar(b) && is_scalar(c) {
            Some(head + encode_scalar(a) + encode_scalar(b) + encode_scalar(c))
        } else {
            None
        }
    }
}

proof fn lemma_ascii_scalar(v: u32)
    requires
        v <= 0x7f,
    ensures
        encode_scalar(v) == seq![v as u8],
{
    assert(v & 0x7f == v) by (bit_vector)
        requires
            v <= 0x7f,
    ;
}

/// A release is reported as button 3 in the Default and UTF-8 encodings,
/// whatever button the event names: `ESC [ M`, then 35, then the column
/// and the row plus 32 (each one byte in UTF-8 too, below 128); in SGR the
/// event's own code is kept and the report ends in `m`. A press in the
/// Default encoding carries its code plus 32.
pub proof fn lemma_release_is_button_three(m: MouseEvent, column: u16, row: u16, modes: PaneModes)
    requires
        mouse_wanted(m, modes.mouse_mode),
    ensures
        m.release && modes.mouse_encoding == MouseEncoding::Default && column + 32 <= 255 && row + 32 <= 255
            ==> mouse_bytes(m, column, row, modes) == Some(
            seq![0x1bu8, 0x5bu8, 0x4du8, 35u8, (column + 32) as u8, (row + 32) as u8],
        ),
        m.release && modes.mouse_encoding == MouseEncoding::Utf8 && column + 32 < 128 && row + 32 < 128
            ==> mouse_bytes(m, column, row, modes) == Some(
            seq![0x1bu8, 0x5bu8, 0x4du8, 35u8, (column + 32) as u8, (row + 32) as u8],
        ),
        m.release && modes.mouse_encoding == MouseEncoding::Sgr ==> mouse_bytes(m, column, row, modes)
            == Some(mouse_report(m, column, row)) && mouse_report(m, column, row).last() == 0x6du8,
        !m.release && modes.mouse_encoding == MouseEncoding::Default && m.code + 32 <= 255 && column + 32 <= 255
            && row + 32 <= 255 ==> mouse_bytes(m, column, row, modes) == Some(
            seq![0x1bu8, 0x5bu8, 0x4du8, (m.code + 32) as u8, (column + 32) as u8, (row + 32) as u8],
        ),
{
    if m.release && modes.mouse_encoding == MouseEncoding::Default && column + 32 <= 255 && row + 32 <= 255 {
        assert(mouse_bytes(m, column, row, modes)->Some_0 =~= seq![0x1bu8, 0x5bu8, 0x4du8, 35u8, (column + 32) as u8, (row + 32) as u8]);
    }
    if m.release && modes.mouse_encoding == MouseEncoding::Utf8 && column + 32 < 128 && row + 32 < 128 {
        let a: u32 = 35;
        let b = (column + 32) as u32;
        let c = (row + 32) as u32;
        lemma_ascii_scalar(a);
        lemma_ascii_scalar(b);
        lemma_ascii_scalar(c);
        assert(mouse_bytes(m, column, row, modes)->Some_0 =~= seq![0x1bu8, 0x5bu8, 0x4du8, 35u8, (column + 32) as u8, (row + 32) as u8]);
    }
    if !m.release && modes.mouse_encoding == MouseEncoding::Default && m.code + 32 <= 255 && column + 32 <= 255 && row + 32 <= 255 {
        assert(mouse_bytes(m, column, row, modes)->Some_0 =~= seq![0x1bu8, 0x5bu8, 0x4du8, (m.code + 32) as u8, (column + 32) as u8, (row + 32) as u8]);
    }
}

/// Appends the UTF-8 bytes of the scalar value `v`.
fn push_scalar(bytes: &mut Vec<u8>, v: u32)
    requires
        is_scalar(v),
    ensures
        final(bytes)@ == old(bytes)@ + encode_scalar(v),
{
    if v <= 0x7f {
        bytes.push((v & 0x7f) as u8);
    } else if v <= 0x7ff {
        bytes.push(0xc0 | ((v >> 6) & 0x1f) as u8);
        bytes.push(0x80 | (v & 0x3f) as u8);
    } else if v <= 0xffff {
        bytes.push(0xe0 | ((v >> 12) & 0x0f) as u8);
        bytes.push(0x80 | ((v >> 6) & 0x3f) as u8);
        bytes.push(0x80 | (v & 0x3f) as u8);
    } else {
        bytes.push(0xf0 | ((v >> 18) & 0x7) as u8);
        bytes.push(0x80 | ((v >> 12) & 0x3f) as u8);
        bytes.push(0x80 | ((v >> 6) & 0x3f) as u8);
        bytes.push(0x80 | (v & 0x3f) as u8);
    }
    assert(final(bytes)@ =~= old(bytes)@ + encode_scalar(v));
}

fn scalar(v: u32) -> (r: bool)
    ensures
        r == is_scalar(v),
{
    v <= 0x10ffff && !(0xd800 <= v && v <= 0xdfff)
}

/// The report for a mouse event at a pane's cell, in the pane's encoding.
pub fn encode_mouse(mouse: MouseEvent, column: u16, row: u16, modes: PaneModes) -> (r: Option<Vec<u8>>)
    ensures
        match r {
            Some(b) => mouse_bytes(mouse, column, row, modes) == Some(b@),
            None => mouse_bytes(mouse, column, row, modes) is None,
        },
{
    let motion = mouse.code & 32 != 0;
    let button_down = mouse.code & 3 != 3;
    let report = match modes.mouse_mode {
        MouseMode::Off => false,
        MouseMode::Press => !mouse.release && !motion,
        MouseMode::PressRelease => !motion,
        MouseMode::ButtonMotion => !motion || button_down,
        MouseMode::AnyMotion => true,
    };
    if !report {
        return None;
    }
    if modes.mouse_encoding == MouseEncoding::Sgr {
        return Some(mouse.translated(column, row));
    }
    let code: u32 = if mouse.release { 3 } else { mouse.code as u32 };
    let a = code + 32;
    let b = column as u32 + 32;
    let c = row as u32 + 32;
    let mut bytes: Vec<u8> = vec![0x1b, 0x5b, 0x4d];
    assert(bytes@ =~= seq![0x1bu8, 0x5bu8, 0x4du8]);
    if modes.mouse_encoding == MouseEncoding::Default {
        if a > 255 || b > 255 || c > 255 {
            return None;
        }
        bytes.push(a as u8);
        bytes.push(b as u8);
        bytes.push(c as u8);
    } else {
        if !scalar(a) || !scalar(b) || !scalar(c) {
            return None;
        }
        push_scalar(&mut bytes, a);
        push_scalar(&mut bytes, b);
        push_scalar(&mut bytes, c);
    }
    assert(mouse_bytes(mouse, column, row, modes) == Some(bytes@)) by {
        assert(bytes@ =~= mouse_bytes(mouse, column, row, modes)->Some_0);
    }
    Some(bytes)
}


/// The characters of each of some texts.
pub open spec fn words_of(v: Seq<String>) -> Seq<Seq<char>> {
    v.map_values(|s: String| s@)
}

/// The command line a pane runs: its command, behind `zor --title never --`
/// where the `zor` wrapper was found.
pub open spec fn wrapped_words(command: Seq<Seq<char>>, zor: Option<Seq<char>>) -> Seq<Seq<char>> {
    match zor {
        Some(path) => seq![path, "--title"@, "never"@, "--"@] + command,
        None => command,
    }
}

/// The command line a pane runs, wrapped by `zor` where it was found.
pub fn wrapped_command(command: &Vec<String>, zor: Option<&str>) -> (argv: Vec<String>)
    ensures
        words_of(argv@) == wrapped_words(words_of(command@), match zor {
            Some(p) => Some(p@),
            None => None,
        }),
{
    let mut argv: Vec<String> = Vec::new();
    if let Some(path) = zor {
        argv.push(crate::text::string_of(path));
        argv.push(crate::text::string_of("--title"));
        argv.push(crate::text::string_of("never"));
        argv.push(crate::text::string_of("--"));
    }
    let ghost head = words_of(argv@);
    let mut i: usize = 0;
    while i < command.len()
        invariant
            i <= command.len(),
            words_of(argv@) == head + words_of(command@).take(i as int),
        decreases command.len() - i,
    {
        let ghost before = argv@;
        let word = command[i].clone();
        argv.push(word);
        proof {
            assert(argv@ == before.push(word));
            assert(words_of(argv@) =~= words_of(before).push(word@));
            assert(words_of(command@).take(i + 1) =~= words_of(command@).take(i as int).push(
                command@[i as int]@,
            ));
            assert(words_of(argv@) =~= head + words_of(command@).take(i + 1));
        }
        i = i + 1;
    }
    assert(words_of(command@).take(i as int) =~= words_of(command@));
    assert(words_of(argv@) =~= wrapped_words(words_of(command@), match zor {
        Some(p) => Some(p@),
        None => None,
    }));
    argv
}

}
