//! The commands behind the tray window's buttons: ending a process,
//! opening a terminal or a file browser in a directory, running as
//! administrator, and what the tray menu's entries do.
use vstd::prelude::*;
use crate::number::{decimal, push_decimal};
use crate::scan::{arg_views, make_command, text, Command, CommandSpec, Platform};
use crate::text::{chars_of, string_of};

verus! {

/// The pid in decimal.
pub fn pid_text(pid: u32) -> (res: String)
    ensures
        res@ == decimal(pid as nat),
{
    let mut chars: Vec<char> = Vec::new();
    push_decimal(&mut chars, pid);
    assert(chars@ =~= decimal(pid as nat));
    string_of(chars.as_slice())
}

// ---------------------------------------------------------------------
// Ending a process
// ---------------------------------------------------------------------
/// The command that ends the process `pid` by force: `taskkill /PID pid
/// /F` on Windows, `kill -9 pid` elsewhere.
pub open spec fn kill_spec(platform: Platform, pid: u32) -> CommandSpec {
    match platform {
        Platform::Windows => CommandSpec {
            program: "taskkill"@,
            args: seq!["/PID"@, decimal(pid as nat), "/F"@],
            hide_window: false,
        },
        _ => CommandSpec {
            program: "kill"@,
            args: seq!["-9"@, decimal(pid as nat)],
            hide_window: false,
        },
    }
}

/// The command that ends the process `pid` by force; the process is
/// ended where the command runs and succeeds.
pub fn kill_command(platform: Platform, pid: u32) -> (res: Command)
    ensures
        res@ == kill_spec(platform, pid),
{
    match platform {
        Platform::Windows => {
            let args = vec![text("/PID"), pid_text(pid), text("/F")];
            assert(arg_views(args@) =~= seq!["/PID"@, decimal(pid as nat), "/F"@]);
            make_command("taskkill", args, false)
        },
        _ => {
            let args = vec![text("-9"), pid_text(pid)];
            assert(arg_views(args@) =~= seq!["-9"@, decimal(pid as nat)]);
            make_command("kill", args, false)
        },
    }
}

// ---------------------------------------------------------------------
// Where to open a terminal or a file browser
// ---------------------------------------------------------------------
/// The environment variable that names the user's home directory.
pub open spec fn home_variable_spec(platform: Platform) -> Seq<char> {
    match platform {
        Platform::Windows => "USERPROFILE"@,
        _ => "HOME"@,
    }
}

/// The environment variable that names the user's home directory:
/// `USERPROFILE` on Windows, `HOME` elsewhere.
pub fn home_variable(platform: Platform) -> (res: String)
    ensures
        res@ == home_variable_spec(platform),
{
    match platform {
        Platform::Windows => text("USERPROFILE"),
        _ => text("HOME"),
    }
}

/// The directory used where the home directory is unknown.
pub open spec fn root_directory_spec(platform: Platform) -> Seq<char> {
    match platform {
        Platform::Windows => "C:\\"@,
        _ => "/"@,
    }
}

/// The directory to open: `dir`, or where it is empty the home directory
/// (`home`, the value of the home variable where it is set), or where
/// that is unknown the root of the system drive.
pub open spec fn target_spec(platform: Platform, dir: Seq<char>, home: Option<Seq<char>>) -> Seq<
    char,
> {
    if dir.len() > 0 {
        dir
    } else {
        match home {
            Some(h) => h,
            None => root_directory_spec(platform),
        }
    }
}

/// The value of an optional string.
pub open spec fn text_view(o: Option<String>) -> Option<Seq<char>> {
    match o {
        Some(s) => Some(s@),
        None => None,
    }
}

/// The directory to open a terminal or a file browser in.
pub fn target_directory(platform: Platform, dir: &str, home: Option<String>) -> (res: String)
    ensures
        res@ == target_spec(platform, dir@, text_view(home)),
{
    if !dir.is_empty() {
        return text(dir);
    }
    match home {
        Some(h) => h,
        None => match platform {
            Platform::Windows => text("C:\\"),
            _ => text("/"),
        },
    }
}

/// `s` with each `'` written `\'` (`str::replace('\'', "\\'")`).
pub open spec fn escape_quotes(s: Seq<char>) -> Seq<char>
    decreases s.len(),
{
    if s.len() == 0 {
        seq![]
    } else if s.last() == '\'' {
        escape_quotes(s.drop_last()) + seq!['\\', '\'']
    } else {
        escape_quotes(s.drop_last()).push(s.last())
    }
}

/// The AppleScript that opens Terminal in `target`.
pub open spec fn apple_script_spec(target: Seq<char>) -> Seq<char> {
    "tell application \"Terminal\"\nactivate\ndo script \"cd '"@ + escape_quotes(target)
        + "'\"\nend tell"@
}

/// The AppleScript that has Terminal change to `target`, each `'` in it
/// escaped.
pub fn apple_script(target: &str) -> (res: String)
    ensures
        res@ == apple_script_spec(target@),
{
    let t = chars_of(target);
    let mut out = chars_of("tell application \"Terminal\"\nactivate\ndo script \"cd '");
    let ghost head = out@;
    let n = t.len();
    assert(t@.take(0) =~= Seq::<char>::empty());
    assert(out@ =~= head + escape_quotes(t@.take(0)));
    for i in 0..n
        invariant
            n == t@.len(),
            out@ == head + escape_quotes(t@.take(i as int)),
    {
        let c = t[i];
        if c == '\'' {
            out.push('\\');
            out.push('\'');
        } else {
            out.push(c);
        }
        assert(t@.take(i + 1).drop_last() =~= t@.take(i as int));
        assert(out@ =~= head + escape_quotes(t@.take(i + 1)));
    }
    assert(t@.take(n as int) =~= t@);
    let tail = chars_of("'\"\nend tell");
    out.extend_from_slice(tail.as_slice());
    string_of(out.as_slice())
}

/// The commands that open a terminal in `target`, to be tried in order
/// until one starts: Windows Terminal, then a `cmd` window, on Windows;
/// Terminal through `osascript` on macOS; none elsewhere.
pub open spec fn terminal_spec(platform: Platform, target: Seq<char>) -> Seq<CommandSpec> {
    match platform {
        Platform::Windows => seq![
            CommandSpec {
                program: "wt"@,
                args: seq!["--startingDirectory"@, target],
                hide_window: false,
            },
            CommandSpec {
                program: "cmd"@,
                args: seq!["/c"@, "start"@, "cmd"@, "/K"@, "cd /d \""@ + target + "\""@],
                hide_window: false,
            },
        ],
        Platform::MacOs => seq![
            CommandSpec {
                program: "osascript"@,
                args: seq!["-e"@, apple_script_spec(target)],
                hide_window: false,
            },
        ],
        Platform::Other => seq![],
    }
}

/// The views of the commands.
pub open spec fn command_views(v: Seq<Command>) -> Seq<CommandSpec> {
    v.map_values(|c: Command| c@)
}

/// The commands that open a terminal in `target`, in the order to try.
pub fn terminal_commands(platform: Platform, target: &str) -> (res: Vec<Command>)
    ensures
        command_views(res@) == terminal_spec(platform, target@),
{
    match platform {
        Platform::Windows => {
            let args1 = vec![text("--startingDirectory"), text(target)];
            assert(arg_views(args1@) =~= seq!["--startingDirectory"@, target@]);
            let first = make_command("wt", args1, false);
            let mut cd = chars_of("cd /d \"");
            let t = chars_of(target);
            cd.extend_from_slice(t.as_slice());
            cd.push('"');
            let ghost cdv = "cd /d \""@ + target@ + "\""@;
            proof {
                reveal_strlit("\"");
            }
            assert(cd@ =~= cdv);
            let args2 = vec![text("/c"), text("start"), text("cmd"), text("/K"), string_of(cd.as_slice())];
            assert(arg_views(args2@) =~= seq!["/c"@, "start"@, "cmd"@, "/K"@, cdv]);
            let second = make_command("cmd", args2, false);
            let res = vec![first, second];
            assert(command_views(res@) =~= terminal_spec(platform, target@));
            res
        },
        Platform::MacOs => {
            let args = vec![text("-e"), apple_script(target)];
            assert(arg_views(args@) =~= seq!["-e"@, apple_script_spec(target@)]);
            let res = vec![make_command("osascript", args, false)];
            assert(command_views(res@) =~= terminal_spec(platform, target@));
            res
        },
        Platform::Other => {
            let res: Vec<Command> = Vec::new();
            assert(command_views(res@) =~= terminal_spec(platform, target@));
            res
        },
    }
}

/// The command that opens a file browser in `target`: Explorer on
/// Windows, `open` on macOS, none elsewhere.
pub open spec fn folder_spec(platform: Platform, target: Seq<char>) -> Option<CommandSpec> {
    match platform {
        Platform::Windows => Some(
            CommandSpec { program: "explorer"@, args: seq![target], hide_window: false },
        ),
        Platform::MacOs => Some(
            CommandSpec { program: "open"@, args: seq![target], hide_window: false },
        ),
        Platform::Other => None,
    }
}

/// The value of an optional command.
pub open spec fn command_view(o: Option<Command>) -> Option<CommandSpec> {
    match o {
        Some(c) => Some(c@),
        None => None,
    }
}

/// The command that opens a file browser in `target`.
pub fn folder_command(platform: Platform, target: &str) -> (res: Option<Command>)
    ensures
        command_view(res) == folder_spec(platform, target@),
{
    match platform {
        Platform::Windows => {
            let args = vec![text(target)];
            assert(arg_views(args@) =~= seq![target@]);
            Some(make_command("explorer", args, false))
        },
        Platform::MacOs => {
            let args = vec![text(target)];
            assert(arg_views(args@) =~= seq![target@]);
            Some(make_command("open", args, false))
        },
        Platform::Other => None,
    }
}

// ---------------------------------------------------------------------
// Starting a terminal or a file browser
// ---------------------------------------------------------------------
/// What to do next when starting one of `count` commands, tried in order
/// until one starts: start the command at an index, or report whether the
/// window's request succeeded.
#[derive(Debug, Clone, Copy, PartialEq, Eq)]
pub enum LaunchStep {
    Start(usize),
    Done(bool),
}

/// The next step, given whether each command tried so far started: the
/// next command while none has started and some is left; then success,
/// which on Windows is reported whatever happened and elsewhere is
/// whether a command started.
pub open spec fn launch_spec(platform: Platform, count: nat, started: Seq<bool>) -> LaunchStep {
    if !started.contains(true) && started.len() < count {
        LaunchStep::Start(started.len() as usize)
    } else {
        LaunchStep::Done(platform == Platform::Windows || started.contains(true))
    }
}

/// The next step in starting one of `count` commands.
pub fn launch_step(platform: Platform, count: usize, started: &Vec<bool>) -> (res: LaunchStep)
    ensures
        res == launch_spec(platform, count as nat, started@),
{
    let mut any = false;
    let n = started.len();
    for i in 0..n
        invariant
            n == started@.len(),
            any <==> started@.take(i as int).contains(true),
    {
        let ghost prev = started@.take(i as int);
        let ghost cur = started@.take(i + 1);
        assert(cur =~= prev.push(started@[i as int]));
        if started[i] {
            any = true;
            assert(cur[i as int] == true);
        } else {
            assert(cur.contains(true) ==> prev.contains(true)) by {
                if cur.contains(true) {
                    let j = choose|j: int| 0 <= j < cur.len() && cur[j] == true;
                    assert(prev[j] == true);
                }
            }
            assert(prev.contains(true) ==> cur.contains(true)) by {
                if prev.contains(true) {
                    let j = choose|j: int| 0 <= j < prev.len() && prev[j] == true;
                    assert(cur[j] == true);
                }
            }
        }
    }
    assert(started@.take(n as int) =~= started@);
    if !any && n < count {
        LaunchStep::Start(n)
    } else {
        let windows = match platform {
            Platform::Windows => true,
            _ => false,
        };
        LaunchStep::Done(windows || any)
    }
}

// ---------------------------------------------------------------------
// Running as administrator (Windows)
// ---------------------------------------------------------------------
/// `cmd /c "net session >nul 2>&1"`, without a window: it succeeds only
/// for an administrator.
pub open spec fn admin_check_spec() -> CommandSpec {
    CommandSpec { program: "cmd"@, args: seq!["/c"@, "net session >nul 2>&1"@], hide_window: true }
}

/// The command whose success shows that the program runs as
/// administrator.
pub fn admin_check_command() -> (res: Command)
    ensures
        res@ == admin_check_spec(),
{
    let args = vec![text("/c"), text("net session >nul 2>&1")];
    assert(arg_views(args@) =~= seq!["/c"@, "net session >nul 2>&1"@]);
    make_command("cmd", args, true)
}

/// The PowerShell command that starts the program at `exe` again as
/// administrator, hidden, without a window of its own.
pub open spec fn elevation_spec(exe: Seq<char>) -> CommandSpec {
    CommandSpec {
        program: "powershell"@,
        args: seq![
            "-NoProfile"@,
            "-WindowStyle"@,
            "Hidden"@,
            "-Command"@,
            "Start-Process -FilePath '"@ + exe + "' -Verb RunAs -WindowStyle Hidden"@,
        ],
        hide_window: true,
    }
}

/// The command that starts the program at `exe` again as administrator.
pub fn elevation_command(exe: &str) -> (res: Command)
    ensures
        res@ == elevation_spec(exe@),
{
    let mut script = chars_of("Start-Process -FilePath '");
    let e = chars_of(exe);
    script.extend_from_slice(e.as_slice());
    let tail = chars_of("' -Verb RunAs -WindowStyle Hidden");
    script.extend_from_slice(tail.as_slice());
    let ghost sv = "Start-Process -FilePath '"@ + exe@ + "' -Verb RunAs -WindowStyle Hidden"@;
    assert(script@ =~= sv);
    let args = vec![
        text("-NoProfile"),
        text("-WindowStyle"),
        text("Hidden"),
        text("-Command"),
        string_of(script.as_slice()),
    ];
    assert(arg_views(args@) =~= seq!["-NoProfile"@, "-WindowStyle"@, "Hidden"@, "-Command"@, sv]);
    make_command("powershell", args, true)
}

/// What to do at start-up about running as administrator.
#[derive(Debug, Clone, Copy, PartialEq, Eq)]
pub enum AdminStep {
    /// Run the check of whether this program runs as administrator.
    Check,
    /// Start the program again as administrator and end this instance.
    Relaunch,
    /// Go on as is.
    Continue,
}

/// The step at start-up, given the check's result so far (`None` before
/// it ran; a check that could not run counts as failed): on Windows the
/// check runs first and a failed one relaunches; elsewhere, or after a
/// successful check, the program goes on.
pub open spec fn admin_spec(platform: Platform, check: Option<bool>) -> AdminStep {
    if platform != Platform::Windows {
        AdminStep::Continue
    } else {
        match check {
            None => AdminStep::Check,
            Some(false) => AdminStep::Relaunch,
            Some(true) => AdminStep::Continue,
        }
    }
}

/// The step at start-up about running as administrator.
pub fn admin_step(platform: Platform, check: Option<bool>) -> (res: AdminStep)
    ensures
        res == admin_spec(platform, check),
{
    match platform {
        Platform::Windows => match check {
            None => AdminStep::Check,
            Some(false) => AdminStep::Relaunch,
            Some(true) => AdminStep::Continue,
        },
        _ => AdminStep::Continue,
    }
}

// ---------------------------------------------------------------------
// The tray menu
// ---------------------------------------------------------------------
/// What an entry of the tray menu does.
#[derive(Debug, Clone, Copy, PartialEq, Eq)]
pub enum MenuAction {
    Quit,
    ToggleWindow,
    Nothing,
}

/// What the tray menu entry `id` does: `quit` quits, `show` shows or
/// hides the window, any other does nothing.
pub open spec fn menu_spec(id: Seq<char>) -> MenuAction {
    if id == "quit"@ {
        MenuAction::Quit
    } else if id == "show"@ {
        MenuAction::ToggleWindow
    } else {
        MenuAction::Nothing
    }
}

/// Whether `a` and `b` hold the same characters.
fn same_text(a: &[char], b: &[char]) -> (res: bool)
    ensures
        res == (a@ == b@),
{
    if a.len() != b.len() {
        return false;
    }
    let n = a.len();
    for i in 0..n
        invariant
            n == a@.len() == b@.len(),
            forall|j: int| 0 <= j < i ==> a@[j] == b@[j],
    {
        if a[i] != b[i] {
            return false;
        }
    }
    assert(a@ =~= b@);
    true
}

/// What the tray menu entry `id` does.
pub fn menu_action(id: &str) -> (res: MenuAction)
    ensures
        res == menu_spec(id@),
{
    let chars = chars_of(id);
    let quit = chars_of("quit");
    let show = chars_of("show");
    if same_text(chars.as_slice(), quit.as_slice()) {
        MenuAction::Quit
    } else if same_text(chars.as_slice(), show.as_slice()) {
        MenuAction::ToggleWindow
    } else {
        MenuAction::Nothing
    }
}

/// What a click on the tray icon does: a left click, on release of the
/// button, shows or hides the window; any other click does nothing.
pub open spec fn tray_click_spec(left_button: bool, released: bool) -> MenuAction {
    if left_button && released {
        MenuAction::ToggleWindow
    } else {
        MenuAction::Nothing
    }
}

/// What a click on the tray icon does.
pub fn tray_click_action(left_button: bool, released: bool) -> (res: MenuAction)
    ensures
        res == tray_click_spec(left_button, released),
{
    if left_button && released {
        MenuAction::ToggleWindow
    } else {
        MenuAction::Nothing
    }
}

// ---------------------------------------------------------------------
// Showing and hiding the window
// ---------------------------------------------------------------------
/// What showing or hiding the window does to it.
#[derive(Debug, Clone, Copy, PartialEq, Eq)]
pub enum WindowAction {
    /// Hide the window.
    Hide,
    /// Place the window at the bottom right of the screen, show it and
    /// give it the focus.
    ShowAtCorner,
}

/// Showing or hiding the window, given whether it is visible (`None`
/// where that could not be learnt, which counts as hidden): a visible
/// window is hidden, any other is placed, shown and focused.
pub open spec fn window_toggle_spec(visible: Option<bool>) -> WindowAction {
    if visible == Some(true) {
        WindowAction::Hide
    } else {
        WindowAction::ShowAtCorner
    }
}

/// Showing or hiding the window, given whether it is visible.
pub fn window_toggle(visible: Option<bool>) -> (res: WindowAction)
    ensures
        res == window_toggle_spec(visible),
{
    match visible {
        Some(true) => WindowAction::Hide,
        _ => WindowAction::ShowAtCorner,
    }
}

} // verus!
