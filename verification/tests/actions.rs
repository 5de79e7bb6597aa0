use portly::actions::{
    admin_check_command, apple_script, elevation_command, folder_command, home_variable,
    kill_command, menu_action, pid_text, target_directory, terminal_commands, tray_click_action,
    window_toggle, MenuAction, WindowAction, launch_step, admin_step, LaunchStep, AdminStep,
};
use portly::scan::Platform;

#[test]
fn kill_commands() {
    let c = kill_command(Platform::Windows, 8120);
    assert_eq!(c.program, "taskkill");
    assert_eq!(c.args, vec!["/PID", "8120", "/F"]);
    let c = kill_command(Platform::MacOs, 0);
    assert_eq!(c.program, "kill");
    assert_eq!(c.args, vec!["-9", "0"]);
    assert_eq!(pid_text(4294967295), "4294967295");
}

#[test]
fn target_directories() {
    assert_eq!(target_directory(Platform::Windows, "D:\\work", None), "D:\\work");
    assert_eq!(target_directory(Platform::Windows, "", Some("C:\\Users\\me".to_string())), "C:\\Users\\me");
    assert_eq!(target_directory(Platform::Windows, "", None), "C:\\");
    assert_eq!(target_directory(Platform::MacOs, "", None), "/");
    assert_eq!(home_variable(Platform::Windows), "USERPROFILE");
    assert_eq!(home_variable(Platform::MacOs), "HOME");
}

#[test]
fn apple_script_escapes_quotes() {
    assert_eq!(
        apple_script("/Users/me/it's"),
        "tell application \"Terminal\"\nactivate\ndo script \"cd '/Users/me/it\\'s'\"\nend tell"
    );
}

#[test]
fn terminal_commands_in_order() {
    let cs = terminal_commands(Platform::Windows, "C:\\dev");
    assert_eq!(cs.len(), 2);
    assert_eq!(cs[0].program, "wt");
    assert_eq!(cs[0].args, vec!["--startingDirectory", "C:\\dev"]);
    assert_eq!(cs[1].program, "cmd");
    assert_eq!(cs[1].args, vec!["/c", "start", "cmd", "/K", "cd /d \"C:\\dev\""]);
    let cs = terminal_commands(Platform::MacOs, "/tmp");
    assert_eq!(cs.len(), 1);
    assert_eq!(cs[0].program, "osascript");
    assert_eq!(cs[0].args[0], "-e");
    assert!(terminal_commands(Platform::Other, "/tmp").is_empty());
}

#[test]
fn folder_commands() {
    let c = folder_command(Platform::Windows, "C:\\dev").unwrap();
    assert_eq!((c.program.as_str(), c.args.clone()), ("explorer", vec!["C:\\dev".to_string()]));
    let c = folder_command(Platform::MacOs, "/tmp").unwrap();
    assert_eq!((c.program.as_str(), c.args.clone()), ("open", vec!["/tmp".to_string()]));
    assert!(folder_command(Platform::Other, "/tmp").is_none());
}

#[test]
fn running_as_administrator() {
    let c = admin_check_command();
    assert_eq!(c.program, "cmd");
    assert_eq!(c.args, vec!["/c", "net session >nul 2>&1"]);
    assert!(c.hide_window);
    let c = elevation_command("C:\\Program Files\\portly\\portly.exe");
    assert_eq!(c.program, "powershell");
    assert_eq!(
        c.args,
        vec![
            "-NoProfile",
            "-WindowStyle",
            "Hidden",
            "-Command",
            "Start-Process -FilePath 'C:\\Program Files\\portly\\portly.exe' -Verb RunAs -WindowStyle Hidden"
        ]
    );
}

#[test]
fn tray_menu() {
    assert_eq!(menu_action("quit"), MenuAction::Quit);
    assert_eq!(menu_action("show"), MenuAction::ToggleWindow);
    assert_eq!(menu_action("Show"), MenuAction::Nothing);
    assert_eq!(menu_action(""), MenuAction::Nothing);
}

#[test]
fn tray_clicks() {
    assert_eq!(tray_click_action(true, true), MenuAction::ToggleWindow);
    assert_eq!(tray_click_action(true, false), MenuAction::Nothing);
    assert_eq!(tray_click_action(false, true), MenuAction::Nothing);
    assert_eq!(tray_click_action(false, false), MenuAction::Nothing);
}

#[test]
fn toggling_the_window() {
    assert_eq!(window_toggle(Some(true)), WindowAction::Hide);
    assert_eq!(window_toggle(Some(false)), WindowAction::ShowAtCorner);
    assert_eq!(window_toggle(None), WindowAction::ShowAtCorner);
}

#[test]
fn launching_tries_commands_in_order() {
    assert_eq!(launch_step(Platform::Windows, 2, &vec![]), LaunchStep::Start(0));
    assert_eq!(launch_step(Platform::Windows, 2, &vec![false]), LaunchStep::Start(1));
    assert_eq!(launch_step(Platform::Windows, 2, &vec![false, false]), LaunchStep::Done(true));
    assert_eq!(launch_step(Platform::Windows, 2, &vec![true]), LaunchStep::Done(true));
    assert_eq!(launch_step(Platform::MacOs, 1, &vec![]), LaunchStep::Start(0));
    assert_eq!(launch_step(Platform::MacOs, 1, &vec![true]), LaunchStep::Done(true));
    assert_eq!(launch_step(Platform::MacOs, 1, &vec![false]), LaunchStep::Done(false));
    assert_eq!(launch_step(Platform::Other, 0, &vec![]), LaunchStep::Done(false));
}

#[test]
fn administrator_check_at_start() {
    assert_eq!(admin_step(Platform::Windows, None), AdminStep::Check);
    assert_eq!(admin_step(Platform::Windows, Some(false)), AdminStep::Relaunch);
    assert_eq!(admin_step(Platform::Windows, Some(true)), AdminStep::Continue);
    assert_eq!(admin_step(Platform::MacOs, None), AdminStep::Continue);
    assert_eq!(admin_step(Platform::Other, Some(false)), AdminStep::Continue);
}
