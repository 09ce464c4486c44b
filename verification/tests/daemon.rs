use temprix::daemon::{generate_plist, log_path, plist_path, tail_start, LABEL};
use temprix::markers::marker_paths;

#[test]
fn plist_goes_to_launch_agents() {
    assert_eq!(plist_path("/Users/raj"), "/Users/raj/Library/LaunchAgents/com.temprix.daemon.plist");
    assert_eq!(log_path("/Users/raj"), "/Users/raj/.temprix/logs/daemon.log");
    assert_eq!(LABEL, "com.temprix.daemon");
}

#[test]
fn plist_text_is_filled_in() {
    let bin_path = "/usr/local/bin/temprix";
    let log_str = "/Users/raj/.temprix/logs/daemon.log";
    let home_str = "/Users/raj";
    let expected = format!(
        r#"<?xml version="1.0" encoding="UTF-8"?>
<!DOCTYPE plist PUBLIC "-//Apple//DTD PLIST 1.0//EN" "http://www.apple.com/DTDs/PropertyList-1.0.dtd">
<plist version="1.0">
<dict>
  <key>Label</key>
  <string>{LABEL}</string>
  <key>ProgramArguments</key>
  <array>
    <string>{bin_path}</string>
    <string>daemon</string>
  </array>
  <key>RunAtLoad</key>
  <true/>
  <key>KeepAlive</key>
  <true/>
  <key>StandardOutPath</key>
  <string>{log_str}</string>
  <key>StandardErrorPath</key>
  <string>{log_str}</string>
  <key>WorkingDirectory</key>
  <string>{home_str}</string>
</dict>
</plist>"#
    );
    assert_eq!(generate_plist(bin_path, log_str, home_str), expected);
}

#[test]
fn marker_paths_cover_every_marker() {
    let ps = marker_paths("/p");
    assert_eq!(ps.len(), 14);
    assert_eq!(ps[0], "/p/.git");
    assert_eq!(ps[2], "/p/Cargo.toml");
    assert_eq!(ps[13], "/p/dune-project");
}

#[test]
fn log_tail_starts_at_the_last_lines() {
    assert_eq!(tail_start(120, 50), 70);
    assert_eq!(tail_start(50, 50), 0);
    assert_eq!(tail_start(3, 50), 0);
    assert_eq!(tail_start(0, 0), 0);
}
