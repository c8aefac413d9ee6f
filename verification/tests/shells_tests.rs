//! Tests for shell detection from names and executable paths.

use std::collections::HashMap;
use std::str::FromStr;

use rustowl::shells::Shell;

#[test]
fn test_shell_from_str() {
    assert_eq!(<Shell as FromStr>::from_str("bash"), Ok(Shell::Bash));
    assert_eq!(<Shell as FromStr>::from_str("zsh"), Ok(Shell::Zsh));
    assert_eq!(<Shell as FromStr>::from_str("fish"), Ok(Shell::Fish));
    assert_eq!(<Shell as FromStr>::from_str("elvish"), Ok(Shell::Elvish));
    assert_eq!(<Shell as FromStr>::from_str("powershell"), Ok(Shell::PowerShell));
    assert_eq!(<Shell as FromStr>::from_str("nushell"), Ok(Shell::Nushell));

    assert!(<Shell as FromStr>::from_str("invalid").is_err());
}

#[test]
fn test_shell_from_str_case_insensitive() {
    // Uppercase variants
    assert_eq!(<Shell as FromStr>::from_str("BASH"), Ok(Shell::Bash));
    assert_eq!(<Shell as FromStr>::from_str("ZSH"), Ok(Shell::Zsh));
    assert_eq!(<Shell as FromStr>::from_str("FISH"), Ok(Shell::Fish));
    assert_eq!(<Shell as FromStr>::from_str("POWERSHELL"), Ok(Shell::PowerShell));
    assert_eq!(<Shell as FromStr>::from_str("NUSHELL"), Ok(Shell::Nushell));

    // Mixed case variants
    assert_eq!(<Shell as FromStr>::from_str("BaSh"), Ok(Shell::Bash));
    assert_eq!(<Shell as FromStr>::from_str("PowerShell"), Ok(Shell::PowerShell));
    assert_eq!(<Shell as FromStr>::from_str("NuShell"), Ok(Shell::Nushell));
}

#[test]
fn test_shell_from_str_error_messages() {
    let result = <Shell as FromStr>::from_str("invalid");
    assert!(result.is_err());
    assert_eq!(result.unwrap_err(), "invalid variant: invalid");

    let result = <Shell as FromStr>::from_str("cmd");
    assert!(result.is_err());
    assert_eq!(result.unwrap_err(), "invalid variant: cmd");

    let result = <Shell as FromStr>::from_str("");
    assert!(result.is_err());
    assert_eq!(result.unwrap_err(), "invalid variant: ");
}

#[test]
fn test_shell_from_shell_path() {
    assert_eq!(Shell::from_shell_path("/bin/bash"), Some(Shell::Bash));
    assert_eq!(Shell::from_shell_path("/usr/bin/zsh"), Some(Shell::Zsh));
    assert_eq!(Shell::from_shell_path("/usr/local/bin/fish"), Some(Shell::Fish));
    assert_eq!(Shell::from_shell_path("/opt/elvish"), Some(Shell::Elvish));
    assert_eq!(Shell::from_shell_path("powershell"), Some(Shell::PowerShell));
    assert_eq!(Shell::from_shell_path("powershell_ise"), Some(Shell::PowerShell));
    assert_eq!(Shell::from_shell_path("/usr/bin/nu"), Some(Shell::Nushell));
    assert_eq!(Shell::from_shell_path("/usr/bin/nushell"), Some(Shell::Nushell));

    assert_eq!(Shell::from_shell_path("/bin/unknown"), None);
}

#[test]
fn test_shell_from_shell_path_with_extensions() {
    assert_eq!(Shell::from_shell_path("bash.exe"), Some(Shell::Bash));
    assert_eq!(Shell::from_shell_path("zsh.exe"), Some(Shell::Zsh));
    assert_eq!(Shell::from_shell_path("powershell.exe"), Some(Shell::PowerShell));
    assert_eq!(Shell::from_shell_path("nu.exe"), Some(Shell::Nushell));

    assert_eq!(Shell::from_shell_path("C:\\Program Files\\PowerShell\\7\\pwsh.exe"), None);
    assert_eq!(Shell::from_shell_path("/snap/bin/nu"), Some(Shell::Nushell));
}

#[test]
fn test_shell_from_env_simulation() {
    // The environment detection resolves the shell from its path.
    let shell_paths = vec!["/bin/bash", "/usr/bin/zsh", "/usr/local/bin/fish", "/opt/elvish"];

    for shell_path in shell_paths {
        let detected = Shell::from_shell_path(shell_path);
        assert!(detected.is_some(), "Should detect shell from path: {}", shell_path);
    }
}

#[test]
fn test_shell_enum_properties() {
    let shell = Shell::Bash;

    // Clone
    let cloned = shell.clone();
    assert_eq!(shell, cloned);

    // Copy
    let copied = shell;
    assert_eq!(shell, copied);

    // Hash consistency
    let mut map = HashMap::new();
    map.insert(shell, "value");
    assert_eq!(map.get(&Shell::Bash), Some(&"value"));

    // PartialEq
    assert_eq!(Shell::Bash, Shell::Bash);
    assert_ne!(Shell::Bash, Shell::Zsh);
}

#[test]
fn test_shell_edge_cases() {
    // Empty path components
    assert_eq!(Shell::from_shell_path(""), None);
    assert_eq!(Shell::from_shell_path("/"), None);
    assert_eq!(Shell::from_shell_path("/."), None);

    // Paths without a useful file stem
    assert_eq!(Shell::from_shell_path("/usr/bin/"), None);
    assert_eq!(Shell::from_shell_path(".bashrc"), None);

    // Unsupported shells
    assert_eq!(Shell::from_shell_path("/usr/bin/sh"), None);
    assert_eq!(Shell::from_shell_path("/bin/dash"), None);

    // Case sensitivity in file stem extraction
    assert_eq!(Shell::from_shell_path("/usr/bin/BASH"), None);
}

#[test]
fn test_from_str_rejects_aliases_and_whitespace() {
    let cases = [
        "nu",  // alias not supported by FromStr
        " pwsh",  // unsupported alias with leading space
        "pwsh",  // unsupported alias
        "bash ",  // trailing whitespace
        " powerShell ",  // mixed case and surrounding whitespace
        " elvish ",
        " fish ",
        " zsh ",
    ];
    for case in cases {
        let res = <Shell as FromStr>::from_str(case);
        assert!(res.is_err(), "Expected error for input {:?}", case);
        assert_eq!(res.unwrap_err(), format!("invalid variant: {}", case));
    }
}

#[test]
fn test_from_shell_path_recognizes_powershell_ise_and_nushell_exe() {
    assert_eq!(Shell::from_shell_path("powershell_ise.exe"), Some(Shell::PowerShell));
    assert_eq!(Shell::from_shell_path("nushell.exe"), Some(Shell::Nushell));
}

#[test]
fn test_from_shell_path_pwsh_not_recognized() {
    assert_eq!(Shell::from_shell_path("pwsh"), None);
    assert_eq!(Shell::from_shell_path("pwsh.exe"), None);
}

#[test]
fn test_from_shell_path_case_sensitivity_for_nu() {
    // Case-sensitive file stem behavior for Nushell detection
    assert_eq!(Shell::from_shell_path("NU"), None);
}

#[test]
fn shell_names_parse_back_to_their_shells() {
    let shells = [
        Shell::Bash,
        Shell::Elvish,
        Shell::Fish,
        Shell::PowerShell,
        Shell::Zsh,
        Shell::Nushell,
    ];
    for shell in shells {
        let name = shell.name();
        assert_eq!(<Shell as FromStr>::from_str(name), Ok(shell));
    }
}
