//! Tests for the toolchain constants and the runtime sysroot layout.

use std::path::PathBuf;

use rustowl::toolchain::{HOST_TUPLE, TOOLCHAIN, TOOLCHAIN_CHANNEL, TOOLCHAIN_DATE,
    sysroot_from_runtime};

#[test]
fn test_sysroot_from_runtime() {
    let runtime = PathBuf::from("/opt/test-runtime");
    let sysroot = PathBuf::from(sysroot_from_runtime("/opt/test-runtime"));

    let expected = runtime.join("sysroot").join(TOOLCHAIN);
    assert_eq!(sysroot, expected);
}

#[test]
fn test_sysroot_from_runtime_different_paths() {
    let paths = vec![
        "/usr/local/rustowl",
        "./relative/path",
        "../parent/path",
        "/",
    ];

    for path in paths {
        let sysroot = PathBuf::from(sysroot_from_runtime(path));
        assert!(sysroot.starts_with(PathBuf::from(path)));
        assert!(sysroot.ends_with(TOOLCHAIN));
        assert!(sysroot.to_string_lossy().contains("sysroot"));
    }
}

#[test]
fn test_toolchain_constants() {
    assert!(
        TOOLCHAIN_CHANNEL == "nightly"
            || TOOLCHAIN_CHANNEL == "stable"
            || TOOLCHAIN_CHANNEL == "beta"
    );

    // Host tuple should contain some expected patterns
    assert!(HOST_TUPLE.contains('-'));
}

#[test]
fn test_sysroot_path_construction() {
    // Empty runtime directory
    let sysroot = PathBuf::from(sysroot_from_runtime(""));
    assert_eq!(sysroot, PathBuf::from("sysroot").join(TOOLCHAIN));

    // Root path
    let sysroot = PathBuf::from(sysroot_from_runtime("/"));
    assert_eq!(sysroot, PathBuf::from("/sysroot").join(TOOLCHAIN));
}

#[test]
fn test_toolchain_date_handling() {
    match TOOLCHAIN_DATE {
        Some(date) => {
            assert!(!date.is_empty());
            // Date should be in YYYY-MM-DD format if present
            assert!(date.len() >= 10);
        }
        None => {
            // This is fine, the toolchain date is optional
        }
    }
}

#[test]
fn test_component_url_construction() {
    let component = "rustc";
    let component_toolchain = format!("{component}-{TOOLCHAIN_CHANNEL}-{HOST_TUPLE}");

    // Should contain all the parts
    assert!(component_toolchain.contains(component));
    assert!(component_toolchain.contains(TOOLCHAIN_CHANNEL));
    assert!(component_toolchain.contains(HOST_TUPLE));

    // Should be properly formatted with dashes
    let parts: Vec<&str> = component_toolchain.split('-').collect();
    assert!(parts.len() >= 3); // At least component-channel-host parts
}

#[test]
fn test_host_tuple_format() {
    // HOST_TUPLE should follow the expected format: arch-vendor-os-env
    let parts: Vec<&str> = HOST_TUPLE.split('-').collect();
    assert!(parts.len() >= 3, "HOST_TUPLE should have at least 3 parts separated by hyphens");

    // First part should be architecture
    let arch = parts[0];
    assert!(!arch.is_empty());

    let valid_archs = ["x86_64", "i686", "aarch64", "armv7", "riscv64"];
    let is_valid_arch = valid_archs.iter().any(|&a| arch.starts_with(a));
    assert!(is_valid_arch, "Unexpected architecture: {arch}");
}

#[test]
fn test_toolchain_format() {
    // TOOLCHAIN should be a valid toolchain identifier
    assert!(TOOLCHAIN.contains('-'), "TOOLCHAIN should contain separators");
    assert!(!TOOLCHAIN.contains(' '), "TOOLCHAIN should not contain spaces");
}

#[test]
fn test_path_construction_edge_cases() {
    // Windows-style paths are a single component on this platform
    let sysroot = PathBuf::from(sysroot_from_runtime("C:\\Windows\\System32"));
    assert!(sysroot.to_string_lossy().contains("sysroot"));
    assert!(sysroot.to_string_lossy().contains(TOOLCHAIN));

    // Path containing Unicode
    let unicode_path = "/opt/rustowl/测试";
    let sysroot = PathBuf::from(sysroot_from_runtime(unicode_path));
    assert!(sysroot.starts_with(PathBuf::from(unicode_path)));

    // Very long path
    let long_path = "/".to_string() + &"very_long_directory_name/".repeat(10);
    let sysroot = PathBuf::from(sysroot_from_runtime(&long_path));
    assert!(sysroot.starts_with(PathBuf::from(&long_path)));
}

#[test]
fn test_url_construction_patterns() {
    let component = "rust-std";
    let base_url = "https://static.rust-lang.org/dist";

    // With a date
    let date = "2023-01-01";
    let url_with_date = format!("{base_url}/{date}");
    assert!(url_with_date.starts_with("https://"));
    assert!(url_with_date.contains(date));

    // Component URL construction
    let component_toolchain = format!("{component}-{TOOLCHAIN_CHANNEL}-{HOST_TUPLE}");
    let tarball_url = format!("{base_url}/{component_toolchain}.tar.gz");

    assert!(tarball_url.starts_with("https://"));
    assert!(tarball_url.ends_with(".tar.gz"));
    assert!(tarball_url.contains(component));
    assert!(tarball_url.contains(TOOLCHAIN_CHANNEL));
    assert!(tarball_url.contains(HOST_TUPLE));
}

#[test]
fn test_version_url_construction() {
    let version = "1.0.0";

    let rustowl_tarball_url = format!(
        "https://github.com/cordx56/rustowl/releases/download/v{version}/rustowl-{HOST_TUPLE}.tar.gz"
    );
    assert!(rustowl_tarball_url.starts_with("https://github.com/"));
    assert!(rustowl_tarball_url.contains("rustowl"));
    assert!(rustowl_tarball_url.contains(version));
    assert!(rustowl_tarball_url.contains(HOST_TUPLE));
    assert!(rustowl_tarball_url.ends_with(".tar.gz"));
}

#[test]
fn test_executable_name_logic() {
    let name = "rustc";

    let exec_name = name.to_owned();
    assert_eq!(exec_name, "rustc");

    // Different executable names
    let test_names = ["cargo", "rustfmt", "clippy"];
    for test_name in test_names {
        let exec_name = test_name.to_owned();
        assert_eq!(exec_name, test_name);
    }
}

#[test]
fn test_toolchain_constants_consistency() {
    assert!(
        TOOLCHAIN.contains(TOOLCHAIN_CHANNEL) || TOOLCHAIN.contains(HOST_TUPLE),
        "TOOLCHAIN should contain either channel or host tuple information"
    );

    // The optional date is properly handled
    if let Some(date) = TOOLCHAIN_DATE {
        assert!(!date.is_empty());
        if date.len() >= 10 {
            let parts: Vec<&str> = date.split('-').collect();
            if parts.len() >= 3 {
                if let Ok(year) = parts[0].parse::<u32>() {
                    assert!((2020..=2030).contains(&year), "Year should be reasonable: {year}");
                }
            }
        }
    }
}

#[test]
fn test_component_validation() {
    let valid_components = ["rustc", "rust-std", "cargo", "clippy", "rustfmt"];

    for component in valid_components {
        assert!(!component.is_empty());
        assert!(!component.contains(' '));
        assert!(!component.contains('\n'));

        // Component name should be ASCII alphanumeric with hyphens
        assert!(component.chars().all(|c| c.is_ascii_alphanumeric() || c == '-'));
    }
}

#[test]
fn test_path_strip_prefix_logic() {
    let base = PathBuf::from("/opt/rustowl/component");
    let full_path = base.join("lib").join("file.so");

    if let Ok(rel_path) = full_path.strip_prefix(&base) {
        assert_eq!(rel_path, PathBuf::from("lib").join("file.so"));
    } else {
        panic!("strip_prefix should succeed");
    }

    // Non-matching prefix
    let other_base = PathBuf::from("/different/path");
    assert!(full_path.strip_prefix(&other_base).is_err());
}

#[test]
fn test_sysroot_path_validation() {
    let runtime_paths = [
        "/opt/rustowl",
        "/home/user/.rustowl",
        "/usr/local/rustowl",
        "relative/path",
        "",
    ];

    for runtime_path in runtime_paths {
        let sysroot = PathBuf::from(sysroot_from_runtime(runtime_path));

        // Should always contain the toolchain name
        assert!(sysroot.to_string_lossy().contains(TOOLCHAIN));

        // Should be a subdirectory of the runtime
        if !runtime_path.is_empty() {
            assert!(sysroot.starts_with(PathBuf::from(runtime_path)));
        }
    }
}

#[test]
fn test_toolchain_constants_integrity() {
    // TOOLCHAIN should be non-empty and of a reasonable shape
    assert!(!TOOLCHAIN.is_empty());
    assert!(TOOLCHAIN.len() > 5);

    // HOST_TUPLE should be non-empty and contain target architecture
    assert!(!HOST_TUPLE.is_empty());
    assert!(HOST_TUPLE.contains('-'));

    // TOOLCHAIN_CHANNEL should be a known channel
    let valid_channels = ["stable", "beta", "nightly"];
    assert!(valid_channels.contains(&TOOLCHAIN_CHANNEL));

    // TOOLCHAIN_DATE should be a valid format if present
    if let Some(date) = TOOLCHAIN_DATE {
        assert!(!date.is_empty());
        assert!(date.len() >= 10);
    }
}

#[test]
fn test_complex_path_operations() {
    let base_paths = [
        "simple",
        "with spaces",
        "with-hyphens",
        "with_underscores",
        "with.dots",
        "数字",
        "ñoño",
    ];

    for base in base_paths {
        let sysroot = PathBuf::from(sysroot_from_runtime(base));

        // Operations should not panic
        assert!(sysroot.is_absolute() || sysroot.is_relative());

        // Should maintain path structure
        let parent = sysroot.parent();
        assert!(parent.is_some() || sysroot == PathBuf::from(""));
    }
}

#[test]
fn test_environment_variable_parsing() {
    let test_vars = [
        ("", None),
        ("not_a_number", None),
        ("12345", Some(12345)),
        ("0", Some(0)),
        ("-1", None),  // Negative numbers should be invalid
        ("999999999999999999999", None),  // Overflow should be handled
        ("42.5", None),  // Float should be invalid
        ("  123  ", None),  // Whitespace should be invalid
    ];

    for (input, expected) in test_vars {
        let result = input.parse::<usize>().ok();
        assert_eq!(result, expected, "Failed for input: {}", input);
    }
}

#[test]
fn test_url_component_validation() {
    let valid_components = [
        "rustc",
        "rust-std",
        "cargo",
        "clippy",
        "rustfmt",
        "rust-analyzer",
    ];

    let invalid_components = [
        "",
        " ",
        "rust std",  // Space
        "rust\nstd",  // Newline
        "rust\tstd",  // Tab
        "rust/std",  // Slash
        "rust?std",  // Question mark
        "rust#std",  // Hash
    ];

    for component in valid_components {
        assert!(!component.is_empty());
        assert!(!component.contains(' '));
        assert!(!component.contains('\n'));
        assert!(!component.contains('\t'));
        assert!(!component.contains('/'));
    }

    for component in invalid_components {
        let is_invalid = component.is_empty()
            || component.contains(' ')
            || component.contains('\n')
            || component.contains('\t')
            || component.contains('/')
            || component.contains('?')
            || component.contains('#');
        assert!(is_invalid, "Component should be invalid: {}", component);
    }
}

#[test]
fn test_path_join_operations() {
    let base_paths = ["/opt/rustowl", "/home/user/.rustowl", "relative/path"];

    let components = ["sysroot", TOOLCHAIN, "bin", "lib", "rustc"];

    for base in base_paths {
        let base_path = PathBuf::from(base);

        for component in components {
            let joined = base_path.join(component);

            // Should contain the component
            assert!(joined.to_string_lossy().contains(component));

            // Should be longer than the base path
            assert!(joined.to_string_lossy().len() > base_path.to_string_lossy().len());
        }
    }
}

#[test]
fn test_cross_platform_compatibility() {
    let unix_style = "/opt/rustowl/sysroot";
    let windows_style = r"C:\opt\rustowl\sysroot";

    let unix_path = PathBuf::from(unix_style);
    let windows_path = PathBuf::from(windows_style);

    // Path operations don't panic
    let _unix_components: Vec<_> = unix_path.components().collect();
    let _windows_components: Vec<_> = windows_path.components().collect();

    // Sysroot construction with different path styles
    let unix_sysroot = sysroot_from_runtime(unix_style);
    let windows_sysroot = sysroot_from_runtime(windows_style);

    assert!(unix_sysroot.contains(TOOLCHAIN));
    assert!(windows_sysroot.contains(TOOLCHAIN));
}
