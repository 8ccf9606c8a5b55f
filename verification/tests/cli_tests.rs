use keymap_formatter::cli::{validate_args, Args};

#[test]
fn test_args_validation_invalid_filename() {
    let args = Args {
        filepath: "/home/path/invalid.c".to_string(),
        force: false,
    };
    let result = validate_args(&args);

    assert!(!result);
}

#[test]
fn test_args_validation_invalid_filename_force() {
    let args = Args {
        filepath: "/home/path/invalid.c".to_string(),
        force: true,
    };
    let result = validate_args(&args);

    assert!(result);
}
