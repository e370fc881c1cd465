use dreamcoder::engine::config::VERSION;

#[test]
fn test_ai_protocol_version_format() {
    // The version follows semver.

    let version = "2.0.0";
    let parts: Vec<&str> = version.split('.').collect();

    assert_eq!(
        parts.len(),
        3,
        "Version should follow semver (major.minor.patch)"
    );

    for part in &parts {
        assert!(
            part.parse::<u32>().is_ok(),
            "Version parts should be numeric"
        );
    }

    println!("✓ Version format validated: {}", version);
}

#[test]
fn test_library_version_format() {
    let parts: Vec<&str> = VERSION.split('.').collect();
    assert_eq!(parts.len(), 3);
    for part in &parts {
        assert!(part.parse::<u32>().is_ok());
    }
}

/// The protocol, as living documentation.
#[test]
fn test_ai_protocol_documentation() {
    println!("\n📚 AI Protocol Documentation\n");
    println!("============================\n");

    println!("Root Object:");
    println!("  - version: String (semver)");
    println!("  - timestamp: ISO 8601");
    println!("  - request_id: UUID");
    println!("  - status: Enum [success, partial, failed, requires_input]");
    println!("  - data: Object (payload específico)");
    println!("  - requires_action: Optional<Action>\n");

    println!("Action Object:");
    println!("  - action_type: Enum [confirm, input, password, select]");
    println!("  - message: String (prompt para el usuario)");
    println!("  - options: Optional<Array<String>> (para select)");
    println!("  - default: Optional<String>\n");

    println!("Operation Object:");
    println!("  - id: UUID");
    println!("  - action: Enum [backup, install, template, hook, ...]");
    println!("  - status: Enum [pending, running, success, failed, skipped]");
    println!("  - message: String");
    println!("  - metadata: Object (datos específicos)");
    println!("  - requires_input: Optional<InputRequest>\n");

    assert!(true, "Documentation test");
}
