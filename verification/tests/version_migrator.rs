use sharkbench::migrator::{
    build_initial_transformation, default_docker_regex, migrate_contents, MigrationError,
    Transformation, VersionMigrator,
};

#[test]
fn test_build_initial_transformation() {
    let dir = "test";
    let regex = None;
    let actual = build_initial_transformation(dir, regex);
    assert_eq!(
        vec![Transformation {
            path: "test/Dockerfile".to_string(),
            original: None,
            regex: default_docker_regex(),
        }],
        actual
    );

    let dir = "test";
    let regex = vec![("Dockerfile2".to_string(), "DEFAULT_DOCKER_REGEX".to_string())];
    let actual = build_initial_transformation(dir, Some(regex));
    assert_eq!(
        vec![Transformation {
            path: "test/Dockerfile2".to_string(),
            original: None,
            regex: default_docker_regex(),
        }],
        actual
    );

    let dir = "test";
    let regex = vec![
        ("Dockerfile3".to_string(), "my regex".to_string()),
        ("Dockerfile4".to_string(), "DEFAULT_DOCKER_REGEX".to_string()),
    ];
    let actual = build_initial_transformation(dir, Some(regex));
    assert_eq!(
        vec![
            Transformation {
                path: "test/Dockerfile3".to_string(),
                original: None,
                regex: "my regex".to_string(),
            },
            Transformation {
                path: "test/Dockerfile4".to_string(),
                original: None,
                regex: default_docker_regex(),
            },
        ],
        actual
    );
}

#[test]
fn test_migrate_contents() {
    let initial_version = "1.0.0";
    let target_version = "2.0.0";
    let regex_string = default_docker_regex();
    let regex = regex_string.as_str();

    let original = "FROM rust:1.0.0";
    let expected = "FROM rust:2.0.0";
    let actual = migrate_contents(original, regex, initial_version, target_version).unwrap();
    assert_eq!(expected, actual);

    let original = "FROM rust:1.0.0-rc1";
    let expected = "FROM rust:2.0.0-rc1";
    let actual = migrate_contents(original, regex, initial_version, target_version).unwrap();
    assert_eq!(expected, actual);

    let original = "FROM rust:1.0.0-rc1 AS builder";
    let expected = "FROM rust:2.0.0-rc1 AS builder";
    let actual = migrate_contents(original, regex, initial_version, target_version).unwrap();
    assert_eq!(expected, actual);

    let original = "FROM mcr.microsoft.com/dotnet/sdk:1.0.0 AS build";
    let expected = "FROM mcr.microsoft.com/dotnet/sdk:2.0.0 AS build";
    let actual = migrate_contents(original, regex, initial_version, target_version).unwrap();
    assert_eq!(expected, actual);

    let original = "FROM rust:1.0.0-rc1 AS builder\nFROM rust:1.0.0";
    let expected = "FROM rust:2.0.0-rc1 AS builder\nFROM rust:2.0.0";
    let actual = migrate_contents(original, regex, initial_version, target_version).unwrap();
    assert_eq!(expected, actual);

    let original = "FROM rust:";
    let actual = migrate_contents(original, regex, initial_version, target_version).unwrap_err();
    assert_eq!(MigrationError::VersionNotFound, actual);

    let original = "FROM rust:5.0.0";
    let actual = migrate_contents(original, regex, initial_version, target_version).unwrap_err();
    assert_eq!(MigrationError::InvalidVersion("5.0.0".to_string()), actual);
}

#[test]
fn migrate_then_restore_reproduces_the_original() {
    let mut migrator = VersionMigrator::new("web", None, "1.0.0".to_string(), "2.0.0".to_string());
    let contents = vec!["FROM rust:1.0.0-rc1 AS builder\nFROM rust:1.0.0\nCMD [\"run\"]\n"
        .to_string()];
    let migrated = migrator.migrate(&contents).unwrap();
    assert_eq!(migrated, vec![
        "FROM rust:2.0.0-rc1 AS builder\nFROM rust:2.0.0\nCMD [\"run\"]\n".to_string()
    ]);
    let restored = migrator.restore();
    assert_eq!(restored.len(), 1);
    assert_eq!(restored[0].0, "web/Dockerfile");
    assert_eq!(restored[0].1, contents[0]);
}

#[test]
fn invalid_pattern_is_refused() {
    let actual = migrate_contents("FROM rust:1.0.0", "(", "1.0.0", "2.0.0");
    assert!(matches!(actual, Err(MigrationError::InvalidRegex(_))));
}

#[test]
fn mismatched_version_fails_without_output() {
    let mut migrator = VersionMigrator::new("web", None, "1.0.0".to_string(), "2.0.0".to_string());
    let contents = vec!["FROM rust:5.0.0\n".to_string()];
    let result = migrator.migrate(&contents);
    assert_eq!(result, Err(MigrationError::InvalidVersion("5.0.0".to_string())));
    let restored = migrator.restore();
    assert_eq!(restored[0].1, contents[0]);
}
