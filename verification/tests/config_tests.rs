use psdevbot::aliases::UsernameAliases;
use psdevbot::config::{Config, ConfigError, RoomConfiguration};

fn base_config(
    default_room: Option<String>,
    projects: Option<Vec<(String, RoomConfiguration)>>,
) -> Config {
    Config::new(
        "wss://localhost/showdown/websocket".into(),
        "".into(),
        "".into(),
        "".into(),
        None,
        default_room,
        projects,
        UsernameAliases::default(),
    )
    .ok()
    .expect("at least one of default room or projects was supplied")
}

#[test]
fn test_all_rooms_default_room() {
    let config = base_config(Some("room".into()), None);
    let mut rooms: Vec<String> = config.all_rooms();
    rooms.sort_unstable();
    assert_eq!(rooms, ["room"]);
}

#[test]
fn test_all_rooms_room_configuration() {
    let projects = vec![
        (
            "Project".into(),
            RoomConfiguration {
                rooms: vec!["a".into(), "b".into()],
                simple_rooms: vec![],
                secret: None,
            },
        ),
        (
            "AnotherProject".into(),
            RoomConfiguration {
                rooms: vec!["b".into(), "c".into()],
                simple_rooms: vec![],
                secret: None,
            },
        ),
        (
            "StupidProject".into(),
            RoomConfiguration {
                rooms: vec![],
                simple_rooms: vec!["d".into()],
                secret: None,
            },
        ),
    ];
    let config = base_config(None, Some(projects));
    let mut rooms: Vec<String> = config.all_rooms();
    rooms.sort_unstable();
    assert_eq!(rooms, ["a", "b", "c", "d"]);
}

#[test]
fn resolution_scenario() {
    let projects = vec![(
        "Proj".into(),
        RoomConfiguration {
            rooms: vec!["a".into(), "b".into()],
            simple_rooms: vec![],
            secret: Some("s1".into()),
        },
    )];
    let config = Config::new(
        "server".into(),
        "user".into(),
        "password".into(),
        "g".into(),
        None,
        Some("lobby".into()),
        Some(projects),
        UsernameAliases::default(),
    )
    .ok()
    .expect("a default room was supplied");

    let present = config.rooms_for("Proj");
    assert_eq!(present.rooms.len(), 2);
    assert_eq!(present.rooms[0], "a");
    assert_eq!(present.rooms[1], "b");
    assert_eq!(present.simple_rooms.len(), 0);
    assert_eq!(present.secret, "s1");

    let absent = config.rooms_for("Other");
    assert_eq!(absent.rooms.len(), 1);
    assert_eq!(absent.rooms[0], "lobby");
    assert_eq!(absent.simple_rooms.len(), 0);
    assert_eq!(absent.secret, "g");

    let mut rooms: Vec<String> = config.all_rooms();
    rooms.sort_unstable();
    assert_eq!(rooms, ["a", "b", "lobby"]);
}

#[test]
fn silenced_project_keeps_its_secret() {
    let projects = vec![(
        "Quiet".into(),
        RoomConfiguration {
            rooms: vec![],
            simple_rooms: vec![],
            secret: Some("s2".into()),
        },
    )];
    let config = base_config(None, Some(projects));
    let resolved = config.rooms_for("Quiet");
    assert_eq!(resolved.rooms.len(), 0);
    assert_eq!(resolved.simple_rooms.len(), 0);
    assert_eq!(resolved.secret, "s2");
}

#[test]
fn project_without_override_uses_global_secret() {
    let projects = vec![(
        "Proj".into(),
        RoomConfiguration {
            rooms: vec!["a".into()],
            simple_rooms: vec![],
            secret: None,
        },
    )];
    let config = Config::new(
        "server".into(),
        "".into(),
        "".into(),
        "global".into(),
        None,
        None,
        Some(projects),
        UsernameAliases::default(),
    )
    .ok()
    .expect("projects were supplied");
    assert_eq!(config.rooms_for("Proj").secret, "global");
}

#[test]
fn absent_project_without_default_room_resolves_to_no_rooms() {
    let projects = vec![(
        "Proj".into(),
        RoomConfiguration {
            rooms: vec!["a".into()],
            simple_rooms: vec![],
            secret: None,
        },
    )];
    let config = base_config(None, Some(projects));
    let resolved = config.rooms_for("Missing");
    assert_eq!(resolved.rooms.len(), 0);
    assert_eq!(resolved.simple_rooms.len(), 0);
}

#[test]
fn missing_room_and_projects_is_refused() {
    let result = Config::new(
        "server".into(),
        "".into(),
        "".into(),
        "".into(),
        None,
        None,
        None,
        UsernameAliases::default(),
    );
    assert!(matches!(result, Err(ConfigError::NoRoomsConfigured)));
}

#[test]
fn port_defaults_when_unspecified() {
    let config = base_config(Some("room".into()), None);
    assert_eq!(config.port, 3030);
    let explicit = Config::new(
        "server".into(),
        "".into(),
        "".into(),
        "".into(),
        Some(8080),
        Some("room".into()),
        None,
        UsernameAliases::default(),
    )
    .ok()
    .expect("a default room was supplied");
    assert_eq!(explicit.port, 8080);
}

#[test]
fn later_duplicate_project_entry_wins() {
    let projects = vec![
        (
            "P".into(),
            RoomConfiguration {
                rooms: vec!["x".into()],
                simple_rooms: vec![],
                secret: None,
            },
        ),
        (
            "P".into(),
            RoomConfiguration {
                rooms: vec!["y".into()],
                simple_rooms: vec![],
                secret: None,
            },
        ),
    ];
    let config = base_config(None, Some(projects));
    let resolved = config.rooms_for("P");
    assert_eq!(resolved.rooms.len(), 1);
    assert_eq!(resolved.rooms[0], "y");
}
