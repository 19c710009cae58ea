use wisp::watch::{collect_changes, Change, EventKind, FsEvent, Received};

fn ev(kind: EventKind, paths: &[&str]) -> Received {
    Received::Event(FsEvent {
        kind,
        need_rescan: false,
        paths: paths.iter().map(|p| p.as_bytes().to_vec()).collect(),
    })
}

fn pairs(changes: &[Change]) -> Vec<(&'static str, String)> {
    changes.iter().map(|c| (c.kind, String::from_utf8(c.path.clone()).unwrap())).collect()
}

fn root() -> Vec<u8> {
    b"/proj".to_vec()
}

#[test]
fn a_dead_backend_says_rescan_once_then_stays_quiet() {
    let mut dead = false;
    let first = collect_changes(&root(), false, &Vec::new(), true, &mut dead);
    assert!(first.iter().any(|c| c.kind == "rescan"), "backend death went silent instead of saying rescan");
    assert!(dead);
    assert!(collect_changes(&root(), false, &Vec::new(), true, &mut dead).is_empty(), "the final rescan repeated");
}

#[test]
fn kinds_map_to_the_small_language() {
    let mut dead = false;
    let items = vec![
        ev(EventKind::Create, &["/proj/born.txt"]),
        ev(EventKind::Modify, &["/proj/noted.txt"]),
        ev(EventKind::Remove, &["/proj/noted.txt"]),
        ev(EventKind::Rename, &["/proj/old.txt", "/proj/new.txt"]),
        ev(EventKind::Access, &["/proj/read.txt"]),
    ];
    let got = collect_changes(&root(), false, &items, false, &mut dead);
    assert_eq!(
        pairs(&got),
        vec![
            ("create", "/proj/born.txt".to_string()),
            ("modify", "/proj/noted.txt".to_string()),
            ("delete", "/proj/noted.txt".to_string()),
            ("rename", "/proj/old.txt".to_string()),
            ("rename", "/proj/new.txt".to_string()),
        ]
    );
    assert!(!dead);
}

#[test]
fn bursts_of_duplicates_collapse_to_one_each() {
    let mut dead = false;
    let items = vec![
        ev(EventKind::Modify, &["/proj/a"]),
        ev(EventKind::Modify, &["/proj/a", "/proj/b"]),
        ev(EventKind::Create, &["/proj/a"]),
        Received::Error,
        Received::Error,
    ];
    let got = collect_changes(&root(), false, &items, false, &mut dead);
    assert_eq!(
        pairs(&got),
        vec![
            ("modify", "/proj/a".to_string()),
            ("modify", "/proj/b".to_string()),
            ("create", "/proj/a".to_string()),
            ("rescan", "/proj".to_string()),
        ]
    );
}

#[test]
fn an_overflow_reports_a_rescan_first() {
    let mut dead = false;
    let got = collect_changes(&root(), true, &vec![ev(EventKind::Create, &["/proj/f"])], false, &mut dead);
    assert_eq!(pairs(&got), vec![("rescan", "/proj".to_string()), ("create", "/proj/f".to_string())]);
}

#[test]
fn murky_events_become_rescans() {
    let mut dead = false;
    let unsure = Received::Event(FsEvent { kind: EventKind::Create, need_rescan: true, paths: vec![b"/proj/x".to_vec()] });
    let got = collect_changes(&root(), false, &vec![unsure, ev(EventKind::Unknown, &["/proj/y"])], false, &mut dead);
    assert_eq!(pairs(&got), vec![("rescan", "/proj".to_string())]);
}
