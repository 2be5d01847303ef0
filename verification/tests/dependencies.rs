use svc_manager::manager::{manager, service_file_name, Action, Event, Run};
use svc_manager::service::{service, Read, Scan, Step};

/// An open service file: the reader, the text and how far it is read.
struct OpenFile {
    svc: service,
    text: Vec<u8>,
    pos: usize,
}

fn next_entry(f: &mut OpenFile) -> Option<(Vec<u8>, Vec<u8>)> {
    let mut scan = Scan::new();
    loop {
        assert!(f.svc.can_read());
        let read = if f.pos < f.text.len() {
            f.pos += 1;
            Read::Byte(f.text[f.pos - 1])
        } else {
            Read::End
        };
        if let Step::Done(r) = f.svc.entry(&mut scan, read) {
            return r;
        }
    }
}

/// Runs `name` against the files in `files`, the way the program does, and
/// records the files opened and the programs started.
fn drive(m: &mut manager, name: &str, files: &[(&str, &str)], log: &mut Vec<String>) -> bool {
    let (mut run, mut action): (Run, Action) = m.run(name.as_bytes());
    let mut open: Vec<OpenFile> = Vec::new();
    for _ in 0..10_000 {
        let event = match action {
            Action::Finished(ok) => {
                assert!(run.is_done());
                return ok;
            }
            Action::Open(file) => {
                let file = String::from_utf8(file).unwrap();
                log.push(format!("open {}", file));
                match files.iter().find(|(n, _)| *n == file) {
                    Some((_, text)) => {
                        open.push(OpenFile {
                            svc: service::open(Ok(3)).unwrap(),
                            text: text.as_bytes().to_vec(),
                            pos: 0,
                        });
                        Event::Opened(true)
                    }
                    None => Event::Opened(false),
                }
            }
            Action::NextEntry | Action::Launch(..) => {
                if let Action::Launch(n, args) = &action {
                    let args: Vec<String> =
                        args.iter().map(|a| String::from_utf8(a.clone()).unwrap()).collect();
                    log.push(format!("start {} {:?}", String::from_utf8(n.clone()).unwrap(), args));
                }
                let top = open.last_mut().unwrap();
                let e = next_entry(top);
                if e.is_none() {
                    open.pop();
                }
                Event::Entry(e)
            }
        };
        assert!(run.expects(&event));
        action = m.resume(&mut run, event);
    }
    panic!("the run did not end");
}

#[test]
fn service_file_name_appends_suffix() {
    assert_eq!(service_file_name(b"dhcpcd"), b"dhcpcd.service".to_vec());
}

#[test]
fn missing_file_fails() {
    let mut m = manager::default();
    let mut log = Vec::new();
    assert!(!drive(&mut m, "dhcpcd", &[], &mut log));
    assert_eq!(log, vec!["open dhcpcd.service"]);
    // It did not start, so it is opened again next time.
    let mut log = Vec::new();
    assert!(!drive(&mut m, "dhcpcd", &[], &mut log));
    assert_eq!(log, vec!["open dhcpcd.service"]);
}

#[test]
fn service_without_requirements_starts() {
    let mut m = manager::default();
    let mut log = Vec::new();
    let files = [("net.service", "[service]\nProgram='/sbin/net -d',x\n")];
    assert!(drive(&mut m, "net", &files, &mut log));
    assert_eq!(log, vec!["open net.service", "start net [\"/sbin/net -d\", \"x\"]"]);
}

#[test]
fn running_service_succeeds_at_once() {
    let mut m = manager::default();
    let files = [("net.service", "[service]\n")];
    let mut log = Vec::new();
    assert!(drive(&mut m, "net", &files, &mut log));
    let mut log = Vec::new();
    assert!(drive(&mut m, "net", &files, &mut log));
    assert!(log.is_empty());
}

#[test]
fn requirements_start_first_in_order() {
    let mut m = manager::default();
    let files = [
        ("app.service", "[service]\nRequires=db,net\nProgram=app\n"),
        ("db.service", "[service]\nRequires=net\nProgram=db\n"),
        ("net.service", "[service]\nProgram=net\n"),
    ];
    let mut log = Vec::new();
    assert!(drive(&mut m, "app", &files, &mut log));
    assert_eq!(
        log,
        vec![
            "open app.service",
            "open db.service",
            "open net.service",
            "start net [\"net\"]",
            "start db [\"db\"]",
            "start app [\"app\"]",
        ]
    );
}

#[test]
fn failed_requirement_stops_the_list() {
    let mut m = manager::default();
    let files = [
        ("app.service", "[service]\nRequires=gone,net\nProgram=app\n"),
        ("net.service", "[service]\n"),
    ];
    let mut log = Vec::new();
    assert!(!drive(&mut m, "app", &files, &mut log));
    // `net` is not run: the list stopped at `gone`; the program still starts.
    assert_eq!(log, vec!["open app.service", "open gone.service", "start app [\"app\"]"]);
    // `app` was read to the end, so it counts as running.
    let mut log = Vec::new();
    assert!(drive(&mut m, "app", &files, &mut log));
    assert!(log.is_empty());
}

#[test]
fn last_requires_entry_decides() {
    let mut m = manager::default();
    let files = [
        ("app.service", "[service]\nRequires=gone\nRequires=net\n"),
        ("net.service", "[service]\n"),
    ];
    let mut log = Vec::new();
    assert!(drive(&mut m, "app", &files, &mut log));
    assert_eq!(log, vec!["open app.service", "open gone.service", "open net.service"]);
}

#[test]
fn other_sections_do_not_count() {
    let mut m = manager::default();
    let files = [("app.service", "[unit]\nRequires=gone\nProgram=x\n")];
    let mut log = Vec::new();
    assert!(drive(&mut m, "app", &files, &mut log));
    assert_eq!(log, vec!["open app.service"]);
}

#[test]
fn running_requirement_is_not_opened() {
    let mut m = manager::default();
    let files = [
        ("app.service", "[service]\nRequires=net\n"),
        ("net.service", "[service]\n"),
    ];
    let mut log = Vec::new();
    assert!(drive(&mut m, "net", &files, &mut log));
    let mut log = Vec::new();
    assert!(drive(&mut m, "app", &files, &mut log));
    assert_eq!(log, vec!["open app.service"]);
}

#[test]
fn run_expects_open_result_first() {
    let m = manager::default();
    let (run, action) = m.run(b"x");
    assert!(matches!(action, Action::Open(_)));
    assert!(run.expects(&Event::Opened(true)));
    assert!(!run.expects(&Event::Entry(None)));
    assert!(!run.is_done());
}

#[test]
fn test_run() -> Result<(), &'static str> {
    let mut manager = manager::default();
    let mut log = Vec::new();
    // No `dhcpcd.service` here: the file does not open and the run fails.
    let started = drive(&mut manager, "dhcpcd", &[], &mut log);
    assert!(!started);
    assert_eq!(log, vec!["open dhcpcd.service"]);

    Ok(())
}
