use svc_manager::service::{service, Read, Scan, Step};

/// Reads the next entry of `bytes`, from `pos` on, the way the program does
/// with a file.
fn next_entry(svc: &mut service, bytes: &[u8], pos: &mut usize) -> Option<(String, String)> {
    let mut scan = Scan::new();
    loop {
        assert!(svc.can_read());
        let read = if *pos < bytes.len() {
            let b = bytes[*pos];
            *pos += 1;
            Read::Byte(b)
        } else {
            Read::End
        };
        match svc.entry(&mut scan, read) {
            Step::More => continue,
            Step::Done(r) => {
                return r.map(|(k, v)| {
                    (String::from_utf8(k).unwrap(), String::from_utf8(v).unwrap())
                })
            }
        }
    }
}

fn entries(text: &str) -> Vec<(String, String)> {
    let mut svc = service::open(Ok(3)).unwrap();
    let mut pos = 0;
    let mut out = Vec::new();
    while let Some(e) = next_entry(&mut svc, text.as_bytes(), &mut pos) {
        out.push(e);
        assert!(out.len() < 100);
    }
    out
}

fn pair(k: &str, v: &str) -> (String, String) {
    (k.to_string(), v.to_string())
}

#[test]
fn open_keeps_descriptor_and_error() {
    let svc = service::open(Ok(7)).unwrap();
    assert_eq!(svc.fd(), 7);
    assert!(svc.can_read());
    assert!(matches!(service::open(Err("No such file or directory")), Err("No such file or directory")));
}

#[test]
fn section_names_its_entries() {
    let got = entries("[service]\nRequires=network\nProgram=daemon\n");
    assert_eq!(got, vec![pair("service.Requires", "network"), pair("service.Program", "daemon")]);
}

#[test]
fn commas_become_list_separators() {
    let got = entries("[service]\nRequires=network, dbus,log\n");
    assert_eq!(got, vec![pair("service.Requires", "network'dbus'log")]);
}

#[test]
fn quotes_keep_blanks_and_commas() {
    let got = entries("[service]\nProgram='/usr/bin/app --verbose, -x'\n");
    assert_eq!(got, vec![pair("service.Program", "/usr/bin/app --verbose, -x")]);
}

#[test]
fn quoted_line_feed_does_not_end_entry() {
    let got = entries("[s]\nk='a\nb'\n");
    assert_eq!(got, vec![pair("s.k", "a\nb")]);
}

#[test]
fn blanks_tabs_and_returns_are_skipped() {
    let got = entries("[ service ]\r\n Key \t= some value\r\n");
    assert_eq!(got, vec![pair("service.Key", "somevalue")]);
}

#[test]
fn entry_without_line_feed_comes_at_end() {
    let got = entries("[service]\nProgram=daemon");
    assert_eq!(got, vec![pair("service.Program", "daemon")]);
}

#[test]
fn value_splits_at_first_equals() {
    let got = entries("[env]\nPATH=a=b\n");
    assert_eq!(got, vec![pair("env.PATH", "a=b")]);
}

#[test]
fn entries_before_any_section_have_no_prefix() {
    let got = entries("a=1\nb=2\n");
    assert_eq!(got, vec![pair("a", "1"), pair("b", "2")]);
}

#[test]
fn second_section_replaces_first() {
    let got = entries("[one]\na=1\n[two]\nb=2\n");
    assert_eq!(got, vec![pair("one.a", "1"), pair("two.b", "2")]);
}

#[test]
fn lines_without_equals_extend_the_prefix() {
    let got = entries("[one]\nsub\na=1\n");
    assert_eq!(got, vec![pair("one.sub.a", "1")]);
}

#[test]
fn nul_ends_search_without_entry() {
    let mut svc = service::open(Ok(3)).unwrap();
    let bytes = b"[s]\nk=v\0rest=1\n";
    let mut pos = 0;
    assert_eq!(next_entry(&mut svc, bytes, &mut pos), None);
}

#[test]
fn nothing_after_end() {
    let mut svc = service::open(Ok(3)).unwrap();
    let bytes = b"k=v";
    let mut pos = 0;
    assert_eq!(next_entry(&mut svc, bytes, &mut pos), Some(pair("k", "v")));
    assert_eq!(next_entry(&mut svc, bytes, &mut pos), None);
    assert_eq!(next_entry(&mut svc, bytes, &mut pos), None);
}

#[test]
fn failed_read_repeats_last_byte() {
    let mut svc = service::open(Ok(3)).unwrap();
    let mut scan = Scan::new();
    // A failed read before any byte repeats the NUL: the search ends.
    assert!(matches!(svc.entry(&mut scan, Read::Failed), Step::Done(None)));
    let mut scan = Scan::new();
    for b in b"k=v" {
        assert!(matches!(svc.entry(&mut scan, Read::Byte(*b)), Step::More));
    }
    // The failed read repeats `v`.
    assert!(matches!(svc.entry(&mut scan, Read::Failed), Step::More));
    match svc.entry(&mut scan, Read::Byte(b'\n')) {
        Step::Done(Some((k, v))) => {
            assert_eq!(k, b"k".to_vec());
            assert_eq!(v, b"vv".to_vec());
        }
        _ => panic!("expected an entry"),
    }
}

#[test]
fn unclosed_bracket_leaves_prefix_too_long() {
    // `[x` is never closed by a line feed, so the prefix of `service.` is
    // longer than the text when the entry ends.
    let mut svc = service::open(Ok(3)).unwrap();
    let bytes = b"[service]\n[x]a=b\n";
    let mut pos = 0;
    assert_eq!(next_entry(&mut svc, bytes, &mut pos), Some(pair("xa", "b")));
    assert!(!svc.can_read());
}

#[test]
fn whole_file_gives_entries_in_order_then_none() {
    let text = b"[a]\nx=1\n\n[b.]\ny=2\n\nz=3\n\n";
    let mut svc = service::open(Ok(3)).unwrap();
    let mut pos = 0;
    assert_eq!(next_entry(&mut svc, text, &mut pos), Some(pair("a.x", "1")));
    assert_eq!(next_entry(&mut svc, text, &mut pos), Some(pair("b.y", "2")));
    assert_eq!(next_entry(&mut svc, text, &mut pos), Some(pair("b.z", "3")));
    for _ in 0..5 {
        assert_eq!(next_entry(&mut svc, text, &mut pos), None);
    }
}

#[test]
fn bytes_from_0x80_come_out_in_utf8() {
    let mut svc = service::open(Ok(3)).unwrap();
    let bytes = b"[caf\xe9]\nk\xe9=\xe9\xff\n";
    let mut pos = 0;
    let got = next_entry(&mut svc, bytes, &mut pos).unwrap();
    assert_eq!(got, pair("caf\u{e9}.k\u{e9}", "\u{e9}\u{ff}"));
    assert_eq!(got.0.as_bytes(), b"caf\xc3\xa9.k\xc3\xa9");
}

#[test]
fn prefix_cut_inside_a_character_stops_the_reader() {
    // The prefix `ab.` is 3 bytes long; after the open `[`, byte 3 of the
    // text is the second byte of an encoded character.
    let mut svc = service::open(Ok(3)).unwrap();
    let bytes = b"[ab]\n[\xe9\xe9=1\n";
    let mut pos = 0;
    assert_eq!(next_entry(&mut svc, bytes, &mut pos), Some(pair("\u{e9}\u{e9}", "1")));
    assert!(!svc.can_read());
}
