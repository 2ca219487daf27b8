use interview::file::PasswordRecord;

fn smith() -> PasswordRecord {
    PasswordRecord::new(
        "jsmith",
        "x",
        1001,
        1000,
        vec![
            "Joe Smith",
            "Room 1007",
            "(234)555-8917",
            "(234)555-0077",
            "jsmith@rosettacode.org",
        ],
        "/home/jsmith",
        "/bin/bash",
    )
}

#[test]
fn test_to_line() {
    assert_eq!(
        "jsmith:x:1001:1000:Joe Smith,Room 1007,(234)555-8917,(234)555-0077,jsmith@rosettacode.org:/home/jsmith:/bin/bash",
        smith().to_line()
    );
    let none = PasswordRecord::new("a", "", 0, u64::MAX, vec![], "", "s");
    assert_eq!("a::0:18446744073709551615:::s", none.to_line());
}

#[test]
fn test_from_line() {
    let line = smith().to_line();
    assert_eq!(smith(), PasswordRecord::from_line(&line));
    let r = PasswordRecord::from_line("a:b:+7:08:::sh:more:fields");
    assert_eq!("a", r.account);
    assert_eq!("b", r.password);
    assert_eq!(7, r.uid);
    assert_eq!(8, r.gid);
    assert_eq!(vec![String::new()], r.gecos);
    assert_eq!("", r.directory);
    assert_eq!("sh", r.shell);
}

#[test]
fn test_new_copies_fields() {
    let r = smith();
    assert_eq!("jsmith", r.account);
    assert_eq!("x", r.password);
    assert_eq!(1001, r.uid);
    assert_eq!(1000, r.gid);
    assert_eq!(5, r.gecos.len());
    assert_eq!("Room 1007", r.gecos[1]);
    assert_eq!("/home/jsmith", r.directory);
    assert_eq!("/bin/bash", r.shell);
}

#[test]
fn test_password_lines() {
    let recs1 = vec![
        smith(),
        PasswordRecord::new(
            "jdoe",
            "x",
            1002,
            1000,
            vec![
                "Jane Doe",
                "Room 1004",
                "(234)555-8914",
                "(234)555-0044",
                "jdoe@rosettacode.org",
            ],
            "/home/jdoe",
            "/bin/bash",
        ),
    ];
    let lines: Vec<String> = recs1.iter().map(|r| r.to_line()).collect();
    let recs2: Vec<PasswordRecord> = lines.iter().map(|l| PasswordRecord::from_line(l)).collect();
    assert_eq!(2, recs2.len());
    assert_eq!(recs1, recs2);
}
