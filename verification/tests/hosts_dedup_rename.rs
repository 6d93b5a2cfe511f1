use smalltools::dedup::{dedup_csv, duplicate_flags, encode_report, mark_duplicates, mark_text};
use smalltools::hosts::{address_records, request_url, DnsAnswer, DnsRes, InputType, Provider};
use smalltools::password::{password_from_entropy, ENTROPY_LEN};
use smalltools::rename::{
    decide_copy, destination_name, find_source, plan_renames, sanitize_prefix, starts_with,
    CopyDecision,
};

fn strings(v: &[&str]) -> Vec<String> {
    v.iter().map(|s| s.to_string()).collect()
}

#[test]
fn provider_names_and_urls() {
    assert!(matches!(Provider::parse("cf1"), Provider::Cf1));
    assert!(matches!(Provider::parse("ali2"), Provider::Ali2));
    assert!(matches!("dnspod".parse::<Provider>(), Ok(Provider::Dnspod)));
    match Provider::parse("9.9.9.9") {
        Provider::Custom(s) => assert_eq!(s, "9.9.9.9"),
        other => panic!("unexpected {:?}", other),
    }
    assert_eq!(Provider::Cf1.ipv4(), "1.1.1.1");
    assert_eq!(Provider::Cf2.ipv4(), "1.0.0.1");
    assert_eq!(Provider::Dnspod.ipv4(), "1.12.12.12");
    assert_eq!(Provider::Ali1.ipv4(), "223.5.5.5");
    assert_eq!(Provider::Ali2.ipv4(), "223.6.6.6");
    assert_eq!(Provider::Ali1.word(), "resolve");
    assert_eq!(Provider::Custom("x".to_string()).word(), "dns-query");
    assert_eq!(Provider::Cf2.build_url_prefix(), "https://1.0.0.1/dns-query?name=");
    assert_eq!(Provider::Ali2.build_url_prefix(), "https://223.6.6.6/resolve?name=");
    assert_eq!(
        Provider::Custom("8.8.8.8".to_string()).build_url_prefix(),
        "https://8.8.8.8/dns-query?name="
    );
}

#[test]
fn input_type_names() {
    assert!(matches!(InputType::parse("list"), Ok(InputType::List)));
    assert!(matches!("args".parse::<InputType>(), Ok(InputType::Args)));
    assert!(InputType::parse("file").is_err());
}

#[test]
fn request_url_appends_the_line() {
    assert_eq!(
        request_url("https://1.1.1.1/dns-query?name=", "example.com\n"),
        "https://1.1.1.1/dns-query?name=example.com\n"
    );
}

#[test]
fn address_records_keep_type_one_only() {
    let res = DnsRes {
        status: 0,
        answer: vec![
            DnsAnswer { ty: 5, data: "alias.example.".to_string() },
            DnsAnswer { ty: 1, data: "93.184.216.34".to_string() },
            DnsAnswer { ty: 28, data: "::1".to_string() },
            DnsAnswer { ty: 1, data: "93.184.216.35".to_string() },
        ],
    };
    assert_eq!(address_records(&res), strings(&["93.184.216.34", "93.184.216.35"]));
}

#[test]
fn duplicate_flags_mark_repeats() {
    let col = strings(&["a", "b", "a", "c"]);
    assert_eq!(duplicate_flags(&col), vec![true, false, true, false]);
    assert_eq!(duplicate_flags(&Vec::new()), Vec::<bool>::new());
}

#[test]
fn mark_duplicates_builds_rows() {
    let records = vec![
        strings(&["ann", "q1"]),
        strings(&["bob", "q1", "extra"]),
        strings(&["ann", "q2"]),
    ];
    let rows = mark_duplicates(&records);
    assert_eq!(rows.len(), 3);
    assert_eq!(rows[0].to_record(), strings(&["ann", "true", "q1", "true", "true"]));
    assert_eq!(rows[1].to_record(), strings(&["bob", "false", "q1", "true", "false"]));
    assert_eq!(rows[2].to_record(), strings(&["ann", "true", "q2", "false", "false"]));
    assert_eq!(mark_text(true), "true");
    assert_eq!(
        String::from_utf8(encode_report(&rows)).unwrap(),
        "ann,true,q1,true,true\nbob,false,q1,true,false\nann,true,q2,false,false\n"
    );
}

#[test]
fn encode_report_quotes_fields_that_need_it() {
    let rows = mark_duplicates(&vec![strings(&["a,b", "say \"hi\""])]);
    assert_eq!(
        String::from_utf8(encode_report(&rows)).unwrap(),
        "\"a,b\",false,\"say \"\"hi\"\"\",false,true\n"
    );
    assert!(encode_report(&Vec::new()).is_empty());
}

#[test]
fn sanitize_prefix_cleans_marks_and_extensions() {
    assert_eq!(sanitize_prefix("a\u{2066}b\u{2067}c\u{202d}.MP3"), "a-b-c-.mp3");
    assert_eq!(sanitize_prefix("clip.MOV.MP3x"), "clip.mov.mp3x");
    assert_eq!(sanitize_prefix(".MP.MP3"), ".MP.mp3");
    assert_eq!(sanitize_prefix("plain"), "plain");
    assert_eq!(sanitize_prefix(""), "");
}

#[test]
fn starts_with_and_find_source() {
    assert!(starts_with("song.mp3", "song"));
    assert!(!starts_with("so", "song"));
    let files = strings(&["b.mp3", "a1.mp3", "a2.mp3"]);
    assert_eq!(find_source(&files, "a"), Some(1));
    assert_eq!(find_source(&files, "c"), None);
}

#[test]
fn decide_copy_for_each_record() {
    assert_eq!(destination_name("ann", "x.mp3"), "passed_files\\ann____x.mp3");
    let files = strings(&["Take.mp3", "other.mov"]);
    match decide_copy(&files, "ann", "Take.MP3") {
        CopyDecision::Copy { source, destination } => {
            assert_eq!(source, 0);
            assert_eq!(destination, "passed_files\\ann____Take.mp3");
        }
        other => panic!("unexpected {:?}", other),
    }
    match decide_copy(&files, "bob", "mis\u{2067}sing") {
        CopyDecision::Missing { prefix } => assert_eq!(prefix, "mis-sing"),
        other => panic!("unexpected {:?}", other),
    }
}

#[test]
fn passwords_are_base64url() {
    assert_eq!(password_from_entropy(b"hello world!"), "aGVsbG8gd29ybGQh");
    assert_eq!(password_from_entropy(&[0u8; ENTROPY_LEN]), "AAAAAAAAAAAAAAAA");
    assert_eq!(password_from_entropy(&[0xfb, 0xff, 0xbf, 0xfb, 0xff, 0xbf, 0xfb, 0xff, 0xbf, 0xfb, 0xff, 0xbf]), "-_-_-_-_-_-_-_-_");
}

#[test]
fn dedup_csv_reads_marks_and_writes() {
    let out = dedup_csv(b"nickname,qq\nann,q1\nbob,q1\nann,q2\n").unwrap();
    assert_eq!(
        String::from_utf8(out).unwrap(),
        "ann,true,q1,true,true\nbob,false,q1,true,false\nann,true,q2,false,false\n"
    );
    assert_eq!(dedup_csv(b"nickname,qq\n").unwrap(), Vec::<u8>::new());
}

#[test]
fn dedup_csv_refuses_short_or_broken_tables() {
    assert!(dedup_csv(b"nickname\nann\n").is_none());
    assert!(dedup_csv(b"nickname,qq\nann,q1,extra\n").is_none());
    assert!(dedup_csv(&[b'a', b',', b'b', b'\n', 0xff, b',', b'x', b'\n']).is_none());
}

#[test]
fn plan_renames_decides_every_row() {
    let files = strings(&["Take.mp3", "other.mov"]);
    let plan = plan_renames(&files, b"name,prefix\nann,Take.MP3\nbob,missing\n").unwrap();
    assert_eq!(plan.len(), 2);
    match &plan[0] {
        CopyDecision::Copy { source, destination } => {
            assert_eq!(*source, 0);
            assert_eq!(destination, "passed_files\\ann____Take.mp3");
        }
        other => panic!("unexpected {:?}", other),
    }
    assert!(matches!(&plan[1], CopyDecision::Missing { prefix } if prefix == "missing"));
    assert!(plan_renames(&files, b"name,prefix,x\nann,a,b\n").is_none());
    assert!(plan_renames(&files, b"name\nann\n").is_none());
    assert!(plan_renames(&files, b"name,prefix\nann,a\nbob\n").is_none());
}
