use dhtsearch::api::File;
use dhtsearch::api::Info;
use dhtsearch::api::InfoFiles;
use dhtsearch::exts::file_types;

fn one_file(name: &str, length: i64) -> File {
    File {
        path: Some(vec!["dir".to_string(), name.to_string()]),
        length,
    }
}

fn collection(name: &str, files: Vec<File>) -> InfoFiles {
    InfoFiles {
        info: Info {
            name: name.to_owned().into(),
            ..Default::default()
        },
        files,
    }
}

#[test]
fn extension_summary_caps_at_seven() {
    let info_files = collection(
        "bundle",
        vec![
            one_file("a.zip", 800),
            one_file("b.zpaq", 700),
            one_file("c.opus", 600),
            one_file("d.pdf", 500),
            one_file("e.mp3", 400),
            one_file("f.rar", 300),
            one_file("g.7z", 200),
            one_file("h.txt", 100),
        ],
    );
    let types = file_types(&info_files);
    assert_eq!(types.len(), 7);
    assert_eq!(
        types,
        vec![
            "zip".to_string(),
            "zpaq".to_string(),
            "opus".to_string(),
            "pdf".to_string(),
            "mp3".to_string(),
            "rar".to_string(),
            "7z".to_string(),
        ]
    );
}

#[test]
fn extension_groups_keep_the_largest_length() {
    let info_files = collection(
        "c",
        vec![
            one_file("small.TXT", 10),
            one_file("archive.zip", 50),
            one_file("big.txt", 100),
        ],
    );
    assert_eq!(
        file_types(&info_files),
        vec!["txt".to_string(), "zip".to_string()]
    );
}

#[test]
fn records_without_extension_are_dropped() {
    let info_files = collection(
        "c",
        vec![
            one_file(".gitignore", 1000),
            one_file("README", 900),
            one_file("x.txt", 1),
            File { path: None, length: 500 },
            File { path: Some(vec![]), length: 400 },
        ],
    );
    assert_eq!(file_types(&info_files), vec!["txt".to_string()]);
}

#[test]
fn single_unnamed_file_uses_the_display_name() {
    let info_files = collection(
        "The.Story.720p.MP4",
        vec![File { path: None, length: 9 }],
    );
    assert_eq!(file_types(&info_files), vec!["mp4".to_string()]);
}

#[test]
fn single_unnamed_file_without_extension_gives_nothing() {
    let info_files = collection("plainname", vec![File { path: None, length: 9 }]);
    assert_eq!(file_types(&info_files), Vec::<String>::new());
}

#[test]
fn equal_lengths_order_by_extension() {
    let info_files = collection(
        "c",
        vec![one_file("b.zzz", 10), one_file("a.aaa", 10), one_file("m.mmm", 11)],
    );
    assert_eq!(
        file_types(&info_files),
        vec!["mmm".to_string(), "aaa".to_string(), "zzz".to_string()]
    );
}
