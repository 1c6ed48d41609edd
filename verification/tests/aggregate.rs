use dhtsearch::api::File;
use dhtsearch::api::Info;
use dhtsearch::api::InfoFiles;
use dhtsearch::api::UpvertedFile;
use dhtsearch::filerow::info_files_to_file_rows;
use dhtsearch::filerow::FileRow;
use dhtsearch::fileview::FileView;
use std::fmt::Debug;
use std::iter::once;

fn dir_file_row<'a>(leaf: &'a str, path: &'a [&'a str]) -> FileRow {
    FileRow {
        path: path
            .iter()
            .cloned()
            .chain(once(leaf))
            .map(|s| s.to_string())
            .collect(),
        dir: true,
        size: None,
        so: None,
    }
}

fn same_contents<T: Debug + PartialEq<U> + Ord, U: Debug + Ord>(
    mut got: Vec<T>,
    mut expected: Vec<U>,
) {
    got.sort();
    expected.sort();
    assert_eq!(got, expected);
}

#[test]
fn test_simple_file_rows_and_views() {
    let upverted = InfoFiles {
        info: Info {
            name: "a".to_owned().into(),
            ..Default::default()
        },
        files: vec![
            File {
                path: Some(
                    vec!["a", "b", "c", "10"]
                        .into_iter()
                        .map(ToOwned::to_owned)
                        .collect(),
                ),
                length: 1,
            },
            File {
                path: Some(
                    vec!["a", "b", "c", "10"]
                        .into_iter()
                        .map(ToOwned::to_owned)
                        .collect(),
                ),
                length: 2,
            },
            File {
                path: Some(
                    vec!["a", "b", "c", "2"]
                        .into_iter()
                        .map(ToOwned::to_owned)
                        .collect(),
                ),
                length: 3,
            },
            File {
                path: Some(vec!["a", "b"].into_iter().map(ToOwned::to_owned).collect()),
                length: 4,
            },
        ],
    }
    .upverted_files();
    let file_rows = info_files_to_file_rows(&upverted);
    same_contents(
        file_rows.clone(),
        vec![
            dir_file_row(&"a", &[]),
            dir_file_row(&"b", &["a"]),
            dir_file_row(&"c", &["a", "b"]),
            FileRow {
                path: ["a", "b", "c", "10"]
                    .into_iter()
                    .map(ToOwned::to_owned)
                    .collect(),
                dir: false,
                size: Some(1),
                so: Some(0),
            },
            FileRow {
                path: ["a", "b", "c", "10"]
                    .into_iter()
                    .map(ToOwned::to_owned)
                    .collect(),
                dir: false,
                size: Some(2),
                so: Some(1),
            },
            FileRow {
                path: ["a", "b", "c", "2"]
                    .into_iter()
                    .map(ToOwned::to_owned)
                    .collect(),
                dir: false,
                size: Some(3),
                so: Some(2),
            },
            FileRow {
                path: ["a", "b"].into_iter().map(ToOwned::to_owned).collect(),
                dir: false,
                size: Some(4),
                so: Some(3),
            },
        ],
    );
    let file_view = FileView::from_file_rows(&file_rows);
    assert_eq!(
        file_view,
        Some(FileView {
            depth: 0,
            name: "".to_string(),
            size: 10,
            so: None,
            children: vec![FileView {
                depth: 1,
                name: "a".to_string(),
                size: 10,
                so: None,
                children: vec![
                    FileView {
                        depth: 2,
                        name: "b".to_string(),
                        size: 4,
                        so: Some(3),
                        children: vec![],
                    },
                    FileView {
                        depth: 2,
                        name: "b".to_string(),
                        size: 6,
                        so: None,
                        children: vec![FileView {
                            depth: 3,
                            name: "c".to_string(),
                            size: 6,
                            so: None,
                            children: vec![
                                FileView {
                                    depth: 4,
                                    name: "2".to_string(),
                                    size: 3,
                                    so: Some(2),
                                    children: vec![],
                                },
                                FileView {
                                    depth: 4,
                                    name: "10".to_string(),
                                    size: 2,
                                    so: Some(1),
                                    children: vec![],
                                },
                                FileView {
                                    depth: 4,
                                    name: "10".to_string(),
                                    size: 1,
                                    so: Some(0),
                                    children: vec![],
                                }
                            ],
                        }],
                    }
                ],
            },]
        })
    )
}

#[test]
fn test_single_file_torrent_file_rows() {
    assert_eq!(
        info_files_to_file_rows(
            &InfoFiles {
                info: Info {
                    name: "a".to_owned().into(),
                    ..Default::default()
                },
                files: vec![File {
                    path: None,
                    ..Default::default()
                }]
            }
            .upverted_files()
        ),
        vec![FileRow {
            path: vec!["a".to_string()],
            dir: false,
            size: Some(0),
            so: Some(0),
        }]
    )
}

#[test]
fn numeric_collation_two_before_ten() {
    let upverted = vec![
        UpvertedFile {
            path: vec!["10".to_string()],
            length: 1,
        },
        UpvertedFile {
            path: vec!["2".to_string()],
            length: 2,
        },
    ];
    let rows = info_files_to_file_rows(&upverted);
    assert_eq!(rows.len(), 2);
    assert_eq!(rows[0].path, vec!["2".to_string()]);
    assert_eq!(rows[1].path, vec!["10".to_string()]);
}

#[test]
fn flat_order_dirs_first_then_position() {
    let upverted = vec![
        UpvertedFile {
            path: vec!["a".to_string(), "b".to_string(), "c".to_string(), "10".to_string()],
            length: 1,
        },
        UpvertedFile {
            path: vec!["a".to_string(), "b".to_string(), "c".to_string(), "10".to_string()],
            length: 2,
        },
        UpvertedFile {
            path: vec!["a".to_string(), "b".to_string(), "c".to_string(), "2".to_string()],
            length: 3,
        },
        UpvertedFile {
            path: vec!["a".to_string(), "b".to_string()],
            length: 4,
        },
    ];
    let rows = info_files_to_file_rows(&upverted);
    let shape: Vec<(Vec<String>, bool, Option<usize>)> = rows
        .iter()
        .map(|r| (r.path.clone(), r.dir, r.so))
        .collect();
    let p = |segs: &[&str]| -> Vec<String> { segs.iter().map(|s| s.to_string()).collect() };
    assert_eq!(
        shape,
        vec![
            (p(&["a"]), true, None),
            (p(&["a", "b"]), true, None),
            (p(&["a", "b"]), false, Some(3)),
            (p(&["a", "b", "c"]), true, None),
            (p(&["a", "b", "c", "2"]), false, Some(2)),
            (p(&["a", "b", "c", "10"]), false, Some(0)),
            (p(&["a", "b", "c", "10"]), false, Some(1)),
        ]
    );
}

#[test]
fn directory_rows_are_deduplicated() {
    let upverted = vec![
        UpvertedFile {
            path: vec!["top".to_string(), "one".to_string()],
            length: 1,
        },
        UpvertedFile {
            path: vec!["top".to_string(), "two".to_string()],
            length: 2,
        },
        UpvertedFile {
            path: vec!["top".to_string(), "sub".to_string(), "three".to_string()],
            length: 3,
        },
    ];
    let rows = info_files_to_file_rows(&upverted);
    let dirs: Vec<&FileRow> = rows.iter().filter(|r| r.dir).collect();
    assert_eq!(dirs.len(), 2);
    let mut dir_paths: Vec<Vec<String>> = dirs.iter().map(|r| r.path.clone()).collect();
    dir_paths.sort();
    assert_eq!(
        dir_paths,
        vec![
            vec!["top".to_string()],
            vec!["top".to_string(), "sub".to_string()],
        ]
    );
}

#[test]
fn empty_path_falls_back_to_display_name() {
    let upverted = InfoFiles {
        info: Info {
            name: "n".to_owned().into(),
            ..Default::default()
        },
        files: vec![File {
            path: Some(vec![]),
            length: 3,
        }],
    }
    .upverted_files();
    assert_eq!(upverted.len(), 1);
    assert_eq!(upverted[0].path, vec!["n".to_string()]);
    assert_eq!(upverted[0].length, 3);
}

#[test]
fn root_size_totals_all_lengths() {
    let upverted = vec![
        UpvertedFile {
            path: vec!["d".to_string(), "x".to_string()],
            length: 7,
        },
        UpvertedFile {
            path: vec!["d".to_string(), "y".to_string()],
            length: 5,
        },
        UpvertedFile {
            path: vec!["z".to_string()],
            length: 1,
        },
    ];
    let rows = info_files_to_file_rows(&upverted);
    let tree = FileView::from_file_rows(&rows).unwrap();
    assert_eq!(tree.size, 13);
    assert_eq!(tree.name, "".to_string());
    assert_eq!(tree.depth, 0);
    assert_eq!(tree.children.len(), 2);
    assert_eq!(tree.children[0].name, "d".to_string());
    assert_eq!(tree.children[0].size, 12);
    assert_eq!(tree.children[1].name, "z".to_string());
    assert_eq!(tree.children[1].size, 1);
}

#[test]
fn row_getters_read_the_path() {
    let row = FileRow {
        path: vec!["x".to_string(), "y".to_string()],
        dir: false,
        size: Some(1),
        so: Some(0),
    };
    assert_eq!(row.leaf(), Some(&"y".to_string()));
    assert_eq!(
        row.iter_path().clone(),
        vec!["x".to_string(), "y".to_string()]
    );
    let none = FileRow {
        path: vec![],
        dir: true,
        size: None,
        so: None,
    };
    assert_eq!(none.leaf(), None);
}

#[test]
fn listing_is_reproducible() {
    let upverted = vec![
        UpvertedFile {
            path: vec!["a".to_string(), "f2".to_string()],
            length: 1,
        },
        UpvertedFile {
            path: vec!["a".to_string(), "f10".to_string()],
            length: 2,
        },
    ];
    let first = info_files_to_file_rows(&upverted);
    let second = info_files_to_file_rows(&upverted);
    let shape = |rows: &Vec<FileRow>| -> Vec<(Vec<String>, bool, Option<i64>, Option<usize>)> {
        rows.iter()
            .map(|r| (r.path.clone(), r.dir, r.size, r.so))
            .collect()
    };
    assert_eq!(shape(&first), shape(&second));
    assert_eq!(first[1].path, vec!["a".to_string(), "f2".to_string()]);
    assert_eq!(first[2].path, vec!["a".to_string(), "f10".to_string()]);
}

#[test]
fn magnet_link_prefixes_the_hash() {
    assert_eq!(
        dhtsearch::make_magnet_link("40f3761b9080949c"),
        "magnet:?xt=urn:btih:40f3761b9080949c".to_string()
    );
}
