use std::path::PathBuf;
use unbox::converter::{
    convert_directory_incremental, count_files, file_kind_of, output_file_name_of, result_dir_name,
    ts_result, txt_result,
    unreadable_result, Entry, FileKind, Listing, Step,
};
use unbox::progress::{count_ok, crc_totals, Progress};
use unbox::txt_converter::CrcStats;

fn file(name: &str) -> Entry<String> {
    Entry::File { name: name.to_string(), path: format!("in/{name}") }
}

fn sample() -> Listing<String> {
    Listing::Entries(vec![
        file("a.txt"),
        file("notes.md"),
        Entry::Dir {
            name: "RSK".to_string(),
            path: "in/RSK".to_string(),
            listing: Listing::Entries(vec![file("b.TS"), file("c.Txt"), file(".txt")]),
        },
        Entry::Dir {
            name: "locked".to_string(),
            path: "in/locked".to_string(),
            listing: Listing::Unreadable("denied".to_string()),
        },
        file("d.ts"),
    ])
}

#[test]
fn file_kinds() {
    assert_eq!(file_kind_of("VIN_1.txt"), Some(FileKind::Txt));
    assert_eq!(file_kind_of("VIN_1.TXT"), Some(FileKind::Txt));
    assert_eq!(file_kind_of("a.b.Ts"), Some(FileKind::Ts));
    assert_eq!(file_kind_of(".hidden.ts"), Some(FileKind::Ts));
    assert_eq!(file_kind_of(".txt"), None);
    assert_eq!(file_kind_of("txt"), None);
    assert_eq!(file_kind_of("a.txt."), None);
    assert_eq!(file_kind_of("a.tx"), None);
    assert_eq!(file_kind_of("a.tsx"), None);
    assert_eq!(file_kind_of(".."), None);
    assert_eq!(file_kind_of(""), None);
    assert_eq!(FileKind::Txt.output_extension(), "json");
    assert_eq!(FileKind::Ts.output_extension(), "mp4");
}

#[test]
fn output_directory_name() {
    assert_eq!(result_dir_name("dssad_data"), "dssad_data_result");
    assert_eq!(result_dir_name(""), "_result");
}

#[test]
fn counting_files() {
    assert_eq!(count_files(&sample()), 4);
    assert_eq!(count_files(&Listing::<String>::Unreadable("x".to_string())), 0);
    assert_eq!(count_files(&Listing::<String>::Entries(vec![])), 0);
}

#[test]
fn conversion_steps_in_order() {
    let steps = convert_directory_incremental("in".to_string(), sample());
    let shown: Vec<String> = steps
        .iter()
        .map(|s| match s {
            Step::Convert { kind, src, dst } => format!("{kind:?} {src} -> {}", dst.join("/")),
            Step::Unreadable { dir, error } => format!("unreadable {dir} {error}"),
        })
        .collect();
    assert_eq!(
        shown,
        vec![
            "Txt in/a.txt -> a.json",
            "Ts in/b.TS -> RSK/b.mp4",
            "Txt in/c.Txt -> RSK/c.json",
            "unreadable in/locked denied",
            "Ts in/d.ts -> d.mp4",
        ]
    );
    let converted = steps.iter().filter(|s| matches!(s, Step::Convert { .. })).count();
    assert_eq!(converted, count_files(&sample()));
}

#[test]
fn unreadable_input_directory() {
    let steps = convert_directory_incremental("in".to_string(), Listing::Unreadable("gone".to_string()));
    assert_eq!(steps.len(), 1);
    assert!(matches!(&steps[0], Step::Unreadable { dir, error } if dir == "in" && error == "gone"));
}

fn stats(total: usize, passed: usize) -> CrcStats {
    CrcStats { total, passed, failed: total - passed }
}

#[test]
fn result_messages() {
    let r = txt_result(PathBuf::from("a.txt"), PathBuf::from("a.json"), Ok(stats(3, 2)));
    assert!(r.ok);
    assert_eq!(r.message, "OK — 3 msgs, CRC 2/3 passed");
    assert_eq!(r.src, PathBuf::from("a.txt"));
    assert_eq!(r.dst, PathBuf::from("a.json"));
    assert_eq!(r.crc_stats.as_ref().map(|s| (s.total, s.passed, s.failed)), Some((3, 2, 1)));

    let r = txt_result(PathBuf::from("a.txt"), PathBuf::from("a.json"), Err("No such file".to_string()));
    assert!(!r.ok);
    assert_eq!(r.message, "Error: No such file");
    assert!(r.crc_stats.is_none());

    let r = ts_result(PathBuf::from("v.ts"), PathBuf::from("v.mp4"), Ok(()));
    assert!(r.ok);
    assert_eq!(r.message, "OK");
    let r = ts_result(PathBuf::from("v.ts"), PathBuf::from("v.mp4"), Err("ffmpeg failed".to_string()));
    assert!(!r.ok);
    assert_eq!(r.message, "Error: ffmpeg failed");

    let r = unreadable_result(PathBuf::from("locked"), "Permission denied (os error 13)".to_string());
    assert!(!r.ok);
    assert_eq!(r.message, "Failed to read directory: Permission denied (os error 13)");
    assert_eq!(r.dst, PathBuf::new());
    assert_eq!(r.src, PathBuf::from("locked"));
}

#[test]
fn totals_over_results() {
    let results = vec![
        txt_result(PathBuf::from("a"), PathBuf::from("b"), Ok(stats(10, 9))),
        ts_result(PathBuf::from("c"), PathBuf::from("d"), Ok(())),
        txt_result(PathBuf::from("e"), PathBuf::from("f"), Ok(stats(5, 5))),
        txt_result(PathBuf::from("g"), PathBuf::from("h"), Err("x".to_string())),
    ];
    assert_eq!(crc_totals(&results), (15, 14, 1));
    assert_eq!(count_ok(&results), 3);
    assert_eq!(crc_totals(&[]), (0, 0, 0));
}

#[test]
fn progress_of_a_conversion() {
    let mut p = Progress::new();
    assert_eq!(p.status, "Ready");
    assert!(!p.is_running);
    assert!(!p.start(0));
    assert_eq!(p.status, "No convertible files found.");
    assert!(!p.is_running);

    assert!(p.start(3));
    assert!(p.is_running);
    assert_eq!(p.status, "Converting 0/3 ...");

    let mut results = vec![ts_result(PathBuf::from("a"), PathBuf::from("b"), Ok(()))];
    p.poll(&results);
    assert!(p.is_running);
    assert_eq!(p.status, "Converting 1/3 ...");

    results.push(ts_result(PathBuf::from("c"), PathBuf::from("d"), Err("e".to_string())));
    results.push(unreadable_result(PathBuf::from("x"), "y".to_string()));
    results.push(ts_result(PathBuf::from("e"), PathBuf::from("f"), Ok(())));
    p.poll(&results);
    assert!(!p.is_running);
    assert_eq!(p.status, "Done — 2 succeeded, 2 failed, 4 total");

    // once done, polling changes nothing
    p.poll(&[]);
    assert_eq!(p.status, "Done — 2 succeeded, 2 failed, 4 total");
}

/// The kind as the file name's extension, lower-cased, gives it.
fn kind_by_std(name: &str) -> Option<FileKind> {
    let ext = std::path::Path::new(name)
        .extension()
        .unwrap_or_default()
        .to_string_lossy()
        .to_lowercase();
    match ext.as_str() {
        "txt" => Some(FileKind::Txt),
        "ts" => Some(FileKind::Ts),
        _ => None,
    }
}

#[test]
fn file_kinds_agree_with_std() {
    let names = [
        "a.txt", "A.TXT", "b.tS", "b.Ts.", "c.t.s", ".ts", "..ts", "...txt", "x.txt.txt", "é.TXT",
        "ｔｘｔ", "a.ｔxt", "a.\u{212A}", "noext", "a.", ".", "a..ts", "a.txt ", "a. txt",
    ];
    for name in names {
        assert_eq!(file_kind_of(name), kind_by_std(name), "name: {name:?}");
    }
}

#[test]
fn only_ascii_letters_lowercase_to_t_x_s() {
    for c in (0u32..=0x10FFFF).filter_map(char::from_u32) {
        let lower: String = c.to_lowercase().collect();
        if lower == "t" || lower == "x" || lower == "s" {
            assert_eq!(c.to_ascii_lowercase().to_string(), lower, "char {c:?}");
        }
    }
}

#[test]
fn output_file_names() {
    assert_eq!(output_file_name_of("VIN_1_1_3.txt", FileKind::Txt), "VIN_1_1_3.json");
    assert_eq!(output_file_name_of("a.b.TS", FileKind::Ts), "a.b.mp4");
    assert_eq!(output_file_name_of(".hidden.txt", FileKind::Txt), ".hidden.json");
    for name in ["a.txt", "A.B.TXT", ".x.ts", "é.Ts"] {
        let kind = file_kind_of(name).unwrap();
        let by_std = std::path::Path::new(name).with_extension(kind.output_extension());
        assert_eq!(std::path::Path::new(&output_file_name_of(name, kind)), by_std.as_path());
    }
}

/// The README's example: output beside the input, same subdirectories.
#[test]
fn readme_destinations() {
    let dir = |name: &str, files: &[&str]| Entry::Dir {
        name: name.to_string(),
        path: format!("/data/dssad_data/{name}"),
        listing: Listing::Entries(
            files
                .iter()
                .map(|f| Entry::File { name: f.to_string(), path: format!("/data/dssad_data/{name}/{f}") })
                .collect(),
        ),
    };
    let listing = Listing::Entries(vec![
        dir("RSK", &["a.txt", "a.ts"]),
        dir("TSD", &["b.TXT"]),
        Entry::File { name: "notes.md".to_string(), path: "/data/dssad_data/notes.md".to_string() },
    ]);
    let root = format!("/data/{}", result_dir_name("dssad_data"));
    let steps = convert_directory_incremental("/data/dssad_data".to_string(), listing);
    let pairs: Vec<(String, String)> = steps
        .into_iter()
        .map(|s| match s {
            Step::Convert { src, dst, .. } => (src, format!("{root}/{}", dst.join("/"))),
            Step::Unreadable { .. } => panic!("no directory is unreadable"),
        })
        .collect();
    assert_eq!(
        pairs,
        vec![
            ("/data/dssad_data/RSK/a.txt".to_string(), "/data/dssad_data_result/RSK/a.json".to_string()),
            ("/data/dssad_data/RSK/a.ts".to_string(), "/data/dssad_data_result/RSK/a.mp4".to_string()),
            ("/data/dssad_data/TSD/b.TXT".to_string(), "/data/dssad_data_result/TSD/b.json".to_string()),
        ]
    );
}
