use tsbox::inputs::batch_mode;
use tsbox::inputs::collect_files;
use tsbox::inputs::discover_inputs;
use tsbox::inputs::extract_mode;
use tsbox::inputs::DirNode;
use tsbox::inputs::EntryKind;
use tsbox::inputs::ExtractMode;
use tsbox::inputs::InputError;
use tsbox::inputs::InputKind;
use tsbox::order::sort_paths;
use tsbox::paths::absolutize;
use tsbox::paths::commit_temp;
use tsbox::paths::ensure_no_output_collisions;
use tsbox::paths::ensure_output_available;
use tsbox::paths::ensure_temp_available;
use tsbox::paths::extract_output_path;
use tsbox::paths::fallback_raw_output_dir;
use tsbox::paths::file_stem;
use tsbox::paths::lookup_dir;
use tsbox::paths::output_key;
use tsbox::paths::pack_output_path;
use tsbox::paths::raw_output_dir;
use tsbox::paths::temp_path_for;
use tsbox::paths::FilePath;
use tsbox::paths::OutputPath;
use tsbox::paths::PathError;
use tsbox::paths::PathFacts;
use tsbox::paths::PlannedOutput;
use tsbox::preflight::check_output;
use tsbox::preflight::plan_pack_outputs;
use tsbox::preflight::preflight_pack_outputs;
use tsbox::preflight::OutputCheck;
use tsbox::preflight::PreflightError;

fn bytes(text: &str) -> Vec<u8> {
    text.as_bytes().to_vec()
}

fn path(text: &str) -> FilePath {
    let (parent, name) = match text.rfind('/') {
        Some(at) => (&text[..at], &text[at + 1..]),
        None => ("", text),
    };
    FilePath { text: bytes(text), parent: Some(bytes(parent)), name: Some(bytes(name)) }
}

fn nameless(text: &str) -> FilePath {
    FilePath { text: bytes(text), parent: None, name: None }
}

fn exact(text: &str) -> OutputPath {
    OutputPath::Exact(bytes(text))
}

fn within(dir: &str, name: &str) -> OutputPath {
    OutputPath::InDir(bytes(dir), bytes(name))
}

fn node(id: usize, text: &str, kind: EntryKind, children: Vec<DirNode>) -> DirNode {
    DirNode { id, path: path(text), parts: text.split('/').map(bytes).collect(), kind, children }
}

#[test]
fn directory_extract_filters_non_ts_files() {
    let entries = vec![
        node(1, "tmp/a.ts", EntryKind::File, vec![]),
        node(2, "tmp/b.txt", EntryKind::File, vec![]),
    ];
    let root = node(0, "tmp", EntryKind::Dir, entries);
    assert_eq!(discover_inputs(&root, false, InputKind::Extract), Ok(vec![1]));
}

#[test]
fn exact_output_file_is_allowed_for_single_pack() {
    let actual = pack_output_path(&path("tmp/a.bin"), Some(&path("tmp/custom.ts")), false);
    assert_eq!(actual, Ok(exact("tmp/custom.ts")));
}

#[test]
fn batch_output_is_always_a_directory() {
    let actual = pack_output_path(&path("tmp/a.bin"), Some(&path("tmp/out.ts")), true);
    assert_eq!(actual, Ok(within("tmp/out.ts", "a.ts")));
}

#[test]
fn output_collision_is_reported() {
    let err = ensure_output_available(b"/tmp/a.bin", b"/tmp/a.ts", true).unwrap_err();
    assert_eq!(err, PathError::OutputExists);
    let message = String::from_utf8(err.message()).unwrap();
    assert!(message.contains("output already exists"));
}

#[test]
fn inputs_in_a_tree() {
    let tree = || {
        let below = vec![
            node(2, "d/sub/z.ts", EntryKind::File, vec![]),
            node(3, "d/sub/a.bin", EntryKind::File, vec![]),
        ];
        let entries = vec![
            node(1, "d/sub", EntryKind::Dir, below),
            node(4, "d/sub.ts", EntryKind::File, vec![]),
            node(5, "d/a.TS", EntryKind::File, vec![]),
            node(6, "d/.ts", EntryKind::File, vec![]),
            node(7, "d/pipe.ts", EntryKind::Other, vec![]),
            node(8, "d/c.tS", EntryKind::File, vec![]),
            node(9, "d/d.tss", EntryKind::File, vec![]),
            node(10, "d/more.ts", EntryKind::Dir, vec![]),
        ];
        node(0, "d", EntryKind::Dir, entries)
    };
    let found = |recursive, kind| discover_inputs(&tree(), recursive, kind).unwrap();
    assert_eq!(found(true, InputKind::Pack), vec![6, 5, 8, 9, 3, 2, 4]);
    assert_eq!(found(false, InputKind::Pack), vec![6, 5, 8, 9, 4]);
    assert_eq!(found(true, InputKind::Extract), vec![5, 8, 2, 4]);
    assert_eq!(found(false, InputKind::Extract), vec![5, 8, 4]);
    let mut out = Vec::new();
    collect_files(&tree().children, false, InputKind::Extract, &mut out);
    let ids: Vec<usize> = out.iter().map(|f| f.id).collect();
    assert_eq!(ids, vec![4, 5, 8]);
}

#[test]
fn paths_are_sorted_by_components() {
    let parts = |text: &str| text.split('/').map(bytes).collect::<Vec<_>>();
    let paths: Vec<Vec<Vec<u8>>> =
        ["b", "a/c", "a", "a.x/b", "a/b/c", "a", "a/b"].iter().map(|p| parts(p)).collect();
    assert_eq!(sort_paths(&paths), vec![2, 5, 6, 4, 1, 3, 0]);
    assert_eq!(sort_paths(&vec![]), Vec::<usize>::new());
    let many: Vec<Vec<Vec<u8>>> = (0..100u8).rev().map(|i| vec![vec![i]]).collect();
    assert_eq!(sort_paths(&many), (0..100).rev().collect::<Vec<usize>>());
}

#[test]
fn roots_and_modes() {
    let file = node(7, "f.bin", EntryKind::File, vec![]);
    assert_eq!(discover_inputs(&file, false, InputKind::Extract), Ok(vec![7]));
    let other = node(7, "f", EntryKind::Other, vec![]);
    assert_eq!(
        discover_inputs(&other, false, InputKind::Pack),
        Err(InputError::NotFileOrDirectory)
    );
    assert_eq!(batch_mode(1, false, InputKind::Pack), Ok(false));
    assert_eq!(batch_mode(1, true, InputKind::Pack), Ok(true));
    assert_eq!(batch_mode(2, false, InputKind::Pack), Ok(true));
    let none = batch_mode(0, true, InputKind::Extract);
    assert_eq!(none, Err(InputError::NothingFound(InputKind::Extract)));
    assert_eq!(extract_mode(true, true), ExtractMode::Raw);
    assert_eq!(extract_mode(false, true), ExtractMode::Mp4 { fallback_raw: true });
    assert_eq!(extract_mode(false, false), ExtractMode::Mp4 { fallback_raw: false });
}

#[test]
fn pack_outputs() {
    assert_eq!(pack_output_path(&path("d/file.zip"), None, false), Ok(within("d", "file.ts")));
    assert_eq!(pack_output_path(&path("file"), None, false), Ok(within("", "file.ts")));
    assert_eq!(
        pack_output_path(&path("a.tar.gz"), Some(&path("o")), false),
        Ok(within("o", "a.tar.ts"))
    );
    assert_eq!(
        pack_output_path(&path("a"), Some(&path("o/x.TS")), false),
        Ok(exact("o/x.TS"))
    );
    assert_eq!(
        pack_output_path(&path("a"), Some(&path("o/x.bin")), false),
        Ok(within("o/x.bin", "a.ts"))
    );
    assert_eq!(pack_output_path(&path(".hidden"), None, false), Ok(within("", ".hidden.ts")));
    assert_eq!(pack_output_path(&nameless(".."), None, false), Err(PathError::NoFileName));
}

#[test]
fn extract_outputs() {
    let place = |output: Option<&str>, is_dir: bool, batch: bool, ext: Option<&str>| {
        let output = output.map(path);
        extract_output_path(&path("d/f.ts"), output.as_ref(), is_dir, batch, ext)
    };
    assert_eq!(place(None, false, false, Some("zip")), Ok(within("d", "f.zip")));
    assert_eq!(place(None, false, false, None), Ok(within("d", "f")));
    assert_eq!(place(None, false, false, Some("")), Ok(within("d", "f")));
    assert_eq!(place(Some("o"), false, false, Some("zip")), Ok(within("o", "f.zip")));
    assert_eq!(place(Some("o/x.bin"), false, false, Some("zip")), Ok(exact("o/x.bin")));
    assert_eq!(place(Some("o/x.bin"), true, false, Some("zip")), Ok(within("o/x.bin", "f.zip")));
    assert_eq!(place(Some("o/x.bin"), false, true, Some("zip")), Ok(within("o/x.bin", "f.zip")));
    let none = extract_output_path(&nameless("/"), None, false, false, Some("x"));
    assert_eq!(none, Err(PathError::NoFileName));
}

#[test]
fn names_come_back() {
    for name in ["file.zip", "a.tar.gz", "plain", ".hidden", ".hidden.txt", "a..b"] {
        let packed = match pack_output_path(&path(&format!("d/{name}")), None, false).unwrap() {
            OutputPath::InDir(_, name) => String::from_utf8(name).unwrap(),
            OutputPath::Exact(_) => unreachable!(),
        };
        let input = path(&format!("d/{name}"));
        let ext = input.extension().map(|e| String::from_utf8(e).unwrap());
        let back = path(&format!("d/{packed}"));
        let out = extract_output_path(&back, None, false, false, ext.as_deref());
        assert_eq!(out, Ok(within("d", name)));
    }
}

#[test]
fn batches_into_directories_restore_names() {
    for name in ["file.zip", "a.tar.gz", "plain"] {
        let input = path(&format!("in/{name}"));
        let packed = match pack_output_path(&input, Some(&path("packed.ts")), true).unwrap() {
            OutputPath::InDir(dir, name) => {
                assert_eq!(dir, b"packed.ts");
                String::from_utf8(name).unwrap()
            }
            OutputPath::Exact(_) => unreachable!(),
        };
        let ext = input.extension().map(|e| String::from_utf8(e).unwrap());
        let back = path(&format!("packed.ts/{packed}"));
        let out = extract_output_path(&back, Some(&path("o.x")), false, true, ext.as_deref());
        assert_eq!(out, Ok(within("o.x", name)));
    }
}

#[test]
fn raw_directories() {
    assert_eq!(raw_output_dir(&path("d/f.ts"), None), b"d");
    assert_eq!(raw_output_dir(&path("d/f.ts"), Some(&path("o/x.mp4"))), b"o/x.mp4");
    assert_eq!(raw_output_dir(&nameless("/"), None), b".");
    let dir = |output: Option<&str>, is_dir: bool, batch: bool| {
        let output = output.map(path);
        fallback_raw_output_dir(&path("d/f.ts"), output.as_ref(), is_dir, batch)
    };
    assert_eq!(dir(None, false, false), b"d");
    assert_eq!(dir(Some("o/x.mp4"), false, false), b"o");
    assert_eq!(dir(Some("o/x.mp4"), true, false), b"o/x.mp4");
    assert_eq!(dir(Some("o/x.mp4"), false, true), b"o/x.mp4");
    assert_eq!(dir(Some("o"), false, false), b"o");
}

#[test]
fn temporary_names() {
    assert_eq!(temp_path_for(&path("d/a.ts")), Ok(within("d", ".a.ts.part.ts")));
    assert_eq!(temp_path_for(&path("d/a")), Ok(within("d", ".a.part")));
    assert_eq!(temp_path_for(&path("d/.a")), Ok(within("d", "..a.part")));
    assert_eq!(temp_path_for(&path("a.")), Ok(within("", ".a..part.")));
    assert_eq!(temp_path_for(&nameless("/")), Err(PathError::NoFileName));
    let a = temp_path_for(&path("d/x.part"));
    assert_ne!(a, temp_path_for(&path("d/x")));
}

#[test]
fn stems() {
    assert_eq!(file_stem(&path("d/a.b.c")), Ok(bytes("a.b")));
    assert_eq!(file_stem(&path(".a")), Ok(bytes(".a")));
    assert_eq!(file_stem(&nameless("..")), Err(PathError::NoFileName));
}

#[test]
fn availability() {
    assert_eq!(ensure_output_available(b"/a", b"/b", false), Ok(()));
    assert_eq!(ensure_output_available(b"/a", b"/a", true), Err(PathError::WouldOverwriteInput));
    assert_eq!(ensure_temp_available(false), Ok(()));
    assert_eq!(ensure_temp_available(true), Err(PathError::TempExists));
    assert_eq!(commit_temp(false), Ok(()));
    assert_eq!(commit_temp(true), Err(PathError::OutputExists));
}

#[test]
fn absolute_forms() {
    let facts = |whole: Option<&str>, parent: Option<&str>| PathFacts {
        canonical: whole.map(bytes),
        canonical_parent: parent.map(bytes),
        absolute_parent: bytes("/cwd/d"),
    };
    let a = path("d/a");
    assert_eq!(absolutize(&a, &facts(Some("/r/a"), Some("/r"))), Ok(exact("/r/a")));
    assert_eq!(absolutize(&a, &facts(None, Some("/r"))), Ok(within("/r", "a")));
    assert_eq!(absolutize(&a, &facts(None, None)), Ok(within("/cwd/d", "a")));
    assert_eq!(absolutize(&nameless(".."), &facts(None, None)), Err(PathError::NoFileName));
}

#[test]
fn bare_file_names_lie_in_the_current_directory() {
    assert_eq!(lookup_dir(&path("file.zip")), b".");
    assert_eq!(lookup_dir(&path("d/file.zip")), b"d");
    assert_eq!(lookup_dir(&nameless("/")), b".");
    let facts = |parent: Option<&str>| PathFacts {
        canonical: None,
        canonical_parent: parent.map(bytes),
        absolute_parent: bytes("/cwd"),
    };
    let planned = output_key(path("file.ts"), &facts(Some("/real")));
    assert_eq!(planned.dir, b"/real");
    assert_eq!(planned.output, path("file.ts"));
    assert_eq!(output_key(path("file.ts"), &facts(None)).dir, b"/cwd");
}

fn planned(dir: &str, name: &str) -> PlannedOutput {
    PlannedOutput { output: path(&format!("{dir}/{name}")), dir: bytes(dir) }
}

#[test]
fn collisions() {
    let different = vec![planned("o", "a"), planned("o", "b"), planned("p", "a")];
    assert_eq!(ensure_no_output_collisions(&different), Ok(()));
    let same = vec![planned("o", "a"), planned("o", "b"), planned("o", "b"), planned("o", "a")];
    assert_eq!(ensure_no_output_collisions(&same), Err(PathError::Collision(1, 2)));
    let bad = vec![
        planned("o", "a"),
        PlannedOutput { output: nameless("/"), dir: bytes("/") },
        planned("o", "a"),
    ];
    assert_eq!(ensure_no_output_collisions(&bad), Err(PathError::NoFileName));
}

fn check(input: &str, output: &str, output_exists: bool, temp_exists: bool) -> OutputCheck {
    OutputCheck { input: bytes(input), output: bytes(output), output_exists, temp_exists }
}

#[test]
fn pack_preflight() {
    let inputs = vec![path("d/a.x"), path("d/b.x")];
    let paths = plan_pack_outputs(&inputs, None, true).unwrap();
    assert_eq!(paths, vec![within("d", "a.ts"), within("d", "b.ts")]);
    let inputs = vec![path("d/a.x"), nameless("..")];
    assert_eq!(plan_pack_outputs(&inputs, None, true), Err(PathError::NoFileName));

    let outputs = vec![planned("d", "a.ts"), planned("d", "b.ts")];
    let fine = vec![check("/d/a.x", "/d/a.ts", false, false), check("/d/b.x", "/d/b.ts", false, false)];
    assert_eq!(preflight_pack_outputs(&outputs, &fine), Ok(()));
    let taken = vec![check("/d/a.x", "/d/a.ts", false, false), check("/d/b.x", "/d/b.ts", false, true)];
    assert_eq!(
        preflight_pack_outputs(&outputs, &taken),
        Err(PreflightError::Refused(1, PathError::TempExists))
    );
    let own = check("/d/a.ts", "/d/a.ts", true, false);
    assert_eq!(check_output(&own), Err(PathError::WouldOverwriteInput));
    assert_eq!(check_output(&check("/a", "/b", true, true)), Err(PathError::OutputExists));
    let twice = vec![planned("d", "a.ts"), planned("d", "a.ts")];
    assert_eq!(
        preflight_pack_outputs(&twice, &fine),
        Err(PreflightError::Planned(PathError::Collision(0, 1)))
    );
}
