use std::collections::BTreeMap;

use tsbox::custom_ts::extract_file;
use tsbox::custom_ts::pack_file;
use tsbox::custom_ts::TsboxError;
use tsbox::demux::demux_raw;
use tsbox::error::DemuxError;
use tsbox::inputs::batch_mode;
use tsbox::inputs::ExtractMode;
use tsbox::inputs::InputKind;
use tsbox::media::judge_remux;
use tsbox::media::RemuxRun;
use tsbox::paths::commit_temp;
use tsbox::paths::ensure_no_output_collisions;
use tsbox::paths::ensure_output_available;
use tsbox::paths::ensure_temp_available;
use tsbox::paths::pack_output_path;
use tsbox::paths::temp_path_for;
use tsbox::paths::FilePath;
use tsbox::paths::OutputPath;
use tsbox::paths::PathError;
use tsbox::paths::PlannedOutput;
use tsbox::plan::plan_raw_outputs;
use tsbox::preflight::plan_extract;
use tsbox::preflight::plan_pack_outputs;
use tsbox::preflight::planned_extract_outputs;
use tsbox::preflight::preflight_extract_outputs;
use tsbox::preflight::preflight_pack_outputs;
use tsbox::preflight::ExtractPlan;
use tsbox::preflight::OutputCheck;
use tsbox::preflight::OutputRequest;
use tsbox::preflight::PreflightError;
use tsbox::progress::Outcome;
use tsbox::progress::Progress;
use tsbox::progress::WorkQueue;
use tsbox::raw_workflow::next_raw_step;
use tsbox::raw_workflow::RawStep;
use tsbox::workflow::extract_job;
use tsbox::workflow::next_step;
use tsbox::workflow::pack_job;
use tsbox::workflow::Step;

/// Files in memory, by path.
type Disk = BTreeMap<String, Vec<u8>>;

fn split(text: &str) -> FilePath {
    let (parent, name) = match text.rfind('/') {
        Some(at) => (&text[..at], &text[at + 1..]),
        None => ("", text),
    };
    FilePath {
        text: text.as_bytes().to_vec(),
        parent: Some(parent.as_bytes().to_vec()),
        name: Some(name.as_bytes().to_vec()),
    }
}

fn join(path: &OutputPath) -> String {
    match path {
        OutputPath::Exact(text) => String::from_utf8(text.clone()).unwrap(),
        OutputPath::InDir(dir, name) => {
            let dir = String::from_utf8(dir.clone()).unwrap();
            let name = String::from_utf8(name.clone()).unwrap();
            if dir.is_empty() { name } else { format!("{dir}/{name}") }
        }
    }
}

fn file_name(path: &str) -> &str {
    match path.rfind('/') {
        Some(at) => &path[at + 1..],
        None => path,
    }
}

fn temp_of(path: &str) -> String {
    join(&temp_path_for(&split(path)).unwrap())
}

fn request(output: Option<&str>, batch: bool) -> OutputRequest {
    OutputRequest {
        output: output.map(split),
        output_is_dir: false,
        batch,
        backslash_separates: false,
    }
}

fn available(disk: &Disk, input: &str, output: &str) -> Result<(), PathError> {
    ensure_output_available(input.as_bytes(), output.as_bytes(), disk.contains_key(output))
}

fn commit(disk: &mut Disk, temp: &str, output: &str) -> bool {
    if commit_temp(disk.contains_key(output)).is_err() {
        return false;
    }
    match disk.remove(temp) {
        Some(bytes) => {
            disk.insert(output.to_string(), bytes);
            true
        }
        None => false,
    }
}

fn pack_one(
    disk: &mut Disk,
    input: &str,
    output: Option<&str>,
    batch: bool,
    delete_source: bool,
) -> Result<String, String> {
    let target = join(&pack_output_path(&split(input), output.map(split).as_ref(), batch).unwrap());
    let temp = temp_of(&target);
    let (job, mut step) = pack_job(delete_source);
    loop {
        let ok = match step {
            Step::CheckOutput => available(disk, input, &target).is_ok(),
            Step::CheckTemp => ensure_temp_available(disk.contains_key(&temp)).is_ok(),
            Step::CreateDir => true,
            Step::Produce => {
                let content = disk[input].clone();
                match pack_file(file_name(input), content.len() as u64, &content) {
                    Ok(bytes) => {
                        disk.insert(temp.clone(), bytes);
                        true
                    }
                    Err(_) => false,
                }
            }
            Step::Commit => commit(disk, &temp, &target),
            Step::RemoveTemp => disk.remove(&temp).is_some(),
            Step::DeleteSource => disk.remove(input).is_some(),
            Step::Done => return Ok(target),
            Step::Failed => return Err("failed".to_string()),
            Step::CreateRawDir | Step::Demux => unreachable!(),
        };
        step = next_step(job, step, ok);
    }
}

fn write_raw(disk: &mut Disk, input: &str, dir: &str) -> Result<Vec<String>, DemuxError> {
    let data = disk[input].clone();
    let planned = plan_raw_outputs(&data, &split(input), dir.as_bytes())?;
    let targets: Vec<String> = planned.iter().map(join).collect();
    let temps: Vec<String> = targets.iter().map(|t| temp_of(t)).collect();
    let mut error = DemuxError::NoSupportedStreams;
    let mut step = RawStep::CheckOutput(0);
    loop {
        let ok = match step {
            RawStep::CheckOutput(i) => available(disk, input, &targets[i]).is_ok(),
            RawStep::CheckTemp(i) => ensure_temp_available(disk.contains_key(&temps[i])).is_ok(),
            RawStep::CreateTemp(i) => disk.insert(temps[i].clone(), Vec::new()).is_none(),
            RawStep::Write => match demux_raw(&data, &split(input), dir.as_bytes()) {
                Ok(outputs) => {
                    for (i, output) in outputs.into_iter().enumerate() {
                        assert_eq!(join(&output.path), targets[i]);
                        disk.insert(temps[i].clone(), output.bytes);
                    }
                    true
                }
                Err(e) => {
                    error = e;
                    false
                }
            },
            RawStep::Commit(i) => commit(disk, &temps[i], &targets[i]),
            RawStep::RemoveTemp(i, _) => disk.remove(&temps[i]).is_some(),
            RawStep::Done => return Ok(targets),
            RawStep::Failed => return Err(error),
        };
        step = next_raw_step(targets.len(), step, ok);
    }
}

fn extract_one(
    disk: &mut Disk,
    input: &str,
    output: Option<&str>,
    batch: bool,
    delete_source: bool,
    mode: ExtractMode,
) -> Result<Vec<String>, String> {
    let data = disk[input].clone();
    let plan = match plan_extract(&data, &split(input), &request(output, batch), mode) {
        Ok(plan) => plan,
        Err(e) => return Err(String::from_utf8(e.message()).unwrap()),
    };
    let (target, raw_dir) = match &plan {
        ExtractPlan::Container(path) => (join(path), String::new()),
        ExtractPlan::Remux(path, Some(dir)) => {
            (join(path), String::from_utf8(dir.clone()).unwrap())
        }
        ExtractPlan::Remux(path, None) => (join(path), String::new()),
        ExtractPlan::Raw(dir) => (String::new(), String::from_utf8(dir.clone()).unwrap()),
    };
    let temp = if target.is_empty() { String::new() } else { temp_of(&target) };
    let mut outputs = vec![target.clone()];
    let mut message = String::new();
    let (job, mut step) = extract_job(&plan, delete_source);
    loop {
        let ok = match step {
            Step::CheckOutput => available(disk, input, &target).is_ok(),
            Step::CheckTemp => ensure_temp_available(disk.contains_key(&temp)).is_ok(),
            Step::CreateDir | Step::CreateRawDir => true,
            Step::Produce => match &plan {
                ExtractPlan::Container(_) => match extract_file(&data) {
                    Ok((_, content)) => {
                        disk.insert(temp.clone(), content);
                        true
                    }
                    Err(e) => {
                        disk.insert(temp.clone(), Vec::new());
                        message = String::from_utf8(e.message()).unwrap();
                        false
                    }
                },
                _ => judge_remux(RemuxRun::NotStarted, None).is_ok(),
            },
            Step::Commit => commit(disk, &temp, &target),
            Step::RemoveTemp => {
                disk.remove(&temp);
                true
            }
            Step::Demux => match write_raw(disk, input, &raw_dir) {
                Ok(written) => {
                    outputs = written;
                    true
                }
                Err(e) => {
                    message = String::from_utf8(e.message()).unwrap();
                    false
                }
            },
            Step::DeleteSource => disk.remove(input).is_some(),
            Step::Done => return Ok(outputs),
            Step::Failed => return Err(message),
        };
        step = next_step(job, step, ok);
    }
}

fn preflight_pack(disk: &Disk, inputs: &[&str], output: &str) -> Result<(), PreflightError> {
    let paths: Vec<FilePath> = inputs.iter().map(|i| split(i)).collect();
    let planned = plan_pack_outputs(&paths, Some(&split(output)), true).unwrap();
    let targets: Vec<String> = planned.iter().map(join).collect();
    let outputs: Vec<PlannedOutput> = targets
        .iter()
        .map(|t| PlannedOutput { output: split(t), dir: output.as_bytes().to_vec() })
        .collect();
    let checks: Vec<OutputCheck> = inputs
        .iter()
        .zip(&targets)
        .map(|(input, target)| OutputCheck {
            input: input.as_bytes().to_vec(),
            output: target.as_bytes().to_vec(),
            output_exists: disk.contains_key(target),
            temp_exists: disk.contains_key(&temp_of(target)),
        })
        .collect();
    preflight_pack_outputs(&outputs, &checks)
}

fn preflight_extract(
    disk: &Disk,
    inputs: &[&str],
    output: &str,
    mode: ExtractMode,
) -> Result<(), PathError> {
    let mut plans = Vec::new();
    for input in inputs {
        let wanted = request(Some(output), true);
        plans.push(planned_extract_outputs(&disk[*input], &split(input), &wanted, mode));
    }
    let outputs: Vec<PlannedOutput> = preflight_extract_outputs(&plans)
        .iter()
        .map(|(_, path)| PlannedOutput {
            output: split(&join(path)),
            dir: output.as_bytes().to_vec(),
        })
        .collect();
    ensure_no_output_collisions(&outputs)
}

const MP4: ExtractMode = ExtractMode::Mp4 { fallback_raw: false };

#[test]
fn cli_roundtrips_single_file_with_basename() {
    let mut disk = Disk::new();
    disk.insert("report.json".to_string(), br#"{"ok":true}"#.to_vec());

    pack_one(&mut disk, "report.json", Some("packed"), false, false).unwrap();
    assert!(disk.contains_key("packed/report.ts"));

    extract_one(&mut disk, "packed/report.ts", Some("extracted"), false, false, MP4).unwrap();
    assert_eq!(disk["extracted/report.json"], br#"{"ok":true}"#);
}

#[test]
fn renamed_ts_uses_current_basename_and_packed_extension() {
    let mut disk = Disk::new();
    disk.insert("archive.tar.gz".to_string(), b"compressed bytes".to_vec());

    pack_one(&mut disk, "archive.tar.gz", Some("packed"), false, false).unwrap();
    let packed = disk.remove("packed/archive.tar.ts").unwrap();
    disk.insert("packed/renamed.ts".to_string(), packed);

    extract_one(&mut disk, "packed/renamed.ts", Some("out"), false, false, MP4).unwrap();
    assert_eq!(disk["out/renamed.gz"], b"compressed bytes");
}

#[test]
fn batch_pack_and_extract_delete_each_successful_source() {
    let mut disk = Disk::new();
    disk.insert("input/a.txt".to_string(), b"aaa".to_vec());
    disk.insert("input/b".to_string(), b"bbb".to_vec());

    let batch = batch_mode(2, true, InputKind::Pack).unwrap();
    assert_eq!(preflight_pack(&disk, &["input/a.txt", "input/b"], "packed"), Ok(()));
    for input in ["input/a.txt", "input/b"] {
        pack_one(&mut disk, input, Some("packed"), batch, true).unwrap();
    }
    assert!(!disk.contains_key("input/a.txt"));
    assert!(!disk.contains_key("input/b"));
    assert!(disk.contains_key("packed/a.ts"));
    assert!(disk.contains_key("packed/b.ts"));

    let inputs = ["packed/a.ts", "packed/b.ts"];
    assert_eq!(preflight_extract(&disk, &inputs, "extracted", MP4), Ok(()));
    for input in inputs {
        extract_one(&mut disk, input, Some("extracted"), batch, true, MP4).unwrap();
    }
    assert!(!disk.contains_key("packed/a.ts"));
    assert!(!disk.contains_key("packed/b.ts"));
    assert_eq!(disk["extracted/a.txt"], b"aaa");
    assert_eq!(disk["extracted/b"], b"bbb");
}

#[test]
fn empty_file_roundtrip_works() {
    let mut disk = Disk::new();
    disk.insert("empty.bin".to_string(), Vec::new());

    pack_one(&mut disk, "empty.bin", Some("packed"), false, false).unwrap();
    extract_one(&mut disk, "packed/empty.ts", Some("out"), false, false, MP4).unwrap();
    assert_eq!(disk["out/empty.bin"].len(), 0);
}

#[test]
fn output_collision_fails_without_deleting_source() {
    let mut disk = Disk::new();
    disk.insert("a.bin".to_string(), b"new".to_vec());
    disk.insert("a.ts".to_string(), b"old".to_vec());

    assert!(pack_one(&mut disk, "a.bin", None, false, true).is_err());
    assert_eq!(disk["a.bin"], b"new");
    assert_eq!(disk["a.ts"], b"old");
    assert_eq!(disk.len(), 2);
}

#[test]
fn recursive_pack_detects_basename_collision_before_deleting_sources() {
    let mut disk = Disk::new();
    disk.insert("input/same.bin".to_string(), b"top".to_vec());
    disk.insert("input/nested/same.bin".to_string(), b"nested".to_vec());

    let inputs = ["input/nested/same.bin", "input/same.bin"];
    assert_eq!(
        preflight_pack(&disk, &inputs, "out"),
        Err(PreflightError::Planned(PathError::Collision(0, 1)))
    );
    assert_eq!(disk["input/same.bin"], b"top");
    assert_eq!(disk["input/nested/same.bin"], b"nested");
    assert!(!disk.contains_key("out/same.ts"));
}

#[test]
fn corrupted_tsbox_fails_without_deleting_source_or_final_output() {
    let mut disk = Disk::new();
    disk.insert("data.bin".to_string(), b"abcdef".to_vec());
    pack_one(&mut disk, "data.bin", Some("packed"), false, false).unwrap();
    disk.get_mut("packed/data.ts").unwrap()[188 * 3 + 182] = b'X';

    let error = extract_one(&mut disk, "packed/data.ts", Some("out"), false, true, MP4);
    assert_eq!(error.unwrap_err(), "TSBOX checksum mismatch");
    assert!(disk.contains_key("packed/data.ts"));
    assert!(!disk.contains_key("out/data.bin"));
    assert_eq!(disk.len(), 2);
}

#[test]
fn batch_extract_continues_after_failure_and_preserves_failed_source() {
    let mut disk = Disk::new();
    disk.insert("ok.bin".to_string(), b"ok".to_vec());
    pack_one(&mut disk, "ok.bin", Some("packed"), false, false).unwrap();
    disk.insert("packed/bad.ts".to_string(), b"not a ts file".to_vec());

    let inputs = ["packed/bad.ts", "packed/ok.ts"];
    assert_eq!(preflight_extract(&disk, &inputs, "out", MP4), Ok(()));
    let mut queue = WorkQueue::new(inputs.len());
    let mut progress = Progress::new(inputs.len());
    let mut lines = Vec::new();
    while let Some(task) = queue.take() {
        let input = inputs[task];
        let outcome = match extract_one(&mut disk, input, Some("out"), true, true, MP4) {
            Ok(outputs) => {
                Outcome::Finished(outputs.into_iter().map(|o| o.into_bytes()).collect())
            }
            Err(message) => Outcome::Broken(message.into_bytes()),
        };
        if let Some(line) = progress.report(false, "extracted", input.as_bytes(), &outcome) {
            lines.push(String::from_utf8(line).unwrap());
        }
    }
    assert_eq!(
        lines,
        vec![
            "[1/2] failed to extracted packed/bad.ts: \
             input does not look like 188-byte TS or 192-byte M2TS",
            "[2/2] extracted packed/ok.ts -> out/ok.bin",
        ]
    );
    assert_eq!(progress.verdict(), Err(b"1 file(s) failed".to_vec()));

    assert_eq!(disk["out/ok.bin"], b"ok");
    assert!(!disk.contains_key("packed/ok.ts"));
    assert!(disk.contains_key("packed/bad.ts"));
}

#[test]
fn stress_roundtrip_16_mib_file() {
    let len = 16 * 1024 * 1024;
    let mut content = Vec::with_capacity(len);
    for i in 0..len {
        content.push((i % 251) as u8);
    }
    let mut disk = Disk::new();
    disk.insert("large.dat".to_string(), content.clone());

    pack_one(&mut disk, "large.dat", Some("packed"), false, false).unwrap();
    extract_one(&mut disk, "packed/large.ts", Some("out"), false, false, MP4).unwrap();
    assert!(disk["out/large.dat"] == content);
}

#[test]
fn raw_extracts_multi_program_streams_and_resyncs_after_junk() {
    let mut disk = Disk::new();
    disk.insert("sample.ts".to_string(), multi_program_ts(true));
    extract_one(&mut disk, "sample.ts", Some("raw"), false, false, ExtractMode::Raw).unwrap();
    assert_eq!(disk["raw/sample_p1_pid0100.h264"], b"\x00\x00\x01\x09h264-data");
    assert_eq!(disk["raw/sample_p2_pid0101.aac"], b"\xFF\xF1aac-data");
}

#[test]
fn batch_raw_extract_detects_output_collision_before_deleting_sources() {
    let mut disk = Disk::new();
    disk.insert("input/same.ts".to_string(), single_stream_ts());
    disk.insert("input/nested/same.ts".to_string(), single_stream_ts());

    let inputs = ["input/nested/same.ts", "input/same.ts"];
    assert_eq!(
        preflight_extract(&disk, &inputs, "raw", ExtractMode::Raw),
        Err(PathError::Collision(0, 1))
    );
    assert!(disk.contains_key("input/same.ts"));
    assert!(disk.contains_key("input/nested/same.ts"));
    assert!(!disk.contains_key("raw/same.h264"));
}

#[test]
fn raw_extracts_single_h264_stream_with_basename() {
    let mut disk = Disk::new();
    disk.insert("video.ts".to_string(), single_stream_ts());
    extract_one(&mut disk, "video.ts", Some("raw"), false, false, ExtractMode::Raw).unwrap();
    assert_eq!(disk["raw/video.h264"], b"\x00\x00\x01\x09single-h264");
}

#[test]
fn fallback_raw_extracts_when_mp4_remux_fails() {
    let mut disk = Disk::new();
    disk.insert("fallback.ts".to_string(), single_stream_ts());
    let mode = ExtractMode::Mp4 { fallback_raw: true };
    extract_one(&mut disk, "fallback.ts", Some("out"), false, false, mode).unwrap();
    assert!(!disk.contains_key("out/fallback.mp4"));
    assert_eq!(disk["out/fallback.h264"], b"\x00\x00\x01\x09single-h264");
}

#[test]
fn raw_extracts_m2ts_192_byte_packets() {
    let mut disk = Disk::new();
    disk.insert("clip.m2ts".to_string(), to_m2ts(&single_stream_ts()));
    extract_one(&mut disk, "clip.m2ts", Some("raw"), false, false, ExtractMode::Raw).unwrap();
    assert_eq!(disk["raw/clip.h264"], b"\x00\x00\x01\x09single-h264");
}

#[test]
fn raw_extracts_single_h265_stream_with_basename() {
    let mut disk = Disk::new();
    let data = one_stream_ts(0x24, 0xE0, b"\x00\x00\x01\x26h265-data");
    disk.insert("hevc.ts".to_string(), data);
    extract_one(&mut disk, "hevc.ts", Some("raw"), false, false, ExtractMode::Raw).unwrap();
    assert_eq!(disk["raw/hevc.h265"], b"\x00\x00\x01\x26h265-data");
}

#[test]
fn raw_extracts_additional_codecs() {
    let mut disk = Disk::new();
    disk.insert("codecs.ts".to_string(), additional_codecs_ts());
    extract_one(&mut disk, "codecs.ts", Some("raw"), false, false, ExtractMode::Raw).unwrap();
    assert_eq!(disk["raw/codecs_p1_pid0100.m2v"], b"mpeg2");
    assert_eq!(disk["raw/codecs_p1_pid0101.eac3"], b"eac3");
    assert_eq!(disk["raw/codecs_p1_pid0102.dvbsub"], b"dvbsub");
}

#[test]
fn raw_extract_rejects_continuity_counter_gap() {
    let mut data = tables(0x1B);
    write_pes_packet_with_flags(&mut data, 0x0100, 0xE0, b"first", 0, false);
    write_pes_packet_with_flags(&mut data, 0x0100, 0xE0, b"second", 2, false);
    let mut disk = Disk::new();
    disk.insert("gap.ts".to_string(), data);

    let error = extract_one(&mut disk, "gap.ts", Some("raw"), false, true, ExtractMode::Raw);
    assert_eq!(
        error.unwrap_err(),
        "PID 0x0100 continuity counter mismatch: expected 1, got 2"
    );
    assert!(disk.contains_key("gap.ts"));
    assert!(!disk.contains_key("raw/gap.h264"));
    assert_eq!(disk.len(), 1);
}

#[test]
fn raw_extract_rejects_transport_error_indicator() {
    let mut data = tables(0x1B);
    write_pes_packet_with_flags(&mut data, 0x0100, 0xE0, b"bad", 0, true);
    let mut disk = Disk::new();
    disk.insert("tei.ts".to_string(), data);

    let error = extract_one(&mut disk, "tei.ts", Some("raw"), false, true, ExtractMode::Raw);
    assert_eq!(error.unwrap_err(), "PID 0x0100 has transport error indicator set");
    assert!(disk.contains_key("tei.ts"));
    assert!(!disk.contains_key("raw/tei.h264"));
}

#[test]
fn raw_extract_fails_when_stream_has_no_payload() {
    let mut disk = Disk::new();
    disk.insert("empty_media.ts".to_string(), tables(0x1B));

    let error = extract_one(&mut disk, "empty_media.ts", Some("raw"), false, true, ExtractMode::Raw);
    assert!(error.is_err());
    assert!(disk.contains_key("empty_media.ts"));
    assert!(!disk.contains_key("raw/empty_media.h264"));
}

#[test]
fn silent_stream_is_refused() {
    let mut data = tables(0x1B);
    data.extend_from_slice(&null_packet());
    assert_eq!(
        demux_raw(&data, &split("silent.ts"), b"raw").map(|o| o.len()),
        Err(DemuxError::EmptyStream(0x0100))
    );
}

#[test]
fn raw_extract_existing_output_collision_preserves_source() {
    let mut disk = Disk::new();
    disk.insert("video.ts".to_string(), single_stream_ts());
    disk.insert("raw/video.h264".to_string(), b"existing".to_vec());

    let error = extract_one(&mut disk, "video.ts", Some("raw"), false, true, ExtractMode::Raw);
    assert!(error.is_err());
    assert!(disk.contains_key("video.ts"));
    assert_eq!(disk["raw/video.h264"], b"existing");
    assert_eq!(disk.len(), 2);
}

#[test]
fn existing_raw_temp_is_left_alone() {
    let mut disk = Disk::new();
    disk.insert("sample.ts".to_string(), multi_program_ts(false));
    disk.insert("raw/.sample_p2_pid0101.aac.part.aac".to_string(), b"other".to_vec());

    assert!(write_raw(&mut disk, "sample.ts", "raw").is_err());
    assert_eq!(disk["raw/.sample_p2_pid0101.aac.part.aac"], b"other");
    assert_eq!(disk.len(), 2);
}

#[test]
fn existing_temp_is_left_alone() {
    let mut disk = Disk::new();
    disk.insert("a.bin".to_string(), b"new".to_vec());
    disk.insert(".a.ts.part.ts".to_string(), b"other".to_vec());
    assert!(pack_one(&mut disk, "a.bin", None, false, true).is_err());
    assert_eq!(disk[".a.ts.part.ts"], b"other");
    assert_eq!(disk["a.bin"], b"new");
    assert_eq!(disk.len(), 2);
}

#[test]
fn remux_failure_without_fallback_keeps_the_source() {
    let mut disk = Disk::new();
    disk.insert("video.ts".to_string(), single_stream_ts());
    assert!(extract_one(&mut disk, "video.ts", Some("out"), false, true, MP4).is_err());
    assert_eq!(disk.len(), 1);
}

#[test]
fn timestamped_container_extracts_the_same() {
    let packed = pack_file("a.txt", 3, b"abc").unwrap();
    let (metadata, content) = extract_file(&to_m2ts(&packed)).unwrap();
    assert_eq!(metadata.original_name, "a.txt");
    assert_eq!(content, b"abc");
}

#[test]
fn name_with_backslash_comes_back() {
    let mut disk = Disk::new();
    disk.insert(r"t/a\b.txt".to_string(), b"x".to_vec());
    pack_one(&mut disk, r"t/a\b.txt", Some("p"), false, true).unwrap();
    assert!(disk.contains_key(r"p/a\b.ts"));
    extract_one(&mut disk, r"p/a\b.ts", Some("o"), false, true, MP4).unwrap();
    assert_eq!(disk[r"o/a\b.txt"], b"x");
    assert_eq!(disk.len(), 1);
}

#[test]
fn packed_file_has_no_raw_streams() {
    let packed = pack_file("a.txt", 3, b"abc").unwrap();
    assert_eq!(
        plan_raw_outputs(&packed, &split("a.ts"), b"raw"),
        Err(DemuxError::NoSupportedStreams)
    );
}

#[test]
fn every_truncation_is_refused() {
    let packed = pack_file("a.txt", 3, b"abc").unwrap();
    for kept in 0..packed.len() {
        assert!(extract_file(&packed[..kept]).is_err());
    }
    assert_eq!(extract_file(&packed[..0]), Err(TsboxError::EmptyInput));
    assert_eq!(extract_file(&packed[..563]), Err(TsboxError::UnrecognizedLayout));
}

fn tables(stream_type: u8) -> Vec<u8> {
    let mut data = Vec::new();
    write_section_packet(&mut data, 0, &pat_section(&[(1, 0x1000)]));
    write_section_packet(&mut data, 0x1000, &pmt_section(1, 0x0100, &[(stream_type, 0x0100)]));
    data
}

fn null_packet() -> Vec<u8> {
    let mut packet = vec![0xFFu8; 188];
    packet[0] = 0x47;
    packet[1] = 0x1F;
    packet[3] = 0x10;
    packet
}

fn single_stream_ts() -> Vec<u8> {
    one_stream_ts(0x1B, 0xE0, b"\x00\x00\x01\x09single-h264")
}

fn one_stream_ts(stream_type: u8, stream_id: u8, payload: &[u8]) -> Vec<u8> {
    let mut data = tables(stream_type);
    write_pes_packet(&mut data, 0x0100, stream_id, payload);
    data
}

fn multi_program_ts(insert_junk: bool) -> Vec<u8> {
    let mut data = Vec::new();
    write_section_packet(&mut data, 0, &pat_section(&[(1, 0x1000), (2, 0x1001)]));
    write_section_packet(&mut data, 0x1000, &pmt_section(1, 0x0100, &[(0x1B, 0x0100)]));
    write_section_packet(&mut data, 0x1001, &pmt_section(2, 0x0101, &[(0x0F, 0x0101)]));
    if insert_junk {
        data.extend_from_slice(b"broken-sync");
    }
    write_pes_packet(&mut data, 0x0100, 0xE0, b"\x00\x00\x01\x09h264-data");
    write_pes_packet(&mut data, 0x0101, 0xC0, b"\xFF\xF1aac-data");
    data
}

fn additional_codecs_ts() -> Vec<u8> {
    let mut data = Vec::new();
    write_section_packet(&mut data, 0, &pat_section(&[(1, 0x1000)]));
    let streams = vec![
        StreamSpec { stream_type: 0x02, pid: 0x0100, descriptors: vec![] },
        StreamSpec { stream_type: 0x06, pid: 0x0101, descriptors: vec![0x7A, 0x00] },
        StreamSpec { stream_type: 0x06, pid: 0x0102, descriptors: vec![0x59, 0x00] },
    ];
    write_section_packet(&mut data, 0x1000, &pmt_section_with_descriptors(1, 0x0100, &streams));
    write_pes_packet(&mut data, 0x0100, 0xE0, b"mpeg2");
    write_pes_packet(&mut data, 0x0101, 0xBD, b"eac3");
    write_pes_packet(&mut data, 0x0102, 0xBD, b"dvbsub");
    data
}

fn to_m2ts(ts: &[u8]) -> Vec<u8> {
    assert_eq!(ts.len() % 188, 0);
    let mut out = Vec::with_capacity(ts.len() / 188 * 192);
    for packet in ts.chunks_exact(188) {
        out.extend_from_slice(&[0, 0, 0, 0]);
        out.extend_from_slice(packet);
    }
    out
}

fn write_section_packet(out: &mut Vec<u8>, pid: u16, section: &[u8]) {
    let mut packet = [0xFFu8; 188];
    packet[0] = 0x47;
    packet[1] = 0x40 | ((pid >> 8) as u8 & 0x1F);
    packet[2] = pid as u8;
    packet[3] = 0x10;
    packet[4] = 0;
    packet[5..5 + section.len()].copy_from_slice(section);
    out.extend_from_slice(&packet);
}

fn write_pes_packet(out: &mut Vec<u8>, pid: u16, stream_id: u8, payload: &[u8]) {
    write_pes_packet_with_flags(out, pid, stream_id, payload, 0, false);
}

fn write_pes_packet_with_flags(
    out: &mut Vec<u8>,
    pid: u16,
    stream_id: u8,
    payload: &[u8],
    continuity_counter: u8,
    transport_error: bool,
) {
    let mut pes = Vec::new();
    pes.extend_from_slice(&[0x00, 0x00, 0x01, stream_id, 0x00, 0x00, 0x80, 0x00, 0x00]);
    pes.extend_from_slice(payload);

    let mut packet = [0xFFu8; 188];
    packet[0] = 0x47;
    packet[1] = 0x40 | ((pid >> 8) as u8 & 0x1F);
    if transport_error {
        packet[1] |= 0x80;
    }
    packet[2] = pid as u8;
    packet[3] = 0x30 | (continuity_counter & 0x0F);
    let adaptation_len = 183 - pes.len();
    packet[4] = adaptation_len as u8;
    if adaptation_len > 0 {
        packet[5] = 0;
    }
    let start = 5 + adaptation_len;
    packet[start..start + pes.len()].copy_from_slice(&pes);
    out.extend_from_slice(&packet);
}

struct StreamSpec {
    stream_type: u8,
    pid: u16,
    descriptors: Vec<u8>,
}

fn pat_section(programs: &[(u16, u16)]) -> Vec<u8> {
    let section_len = 5 + programs.len() * 4 + 4;
    let mut section = vec![
        0x00,
        0xB0 | ((section_len >> 8) as u8 & 0x0F),
        section_len as u8,
        0x00,
        0x01,
        0xC1,
        0x00,
        0x00,
    ];
    for (program_number, pmt_pid) in programs {
        section.extend_from_slice(&program_number.to_be_bytes());
        section.push(0xE0 | ((pmt_pid >> 8) as u8 & 0x1F));
        section.push(*pmt_pid as u8);
    }
    section.extend_from_slice(&[0, 0, 0, 0]);
    section
}

fn pmt_section(program_number: u16, pcr_pid: u16, streams: &[(u8, u16)]) -> Vec<u8> {
    let specs = streams
        .iter()
        .map(|(stream_type, pid)| StreamSpec {
            stream_type: *stream_type,
            pid: *pid,
            descriptors: vec![],
        })
        .collect::<Vec<_>>();
    pmt_section_with_descriptors(program_number, pcr_pid, &specs)
}

fn pmt_section_with_descriptors(
    program_number: u16,
    pcr_pid: u16,
    streams: &[StreamSpec],
) -> Vec<u8> {
    let es_len = streams.iter().map(|stream| 5 + stream.descriptors.len()).sum::<usize>();
    let section_len = 9 + es_len + 4;
    let mut section =
        vec![0x02, 0xB0 | ((section_len >> 8) as u8 & 0x0F), section_len as u8];
    section.extend_from_slice(&program_number.to_be_bytes());
    section.extend_from_slice(&[
        0xC1,
        0x00,
        0x00,
        0xE0 | ((pcr_pid >> 8) as u8 & 0x1F),
        pcr_pid as u8,
        0xF0,
        0x00,
    ]);
    for stream in streams {
        section.push(stream.stream_type);
        section.push(0xE0 | ((stream.pid >> 8) as u8 & 0x1F));
        section.push(stream.pid as u8);
        section.push(0xF0 | ((stream.descriptors.len() >> 8) as u8 & 0x0F));
        section.push(stream.descriptors.len() as u8);
        section.extend_from_slice(&stream.descriptors);
    }
    section.extend_from_slice(&[0, 0, 0, 0]);
    section
}
