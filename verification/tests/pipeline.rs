use mkcbt::cbt::{Action, CbtWriter, CbtWriterJob};
use mkcbt::converter::converter_command;
use mkcbt::model::{PipelineError, Stage};
use mkcbt::names::pad_width;
use mkcbt::workdir::TempDir;
use std::collections::{BTreeMap, BTreeSet};

/// A stand-in for the file system and the converters.
struct World {
    files: BTreeMap<Vec<u8>, Vec<u8>>,
    alive: BTreeMap<usize, (Vec<u8>, Vec<u8>)>,
    failing: BTreeSet<usize>,
    eager: bool,
    most_alive: usize,
    spawned: Vec<(Vec<u8>, Vec<u8>, usize)>,
    waited: Vec<usize>,
    read: Vec<Vec<u8>>,
    removed: Vec<Vec<u8>>,
    archive: Vec<u8>,
}

fn world(inputs: &[&[u8]]) -> World {
    let mut files = BTreeMap::new();
    for input in inputs {
        let mut bytes = b"bytes of ".to_vec();
        bytes.extend_from_slice(input);
        files.insert(input.to_vec(), bytes);
    }
    World {
        files,
        alive: BTreeMap::new(),
        failing: BTreeSet::new(),
        eager: false,
        most_alive: 0,
        spawned: Vec::new(),
        waited: Vec::new(),
        read: Vec::new(),
        removed: Vec::new(),
        archive: Vec::new(),
    }
}

fn converted(source: &[u8]) -> Vec<u8> {
    let mut bytes = b"avif of ".to_vec();
    bytes.extend_from_slice(source);
    bytes
}

fn convert(world: &mut World, input: &[u8], output: &[u8]) {
    let source = world.files.get(input).expect("the converter's input exists").clone();
    world.files.insert(output.to_vec(), converted(&source));
}

fn writer(padding: usize, processes: usize) -> CbtWriter {
    CbtWriter::new(padding, processes, TempDir::new(b"/tmp", b"mkcbt", 0xabc)).unwrap()
}

/// Does what the writer asks until it asks for the next input (`Ok(false)`),
/// reports that all is written (`Ok(true)`), or refuses.
fn drive(
    cbt: &mut CbtWriter,
    world: &mut World,
    first: Result<Action, PipelineError>,
) -> Result<bool, PipelineError> {
    let mut answer = first;
    loop {
        world.archive.extend(cbt.take_output());
        assert!(cbt.in_flight() >= world.alive.len());
        answer = match answer? {
            Action::Next => return Ok(false),
            Action::Done => return Ok(true),
            Action::Spawn { input, output, index } => {
                if world.eager && !world.failing.contains(&index) {
                    convert(world, &input, &output);
                }
                world.alive.insert(index, (input.clone(), output.clone()));
                world.most_alive = world.most_alive.max(world.alive.len());
                world.spawned.push((input, output, index));
                cbt.spawned()
            }
            Action::Wait { index } => {
                let (input, output) = world.alive.remove(&index).expect("the job was spawned");
                world.waited.push(index);
                let success = !world.failing.contains(&index);
                if success && !world.eager {
                    convert(world, &input, &output);
                }
                cbt.exited(success)
            }
            Action::Read { path } => {
                let bytes = world.files.get(&path).expect("the file to read exists").clone();
                world.read.push(path);
                cbt.loaded(&bytes)
            }
            Action::Remove { path } => {
                world.files.remove(&path).expect("the file to remove exists");
                world.removed.push(path);
                cbt.removed()
            }
        };
    }
}

fn archive_of(
    inputs: &[&[u8]],
    padding: usize,
    processes: usize,
    world: &mut World,
) -> Result<(), PipelineError> {
    let mut cbt = writer(padding, processes);
    let mut outcome = Ok(());
    for input in inputs {
        let first = cbt.submit(input);
        match drive(&mut cbt, world, first) {
            Ok(done) => assert!(!done),
            Err(error) => {
                outcome = Err(error);
                break;
            }
        }
    }
    if outcome.is_ok() {
        let first = cbt.finish();
        match drive(&mut cbt, world, first) {
            Ok(done) => {
                assert!(done);
                assert_eq!(cbt.stage(), Stage::Finished);
                assert_eq!(cbt.in_flight(), 0);
            }
            Err(error) => outcome = Err(error),
        }
    }
    world.archive.extend(cbt.release());
    outcome
}

fn octal(field: &[u8]) -> usize {
    field.iter().fold(0, |value, b| {
        assert!((b'0'..=b'7').contains(b));
        value * 8 + usize::from(*b - b'0')
    })
}

/// The entries of an archive, and the number of zero blocks that close it.
fn entries(archive: &[u8]) -> (Vec<(Vec<u8>, Vec<u8>)>, usize) {
    assert_eq!(archive.len() % 512, 0);
    let mut found = Vec::new();
    let mut at = 0;
    while at < archive.len() && archive[at..at + 512].iter().any(|b| *b != 0) {
        let header = &archive[at..at + 512];
        let name: Vec<u8> = header[..100].iter().copied().take_while(|b| *b != 0).collect();
        let size = octal(&header[124..135]);
        let mut blank = header.to_vec();
        blank[148..156].copy_from_slice(b"        ");
        let checksum: usize = blank.iter().map(|b| usize::from(*b)).sum();
        assert_eq!(octal(&header[148..154]), checksum);
        assert_eq!(&header[154..156], b"\0 ");
        assert_eq!(&header[257..262], b"ustar");
        let padded = (size + 511) / 512 * 512;
        let payload = archive[at + 512..at + 512 + size].to_vec();
        assert!(archive[at + 512 + size..at + 512 + padded].iter().all(|b| *b == 0));
        found.push((name, payload));
        at += 512 + padded;
    }
    assert!(archive[at..].iter().all(|b| *b == 0));
    (found, (archive.len() - at) / 512)
}

fn names(archive: &[u8]) -> Vec<String> {
    entries(archive).0.into_iter().map(|(name, _)| String::from_utf8(name).unwrap()).collect()
}

#[test]
fn three_pngs_become_three_numbered_entries() {
    let inputs: [&[u8]; 3] = [b"a.png", b"b.png", b"c.png"];
    let mut w = world(&inputs);
    assert_eq!(archive_of(&inputs, 1, 2, &mut w), Ok(()));
    let (found, closing) = entries(&w.archive);
    assert_eq!(closing, 2);
    assert_eq!(
        found,
        vec![
            (b"1.avif".to_vec(), b"avif of bytes of a.png".to_vec()),
            (b"2.avif".to_vec(), b"avif of bytes of b.png".to_vec()),
            (b"3.avif".to_vec(), b"avif of bytes of c.png".to_vec()),
        ]
    );
}

#[test]
fn twelve_inputs_are_named_with_two_digits() {
    let paths: Vec<Vec<u8>> = (0..12).map(|i| format!("page{}.png", i).into_bytes()).collect();
    let inputs: Vec<&[u8]> = paths.iter().map(|p| p.as_slice()).collect();
    let mut w = world(&inputs);
    let width = pad_width(inputs.len());
    assert_eq!(width, 2);
    assert_eq!(archive_of(&inputs, width, 4, &mut w), Ok(()));
    let expected: Vec<String> = (1..=12).map(|i| format!("{:02}.avif", i)).collect();
    assert_eq!(names(&w.archive), expected);
    assert_eq!(names(&w.archive)[0], "01.avif");
    assert_eq!(names(&w.archive)[11], "12.avif");
}

#[test]
fn archive_has_one_entry_per_input_for_many_counts() {
    for total in [0usize, 1, 2, 5, 9, 10, 11, 33, 100] {
        for processes in [1usize, 2, 3, 8, 200] {
            let paths: Vec<Vec<u8>> = (0..total)
                .map(|i| {
                    if i % 3 == 0 {
                        format!("in/{}.avif", i).into_bytes()
                    } else {
                        format!("in/{}.jpg", i).into_bytes()
                    }
                })
                .collect();
            let inputs: Vec<&[u8]> = paths.iter().map(|p| p.as_slice()).collect();
            let mut w = world(&inputs);
            let width = pad_width(total);
            assert_eq!(archive_of(&inputs, width, processes, &mut w), Ok(()));
            let (found, closing) = entries(&w.archive);
            assert_eq!(closing, 2);
            assert_eq!(found.len(), total);
            for (i, (name, payload)) in found.iter().enumerate() {
                let expected = format!("{:0width$}.avif", i + 1, width = width);
                assert_eq!(name, expected.as_bytes());
                let source = format!("bytes of {}", String::from_utf8_lossy(&paths[i]));
                if i % 3 == 0 {
                    assert_eq!(payload, source.as_bytes());
                } else {
                    assert_eq!(payload, &converted(source.as_bytes()));
                }
            }
            assert!(w.most_alive <= processes);
        }
    }
}

#[test]
fn entries_keep_submission_order_whenever_converters_end() {
    let inputs: [&[u8]; 6] = [b"f.png", b"e.avif", b"d.png", b"c.png", b"b.avif", b"a.png"];
    let mut lazy = world(&inputs);
    assert_eq!(archive_of(&inputs, 1, 3, &mut lazy), Ok(()));
    let mut eager = world(&inputs);
    eager.eager = true;
    assert_eq!(archive_of(&inputs, 1, 3, &mut eager), Ok(()));
    assert_eq!(lazy.archive, eager.archive);
    let (found, _) = entries(&lazy.archive);
    let payloads: Vec<Vec<u8>> = found.into_iter().map(|(_, payload)| payload).collect();
    assert_eq!(
        payloads,
        vec![
            b"avif of bytes of f.png".to_vec(),
            b"bytes of e.avif".to_vec(),
            b"avif of bytes of d.png".to_vec(),
            b"avif of bytes of c.png".to_vec(),
            b"bytes of b.avif".to_vec(),
            b"avif of bytes of a.png".to_vec(),
        ]
    );
    assert_eq!(lazy.waited, vec![1, 3, 4, 6]);
}

#[test]
fn never_more_converters_than_the_ceiling() {
    let paths: Vec<Vec<u8>> = (0..40).map(|i| format!("{}.png", i).into_bytes()).collect();
    let inputs: Vec<&[u8]> = paths.iter().map(|p| p.as_slice()).collect();
    for processes in 1..6 {
        let mut w = world(&inputs);
        assert_eq!(archive_of(&inputs, 2, processes, &mut w), Ok(()));
        assert_eq!(w.most_alive, processes);
        assert_eq!(w.spawned.len(), 40);
    }
}

#[test]
fn copy_goes_into_the_archive_byte_for_byte() {
    let inputs: [&[u8]; 1] = [b"photo.AVIF"];
    let mut w = world(&inputs);
    let payload: Vec<u8> = (0..1500u32).map(|i| (i % 251) as u8).collect();
    w.files.insert(b"photo.AVIF".to_vec(), payload.clone());
    assert_eq!(archive_of(&inputs, 1, 1, &mut w), Ok(()));
    assert_eq!(entries(&w.archive).0, vec![(b"1.avif".to_vec(), payload.clone())]);
    assert_eq!(&w.archive[512..2012], &payload[..]);
    assert!(w.spawned.is_empty());
    assert!(w.removed.is_empty());
    assert_eq!(w.files.get(&b"photo.AVIF".to_vec()), Some(&payload));
}

#[test]
fn conversions_are_written_in_the_work_dir_and_removed() {
    let inputs: [&[u8]; 3] = [b"a.png", b"b.avif", b"c.png"];
    let mut w = world(&inputs);
    assert_eq!(archive_of(&inputs, 3, 2, &mut w), Ok(()));
    assert_eq!(
        w.spawned,
        vec![
            (b"a.png".to_vec(), b"/tmp/mkcbt-00000abc/001.avif".to_vec(), 1),
            (b"c.png".to_vec(), b"/tmp/mkcbt-00000abc/003.avif".to_vec(), 3),
        ]
    );
    assert_eq!(
        w.read,
        vec![
            b"/tmp/mkcbt-00000abc/001.avif".to_vec(),
            b"b.avif".to_vec(),
            b"/tmp/mkcbt-00000abc/003.avif".to_vec(),
        ]
    );
    assert_eq!(
        w.removed,
        vec![b"/tmp/mkcbt-00000abc/001.avif".to_vec(), b"/tmp/mkcbt-00000abc/003.avif".to_vec()]
    );
    let left: Vec<&Vec<u8>> = w.files.keys().collect();
    assert_eq!(left, vec![&b"a.png".to_vec(), &b"b.avif".to_vec(), &b"c.png".to_vec()]);
}

#[test]
fn failed_conversion_aborts_before_its_entry() {
    let inputs: [&[u8]; 4] = [b"a.png", b"b.png", b"c.avif", b"d.png"];
    let mut w = world(&inputs);
    w.failing.insert(2);
    assert_eq!(archive_of(&inputs, 1, 2, &mut w), Err(PipelineError::ConversionFailed));
    let (found, closing) = entries(&w.archive);
    assert_eq!(found, vec![(b"1.avif".to_vec(), b"avif of bytes of a.png".to_vec())]);
    assert_eq!(closing, 2);
    assert_eq!(w.waited, vec![1, 2]);
}

#[test]
fn failed_first_conversion_leaves_an_empty_archive() {
    let inputs: [&[u8]; 2] = [b"a.png", b"b.png"];
    let mut w = world(&inputs);
    w.failing.insert(1);
    assert_eq!(archive_of(&inputs, 1, 8, &mut w), Err(PipelineError::ConversionFailed));
    assert_eq!(w.archive, vec![0u8; 1024]);
}

#[test]
fn aborted_writer_refuses_everything() {
    let mut cbt = writer(1, 1);
    assert!(matches!(cbt.submit(b"a.png"), Ok(Action::Spawn { .. })));
    assert_eq!(cbt.spawned(), Ok(Action::Next));
    assert_eq!(cbt.finish(), Ok(Action::Wait { index: 1 }));
    assert_eq!(cbt.exited(false), Err(PipelineError::ConversionFailed));
    assert_eq!(cbt.stage(), Stage::Aborted);
    assert_eq!(cbt.submit(b"b.png"), Err(PipelineError::OutOfTurn));
    assert_eq!(cbt.finish(), Err(PipelineError::OutOfTurn));
    assert_eq!(cbt.spawned(), Err(PipelineError::OutOfTurn));
    assert_eq!(cbt.exited(true), Err(PipelineError::OutOfTurn));
    assert_eq!(cbt.loaded(b"late"), Err(PipelineError::OutOfTurn));
    assert_eq!(cbt.removed(), Err(PipelineError::OutOfTurn));
    assert_eq!(cbt.failed(), Err(PipelineError::OutOfTurn));
    assert_eq!(cbt.stage(), Stage::Aborted);
    assert_eq!(cbt.take_output(), Vec::<u8>::new());
    assert_eq!(cbt.release(), vec![0u8; 1024]);
}

#[test]
fn full_queue_flushes_the_oldest_job_first() {
    let mut cbt = writer(1, 2);
    assert_eq!(cbt.stage(), Stage::Ready);
    assert_eq!(cbt.submit(b"a.avif"), Ok(Action::Next));
    assert_eq!(
        cbt.submit(b"b.png"),
        Ok(Action::Spawn {
            input: b"b.png".to_vec(),
            output: b"/tmp/mkcbt-00000abc/2.avif".to_vec(),
            index: 2
        })
    );
    assert_eq!(cbt.stage(), Stage::Spawning);
    assert_eq!(cbt.spawned(), Ok(Action::Next));
    assert_eq!(cbt.in_flight(), 2);
    // no room: the copy queued first is read before the third input is queued
    assert_eq!(cbt.submit(b"c.png"), Ok(Action::Read { path: b"a.avif".to_vec() }));
    assert_eq!(cbt.stage(), Stage::Reading);
    assert_eq!(
        cbt.loaded(b"A"),
        Ok(Action::Spawn {
            input: b"c.png".to_vec(),
            output: b"/tmp/mkcbt-00000abc/3.avif".to_vec(),
            index: 3
        })
    );
    assert_eq!(cbt.spawned(), Ok(Action::Next));
    assert_eq!(cbt.in_flight(), 2);
    assert_eq!(cbt.finish(), Ok(Action::Wait { index: 2 }));
    assert_eq!(cbt.stage(), Stage::Waiting);
    assert_eq!(
        cbt.exited(true),
        Ok(Action::Read { path: b"/tmp/mkcbt-00000abc/2.avif".to_vec() })
    );
    assert_eq!(
        cbt.loaded(b"B"),
        Ok(Action::Remove { path: b"/tmp/mkcbt-00000abc/2.avif".to_vec() })
    );
    assert_eq!(cbt.stage(), Stage::Removing);
    assert_eq!(cbt.removed(), Ok(Action::Wait { index: 3 }));
    assert_eq!(
        cbt.exited(true),
        Ok(Action::Read { path: b"/tmp/mkcbt-00000abc/3.avif".to_vec() })
    );
    assert_eq!(
        cbt.loaded(b"C"),
        Ok(Action::Remove { path: b"/tmp/mkcbt-00000abc/3.avif".to_vec() })
    );
    assert_eq!(cbt.removed(), Ok(Action::Done));
    assert_eq!(cbt.stage(), Stage::Finished);
    let mut archive = cbt.take_output();
    archive.extend(cbt.release());
    assert_eq!(names(&archive), vec!["1.avif", "2.avif", "3.avif"]);
}

#[test]
fn event_out_of_turn_is_refused_and_changes_nothing() {
    let mut cbt = writer(1, 1);
    assert_eq!(cbt.spawned(), Err(PipelineError::OutOfTurn));
    assert_eq!(cbt.exited(true), Err(PipelineError::OutOfTurn));
    assert_eq!(cbt.loaded(b"x"), Err(PipelineError::OutOfTurn));
    assert_eq!(cbt.removed(), Err(PipelineError::OutOfTurn));
    assert_eq!(cbt.stage(), Stage::Ready);
    assert!(matches!(cbt.submit(b"a.png"), Ok(Action::Spawn { .. })));
    assert_eq!(cbt.submit(b"b.png"), Err(PipelineError::OutOfTurn));
    assert_eq!(cbt.finish(), Err(PipelineError::OutOfTurn));
    assert_eq!(cbt.stage(), Stage::Spawning);
    assert_eq!(cbt.in_flight(), 1);
    assert_eq!(cbt.spawned(), Ok(Action::Next));
    assert_eq!(cbt.finish(), Ok(Action::Wait { index: 1 }));
    assert_eq!(cbt.loaded(b"x"), Err(PipelineError::OutOfTurn));
    assert_eq!(cbt.take_output(), Vec::<u8>::new());
}

#[test]
fn finish_on_a_finished_writer_is_done_again() {
    let mut cbt = writer(1, 1);
    assert_eq!(cbt.submit(b"a.avif"), Ok(Action::Next));
    assert_eq!(cbt.finish(), Ok(Action::Read { path: b"a.avif".to_vec() }));
    assert_eq!(cbt.loaded(b"A"), Ok(Action::Done));
    let written = cbt.take_output();
    assert_eq!(written.len(), 1024);
    assert_eq!(cbt.stage(), Stage::Finished);
    assert_eq!(cbt.finish(), Ok(Action::Done));
    assert_eq!(cbt.finish(), Ok(Action::Done));
    assert_eq!(cbt.stage(), Stage::Finished);
    assert_eq!(cbt.in_flight(), 0);
    assert_eq!(cbt.take_output(), Vec::<u8>::new());
    // the next index is still 2
    assert_eq!(
        cbt.submit(b"b.png"),
        Ok(Action::Spawn {
            input: b"b.png".to_vec(),
            output: b"/tmp/mkcbt-00000abc/2.avif".to_vec(),
            index: 2
        })
    );
}

#[test]
fn finish_on_a_fresh_writer_is_done_at_once_and_again() {
    let mut cbt = writer(1, 1);
    assert_eq!(cbt.finish(), Ok(Action::Done));
    assert_eq!(cbt.stage(), Stage::Finished);
    assert_eq!(cbt.finish(), Ok(Action::Done));
    assert_eq!(cbt.release(), vec![0u8; 1024]);
}

#[test]
fn finished_writer_takes_further_inputs() {
    let mut cbt = writer(1, 1);
    assert_eq!(cbt.submit(b"a.avif"), Ok(Action::Next));
    assert_eq!(cbt.finish(), Ok(Action::Read { path: b"a.avif".to_vec() }));
    assert_eq!(cbt.loaded(b"A"), Ok(Action::Done));
    assert_eq!(cbt.submit(b"b.avif"), Ok(Action::Next));
    assert_eq!(cbt.stage(), Stage::Ready);
    assert_eq!(cbt.in_flight(), 1);
    assert_eq!(cbt.oldest(), Some(&CbtWriterJob::Copy(b"b.avif".to_vec(), 2)));
    assert_eq!(cbt.finish(), Ok(Action::Read { path: b"b.avif".to_vec() }));
    assert_eq!(cbt.loaded(b"B"), Ok(Action::Done));
    let mut archive = cbt.take_output();
    archive.extend(cbt.release());
    assert_eq!(
        entries(&archive),
        (vec![(b"1.avif".to_vec(), b"A".to_vec()), (b"2.avif".to_vec(), b"B".to_vec())], 2)
    );
}

#[test]
fn converter_that_cannot_start_takes_no_index() {
    let mut cbt = writer(1, 2);
    assert_eq!(cbt.submit(b"a.avif"), Ok(Action::Next));
    assert!(matches!(cbt.submit(b"b.png"), Ok(Action::Spawn { index: 2, .. })));
    assert_eq!(cbt.in_flight(), 2);
    assert_eq!(cbt.failed(), Err(PipelineError::OutsideFailure));
    assert_eq!(cbt.stage(), Stage::Aborted);
    assert_eq!(cbt.in_flight(), 1);
    assert_eq!(cbt.oldest(), Some(&CbtWriterJob::Copy(b"a.avif".to_vec(), 1)));
    assert_eq!(cbt.take_output(), Vec::<u8>::new());
    assert_eq!(cbt.submit(b"c.png"), Err(PipelineError::OutOfTurn));
    assert_eq!(cbt.release(), vec![0u8; 1024]);
}

#[test]
fn first_converter_that_cannot_start_leaves_the_queue_empty() {
    let mut cbt = writer(1, 1);
    assert!(matches!(cbt.submit(b"a.png"), Ok(Action::Spawn { index: 1, .. })));
    assert_eq!(cbt.failed(), Err(PipelineError::OutsideFailure));
    assert_eq!(cbt.in_flight(), 0);
    assert_eq!(cbt.oldest(), None);
    assert_eq!(cbt.stage(), Stage::Aborted);
}

#[test]
fn outside_failure_ends_the_run_at_every_stage() {
    // while ready
    let mut cbt = writer(1, 1);
    assert_eq!(cbt.failed(), Err(PipelineError::OutsideFailure));
    assert_eq!(cbt.stage(), Stage::Aborted);
    assert_eq!(cbt.failed(), Err(PipelineError::OutOfTurn));

    // while the oldest converter is waited for, an input held back
    let mut cbt = writer(1, 1);
    assert!(matches!(cbt.submit(b"a.png"), Ok(Action::Spawn { .. })));
    assert_eq!(cbt.spawned(), Ok(Action::Next));
    assert_eq!(cbt.submit(b"b.png"), Ok(Action::Wait { index: 1 }));
    assert_eq!(cbt.failed(), Err(PipelineError::OutsideFailure));
    assert_eq!(cbt.stage(), Stage::Aborted);
    assert_eq!(cbt.in_flight(), 1);

    // while a file is read
    let mut cbt = writer(1, 1);
    assert_eq!(cbt.submit(b"a.avif"), Ok(Action::Next));
    assert_eq!(cbt.finish(), Ok(Action::Read { path: b"a.avif".to_vec() }));
    assert_eq!(cbt.failed(), Err(PipelineError::OutsideFailure));
    assert_eq!(cbt.loaded(b"late"), Err(PipelineError::OutOfTurn));
    assert_eq!(cbt.in_flight(), 1);
    assert_eq!(cbt.release(), vec![0u8; 1024]);

    // while a file is removed: its entry is written already
    let mut cbt = writer(1, 1);
    assert!(matches!(cbt.submit(b"a.png"), Ok(Action::Spawn { .. })));
    assert_eq!(cbt.spawned(), Ok(Action::Next));
    assert_eq!(cbt.finish(), Ok(Action::Wait { index: 1 }));
    assert!(matches!(cbt.exited(true), Ok(Action::Read { .. })));
    assert!(matches!(cbt.loaded(b"A"), Ok(Action::Remove { .. })));
    assert_eq!(cbt.failed(), Err(PipelineError::OutsideFailure));
    assert_eq!(cbt.stage(), Stage::Aborted);
    let mut archive = cbt.take_output();
    archive.extend(cbt.release());
    assert_eq!(entries(&archive), (vec![(b"1.avif".to_vec(), b"A".to_vec())], 2));

    // when finished
    let mut cbt = writer(1, 1);
    assert_eq!(cbt.finish(), Ok(Action::Done));
    assert_eq!(cbt.failed(), Err(PipelineError::OutsideFailure));
    assert_eq!(cbt.finish(), Err(PipelineError::OutOfTurn));
}

#[test]
fn writer_for_inputs_pads_to_the_digits_of_their_number() {
    let dir = || TempDir::new(b"/tmp", b"mkcbt", 0xabc);
    for (total, width) in
        [(0usize, 1usize), (1, 1), (9, 1), (10, 2), (12, 2), (99, 2), (100, 3), (999, 3), (1000, 4)]
    {
        let mut cbt = CbtWriter::for_inputs(total, 2, dir()).unwrap();
        let expected = format!("/tmp/mkcbt-00000abc/{:0width$}.avif", 1, width = width);
        assert_eq!(
            cbt.submit(b"a.png"),
            Ok(Action::Spawn {
                input: b"a.png".to_vec(),
                output: expected.into_bytes(),
                index: 1
            })
        );
    }
    assert_eq!(CbtWriter::for_inputs(12, 0, dir()).err(), Some(PipelineError::NoCapacity));
    assert!(CbtWriter::for_inputs(usize::MAX, 1, dir()).is_ok());
}

#[test]
fn run_for_twelve_inputs_names_them_with_two_digits() {
    let paths: Vec<Vec<u8>> = (0..12).map(|i| format!("p{}.avif", i).into_bytes()).collect();
    let mut cbt =
        CbtWriter::for_inputs(paths.len(), 3, TempDir::new(b"/tmp", b"mkcbt", 1)).unwrap();
    let mut archive = Vec::new();
    for path in &paths {
        let mut answer = cbt.submit(path);
        while let Ok(Action::Read { .. }) = answer {
            answer = cbt.loaded(b"x");
        }
        assert_eq!(answer, Ok(Action::Next));
        archive.extend(cbt.take_output());
    }
    let mut answer = cbt.finish();
    while let Ok(Action::Read { .. }) = answer {
        answer = cbt.loaded(b"x");
    }
    assert_eq!(answer, Ok(Action::Done));
    archive.extend(cbt.take_output());
    archive.extend(cbt.release());
    let expected: Vec<String> = (1..=12).map(|i| format!("{:02}.avif", i)).collect();
    assert_eq!(names(&archive), expected);
}

#[test]
fn writer_refuses_zero_ceiling_and_wide_padding() {
    let dir = || TempDir::new(b"/tmp", b"mkcbt", 1);
    assert_eq!(CbtWriter::new(1, 0, dir()).err(), Some(PipelineError::NoCapacity));
    assert_eq!(CbtWriter::new(96, 1, dir()).err(), Some(PipelineError::NameTooLong));
    assert_eq!(CbtWriter::new(96, 0, dir()).err(), Some(PipelineError::NameTooLong));
    assert!(CbtWriter::new(95, 1, dir()).is_ok());
    assert!(CbtWriter::new(0, usize::MAX, dir()).is_ok());
}

#[test]
fn oldest_job_is_the_head_of_the_queue() {
    let mut cbt = writer(2, 3);
    assert_eq!(cbt.oldest(), None);
    assert_eq!(cbt.submit(b"x/a.avif"), Ok(Action::Next));
    assert!(matches!(cbt.submit(b"x/b.png"), Ok(Action::Spawn { .. })));
    assert_eq!(cbt.spawned(), Ok(Action::Next));
    assert_eq!(cbt.oldest(), Some(&CbtWriterJob::Copy(b"x/a.avif".to_vec(), 1)));
    assert_eq!(cbt.finish(), Ok(Action::Read { path: b"x/a.avif".to_vec() }));
    assert_eq!(cbt.loaded(b""), Ok(Action::Wait { index: 2 }));
    assert_eq!(
        cbt.oldest(),
        Some(&CbtWriterJob::Convert(b"/tmp/mkcbt-00000abc/02.avif".to_vec(), 2))
    );
    assert_eq!(cbt.in_flight(), 1);
}

#[test]
fn writer_keeps_its_work_dir() {
    let cbt = writer(2, 4);
    assert_eq!(cbt.work_dir().path(), b"/tmp/mkcbt-00000abc");
    assert_eq!(cbt.in_flight(), 0);
}

#[test]
fn widest_padding_still_fits_the_archive() {
    let mut cbt = CbtWriter::new(95, 1, TempDir::new(b"/tmp", b"mkcbt", 1)).unwrap();
    assert_eq!(cbt.submit(b"a.avif"), Ok(Action::Next));
    assert_eq!(cbt.finish(), Ok(Action::Read { path: b"a.avif".to_vec() }));
    assert_eq!(cbt.loaded(b"payload"), Ok(Action::Done));
    let mut archive = cbt.take_output();
    archive.extend(cbt.release());
    let (found, closing) = entries(&archive);
    assert_eq!(closing, 2);
    assert_eq!(found.len(), 1);
    assert_eq!(found[0].0.len(), 100);
    assert_eq!(found[0].1, b"payload".to_vec());
}

#[test]
fn converter_is_started_with_fixed_settings() {
    let words = converter_command(b"in/a.png", b"/tmp/w/1.avif");
    let expected: Vec<Vec<u8>> = vec![
        b"avifenc".to_vec(),
        b"--jobs".to_vec(),
        b"1".to_vec(),
        b"--speed".to_vec(),
        b"0".to_vec(),
        b"in/a.png".to_vec(),
        b"/tmp/w/1.avif".to_vec(),
    ];
    assert_eq!(words, expected);
}
