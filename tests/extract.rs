use xiso_ex::decoder::{parse_root, DecodeStep};
use xiso_ex::entry::DirEntry;
use xiso_ex::error::XisoError;
use xiso_ex::extract::{Action, Event, Extraction};
use xiso_ex::layout::{IsoMeta, OFFSET_XGD2};
use xiso_ex::plan::{plan_extraction, Job};

fn file(name: &str, sector: u32, size: u32) -> DirEntry {
    DirEntry {
        left_offset: 0,
        right_offset: 0,
        sector,
        size,
        attributes: 0x20,
        name_len: name.len() as u8,
        name: name.to_string(),
        subdir: None,
    }
}

fn dir(name: &str, children: Vec<DirEntry>) -> DirEntry {
    DirEntry {
        left_offset: 0,
        right_offset: 0,
        sector: 99,
        size: 2048,
        attributes: 0x10,
        name_len: name.len() as u8,
        name: name.to_string(),
        subdir: Some(children),
    }
}

fn meta() -> IsoMeta {
    IsoMeta { root_dir_sector: 4, root_dir_size: 2048, root_offset: OFFSET_XGD2 }
}

fn paths(jobs: &[Job]) -> Vec<String> {
    jobs.iter()
        .map(|j| match j {
            Job::MakeDir { path } => format!("dir {}", path),
            Job::CopyFile { path, offset, size } => format!("file {} {} {}", path, offset, size),
        })
        .collect()
}

/// A destination in memory: files by path, and the image as a function.
struct Memory {
    dirs: Vec<String>,
    files: Vec<(String, Vec<u8>)>,
    open: Option<String>,
    writes: usize,
    opened: usize,
    lose_last_byte: bool,
}

impl Memory {
    fn new() -> Memory {
        Memory { dirs: Vec::new(), files: Vec::new(), open: None, writes: 0, opened: 0, lose_last_byte: false }
    }

    fn size_of(&self, path: &str) -> Option<u64> {
        self.files.iter().find(|f| f.0 == path).map(|f| f.1.len() as u64)
    }

    fn run(&mut self, jobs: Vec<Job>, image: &dyn Fn(u64, u32) -> Vec<u8>) -> Result<(u64, u64), XisoError> {
        let (mut ex, mut action) = Extraction::start(jobs);
        loop {
            let ev = match action {
                Action::Finished { files, resumed } => return Ok((files, resumed)),
                Action::QueryDir { path } => Event::DirExists(self.dirs.contains(&path)),
                Action::CreateDir { path } => {
                    self.dirs.push(path);
                    Event::Completed
                }
                Action::QuerySize { path } => Event::Size(self.size_of(&path)),
                Action::OpenWrite { path, .. } => {
                    self.files.retain(|f| f.0 != path);
                    self.files.push((path.clone(), Vec::new()));
                    self.open = Some(path);
                    self.opened += 1;
                    Event::Completed
                }
                Action::Copy { offset, len } => {
                    let path = self.open.clone().unwrap();
                    let bytes = image(offset, len);
                    assert_eq!(bytes.len(), len as usize);
                    self.files.iter_mut().find(|f| f.0 == path).unwrap().1.extend_from_slice(&bytes);
                    self.writes += 1;
                    Event::Completed
                }
                Action::Finalize { path } => {
                    if self.lose_last_byte {
                        self.files.iter_mut().find(|f| f.0 == path).unwrap().1.pop();
                    }
                    self.open = None;
                    Event::Completed
                }
            };
            action = ex.step(ev)?;
        }
    }
}

fn image_bytes(offset: u64, len: u32) -> Vec<u8> {
    (0..len as u64).map(|i| ((offset + i) % 251) as u8).collect()
}

#[test]
fn round_trip_of_one_file() {
    let meta = meta();
    // the decoder reads the root's records at root_offset + 4 * 2048
    let d = parse_root(&meta);
    match d.next_step() {
        DecodeStep::ReadSector { offset } => assert_eq!(offset, OFFSET_XGD2 + 4 * 2048),
        DecodeStep::Finished => panic!("the root is due"),
    }
    let root = vec![file("default.xbe", 10, 100)];
    let jobs = plan_extraction(&meta, &root, &"out".to_string(), false);
    assert_eq!(paths(&jobs), vec![format!("file out/default.xbe {} 100", OFFSET_XGD2 + 10 * 2048)]);
    let mut sink = Memory::new();
    let counts = sink.run(jobs, &|offset, len| {
        assert!(offset >= OFFSET_XGD2 + 10 * 2048);
        assert!(offset + len as u64 <= OFFSET_XGD2 + 10 * 2048 + 100);
        image_bytes(offset, len)
    });
    assert_eq!(counts, Ok((1, 0)));
    assert_eq!(sink.size_of("out/default.xbe"), Some(100));
    assert_eq!(sink.files[0].1, image_bytes(OFFSET_XGD2 + 10 * 2048, 100));
}

#[test]
fn large_file_is_copied_in_chunks() {
    let meta = meta();
    let root = vec![file("big.bin", 3, 10000)];
    let jobs = plan_extraction(&meta, &root, &"o".to_string(), false);
    let (mut ex, first) = Extraction::start(jobs);
    assert!(matches!(first, Action::QuerySize { .. }));
    let base = OFFSET_XGD2 + 3 * 2048;
    match ex.step(Event::Size(Some(5))).unwrap() {
        Action::OpenWrite { path, replacing } => {
            assert_eq!(path, "o/big.bin");
            assert!(replacing);
        }
        a => panic!("unexpected {:?}", a),
    }
    let mut chunks = Vec::new();
    let mut a = ex.step(Event::Completed).unwrap();
    while let Action::Copy { offset, len } = a {
        chunks.push((offset - base, len));
        a = ex.step(Event::Completed).unwrap();
    }
    assert_eq!(chunks, vec![(0, 4096), (4096, 4096), (8192, 1808)]);
    assert!(matches!(a, Action::Finalize { .. }));
    assert!(matches!(ex.step(Event::Completed).unwrap(), Action::QuerySize { .. }));
    match ex.step(Event::Size(Some(10000))).unwrap() {
        Action::Finished { files, resumed } => assert_eq!((files, resumed), (1, 0)),
        a => panic!("unexpected {:?}", a),
    }
}

#[test]
fn empty_file_is_written_without_copies() {
    let jobs = plan_extraction(&meta(), &vec![file("empty", 3, 0)], &"o".to_string(), false);
    let mut sink = Memory::new();
    assert_eq!(sink.run(jobs, &image_bytes), Ok((1, 0)));
    assert_eq!(sink.writes, 0);
    assert_eq!(sink.size_of("o/empty"), Some(0));
}

#[test]
fn complete_file_is_left_alone() {
    let jobs = plan_extraction(&meta(), &vec![file("a", 3, 100), file("b", 4, 50)], &"o".to_string(), false);
    let mut sink = Memory::new();
    sink.files.push(("o/a".to_string(), vec![7; 100]));
    assert_eq!(sink.run(jobs, &image_bytes), Ok((2, 1)));
    // only b was opened and written
    assert_eq!(sink.opened, 1);
    assert_eq!(sink.writes, 1);
    assert_eq!(sink.files[0].1, vec![7; 100]);
}

#[test]
fn file_of_other_size_is_replaced() {
    let jobs = plan_extraction(&meta(), &vec![file("a", 3, 100)], &"o".to_string(), false);
    let mut sink = Memory::new();
    sink.files.push(("o/a".to_string(), vec![7; 10]));
    assert_eq!(sink.run(jobs, &image_bytes), Ok((1, 0)));
    assert_eq!(sink.size_of("o/a"), Some(100));
    assert_eq!(sink.opened, 1);
}

#[test]
fn short_file_fails_verification() {
    let jobs = plan_extraction(&meta(), &vec![file("a", 3, 100), file("b", 4, 100)], &"o".to_string(), false);
    let mut sink = Memory::new();
    sink.lose_last_byte = true;
    assert_eq!(
        sink.run(jobs, &image_bytes),
        Err(XisoError::VerificationFailed { path: "o/a".to_string() })
    );
    // the run ended there
    assert_eq!(sink.opened, 1);
}

#[test]
fn directories_come_before_their_files() {
    let root = vec![
        dir("media", vec![file("intro.wmv", 40, 5), dir("sub", vec![])]),
        file("default.xbe", 10, 3),
    ];
    let jobs = plan_extraction(&meta(), &root, &"/x".to_string(), false);
    assert_eq!(
        paths(&jobs),
        vec![
            "dir /x/media".to_string(),
            format!("file /x/media/intro.wmv {} 5", OFFSET_XGD2 + 40 * 2048),
            "dir /x/media/sub".to_string(),
            format!("file /x/default.xbe {} 3", OFFSET_XGD2 + 10 * 2048),
        ]
    );
    let mut sink = Memory::new();
    sink.dirs.push("/x/media".to_string());
    assert_eq!(sink.run(jobs, &image_bytes), Ok((2, 0)));
    assert_eq!(sink.dirs, vec!["/x/media".to_string(), "/x/media/sub".to_string()]);
}

#[test]
fn system_update_is_skipped_on_request() {
    let root = vec![
        dir("$SystemUpdate", vec![file("update.xbe", 50, 9)]),
        file("default.xbe", 10, 3),
    ];
    let skipped = plan_extraction(&meta(), &root, &"o".to_string(), true);
    assert_eq!(paths(&skipped), vec![format!("file o/default.xbe {} 3", OFFSET_XGD2 + 10 * 2048)]);
    let mut sink = Memory::new();
    assert_eq!(sink.run(skipped, &image_bytes), Ok((1, 0)));
    assert!(sink.dirs.is_empty());
    assert_eq!(sink.files.len(), 1);

    let kept = plan_extraction(&meta(), &root, &"o".to_string(), false);
    assert_eq!(kept.len(), 3);
    let mut sink = Memory::new();
    assert_eq!(sink.run(kept, &image_bytes), Ok((2, 0)));
}

#[test]
fn nested_system_update_is_not_skipped() {
    let root = vec![dir("d", vec![file("$SystemUpdate", 50, 9)])];
    let jobs = plan_extraction(&meta(), &root, &"o".to_string(), true);
    assert_eq!(jobs.len(), 2);
}

#[test]
fn nothing_to_do_finishes_at_once() {
    let (_, a) = Extraction::start(Vec::new());
    assert!(matches!(a, Action::Finished { files: 0, resumed: 0 }));
}
