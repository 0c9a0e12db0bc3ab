//! The plan of the transfer benchmark.

use filesync::bench::{
    available_bytes, block_size, copy_dir, copy_wear_note, corpus_dir, corpus_file, corpus_footprint,
    corpus_seed, env_total_bytes, file_seed, fill, human, may_remove, max_profile_footprint, phase_copy_jobs,
    phase_jobs, profile_footprint, profiles_of, repeats, scratch_root, selected_profiles, sweep_bytes,
    sync_mode, wear_note, with_margin, Profile, Shape, SweepStep, SyncMode, GIB, KIB, MIB,
};
use filesync::paths::FsPath;

fn p(s: &str) -> FsPath {
    FsPath::parse(s.as_bytes())
}

fn some(s: &str) -> Option<String> {
    Some(s.to_string())
}

#[test]
fn a_corpus_comes_in_two_shapes() {
    let ps = profiles_of(GIB);
    assert_eq!(ps[0], Profile { shape: Shape::Large, file_bytes: 512 * MIB, count: 2 });
    assert_eq!(ps[1], Profile { shape: Shape::Small, file_bytes: 64 * KIB, count: 16384 });
    assert_eq!(profiles_of(1000)[0], Profile { shape: Shape::Large, file_bytes: 1000, count: 1 });
    assert_eq!(selected_profiles(GIB, &some("small")), vec![ps[1]]);
    assert_eq!(selected_profiles(GIB, &some("large")), vec![ps[0]]);
    assert_eq!(selected_profiles(GIB, &some("both")), ps);
    assert_eq!(selected_profiles(GIB, &None), ps);
}

#[test]
fn sizes_come_from_the_environment() {
    assert_eq!(env_total_bytes(&None, 4), Some(4 * GIB));
    assert_eq!(env_total_bytes(&some("64"), 4), Some(64 * MIB));
    assert_eq!(env_total_bytes(&some("lots"), 1), Some(GIB));
    assert_eq!(env_total_bytes(&some("18446744073709551615"), 1), None);
    assert_eq!(block_size(&some("131072"), &some("4096")), 131072);
    assert_eq!(block_size(&some("0"), &some("512")), 512);
    assert_eq!(block_size(&None, &some("0")), 4096);
    assert_eq!((repeats(&some("3")), repeats(&some("0")), repeats(&None)), (3, 1, 1));
    assert_eq!((sync_mode(&some("fs")), sync_mode(&some("FS"))), (SyncMode::Fs, SyncMode::Each));
}

#[test]
fn files_occupy_whole_allocation_units() {
    let one = |file_bytes: u64, count: u64| Profile { shape: Shape::Small, file_bytes, count };
    assert_eq!(profile_footprint(&one(65536, 10), 131072), Some(1310720));
    assert_eq!(profile_footprint(&one(4097, 1), 4096), Some(8192));
    assert_eq!(profile_footprint(&one(4097, 3), 1), Some(12291));
    assert_eq!(profile_footprint(&one(u64::MAX, 1), 4096), None);
    assert_eq!(profile_footprint(&one(u64::MAX, 0), 4096), Some(0));
    let ps = vec![one(100, 1), one(5000, 1)];
    assert_eq!(corpus_footprint(&ps, 4096), Some(12288));
    assert_eq!(max_profile_footprint(&ps, 4096), Some(8192));
    assert_eq!(max_profile_footprint(&vec![], 4096), Some(0));
    assert_eq!(with_margin(2000), Some(2000 + 100 + 32 * MIB));
    assert_eq!(with_margin(u64::MAX), None);
}

#[test]
fn sizes_are_shown_shortly() {
    assert_eq!(human(1023), "1023 bytes");
    assert_eq!(human(MIB), "1 MiB");
    assert_eq!(human(MIB * 5 / 2), format!("{:.0} MiB", 2.5));
    assert_eq!(human(MIB * 7 / 2), format!("{:.0} MiB", 3.5));
    assert_eq!(human(GIB * 3 / 2), "1.5 GiB");
    assert_eq!(wear_note(GIB), "[wear] the write sweep rewrites the corpus 6 times per profile — about 1.0 GiB of writes total. Lower with FILESYNC_BENCH_MIB.");
    assert_eq!(
        copy_wear_note(MIB, "USB", 2),
        "[wear] ~1 MiB written to USB (6 worker counts x 2 profiles x 2). Lower with FILESYNC_BENCH_MIB."
    );
}

#[test]
fn free_space_is_read_from_a_table() {
    let table = "Filesystem 1024-blocks Used Available Capacity Mounted on\n/dev/sdb1 1000 400 600 40% /media/x\n";
    assert_eq!(available_bytes(table), Some(600 * 1024));
    assert_eq!(available_bytes("only one line"), None);
    assert_eq!(available_bytes("a\nb c d"), None);
    assert_eq!(available_bytes("a\nb c d -"), None);
    assert_eq!(available_bytes("a\nb c d 18446744073709551615 e"), Some(u64::MAX));
}

#[test]
fn only_the_scratch_folder_is_removed() {
    let drive = p("/media/usb");
    assert_eq!(scratch_root(&drive), p("/media/usb/.filesync_benchmark_scratch"));
    assert_eq!(corpus_dir(&drive, Shape::Large), p("/media/usb/.filesync_benchmark_scratch/corpus/large"));
    let copy = copy_dir(&drive, Shape::Small, "fsync+verify");
    assert_eq!(copy, p("/media/usb/.filesync_benchmark_scratch/copy/small/fsync+verify"));
    assert!(may_remove(&copy, &drive) && may_remove(&scratch_root(&drive), &drive));
    assert!(!may_remove(&drive, &drive));
    assert!(!may_remove(&p("/media/usb/photos"), &drive));
    assert!(!may_remove(&p("/media/usb/.filesync_benchmark_scratch2"), &drive));
    assert_eq!(corpus_file(7), "f_000007");
    assert_eq!(corpus_file(1234567), "f_1234567");
}

#[test]
fn filler_is_the_xorshift_stream() {
    let mut state = corpus_seed(65536);
    let mut x = 0x9E3779B97F4A7C15u64 ^ 65536;
    assert_eq!(state, x);
    let mut want: Vec<u8> = Vec::new();
    for _ in 0..3 {
        x ^= x << 13;
        x ^= x >> 7;
        x ^= x << 17;
        want.extend_from_slice(&x.to_le_bytes());
    }
    let mut buf = vec![0u8; 21];
    fill(&mut buf, &mut state);
    assert_eq!(buf, want[..21].to_vec());
    assert_eq!(state, x);
    assert_ne!(file_seed(1, 0), file_seed(1, 1));
    assert_eq!(file_seed(0x9E3779B97F4A7C15, 0), 1);
}

#[test]
fn a_sweep_writes_reads_and_removes_each_corpus() {
    let ps = profiles_of(GIB);
    let steps = phase_jobs(&ps);
    assert_eq!(steps.len(), 26);
    assert_eq!(steps[0], SweepStep::Write { profile: ps[0], jobs: 1 });
    assert_eq!(steps[5], SweepStep::Write { profile: ps[0], jobs: 16 });
    assert_eq!(steps[6], SweepStep::Read { profile: ps[0], jobs: 1 });
    assert_eq!(steps[12], SweepStep::Remove { profile: ps[0] });
    assert_eq!(steps[13], SweepStep::Write { profile: ps[1], jobs: 1 });
    let copies = phase_copy_jobs(&ps, 2);
    assert_eq!(copies.len(), 26);
    assert_eq!(copies[0], SweepStep::Prepare { profile: ps[0] });
    assert_eq!(copies[3], SweepStep::Copy { profile: ps[0], jobs: 2 });
    assert_eq!(sweep_bytes(&ps, 2), Some(24 * GIB));
    assert_eq!(sweep_bytes(&profiles_of(u64::MAX), 1), None);
}
