use rustload::proc::{accept_file, get_maps, mapped_size, MemCounters, MemInfo, ProcMap};

fn rules(list: &[&str]) -> Vec<String> {
    list.iter().map(|s| s.to_string()).collect()
}

fn mapping(start: u64, end: u64, offset: u64, path: Option<&str>) -> ProcMap {
    ProcMap { start, end, offset, path: path.map(|p| p.to_string()) }
}

#[test]
fn accept_file_test() {
    let file = "/bin/ls";
    let prefixes = rules(&["/sbin", "/lib", "/bin"]);

    assert!(accept_file(file, None));
    assert!(accept_file(file, Some(&prefixes)));
    assert!(!accept_file(file, Some(&rules(&["/sbin", "/lib", "!/bin"]))));
}

#[test]
fn accept_file_with_empty_list_accepts() {
    let none: Vec<String> = Vec::new();
    assert!(accept_file("/bin/ls", Some(&none)));
}

#[test]
fn accept_file_first_match_decides() {
    assert!(accept_file("/usr/bin/vi", Some(&rules(&["/usr/bin", "!/usr"]))));
    assert!(!accept_file("/usr/bin/vi", Some(&rules(&["!/usr", "/usr/bin"]))));
    assert!(accept_file("/opt/x", Some(&rules(&["!/usr", "!/bin"]))));
}

#[test]
fn accept_file_matches_bytes_not_components() {
    assert!(!accept_file("/lib64/ld.so", Some(&rules(&["!/lib"]))));
    assert!(accept_file("/lib64/ld.so", Some(&rules(&["!/lib/"]))));
}

#[test]
fn accept_file_with_bare_bang_rejects_everything() {
    assert!(!accept_file("/anything", Some(&rules(&["!"]))));
    assert!(!accept_file("", Some(&rules(&["!"]))));
}

#[test]
fn accept_file_with_default_rules() {
    let defaults = rules(&["/opt", "!/usr/sbin/", "!/usr/local/sbin/", "/usr/", "!/"]);
    assert!(accept_file("/opt/app/bin", Some(&defaults)));
    assert!(!accept_file("/usr/sbin/cron", Some(&defaults)));
    assert!(accept_file("/usr/bin/vi", Some(&defaults)));
    assert!(!accept_file("/bin/ls", Some(&defaults)));
}

#[test]
fn get_maps_counts_rejected_mappings_but_leaves_them_out() {
    let maps = vec![
        mapping(0x1000, 0x3000, 0, Some("/usr/lib/libc.so")),
        mapping(0x8000, 0x9000, 4096, Some("/tmp/x.so")),
        mapping(0xa000, 0xb000, 0, None),
        mapping(0xc000, 0xd000, 0, Some("[heap]")),
        mapping(0xe000, 0xf000, 0, Some("/usr/lib/gone.so (deleted)")),
    ];
    let (size, regions) = get_maps(&maps, &rules(&["!/tmp/", "/"]));
    assert_eq!(size, 0x2000 + 0x1000);
    assert_eq!(regions.len(), 1);
    assert_eq!(regions[0].path, "/usr/lib/libc.so");
    assert_eq!(regions[0].offset, 0);
    assert_eq!(regions[0].length, 0x2000);
    assert_eq!(regions[0].seq, 0);
    assert_eq!(regions[0].block, -1);
    assert_eq!(regions[0].update_time, 0);
}

#[test]
fn get_maps_of_nothing() {
    let (size, regions) = get_maps(&Vec::new(), &rules(&["/"]));
    assert_eq!(size, 0);
    assert!(regions.is_empty());
}

#[test]
fn get_maps_caps_the_total() {
    let maps = vec![
        mapping(0, u64::MAX, 0, Some("/a")),
        mapping(0, 10, 0, Some("/b")),
        mapping(10, 5, 0, Some("/c")),
    ];
    let (size, regions) = get_maps(&maps, &rules(&[]));
    assert_eq!(size, u64::MAX);
    assert_eq!(regions.len(), 3);
    assert_eq!(regions[2].length, 0);
}

#[test]
fn procmap_is_file() {
    assert!(mapping(0, 1, 0, Some("/bin/ls")).is_file());
    assert!(!mapping(0, 1, 0, Some("")).is_file());
    assert!(!mapping(0, 1, 0, Some("[vdso]")).is_file());
    assert!(!mapping(0, 1, 0, Some("/bin/ls (deleted)")).is_file());
    assert!(mapping(0, 1, 0, Some("/bin/ls (deleted) x")).is_file());
    assert!(!mapping(0, 1, 0, None).is_file());
}

#[test]
fn meminfo_from_counters() {
    let counters = MemCounters {
        mem_total: 8 * 1024 * 1024 * 1024,
        mem_free: 1024 * 1024 + 1023,
        buffers: 2048,
        cached: 1023,
        page_size: 4096,
        pgpgin: 10,
        pgpgout: 3,
    };
    assert_eq!(
        MemInfo::new(&counters),
        MemInfo { total: 8 * 1024 * 1024, free: 1024, buffers: 2, cached: 0, pagein: 40, pageout: 12 }
    );
}

#[test]
fn meminfo_holds_figures_to_32_bits() {
    let mut counters = MemCounters {
        mem_total: (u32::MAX as u64 + 1) * 1024,
        mem_free: u32::MAX as u64 * 1024,
        buffers: u64::MAX,
        cached: 0,
        page_size: 4096,
        pgpgin: u32::MAX as u64,
        pgpgout: (u32::MAX as u64) / 4,
    };
    let mem = MemInfo::new(&counters);
    assert_eq!(mem.total, u32::MAX);
    assert_eq!(mem.free, u32::MAX);
    assert_eq!(mem.buffers, u32::MAX);
    assert_eq!(mem.cached, 0);
    assert_eq!(mem.pagein, u32::MAX);
    assert_eq!(mem.pageout, (u32::MAX / 4) * 4);
    counters.pgpgin = u64::MAX;
    counters.page_size = u64::MAX;
    assert_eq!(MemInfo::new(&counters).pagein, u32::MAX);
    counters.page_size = 1000;
    assert_eq!(MemInfo::new(&counters).pagein, 0);
}

#[test]
fn meminfo_update_replaces_the_snapshot() {
    let mut mem = MemInfo { total: 1, free: 2, buffers: 3, cached: 4, pagein: 5, pageout: 6 };
    let counters = MemCounters {
        mem_total: 2048,
        mem_free: 0,
        buffers: 0,
        cached: 0,
        page_size: 0,
        pgpgin: 7,
        pgpgout: 0,
    };
    mem.update(&counters);
    assert_eq!(mem, MemInfo { total: 2, free: 0, buffers: 0, cached: 0, pagein: 0, pageout: 0 });
    assert_eq!(MemInfo::default(), MemInfo::zero());
}

#[test]
fn mapped_size_counts_file_backed_mappings() {
    let maps = vec![
        mapping(0x1000, 0x3000, 0, Some("/usr/lib/libc.so")),
        mapping(0x8000, 0x9000, 4096, Some("/tmp/x.so")),
        mapping(0xa000, 0xb000, 0, None),
        mapping(0xe000, 0xf000, 0, Some("/usr/lib/gone.so (deleted)")),
    ];
    assert_eq!(mapped_size(&maps), 0x3000);
    assert_eq!(mapped_size(&Vec::new()), 0);
}
