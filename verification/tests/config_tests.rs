use boxrun::config::{
    catalog_contains, catalog_lookup, classify_int_setting, default_cpu, default_disk_size_gb,
    default_memory_mb, default_workdir, image_catalog, max_total_cpu, max_total_memory_mb,
    memory_mb_from_meminfo, parse_i64, parse_u64, resolve_image, setting_or_default, IntSetting,
    cpu_limit_of, detect_cpu, detect_memory_mb, memory_mb_from_sysctl,
    DEFAULT_CPU, DEFAULT_DISK_SIZE_GB, DEFAULT_IMAGE, DEFAULT_MEMORY_MB, DEFAULT_WORKDIR,
};

#[test]
fn test_resolve_image_alias() {
    assert_eq!(resolve_image("ubuntu"), "ubuntu:24.04");
    assert_eq!(resolve_image("python"), "python:3.12-slim");
    assert_eq!(resolve_image("node"), "node:22-slim");
    assert_eq!(resolve_image("default"), "ubuntu:24.04");
}

#[test]
fn test_resolve_image_passthrough() {
    assert_eq!(resolve_image("custom:latest"), "custom:latest");
    assert_eq!(resolve_image("nginx:1.25"), "nginx:1.25");
}

#[test]
fn test_image_catalog_complete() {
    let catalog = image_catalog();
    assert_eq!(catalog.len(), 7);
    assert!(catalog_contains("default"));
    assert!(catalog_contains("ubuntu"));
    assert!(catalog_contains("python"));
    assert!(catalog_contains("node"));
    assert!(catalog_contains("golang"));
    assert!(catalog_contains("rust"));
    assert!(catalog_contains("alpine"));
}

#[test]
fn test_constants() {
    assert_eq!(DEFAULT_CPU, 2);
    assert_eq!(DEFAULT_MEMORY_MB, 1024);
    assert_eq!(DEFAULT_DISK_SIZE_GB, 8);
    assert_eq!(DEFAULT_WORKDIR, "/root");
    assert_eq!(DEFAULT_IMAGE, "ubuntu:24.04");
}

#[test]
fn test_resource_limits_positive() {
    assert!(max_total_cpu(None) > 0);
    assert!(max_total_memory_mb(None, None, None) > 0);
    assert!(max_total_memory_mb(None, None, Some("MemTotal:       16314236 kB\nMemFree: 1 kB\n")) > 0);
}

#[test]
fn catalog_lookup_gives_images_and_descriptions() {
    assert_eq!(catalog_lookup("golang"), Some("golang:1.22"));
    assert_eq!(catalog_lookup("rust"), Some("rust:1.77-slim"));
    assert_eq!(catalog_lookup("alpine"), Some("alpine:3.20"));
    assert_eq!(catalog_lookup("nope"), None);
    let catalog = image_catalog();
    assert_eq!(catalog[0].alias, "default");
    assert_eq!(catalog[0].description, "Ubuntu 24.04 (general purpose, recommended)");
    assert_eq!(catalog[6].description, "Lightweight Linux (5MB)");
}

#[test]
fn defaults_match_constants() {
    assert_eq!(default_cpu(), 2);
    assert_eq!(default_memory_mb(), 1024);
    assert_eq!(default_disk_size_gb(), 8);
    assert_eq!(default_workdir(), "/root");
}

#[test]
fn parse_i64_reads_like_std() {
    for t in ["0", "42", "-7", "+15", "9223372036854775807", "-9223372036854775808", "", "-", "+", "12a",
        "9223372036854775808", "-9223372036854775809", " 1", "1 ", "007"] {
        assert_eq!(parse_i64(t), t.parse::<i64>().ok(), "text {t:?}");
    }
}

#[test]
fn parse_u64_reads_like_std() {
    for t in ["0", "42", "+15", "18446744073709551615", "18446744073709551616", "-0", "-1", "", "+", "1x"] {
        assert_eq!(parse_u64(t), t.parse::<u64>().ok(), "text {t:?}");
    }
}

#[test]
fn settings_fall_back_to_the_default() {
    assert_eq!(setting_or_default(Some("16"), 4), 16);
    assert_eq!(setting_or_default(Some("0"), 4), 4);
    assert_eq!(setting_or_default(Some("-3"), 4), 4);
    assert_eq!(setting_or_default(Some("many"), 4), 4);
    assert_eq!(setting_or_default(None, 4), 4);
    assert!(matches!(classify_int_setting("5"), IntSetting::Positive(5)));
    assert!(matches!(classify_int_setting("-5"), IntSetting::NotPositive(-5)));
    assert!(matches!(classify_int_setting("x"), IntSetting::Invalid));
    assert_eq!(max_total_cpu(Some("12")), 12);
    assert_eq!(max_total_memory_mb(Some("2048"), None, None), 2048);
    assert_eq!(max_total_memory_mb(Some("bad"), None, None), 8192);
}

#[test]
fn meminfo_total_in_megabytes() {
    let report = "MemTotal:       16314236 kB\nMemFree:         1000000 kB\n";
    assert_eq!(memory_mb_from_meminfo(report), 16314236 / 1024);
    assert_eq!(memory_mb_from_meminfo("MemFree: 5 kB\nMemTotal:\t2097152 kB"), 2048);
    assert_eq!(memory_mb_from_meminfo("MemFree: 5 kB\n"), 8192);
    assert_eq!(memory_mb_from_meminfo("MemTotal: lots\nMemTotal: 1048576 kB\n"), 1024);
    assert_eq!(memory_mb_from_meminfo("MemTotal:\n"), 8192);
    assert_eq!(memory_mb_from_meminfo(""), 8192);
}

#[test]
fn cpu_count_becomes_limit() {
    assert_eq!(cpu_limit_of(1), 1);
    assert_eq!(cpu_limit_of(48), 48);
    assert_eq!(cpu_limit_of(usize::MAX), i64::MAX);
    assert!(detect_cpu() >= 1);
}

#[test]
fn detected_memory() {
    assert_eq!(detect_memory_mb(None, None), 8192);
    assert_eq!(detect_memory_mb(None, Some("MemTotal:\t2097152 kB\n")), 2048);
    assert_eq!(detect_memory_mb(None, Some("nothing here")), 8192);
}

#[test]
fn sysctl_memory() {
    assert_eq!(memory_mb_from_sysctl("17179869184\n"), Some(16384));
    assert_eq!(memory_mb_from_sysctl("  1048575 "), Some(0));
    assert_eq!(memory_mb_from_sysctl("unknown oid"), None);
    assert_eq!(detect_memory_mb(Some("8589934592\n"), None), 8192);
    assert_eq!(detect_memory_mb(Some("34359738368"), Some("MemTotal: 1024 kB")), 32768);
    assert_eq!(detect_memory_mb(Some("error"), Some("MemTotal: 2048 kB")), 2);
    assert_eq!(max_total_memory_mb(None, Some("4294967296"), None), 4096);
}

#[test]
fn clock_texts_have_rfc3339_shape() {
    for ts in [boxrun::clock::now_rfc3339(), boxrun::clock::rfc3339_seconds_ago(3600)] {
        assert!(ts.len() >= 25);
        assert!(ts.ends_with("+00:00"));
        assert!(ts.is_ascii());
        let b = ts.as_bytes();
        assert_eq!((b[4], b[7], b[10], b[13], b[16]), (b'-', b'-', b'T', b':', b':'));
    }
}
