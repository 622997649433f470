use rustysquid::memory_sufficient;

#[test]
fn plenty_of_available_memory_is_sufficient() {
    let info = "MemTotal:       16000000 kB\nMemFree:         1000000 kB\nMemAvailable:    8000000 kB\n";
    assert!(memory_sufficient(info));
}

#[test]
fn below_a_tenth_of_total_is_not_sufficient() {
    let info = "MemTotal:       16000000 kB\nMemAvailable:    1500000 kB\n";
    assert!(!memory_sufficient(info));
}

#[test]
fn the_fixed_floor_applies_on_small_machines() {
    assert!(!memory_sufficient("MemTotal: 500000 kB\nMemAvailable: 102400 kB\n"));
    assert!(memory_sufficient("MemTotal: 500000 kB\nMemAvailable: 102401 kB\n"));
}

#[test]
fn unreadable_values_count_as_zero() {
    assert!(!memory_sufficient(""));
    assert!(!memory_sufficient("MemAvailable: lots kB\n"));
    assert!(memory_sufficient("MemAvailable: +200000 kB\r\n"));
}
