use eplayer::duration::{extinf_duration_exec, median_exec, sorted_values_exec};

fn line(s: &str) -> Vec<char> {
    s.chars().collect()
}

#[test]
fn reads_extinf_durations_in_nanoseconds() {
    assert_eq!(extinf_duration_exec(&line("#EXTINF:10,")), Some(20_000_000_000));
    assert_eq!(extinf_duration_exec(&line("  #EXTINF: 5.5 ,title")), Some(11_000_000_000));
    assert_eq!(extinf_duration_exec(&line("#EXTINF:.25")), Some(500_000_000));
    assert_eq!(extinf_duration_exec(&line("#EXTINF:+3.")), Some(6_000_000_000));
    assert_eq!(extinf_duration_exec(&line("#EXTINF:-1,")), None);
    assert_eq!(extinf_duration_exec(&line("#EXTINF:0,")), None);
    assert_eq!(extinf_duration_exec(&line("#EXTINF:abc,")), None);
    assert_eq!(extinf_duration_exec(&line("#EXT-X-TARGETDURATION:10")), None);
}

#[test]
fn reads_exponents_and_long_fractions_exactly() {
    assert_eq!(extinf_duration_exec(&line("#EXTINF:5e0,")), Some(10_000_000_000));
    assert_eq!(extinf_duration_exec(&line("#EXTINF:2.5E+1,")), Some(50_000_000_000));
    assert_eq!(extinf_duration_exec(&line("#EXTINF:1e-9,")), Some(2));
    assert_eq!(extinf_duration_exec(&line("#EXTINF:1e-10,")), Some(1));
    assert_eq!(extinf_duration_exec(&line("#EXTINF:6.0000000001,")), Some(12_000_000_001));
    assert_eq!(extinf_duration_exec(&line("#EXTINF:6.0000000000,")), Some(12_000_000_000));
    assert_eq!(extinf_duration_exec(&line("#EXTINF:1e400,")), Some(2_000_000_000_000_000_000));
    assert_eq!(extinf_duration_exec(&line("#EXTINF:0e5,")), None);
    assert_eq!(extinf_duration_exec(&line("#EXTINF:1e,")), None);
    assert_eq!(extinf_duration_exec(&line("#EXTINF:e5,")), None);
    assert_eq!(extinf_duration_exec(&line("#EXTINF:1.2.3,")), None);
    assert_eq!(extinf_duration_exec(&line("#EXTINF:inf,")), None);
}

#[test]
fn median_needs_six_durations() {
    assert_eq!(median_exec(&vec![1, 2, 3, 4, 5]), None);
    assert_eq!(median_exec(&vec![9, 1, 8, 2, 7, 3]), Some(7));
    assert_eq!(sorted_values_exec(&vec![3, 1, 2, 1]), vec![1, 1, 2, 3]);
}
