use mhrs::counter::ReadHapCounter;
use mhrs::definition::AlleleDefinition;
use mhrs::observer::{HaplotypeObserver, PileupAlignment};
use mhrs::read::ReadHaplotype;

fn five_ads_observer() -> HaplotypeObserver {
    let def = AlleleDefinition::from_vector(
        "chr22",
        vec![48665164, 48665175, 48665182, 48665204, 48665216],
    );
    HaplotypeObserver::new(&def)
}

#[test]
fn test_observer_basic() {
    let mut observer = five_ads_observer();
    observer.set_all("read1", "AATAT");
    observer.set_all("read2", "AATAT");
    observer.set_all("read3", "ACGAT");
    observer.set_all("read4", "AATAT");
    let counts = observer.count();
    assert_eq!(counts.len(), 2);
    let readhap1 = ReadHaplotype::from_string("AATAT");
    let readhap2 = ReadHaplotype::from_string("ACGAT");
    assert_eq!(counts.get(&readhap1).unwrap(), 3);
    assert_eq!(counts.get(&readhap2).unwrap(), 1);
}

#[test]
fn test_observer_partial_reads_excluded() {
    // a read with alleles recorded at only 3 of the 5 registered ADSs is
    // excluded from the tally and counted as discarded
    let mut observer = five_ads_observer();
    observer.set("incomplete", 48665164, 'A');
    observer.set("incomplete", 48665175, 'C');
    observer.set("incomplete", 48665182, 'G');
    observer.set_all("whole", "ACGTT");
    let counts = observer.count();
    assert_eq!(counts.len(), 1);
    assert_eq!(observer.discarded(), 1);
    assert!(counts.get(&ReadHaplotype::from_string("ACGTT")).is_some());
}

#[test]
fn test_observer_set_overwrites_slot() {
    let mut observer = five_ads_observer();
    observer.set_all("read1", "AAAAA");
    observer.set("read1", 48665182, 'G');
    let counts = observer.count();
    assert_eq!(counts.get(&ReadHaplotype::from_string("AAGAA")).unwrap(), 1);
}

fn plain_alignment(name: &str, base: char, quality: u8) -> PileupAlignment {
    PileupAlignment {
        read_name: name.to_string(),
        secondary: false,
        supplementary: false,
        duplicate: false,
        qc_fail: false,
        base_quality: quality,
        is_gap: false,
        base,
    }
}

#[test]
fn test_observe_position_filters_alignments() {
    let def = AlleleDefinition::from_vector("chr1", vec![100, 102]);
    let mut observer = HaplotypeObserver::new(&def);
    let mut dup = plain_alignment("flagged", 'T', 40);
    dup.duplicate = true;
    let alignments_100 = vec![
        plain_alignment("keep", 'A', 40),
        plain_alignment("half", 'C', 40),
        plain_alignment("low_quality", 'C', 5),
        dup,
    ];
    observer.observe_position(100, 3, &alignments_100, 10);
    // position inside the span but not an ADS: depth only
    observer.observe_position(101, 7, &vec![plain_alignment("keep", 'G', 40)], 10);
    let mut gap = plain_alignment("keep", 'X', 40);
    gap.is_gap = true;
    // the second ADS: "keep" shows a gap, "half" fails the quality filter
    observer.observe_position(102, 2, &vec![gap, plain_alignment("half", 'T', 5)], 10);
    // outside the span: ignored entirely
    observer.observe_position(99, 50, &vec![plain_alignment("keep", 'T', 40)], 10);

    let counts = observer.count();
    assert_eq!(counts.len(), 1);
    assert_eq!(counts.get(&ReadHaplotype::from_string("A-")).unwrap(), 1);
    // low-quality and flagged reads never completed a sketch
    assert_eq!(observer.discarded(), 1);
    let coverage = observer.coverage();
    assert_eq!(coverage.max, 7);
    assert_eq!(coverage.min, 2);
    assert_eq!(coverage.total_depth, 12);
    assert_eq!(coverage.num_positions, 3);
}

#[test]
fn test_coverage_empty_span() {
    let observer = five_ads_observer();
    let coverage = observer.coverage();
    assert_eq!(coverage.max, 0);
    assert_eq!(coverage.min, 0);
    assert_eq!(coverage.total_depth, 0);
    assert_eq!(coverage.num_positions, 0);
}

#[test]
fn test_counter_deterministic_order() {
    // the tally's canonical form does not depend on insertion order
    let hap_a = ReadHaplotype::from_string("AA");
    let hap_c = ReadHaplotype::from_string("CA");
    let hap_g = ReadHaplotype::from_string("GA");
    let mut one = ReadHapCounter::new();
    one.insert(&hap_g, 7);
    one.insert(&hap_a, 2);
    one.insert(&hap_c, 5);
    let mut two = ReadHapCounter::new();
    two.insert(&hap_a, 2);
    two.insert(&hap_c, 5);
    two.insert(&hap_g, 7);
    let keys_one: Vec<String> = one.keys().iter().map(|h| h.to_text()).collect();
    let keys_two: Vec<String> = two.keys().iter().map(|h| h.to_text()).collect();
    assert_eq!(keys_one, vec!["AA", "CA", "GA"]);
    assert_eq!(keys_one, keys_two);
    assert_eq!(one.total_count(), 14);
}

#[test]
fn test_counter_increment_and_get() {
    let hap = ReadHaplotype::from_string("TT");
    let other = ReadHapCounter::new();
    assert!(other.get(&hap).is_none());
    let mut tally = ReadHapCounter::new();
    tally.increment(&hap);
    tally.increment(&hap);
    assert_eq!(tally.get(&hap).unwrap(), 2);
    assert_eq!(tally.len(), 1);
}
