use mhrs::caller::HaplotypeCaller;
use mhrs::counter::ReadHapCounter;
use mhrs::definition::AlleleDefinition;
use mhrs::observer::HaplotypeObserver;
use mhrs::read::ReadHaplotype;
use mhrs::result::TypingCoverage;
use mhrs::thresholds::Fraction;

fn init_caller() -> HaplotypeCaller {
    let def = AlleleDefinition::from_vector(
        "chr22",
        vec![48665164, 48665175, 48665182, 48665204, 48665216],
    );
    let mut observer = HaplotypeObserver::new(&def);
    observer.set_all("read1", "AATAT");
    observer.set_all("read2", "AATAT");
    observer.set_all("read3", "ACGAT");
    observer.set_all("read4", "AATAT");

    HaplotypeCaller::from_observer(&observer)
}

fn caller_from_counts(pairs: &[(&str, u64)]) -> HaplotypeCaller {
    let mut counts = ReadHapCounter::new();
    for (text, count) in pairs {
        counts.insert(&ReadHaplotype::from_string(text), *count);
    }
    HaplotypeCaller {
        detection_filter: 0,
        analytical_filter: Fraction::zero(),
        raw_counts: counts.clone(),
        counts,
        coverage: TypingCoverage { max: 0, total_depth: 0, num_positions: 0, min: 0 },
        discarded: 0,
    }
}

fn genotype_texts(genotype: &[ReadHaplotype]) -> Vec<String> {
    genotype.iter().map(|h| h.to_text()).collect()
}

#[test]
fn test_typing_basic() {
    let caller = init_caller();
    let readhap1 = ReadHaplotype::from_string("AATAT");
    let readhap2 = ReadHaplotype::from_string("ACGAT");
    assert_eq!(caller.raw_counts.get(&readhap1).unwrap(), 3);
    assert_eq!(caller.raw_counts.get(&readhap2).unwrap(), 1);
}

#[test]
fn test_typing_result_basic() {
    let mut caller = init_caller();
    let result = caller.apply_filters(2, Fraction::from_decimal_str("0.02").unwrap());
    let readhap = ReadHaplotype::from_string("AATAT");
    assert_eq!(result.genotype, vec![readhap]);
}

#[test]
fn test_stage_order_scenario() {
    // stage 1 removes the count of 2; the analytical threshold is then
    // resolved against the cleaned total 105: floor(105 * 0.04) = 4, and
    // both survivors reach it
    let mut caller = caller_from_counts(&[("A", 100), ("B", 5), ("C", 2)]);
    let result = caller.apply_filters(3, Fraction::from_decimal_str("0.04").unwrap());
    assert_eq!(genotype_texts(&result.genotype), vec!["A", "B"]);
    assert_eq!(result.thresholds.detection, 3);
    assert_eq!(result.thresholds.analytical, 4);
    assert_eq!(result.thresholds.dynamic, Fraction { num: 4, den: 100 });
    // the raw tally is carried unfiltered
    assert_eq!(result.counts.get(&ReadHaplotype::from_string("C")).unwrap(), 2);
}

#[test]
fn test_detection_zero_keeps_everything() {
    let mut caller = caller_from_counts(&[("A", 1), ("B", 900), ("C", 3)]);
    let result = caller.apply_filters(0, Fraction::zero());
    assert_eq!(genotype_texts(&result.genotype), vec!["A", "B", "C"]);
}

#[test]
fn test_analytical_zero_keeps_stage1_survivors() {
    let mut caller = caller_from_counts(&[("A", 1), ("B", 900), ("C", 3)]);
    let result = caller.apply_filters(3, Fraction::zero());
    assert_eq!(genotype_texts(&result.genotype), vec!["B", "C"]);
}

#[test]
fn test_filters_idempotent_on_genotype() {
    let mut caller = caller_from_counts(&[("AA", 60), ("CC", 25), ("GG", 9), ("TT", 2)]);
    let fraction = Fraction::from_decimal_str("0.1").unwrap();
    let first = caller.apply_filters(3, fraction);
    let second = caller.apply_filters(3, fraction);
    // the cleaned total is 94, so the resolved analytical count is 9
    assert_eq!(genotype_texts(&first.genotype), vec!["AA", "CC", "GG"]);
    assert_eq!(first.genotype, second.genotype);
    assert_eq!(first.counts.len(), second.counts.len());
}

#[test]
fn test_analytical_monotone_scenario() {
    let sizes: Vec<usize> = ["0.01", "0.1", "0.3", "0.7"]
        .iter()
        .map(|text| {
            let mut caller = caller_from_counts(&[("A", 50), ("C", 30), ("G", 15), ("T", 5)]);
            let result = caller.apply_filters(0, Fraction::from_decimal_str(text).unwrap());
            result.genotype.len()
        })
        .collect();
    assert_eq!(sizes, vec![4, 3, 2, 0]);
}

#[test]
fn test_empty_genotype_is_valid() {
    let mut caller = caller_from_counts(&[("A", 2), ("C", 1)]);
    let result = caller.apply_filters(5, Fraction::zero());
    assert!(result.genotype.is_empty());
    assert_eq!(result.counts.len(), 2);
}

#[test]
fn test_genotype_order_ignores_counts() {
    // ties and count order never decide the genotype order: sketches come
    // out lexicographically
    let mut caller = caller_from_counts(&[("TG", 90), ("AC", 1), ("GA", 90)]);
    let result = caller.apply_filters(1, Fraction::zero());
    assert_eq!(genotype_texts(&result.genotype), vec!["AC", "GA", "TG"]);
}
