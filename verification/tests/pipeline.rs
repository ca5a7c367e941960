use mhrs::analyzer::MicrohapAnalyzer;
use mhrs::observer::HaplotypeObserver;
use mhrs::panel::{MicrohapPanel, PanelRow};
use mhrs::parameters::TypingParameters;
use mhrs::profile::MicrohapProfile;
use mhrs::read::ReadHaplotype;
use mhrs::thresholds::{AnalyticalThreshold, DetectionThreshold, Fraction};

fn row(marker: &str, chromosome: &str, offset: u32) -> PanelRow {
    PanelRow {
        marker: marker.to_string(),
        chromosome: chromosome.to_string(),
        offset,
    }
}

#[test]
fn test_detection_threshold() {
    let mut t = DetectionThreshold::new(42);
    t.insert("mh09USC-9qC", 5);
    t.insert("mh10WL-031", 15);
    assert_eq!(t.get("mh09USC-9qC"), 5);
    assert_eq!(t.get("mh10WL-031"), 15);
    assert_eq!(t.get("mh04SHY-004"), 42);
}

#[test]
fn test_analytical_threshold() {
    let mut t = AnalyticalThreshold::new(Fraction::from_decimal_str("0.042").unwrap());
    t.insert("mh13KK-221.v1", Fraction::from_decimal_str("0.033").unwrap());
    t.insert("mh19USC-19qB.v2", Fraction::from_decimal_str("0.029").unwrap());
    assert_eq!(t.get("mh13KK-221.v1"), Fraction { num: 33, den: 1000 });
    assert_eq!(t.get("mh19USC-19qB.v2"), Fraction { num: 29, den: 1000 });
    assert_eq!(t.get("mh09WL-034"), Fraction { num: 42, den: 1000 });
}

#[test]
fn test_typing_parameters_defaults() {
    let params = TypingParameters::defaults();
    assert_eq!(params.min_base_quality, 10);
    assert_eq!(params.max_depth, 1000000);
    assert_eq!(params.detection_threshold.get("mh13KK-221.v1"), 10);
    assert_eq!(
        params.analytical_threshold.get("mh13KK-221.v1"),
        Fraction { num: 4, den: 100 }
    );
}

#[test]
fn test_typing_parameters_basic() {
    let params = TypingParameters::new(
        15,
        Fraction::from_decimal_str("0.032").unwrap(),
        20,
        50000,
    );
    assert_eq!(params.min_base_quality, 20);
    assert_eq!(params.max_depth, 50000);
    assert_eq!(params.detection_threshold.get("mh13KK-221.v1"), 15);
    assert_eq!(
        params.analytical_threshold.get("mh13KK-221.v1"),
        Fraction { num: 32, den: 1000 }
    );
}

#[test]
fn test_fraction_parsing() {
    assert_eq!(Fraction::from_decimal_str("0.04"), Some(Fraction { num: 4, den: 100 }));
    assert_eq!(Fraction::from_decimal_str("0"), Some(Fraction { num: 0, den: 1 }));
    assert_eq!(Fraction::from_decimal_str("1"), Some(Fraction { num: 1, den: 1 }));
    assert_eq!(
        Fraction::from_decimal_str("1.000"),
        Some(Fraction { num: 1000, den: 1000 })
    );
    assert_eq!(Fraction::from_decimal_str(".5"), Some(Fraction { num: 5, den: 10 }));
    assert_eq!(
        Fraction::from_decimal_str("0.123456789"),
        Some(Fraction { num: 123456789, den: 1000000000 })
    );
    assert_eq!(Fraction::from_decimal_str(""), None);
    assert_eq!(Fraction::from_decimal_str("2"), None);
    assert_eq!(Fraction::from_decimal_str("1.5"), None);
    assert_eq!(Fraction::from_decimal_str("0.1234567891"), None);
    assert_eq!(Fraction::from_decimal_str("0..5"), None);
    assert_eq!(Fraction::from_decimal_str("0.x"), None);
    assert_eq!(Fraction::from_decimal_str("-0.5"), None);
    assert_eq!(Fraction::from_decimal_str("5."), None);
}

#[test]
fn test_panel_grouping() {
    let rows = vec![
        row("mh02KK-134.v2", "chr2", 160222923),
        row("mh01WL-006.v3", "chr1", 236518863),
        row("mh01WL-006.v3", "chr1", 236518813),
        row("mh02KK-134.v2", "chr2", 160222899),
        row("mh01WL-006.v3", "chr1", 236518813),
    ];
    let panel = MicrohapPanel::from_rows(&rows);
    assert_eq!(panel.len(), 2);
    let first = panel.get("mh01WL-006.v3").unwrap();
    assert_eq!(first.chromosome().as_str(), "chr1");
    assert_eq!(first.get_offsets(), &vec![236518813, 236518863]);
    let second = panel.get("mh02KK-134.v2").unwrap();
    assert_eq!(second.get_offsets(), &vec![160222899, 160222923]);
    assert!(panel.get("mh03USC-3qC.v2").is_none());
}

#[test]
fn test_profile_ordering() {
    let mut profile = MicrohapProfile::new("Sample01");
    let markers = ["mh10WL-031", "mh02KK-134.v2", "mh09USC-9qC"];
    for marker in markers {
        let rows = vec![row(marker, "chr1", 100), row(marker, "chr1", 105)];
        let panel = MicrohapPanel::from_rows(&rows);
        let mut observer = HaplotypeObserver::new(panel.get(marker).unwrap());
        observer.set_all("read1", "AC");
        let mut caller = mhrs::caller::HaplotypeCaller::from_observer(&observer);
        let result = caller.apply_filters(0, Fraction::zero());
        profile.add(marker, result);
    }
    assert_eq!(profile.len(), 3);
    let stored: Vec<String> = profile
        .results()
        .iter()
        .map(|(id, _)| id.clone())
        .collect();
    assert_eq!(
        stored,
        vec!["mh02KK-134.v2", "mh09USC-9qC", "mh10WL-031"]
    );
    assert_eq!(profile.sample_id().as_str(), "Sample01");
    assert!(profile.get("mh09USC-9qC").is_some());
    assert!(profile.get("mh99XX-000").is_none());
}

#[test]
fn test_analyzer_marker_flow() {
    let rows = vec![
        row("mh16WL-040.v1", "chr16", 10),
        row("mh16WL-040.v1", "chr16", 16),
        row("mh16WL-040.v1", "chr16", 17),
        row("mh16WL-040.v1", "chr16", 33),
    ];
    let panel = MicrohapPanel::from_rows(&rows);
    let mut analyzer = MicrohapAnalyzer::new("Sample001", panel);
    analyzer
        .parameters
        .insert_thresholds("mh16WL-040.v1", 2, Fraction::from_decimal_str("0.02").unwrap());

    let definition = analyzer.panel.get("mh16WL-040.v1").unwrap().clone();
    let mut observer = HaplotypeObserver::new(&definition);
    for name in ["r1", "r2", "r3", "r4", "r5", "r6"] {
        observer.set_all(name, "CCCG");
    }
    for name in ["r7", "r8", "r9", "r10"] {
        observer.set_all(name, "TCTC");
    }
    observer.set_all("r11", "TATC");
    observer.set("r12", 10, 'T');

    analyzer.process_marker("mh16WL-040.v1", &observer);
    let profile = analyzer.final_profile();
    let result = profile.get("mh16WL-040.v1").unwrap();
    let genotype: Vec<String> = result.genotype.iter().map(ReadHaplotype::to_text).collect();
    assert_eq!(genotype, vec!["CCCG", "TCTC"]);
    assert_eq!(result.num_discarded, 1);
    assert_eq!(result.thresholds.detection, 2);
    assert_eq!(
        result.counts.get(&ReadHaplotype::from_string("TATC")).unwrap(),
        1
    );
}
