use mhrs::definition::AlleleDefinition;
use mhrs::read::ReadHaplotype;

#[test]
fn test_definition_basic() {
    let mut def = AlleleDefinition::new("chr18");
    assert_eq!(def.extent(), 0);
    def.add_snp_offset(53008000);
    def.add_snp_offset(53008025);
    def.add_snp_offset(53008042);
    def.add_snp_offset(53008078);
    assert_eq!(def.extent(), 79);
    assert_eq!(def.num_snps(), 4);
    assert_eq!(def.chromosome().as_str(), "chr18");
    let observed = def.get_offsets();
    let expected: Vec<u32> = vec![53008000, 53008025, 53008042, 53008078];
    assert_eq!(observed, &expected);
}

#[test]
fn test_definition_construct_from_vector() {
    let def = AlleleDefinition::from_vector("chr13", vec![29218045, 29218056, 29218077]);
    assert_eq!(def.extent(), 33);
    assert_eq!(def.num_snps(), 3);
}

#[test]
fn test_coordinates() {
    let def = AlleleDefinition::from_vector(
        "chr5",
        vec![
            31094962, 31095011, 31095136, 31095187, 31095193, 31095262, 31095306,
        ],
    );
    assert_eq!(def.start(), 31094962);
    assert_eq!(def.end(), 31095306);
    assert_eq!(def.region(), ("chr5", 31094962, 31095306));
    assert!(def.is_ads(31095136));
    assert!(!def.is_ads(31095137));
}

#[test]
fn test_definition_deduplicates_and_sorts() {
    let mut def = AlleleDefinition::new("chr7");
    def.add_snp_offset(500);
    def.add_snp_offset(100);
    def.add_snp_offset(500);
    def.add_snp_offset(300);
    assert_eq!(def.num_snps(), 3);
    assert_eq!(def.get_offsets(), &vec![100, 300, 500]);
    assert_eq!(def.get_index(300), Some(1));
    assert_eq!(def.get_index(200), None);
}

#[test]
fn test_readhap_basic() {
    let mut hap = ReadHaplotype::new(3);
    hap.set(0, 'C');
    hap.set(1, 'A');
    assert!(hap.is_partial());
    hap.set(2, 'T');
    assert!(!hap.is_partial());
    assert_eq!(hap.to_text(), "CAT");
    assert_eq!(hap.get(2).unwrap(), 'T');
    assert!(hap.get(3).is_none());
}

#[test]
fn test_readhap_from_string() {
    let hap = ReadHaplotype::from_string("GATTACA");
    assert_eq!(hap.len(), 7);
    assert_eq!(hap.get(3).unwrap(), 'T');
    assert_eq!(hap.get(4).unwrap(), 'A');
    assert_eq!(hap.to_text(), "GATTACA");
}

#[test]
fn test_readhap_equality() {
    assert_eq!(
        ReadHaplotype::from_string("CAT"),
        ReadHaplotype::from_string("CAT")
    );
    assert_ne!(
        ReadHaplotype::from_string("TTT"),
        ReadHaplotype::from_string("GGG")
    );
}

#[test]
fn test_readhap_inequality() {
    assert!(ReadHaplotype::from_string("CAT") <= ReadHaplotype::from_string("CAT"));
    assert!(ReadHaplotype::from_string("CAT") >= ReadHaplotype::from_string("CAT"));
    assert!(ReadHaplotype::from_string("TTT") > ReadHaplotype::from_string("GGG"));
    assert!(ReadHaplotype::from_string("TTT") >= ReadHaplotype::from_string("GGG"));
    assert!(ReadHaplotype::from_string("AAA") < ReadHaplotype::from_string("CCC"));
    assert!(ReadHaplotype::from_string("AAA") <= ReadHaplotype::from_string("CCC"));
}

#[test]
fn test_readhap_sort() {
    let mut observed = vec![
        ReadHaplotype::from_string("CAT"),
        ReadHaplotype::from_string("TAG"),
        ReadHaplotype::from_string("ACT"),
        ReadHaplotype::from_string("TAT"),
        ReadHaplotype::from_string("GAG"),
    ];
    observed.sort();
    let expected = vec![
        ReadHaplotype::from_string("ACT"),
        ReadHaplotype::from_string("CAT"),
        ReadHaplotype::from_string("GAG"),
        ReadHaplotype::from_string("TAG"),
        ReadHaplotype::from_string("TAT"),
    ];
    assert_eq!(observed, expected);
}

#[test]
fn test_readhap_text_round_trip() {
    for text in ["A", "ACGT", "GG-TC", "NNN", "C-N-G", ""] {
        let hap = ReadHaplotype::from_string(text);
        assert_eq!(hap.to_text(), text);
        assert_eq!(ReadHaplotype::from_string(&hap.to_text()), hap);
    }
}
