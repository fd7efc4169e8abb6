use ace_dag::ace_data::{AceHeader, AceIsotopeData, IzawArray, IzawPair, JxsArray, NxsArray};
use ace_dag::blocks::{AsciiDecodeError, DataBlocks, xxs_entries_from_lines};

fn get_parsed_ascii_for_testing() -> AceIsotopeData {
    let mut pairs = Vec::new();
    for _ in 0..16 {
        pairs.push(IzawPair { za: 0, iz_bits: 0.0f64.to_bits() });
    }
    let nxs_entries = vec![10257usize, 1001, 631, 3];
    let mut jxs_entries = vec![0usize; 32];
    jxs_entries[0] = 1;
    let ace = AceIsotopeData {
        header: AceHeader {
            zaid: String::from("1001.00c"),
            szaid: Some(String::from("1001.800nc")),
        },
        izaw_array: IzawArray { pairs },
        nxs_array: NxsArray::from_entries(&nxs_entries).unwrap(),
        jxs_array: JxsArray::from_entries(&jxs_entries).unwrap(),
        data_blocks: DataBlocks { ESZ: None, MTR: None, LSIG: None, SIG: None },
    };
    ace
}

#[test]
fn test_szaid_parsing() {
    let parsed_ace = get_parsed_ascii_for_testing();
    assert_eq!(parsed_ace.szaid(), Some(String::from("1001.800nc")));
}

#[test]
fn test_zaid_parsing() {
    let parsed_ace = get_parsed_ascii_for_testing();
    assert_eq!(parsed_ace.zaid(), String::from("1001.00c"));
}

#[test]
fn test_izaw_parsing() {
    let parsed_ace = get_parsed_ascii_for_testing();
    for za_iz_pair in parsed_ace.s_a_b_pairs() {
        assert_eq!(za_iz_pair.za, 0);
        assert_eq!(f64::from_bits(za_iz_pair.iz_bits), 0.0);
    }
    assert_eq!(parsed_ace.s_a_b_pairs().len(), 16)
}

#[test]
fn test_num_entries_parsing() {
    let parsed_ace = get_parsed_ascii_for_testing();
    assert_eq!(parsed_ace.num_entries(), 10257);
}

#[test]
fn test_num_energies_parsing() {
    let parsed_ace = get_parsed_ascii_for_testing();
    assert_eq!(parsed_ace.num_energies(), 631);
}

#[test]
fn test_za_parsing() {
    let parsed_ace = get_parsed_ascii_for_testing();
    assert_eq!(parsed_ace.za(), 1001);
}

#[test]
fn test_z_parsing() {
    let parsed_ace = get_parsed_ascii_for_testing();
    assert_eq!(parsed_ace.z(), 1);
}

#[test]
fn test_a_parsing() {
    let parsed_ace = get_parsed_ascii_for_testing();
    assert_eq!(parsed_ace.a(), 1);
}

// A minimal XXS region: one energy point, one reaction. The entries, at
// their 1-based positions: ESZ at 1..6, MTR at 6, LSIG at 7, SIG at 8.
fn tiny_xxs_lines() -> Vec<Vec<u8>> {
    let line1 = format!(
        "{:>20}{:>20}{:>20}{:>20}",
        "1.0000000000000E-11", "2.0000000000000E+01", "3.0000000000000E+01", "4.0000000000000E+01"
    );
    let line2 = format!(
        "{:>20}{:>20}{:>20}{:>20}",
        "5.0000000000000E+01", "102", "1", "9.9000000000000E-01"
    );
    vec![line1.into_bytes(), line2.into_bytes()]
}

fn tiny_nxs() -> NxsArray {
    // xxs_len 8, ZA 1001, one energy, one reaction
    NxsArray::from_entries(&vec![8usize, 1001, 1, 1]).unwrap()
}

fn tiny_jxs() -> JxsArray {
    let mut jxs_entries = vec![0usize; 32];
    jxs_entries[0] = 1; // ESZ
    jxs_entries[2] = 6; // MTR
    jxs_entries[5] = 7; // LSIG
    jxs_entries[6] = 8; // SIG
    JxsArray::from_entries(&jxs_entries).unwrap()
}

#[test]
fn test_lsig_parsing() {
    let lines = tiny_xxs_lines();
    let parsed = DataBlocks::from_ascii_xxs(&lines, &tiny_nxs(), &tiny_jxs()).unwrap();
    let lsig = parsed.LSIG.unwrap();
    assert_eq!(lsig.xs_locs, vec![1]);
}

#[test]
fn test_xxs_entries_are_one_indexed_and_trimmed() {
    let entries = xxs_entries_from_lines(&tiny_xxs_lines());
    assert_eq!(entries.len(), 9);
    assert!(entries[0].is_empty());
    assert_eq!(entries[1], b"1.0000000000000E-11".to_vec());
    assert_eq!(entries[6], b"102".to_vec());
    assert_eq!(entries[7], b"1".to_vec());
}

#[test]
fn test_all_blocks_decoded_from_tiny_table() {
    let lines = tiny_xxs_lines();
    let parsed = DataBlocks::from_ascii_xxs(&lines, &tiny_nxs(), &tiny_jxs()).unwrap();
    let esz = parsed.ESZ.unwrap();
    assert_eq!(esz.energy, vec![b"1.0000000000000E-11".to_vec()]);
    let mtr = parsed.MTR.unwrap();
    assert_eq!(mtr.lines, vec![b"102".to_vec()]);
    let sig = parsed.SIG.unwrap();
    assert_eq!(sig.lines, vec![b"9.9000000000000E-01".to_vec()]);
    assert_eq!(sig.xs_locs, vec![1]);
    assert_eq!(sig.num_reactions, 1);
    assert_eq!(sig.num_energies, 1);
}

#[test]
fn test_bad_locator_field_is_refused() {
    // The LSIG entry is not a decimal number: decoding reports a typed
    // failure rather than aborting.
    let line1 = format!(
        "{:>20}{:>20}{:>20}{:>20}",
        "1.0000000000000E-11", "2.0000000000000E+01", "3.0000000000000E+01", "4.0000000000000E+01"
    );
    let line2 = format!(
        "{:>20}{:>20}{:>20}{:>20}",
        "5.0000000000000E+01", "102", "1.00000000000000E+00", "9.9000000000000E-01"
    );
    let lines = vec![line1.into_bytes(), line2.into_bytes()];
    let err = DataBlocks::from_ascii_xxs(&lines, &tiny_nxs(), &tiny_jxs()).unwrap_err();
    // The failing task is the locator block, and it is named.
    match err {
        AsciiDecodeError::TaskFailed(e) => {
            assert_eq!(e.failure.key, 6);
            assert!(e.never_started.contains(&7));
        },
        AsciiDecodeError::IncompleteBlockLayout => panic!("wrong error variant"),
    }
}

#[test]
fn test_missing_block_is_refused() {
    // No SIG slot recorded: the decoded set is incomplete.
    let mut jxs_entries = vec![0usize; 32];
    jxs_entries[0] = 1;
    jxs_entries[2] = 6;
    jxs_entries[5] = 7;
    let jxs = JxsArray::from_entries(&jxs_entries).unwrap();
    assert!(matches!(
        DataBlocks::from_ascii_xxs(&tiny_xxs_lines(), &tiny_nxs(), &jxs),
        Err(AsciiDecodeError::IncompleteBlockLayout)
    ));
}

#[test]
fn test_nxs_z_and_a_derivation() {
    let nxs = NxsArray::from_entries(&vec![100usize, 92235, 10, 2]).unwrap();
    assert_eq!(nxs.z, 92);
    assert_eq!(nxs.a, 235);
}
