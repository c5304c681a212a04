use pocket_core::error::PocketError;
use pocket_core::memory::{gigabytes_text, ram_threshold, verify_ram_safety};

const GIGABYTE: u64 = 1_073_741_824;

#[test]
fn gigabytes_have_two_decimals() {
    assert_eq!(gigabytes_text(0), "0.00");
    assert_eq!(gigabytes_text(GIGABYTE), "1.00");
    assert_eq!(gigabytes_text(1_825_361_100), "1.70");
    for bytes in [1, 5_368_709, 5_368_710, 16_106_127_360, 134_217_728, 402_653_184, 999_999_999_999]
    {
        assert_eq!(
            gigabytes_text(bytes),
            format!("{:.2}", bytes as f64 / 1_073_741_824.0)
        );
    }
}

#[test]
fn the_threshold_is_four_fifths() {
    assert_eq!(ram_threshold(10), 8);
    assert_eq!(ram_threshold(11), 8);
    for ram in [0, 7, 4 * GIGABYTE, 16_842_350_592, 34_359_738_367, 549_755_813_888] {
        assert_eq!(ram_threshold(ram), (ram as f64 * 0.8) as u64);
    }
}

#[test]
fn a_model_of_exactly_four_fifths_passes() {
    assert!(verify_ram_safety("m", Ok(800), 1000, false).is_ok());
    assert!(verify_ram_safety("m", Ok(801), 1000, false).is_err());
}

#[test]
fn a_model_that_is_too_large_is_refused() {
    match verify_ram_safety("m", Ok(8 * GIGABYTE), 8 * GIGABYTE, false) {
        Err(PocketError::MemoryInsufficient(text)) => assert_eq!(
            text,
            "CRITICAL: Quantized model size (8.00 GB) exceeds 80% of physical system RAM (8.00 GB).\nLoading this model may freeze or destabilize your operating system.\nUse the '--force-ram' flag to bypass this hardware safety interlock."
        ),
        _ => panic!("not refused"),
    }
}

#[test]
fn a_file_without_a_size_is_a_configuration_error() {
    match verify_ram_safety("\"model.gguf\"", Err("not found".to_string()), 1000, false) {
        Err(PocketError::ConfigError(text)) => assert_eq!(
            text,
            "Failed to read model file size from \"model.gguf\". Error: not found"
        ),
        _ => panic!("not refused"),
    }
}

#[test]
fn forcing_skips_every_check() {
    assert!(verify_ram_safety("m", Ok(u64::MAX), 0, true).is_ok());
    assert!(verify_ram_safety("m", Err("x".to_string()), 0, true).is_ok());
}
