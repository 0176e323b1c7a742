use address_scanner::{AddressRecord, CompileError, Error, MemoryError};

#[test]
fn negative_offset_moves_back() {
    let mem = [0x00u8, 0x00, 0x00, 0x00, 0x00, 0x00, 0xE8, 0x11, 0x22];
    let base = 0x1000usize;
    let rec = AddressRecord::new("call_site", "E8 ? 22", -5).unwrap();
    assert_eq!(rec.resolve_first(&mem, base), Ok(base + 6 - 5));
}

#[test]
fn zero_offset_keeps_match_address() {
    let mem = [0x00u8, 0xE8, 0x11, 0x22];
    let rec = AddressRecord::new("call_site", "E8 ? 22", 0).unwrap();
    assert_eq!(rec.resolve_first(&mem, 0x1000), Ok(0x1001));
}

#[test]
fn positive_offset_moves_forward() {
    let mem = [0x00u8, 0xE8, 0x11, 0x22];
    let rec = AddressRecord::new("call_site", "E8 ? 22", 7).unwrap();
    assert_eq!(rec.resolve_first(&mem, 0x1000), Ok(0x1008));
    assert_eq!(rec.resolve_unique(&mem, 0x1000), Ok(0x1008));
}

#[test]
fn offset_below_zero_is_out_of_range() {
    let mem = [0xE8u8, 0x11, 0x22];
    let rec = AddressRecord::new("call_site", "E8", -1).unwrap();
    assert_eq!(rec.resolve_first(&mem, 0), Err(Error::OffsetOutOfRange));
    assert_eq!(rec.resolve_unique(&mem, 0), Err(Error::OffsetOutOfRange));
}

#[test]
fn offset_past_max_is_out_of_range() {
    let mem = [0xE8u8];
    let rec = AddressRecord::new("end", "E8", 1).unwrap();
    assert_eq!(rec.resolve_first(&mem, usize::MAX - 1), Ok(usize::MAX));
    let rec = AddressRecord::new("past_end", "E8", 2).unwrap();
    assert_eq!(rec.resolve_first(&mem, usize::MAX - 1), Err(Error::OffsetOutOfRange));
}

#[test]
fn unique_resolution_rejects_two_matches() {
    let mem = [0xAAu8, 0xBB, 0x00, 0xAA, 0xBB];
    let base = 0x5000usize;
    let rec = AddressRecord::new("weak", "AA BB", 2).unwrap();
    assert_eq!(rec.resolve_unique(&mem, base), Err(Error::MultipleMatchesFound));
    assert_eq!(rec.resolve_first(&mem, base), Ok(base + 2));
}

#[test]
fn unique_resolution_of_single_match() {
    let mem = [0x00u8, 0xAA, 0xBB, 0x00];
    let rec = AddressRecord::new("strong", "AA BB", -1).unwrap();
    assert_eq!(rec.resolve_unique(&mem, 0x5000), Ok(0x5000));
}

#[test]
fn resolution_without_match_is_not_found() {
    let mem = [0x00u8, 0x01, 0x02];
    let rec = AddressRecord::new("absent", "AA", 0).unwrap();
    let first = rec.resolve_first(&mem, 0x10);
    let unique = rec.resolve_unique(&mem, 0x10);
    assert_eq!(first, Err(Error::Memory(MemoryError::NotFound)));
    assert_eq!(unique, Err(Error::Memory(MemoryError::NotFound)));
    assert!(first.unwrap_err().is_not_found());
}

#[test]
fn other_errors_are_not_not_found() {
    assert!(!Error::MultipleMatchesFound.is_not_found());
    assert!(!Error::OffsetOutOfRange.is_not_found());
    assert!(!Error::Memory(MemoryError::MultipleMatchesFound).is_not_found());
    assert!(!Error::Memory(MemoryError::PatternScan(CompileError::Empty)).is_not_found());
}

#[test]
fn record_with_bad_signature_fails_at_declaration() {
    assert!(matches!(
        AddressRecord::new("bad", "90 9", 0),
        Err(CompileError::InvalidToken { position: 1, .. })
    ));
    assert!(matches!(AddressRecord::new("bad", "", 0), Err(CompileError::Empty)));
}

#[test]
fn record_keeps_its_declaration() {
    let rec = AddressRecord::new("player_health", "48 8B ? ? 90", -3).unwrap();
    assert_eq!(rec.name(), "player_health");
    assert_eq!(rec.offset(), -3);
    assert_eq!(rec.pattern().render(), "48 8B ? ? 90");
}

#[test]
fn record_offset_defaults_to_zero() {
    let mem = [0x00u8, 0xE8, 0x11, 0x22];
    let rec = AddressRecord::from_pattern("call_site", "E8 ? 22").unwrap();
    assert_eq!(rec.offset(), 0);
    assert_eq!(rec.resolve_first(&mem, 0x1000), Ok(0x1001));
    assert_eq!(AddressRecord::from_pattern("empty", " ").err(), Some(CompileError::Empty));
}
