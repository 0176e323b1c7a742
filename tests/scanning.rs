use address_scanner::{space_hex_to_bytes, CompileError, Matcher, MemoryError, MemoryUtils, Pattern};

#[test]
fn test_pattern_scan() {
    let pattern =
        "81 08 10 00 00 48 ? ? ? ? ? ? 66 44 89 01 48 3B D0 74 ? 44 89 ? ? ? ? ? 44 88 00";
    let bytes = space_hex_to_bytes("45 33 C0 48 8D 81 08 10 00 00 48 8D 15 B7 FF AA 00 66 44 89 01 48 3B D0 74 0A 44 89 81 04 10 00 00 44 88 00").unwrap();
    let bytes_slice = bytes.as_slice();
    MemoryUtils::scan_first(bytes_slice, 0, pattern).unwrap();
}

#[test]
fn scan_finds_signature_at_its_offset() {
    let pattern =
        "81 08 10 00 00 48 ? ? ? ? ? ? 66 44 89 01 48 3B D0 74 ? 44 89 ? ? ? ? ? 44 88 00";
    let bytes = space_hex_to_bytes("45 33 C0 48 8D 81 08 10 00 00 48 8D 15 B7 FF AA 00 66 44 89 01 48 3B D0 74 0A 44 89 81 04 10 00 00 44 88 00").unwrap();
    assert_eq!(MemoryUtils::scan_first(&bytes, 0x1000, pattern), Ok(0x1005));
    assert_eq!(MemoryUtils::scan_all(&bytes, 0x1000, pattern), Ok(vec![0x1005]));
}

#[test]
fn exact_region_matches_at_base() {
    let mem = [0x90u8, 0x90, 0x90];
    let base = 0x4000_0000usize;
    assert_eq!(MemoryUtils::scan_first(&mem, base, "90 90 90"), Ok(base));
    assert_eq!(MemoryUtils::scan_all(&mem, base, "90 90 90"), Ok(vec![base]));
}

#[test]
fn wildcard_matches_any_byte() {
    let p = Pattern::compile("90 ? 90").unwrap();
    for b in 0..=255u8 {
        let mem = [0x90u8, b, 0x90];
        assert_eq!(p.find_first(&mem), Some(0));
        assert_eq!(p.find_all(&mem), vec![0]);
    }
    assert_eq!(MemoryUtils::scan_first(&[0x90, 0x00, 0x90], 10, "90 ? 90"), Ok(10));
    assert_eq!(MemoryUtils::scan_first(&[0x90, 0xFF, 0x90], 10, "90 ? 90"), Ok(10));
}

#[test]
fn no_matching_window_is_not_found() {
    let mem = [0x01u8, 0x02, 0x03, 0x04];
    assert_eq!(MemoryUtils::scan_first(&mem, 0x100, "02 04"), Err(MemoryError::NotFound));
    assert_eq!(MemoryUtils::scan_all(&mem, 0x100, "02 04"), Err(MemoryError::NotFound));
}

#[test]
fn pattern_longer_than_region_is_not_found() {
    let mem = [0x90u8, 0x90];
    assert_eq!(MemoryUtils::scan_first(&mem, 0, "90 90 90"), Err(MemoryError::NotFound));
    assert_eq!(MemoryUtils::scan_all(&[], 0, "?"), Err(MemoryError::NotFound));
}

#[test]
fn overlapping_matches_all_reported_in_order() {
    let mem = [0xAAu8, 0xAA, 0xAA];
    let base = 0x2000usize;
    assert_eq!(MemoryUtils::scan_all(&mem, base, "AA AA"), Ok(vec![base, base + 1]));
    assert_eq!(MemoryUtils::scan_first(&mem, base, "AA AA"), Ok(base));
}

#[test]
fn match_at_region_end() {
    let mem = [0x00u8, 0x11, 0x22, 0x33];
    assert_eq!(MemoryUtils::scan_first(&mem, 0x10, "22 33"), Ok(0x12));
    assert_eq!(MemoryUtils::scan_all(&mem, 0x10, "?? 33"), Ok(vec![0x12]));
}

#[test]
fn scan_with_bad_signature_reports_compile_error() {
    let mem = [0x90u8; 4];
    assert_eq!(
        MemoryUtils::scan_first(&mem, 0, "90 XY"),
        Err(MemoryError::PatternScan(CompileError::InvalidToken {
            token: b"XY".to_vec(),
            position: 1
        }))
    );
    assert_eq!(
        MemoryUtils::scan_all(&mem, 0x40, "ZZ 90"),
        Err(MemoryError::PatternScan(CompileError::InvalidToken {
            token: b"ZZ".to_vec(),
            position: 0
        }))
    );
    assert_eq!(
        MemoryUtils::scan_all(&mem, 0, ""),
        Err(MemoryError::PatternScan(CompileError::Empty))
    );
}

#[test]
fn compile_reads_tokens_in_order() {
    let p = Pattern::compile("48 8b ?? * ** ? Ff").unwrap();
    assert_eq!(
        p.matchers(),
        &vec![
            Matcher::Exact(0x48),
            Matcher::Exact(0x8B),
            Matcher::Wildcard,
            Matcher::Wildcard,
            Matcher::Wildcard,
            Matcher::Wildcard,
            Matcher::Exact(0xFF),
        ]
    );
    assert_eq!(p.len(), 7);
}

#[test]
fn compile_accepts_any_ascii_whitespace() {
    let p = Pattern::compile("  01\t02\n\n03  ").unwrap();
    assert_eq!(
        p.matchers(),
        &vec![Matcher::Exact(1), Matcher::Exact(2), Matcher::Exact(3)]
    );
}

#[test]
fn single_hex_digit_is_invalid() {
    assert_eq!(
        Pattern::compile("9"),
        Err(CompileError::InvalidToken { token: b"9".to_vec(), position: 0 })
    );
}

#[test]
fn non_hex_token_is_invalid() {
    assert_eq!(
        Pattern::compile("ZZ"),
        Err(CompileError::InvalidToken { token: b"ZZ".to_vec(), position: 0 })
    );
}

#[test]
fn first_invalid_token_is_named() {
    assert_eq!(
        Pattern::compile("90 9 ZZ 90"),
        Err(CompileError::InvalidToken { token: b"9".to_vec(), position: 1 })
    );
    assert_eq!(
        Pattern::compile("90 +9"),
        Err(CompileError::InvalidToken { token: b"+9".to_vec(), position: 1 })
    );
    assert_eq!(
        Pattern::compile("90 ??? 90"),
        Err(CompileError::InvalidToken { token: b"???".to_vec(), position: 1 })
    );
    assert_eq!(
        Pattern::compile("123"),
        Err(CompileError::InvalidToken { token: b"123".to_vec(), position: 0 })
    );
}

#[test]
fn empty_signature_fails() {
    assert_eq!(Pattern::compile(""), Err(CompileError::Empty));
    assert_eq!(Pattern::compile(" \t "), Err(CompileError::Empty));
}

#[test]
fn render_is_canonical() {
    let p = Pattern::compile("81 08 ?? * 4b ab").unwrap();
    assert_eq!(p.render(), "81 08 ? ? 4B AB");
}

#[test]
fn render_compile_round_trip_is_stable() {
    let p = Pattern::compile("  81 08 ?? *  4b\tab ** 00 ").unwrap();
    let text = p.render();
    let q = Pattern::compile(&text).unwrap();
    assert_eq!(p, q);
    assert_eq!(q.render(), text);
    let r = Pattern::compile(&q.render()).unwrap();
    assert_eq!(r, p);
}

#[test]
fn hex_to_bytes_writes_wildcards_as_ff() {
    assert_eq!(
        space_hex_to_bytes("F3 48 ** 7E ?? 49 ? *"),
        Ok(vec![0xF3, 0x48, 0xFF, 0x7E, 0xFF, 0x49, 0xFF, 0xFF])
    );
}

#[test]
fn hex_to_bytes_of_empty_text_fails() {
    assert_eq!(space_hex_to_bytes(""), Err(CompileError::Empty));
    assert_eq!(space_hex_to_bytes("   "), Err(CompileError::Empty));
}

#[test]
fn hex_to_bytes_rejects_bad_token() {
    assert_eq!(
        space_hex_to_bytes("F3 4"),
        Err(CompileError::InvalidToken { token: b"4".to_vec(), position: 1 })
    );
    assert_eq!(
        space_hex_to_bytes("GG"),
        Err(CompileError::InvalidToken { token: b"GG".to_vec(), position: 0 })
    );
}

fn naive_offsets(p: &[Matcher], mem: &[u8]) -> Vec<usize> {
    let mut out = Vec::new();
    if p.len() > mem.len() {
        return out;
    }
    for i in 0..=mem.len() - p.len() {
        let ok = p.iter().enumerate().all(|(k, m)| match m {
            Matcher::Exact(b) => mem[i + k] == *b,
            Matcher::Wildcard => true,
        });
        if ok {
            out.push(i);
        }
    }
    out
}

#[test]
fn skip_search_agrees_with_every_window() {
    let signatures = [
        "AA", "AA BB", "AA ? BB", "? AA", "AA ?", "BB AA BB", "AA AA AA", "? ? AA ? BB", "CC BB AA",
        "AA BB AA BB",
    ];
    // A small generator over a three-letter alphabet, so matches are common.
    let mut state: u32 = 12345;
    for round in 0..200 {
        let len = (round % 40) as usize;
        let mut mem = Vec::new();
        for _ in 0..len {
            state = state.wrapping_mul(1103515245).wrapping_add(12345);
            mem.push([0xAAu8, 0xBB, 0xCC][((state >> 16) % 3) as usize]);
        }
        for sig in signatures.iter() {
            let p = Pattern::compile(sig).unwrap();
            let expected = naive_offsets(p.matchers(), &mem);
            assert_eq!(p.find_all(&mem), expected, "{sig} over {mem:02X?}");
            assert_eq!(p.find_first(&mem), expected.first().copied(), "{sig} over {mem:02X?}");
        }
    }
}

#[test]
fn cloned_pattern_is_equal() {
    let p = Pattern::compile("48 ? 8B").unwrap();
    let q = p.clone();
    assert_eq!(p, q);
    assert_eq!(q.render(), "48 ? 8B");
}
