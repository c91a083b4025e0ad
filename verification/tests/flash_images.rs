use agent_sim::load::ihex::parse_intel_hex_checked;
use agent_sim::load::records::is_ascii_text;
use agent_sim::load::srec::parse_srec_checked;
use agent_sim::load::memory::{FlashMemory, ResolvedFlashRegion};
use agent_sim::load::resolve::{
    env_member_source, parse_cli_flash_entry, resolve_flash_blocks, DeviceDef, EnvInstance, FlashBlockDef,
    FlashFileBlockDef, LoadResolveError, MemberSource,
};
use agent_sim::load::ihex::parse_intel_hex;
use agent_sim::load::srec::parse_srec;
use agent_sim::load::{
    encode_inline_bool, encode_inline_f32_bits, encode_inline_i32, encode_inline_u32, ensure_address_range,
    merge_regions, parse_address, parse_raw_binary, FlashFormat, FlashParseError,
};

#[test]
fn parse_address_accepts_hex_and_decimal() {
    assert_eq!(parse_address("0x08000000").expect("hex address should parse"), 0x0800_0000);
    assert_eq!(parse_address("4096").expect("decimal address should parse"), 4096);
}

#[test]
fn parse_address_rejects_garbage_and_overflow() {
    assert!(matches!(parse_address("0xZZ"), Err(FlashParseError::InvalidAddress(_))));
    assert!(matches!(parse_address("4294967296"), Err(FlashParseError::InvalidAddress(_))));
    assert_eq!(parse_address("0XFFFFFFFF").expect("upper-case prefix should parse"), u32::MAX);
}

#[test]
fn parse_intel_hex_merges_records_and_validates_checksum() {
    let content = ":020000040800F2\n:0400000001020304F2\n:00000001FF\n";
    let regions = parse_intel_hex(content).expect("valid ihex should parse");
    assert_eq!(
        regions,
        vec![ResolvedFlashRegion {
            base_addr: 0x0800_0000,
            data: vec![1, 2, 3, 4],
        }]
    );

    let err = parse_intel_hex(":0400000001020304F3\n").expect_err("bad checksum must fail");
    assert!(matches!(err, FlashParseError::InvalidIntelHex { .. }));
}

#[test]
fn parse_intel_hex_later_records_overwrite_earlier_bytes() {
    let content = ":0400000001020304F2\n:01000100AA54\n:00000001FF\n";
    let regions = parse_intel_hex(content).expect("overlapping records should parse");
    assert_eq!(
        regions,
        vec![ResolvedFlashRegion {
            base_addr: 0,
            data: vec![1, 0xAA, 3, 4],
        }]
    );
}

#[test]
fn parse_srec_reads_data_records_and_validates_checksum() {
    let content = "S00600004844521B\nS107123401020304A8\nS9030000FC\n";
    let regions = parse_srec(content).expect("valid srec should parse");
    assert_eq!(
        regions,
        vec![ResolvedFlashRegion {
            base_addr: 0x1234,
            data: vec![1, 2, 3, 4],
        }]
    );

    let err = parse_srec("S107123401020304A9\n").expect_err("bad checksum must fail");
    assert!(matches!(err, FlashParseError::InvalidSrec { .. }));
}

#[test]
fn flash_memory_last_write_wins_and_regions_compact() {
    let mut memory = FlashMemory::default();
    memory.write(0x1000, &[1, 2, 3]).expect("first write should succeed");
    memory.write(0x1001, &[9]).expect("overlapping write should succeed");
    memory.write(0x2000, &[7]).expect("disjoint write should succeed");
    assert_eq!(
        memory.into_regions(),
        vec![
            ResolvedFlashRegion {
                base_addr: 0x1000,
                data: vec![1, 9, 3],
            },
            ResolvedFlashRegion {
                base_addr: 0x2000,
                data: vec![7],
            },
        ]
    );
}

#[test]
fn flash_memory_joins_adjacent_writes() {
    let mut memory = FlashMemory::new();
    memory.write(0x10, &[1, 2]).expect("write should succeed");
    memory.write(0x12, &[3]).expect("adjacent write should succeed");
    assert_eq!(
        memory.into_regions(),
        vec![ResolvedFlashRegion {
            base_addr: 0x10,
            data: vec![1, 2, 3],
        }]
    );
}

#[test]
fn flash_memory_refuses_writes_past_the_address_space() {
    let mut memory = FlashMemory::new();
    assert!(matches!(
        memory.write(u32::MAX, &[1, 2]),
        Err(FlashParseError::AddressOverflow { base_addr: u32::MAX, len: 2 })
    ));
    assert!(memory.write(u32::MAX, &[1]).is_ok());
}

#[test]
fn parse_raw_binary_requires_32bit_address_space() {
    let region = parse_raw_binary(&[0xAA, 0xBB], 0x0800_0000).expect("binary should parse");
    assert_eq!(region.base_addr, 0x0800_0000);
    assert_eq!(region.data, vec![0xAA, 0xBB]);

    let err = parse_raw_binary(&[0; 2], u32::MAX).expect_err("overflow must fail");
    assert!(matches!(err, FlashParseError::AddressOverflow { .. }));
}

#[test]
fn address_range_allows_the_last_byte() {
    assert!(ensure_address_range(u32::MAX, 1).is_ok());
    assert!(ensure_address_range(u32::MAX, 0).is_ok());
    assert!(ensure_address_range(0xFFFF_FFF0, 17).is_err());
}

#[test]
fn merge_regions_prefers_later_regions() {
    let merged = merge_regions(&[
        ResolvedFlashRegion {
            base_addr: 0,
            data: vec![1, 1, 1],
        },
        ResolvedFlashRegion {
            base_addr: 1,
            data: vec![2],
        },
        ResolvedFlashRegion {
            base_addr: 8,
            data: vec![5],
        },
    ])
    .expect("regions should merge");
    assert_eq!(
        merged,
        vec![
            ResolvedFlashRegion {
                base_addr: 0,
                data: vec![1, 2, 1],
            },
            ResolvedFlashRegion {
                base_addr: 8,
                data: vec![5],
            },
        ]
    );
}

#[test]
fn inline_values_encode_little_endian() {
    assert_eq!(encode_inline_u32(0x1234_5678), vec![0x78, 0x56, 0x34, 0x12]);
    assert_eq!(encode_inline_i32(-2), (-2_i32).to_le_bytes().to_vec());
    assert_eq!(encode_inline_f32_bits(3.5_f32.to_bits()), 3.5_f32.to_le_bytes().to_vec());
    assert_eq!(encode_inline_bool(true), vec![1]);
    assert_eq!(encode_inline_bool(false), vec![0]);
}

#[test]
fn resolve_flash_blocks_merges_overlaps_in_order() {
    let blocks = vec![
        FlashBlockDef::InlineU32 {
            value: 0x1122_3344,
            addr: "0x1000".to_string(),
        },
        FlashBlockDef::InlineBool {
            value: true,
            addr: "0x1001".to_string(),
        },
    ];
    let regions = resolve_flash_blocks(&blocks, Vec::new()).expect("inline blocks should resolve");
    assert_eq!(
        regions,
        vec![ResolvedFlashRegion {
            base_addr: 0x1000,
            data: vec![0x44, 0x01, 0x22, 0x11],
        }]
    );
}

#[test]
fn resolve_flash_blocks_uses_file_regions_in_block_order() {
    let blocks = vec![
        FlashBlockDef::File(FlashFileBlockDef {
            file: "cal.hex".to_string(),
            format: None,
            base: None,
        }),
        FlashBlockDef::InlineI32 {
            value: -1,
            addr: "0x2".to_string(),
        },
    ];
    let file_regions = vec![Ok(vec![ResolvedFlashRegion {
        base_addr: 0,
        data: vec![0xAA, 0xBB, 0xCC],
    }])];
    let regions = resolve_flash_blocks(&blocks, file_regions).expect("blocks should resolve");
    assert_eq!(
        regions,
        vec![ResolvedFlashRegion {
            base_addr: 0,
            data: vec![0xAA, 0xBB, 0xFF, 0xFF, 0xFF, 0xFF],
        }]
    );
}

#[test]
fn resolve_flash_blocks_reports_bad_addresses_and_file_errors() {
    let blocks = vec![FlashBlockDef::InlineU32 {
        value: 1,
        addr: "nowhere".to_string(),
    }];
    assert!(matches!(
        resolve_flash_blocks(&blocks, Vec::new()),
        Err(LoadResolveError::Flash(FlashParseError::InvalidAddress(_)))
    ));
    let file_blocks = vec![FlashBlockDef::File(FlashFileBlockDef {
        file: "missing.hex".to_string(),
        format: None,
        base: None,
    })];
    let failed = vec![Err(LoadResolveError::Message("flash file not found".to_string()))];
    assert_eq!(
        resolve_flash_blocks(&file_blocks, failed),
        Err(LoadResolveError::Message("flash file not found".to_string()))
    );
}

#[test]
fn parse_cli_flash_entry_handles_optional_binary_base() {
    let (path, base) = parse_cli_flash_entry("./cal.hex").expect("hex entry should parse");
    assert_eq!((path.as_str(), base.as_deref()), ("./cal.hex", None));
    let (path, base) = parse_cli_flash_entry("./blob.bin:0x08040000").expect("bin entry should parse");
    assert_eq!((path.as_str(), base.as_deref()), ("./blob.bin", Some("0x08040000")));
    let (path, base) = parse_cli_flash_entry("./blob.bin:").expect("trailing colon should be treated as path");
    assert_eq!((path.as_str(), base.as_deref()), ("./blob.bin:", None));
}

#[test]
fn resolve_env_member_rejects_missing_device_reference() {
    let member = EnvInstance {
        name: "ecu-a".to_string(),
        lib: None,
        device: Some("missing".to_string()),
    };
    match env_member_source(&member, &[]) {
        Err(LoadResolveError::Message(m)) => assert!(m.contains("missing device")),
        other => panic!("missing device should fail: {other:?}"),
    }
}

#[test]
fn resolve_env_member_rejects_lib_and_device_together() {
    let member = EnvInstance {
        name: "ecu-a".to_string(),
        lib: Some("./libecu.so".to_string()),
        device: Some("ecu".to_string()),
    };
    match env_member_source(&member, &[]) {
        Err(LoadResolveError::Message(m)) => assert!(m.contains("both 'lib' and 'device'")),
        other => panic!("lib+device should fail: {other:?}"),
    }
}

#[test]
fn env_member_source_finds_devices_by_name() {
    let devices = vec![
        (
            "pump".to_string(),
            DeviceDef {
                lib: "./libpump.so".to_string(),
                flash: vec![],
            },
        ),
        (
            "ecu".to_string(),
            DeviceDef {
                lib: "./libecu.so".to_string(),
                flash: vec![],
            },
        ),
    ];
    let member = EnvInstance {
        name: "ecu-a".to_string(),
        lib: None,
        device: Some("ecu".to_string()),
    };
    assert_eq!(env_member_source(&member, &devices), Ok(MemberSource::Device(1)));
    let neither = EnvInstance {
        name: "ecu-b".to_string(),
        lib: None,
        device: None,
    };
    assert!(env_member_source(&neither, &devices).is_err());
}

#[test]
fn flash_format_is_named_or_taken_from_the_extension() {
    assert_eq!(FlashFormat::parse("IHEX").expect("format name should parse"), FlashFormat::IntelHex);
    assert!(matches!(FlashFormat::parse("elf"), Err(FlashParseError::UnsupportedFormat(_))));
    assert_eq!(
        FlashFormat::from_extension("fw.s19", Some("s19")).expect("srec extension should map"),
        FlashFormat::Srec
    );
    assert_eq!(FlashFormat::infer("fw.bin", None).expect("bin extension should map"), FlashFormat::Binary);
}

#[test]
fn checked_readers_refuse_only_where_slicing_would_split_a_character() {
    assert!(is_ascii_text(":00000001FF"));
    assert!(!is_ascii_text(":0é"));
    assert!(matches!(
        parse_intel_hex_checked(":0é000001FF\n"),
        Some(Err(FlashParseError::InvalidIntelHex { line: 1, ref message })) if message == "record has invalid hex length"
    ));
    assert_eq!(parse_intel_hex_checked(":0é0000001FF\n"), None);
    assert_eq!(parse_intel_hex_checked(":00000001FF\nhé\n"), Some(Ok(vec![])));
    assert_eq!(parse_intel_hex_checked(":00000001FF\n"), Some(Ok(vec![])));
    assert_eq!(parse_srec_checked("Sé00\n"), None);
    assert!(matches!(
        parse_srec_checked("X1\n"),
        Some(Err(FlashParseError::InvalidSrec { line: 1, .. }))
    ));
}

#[test]
fn nothing_after_the_end_of_file_record_is_read() {
    let tail = ":0400000001020304F2\n";
    assert_eq!(parse_intel_hex(":00000001FF\n"), parse_intel_hex(&format!(":00000001FF\n{tail}garbage\n")));
}

#[test]
fn flash_format_follows_the_documented_extension() {
    assert_eq!(FlashFormat::infer("blob.BIN", None).expect("upper-case extension maps"), FlashFormat::Binary);
    assert_eq!(FlashFormat::infer("./cal.hex", None).expect("hex extension maps"), FlashFormat::IntelHex);
    assert_eq!(FlashFormat::infer("cal.bin", Some("hex")).expect("explicit format wins"), FlashFormat::IntelHex);
    assert!(matches!(
        FlashFormat::infer("firmware", None),
        Err(FlashParseError::UnsupportedFormat(ref p)) if p == "firmware"
    ));
    assert!(matches!(
        FlashFormat::infer(".hex", None),
        Err(FlashParseError::UnsupportedFormat(ref p)) if p == ".hex"
    ));
}
