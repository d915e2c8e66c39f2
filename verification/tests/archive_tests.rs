use itpack::common::validate_entries;
use itpack::common::validate_header;
use itpack::common::payload_region_start;
use itpack::common::FileEntry;
use itpack::common::FileHeader;
use itpack::encryption::gen_entries_key;
use itpack::encryption::gen_entries_offset;
use itpack::encryption::gen_file_key;
use itpack::encryption::gen_header_key;
use itpack::encryption::gen_header_offset;
use itpack::encryption::Snow2Decoder;
use itpack::encryption::Snow2Encoder;
use itpack::errors::CodecError;
use itpack::extract::run_extract_with_key_and_offset_search;
use itpack::list::run_list;
use itpack::list::run_list_with_key_search;
use itpack::pack::run_pack;
use itpack::pack::PackEncryption;
use itpack::pack::PackFile;
use itpack::salts::parse_salts;

fn key_of(name: &str, salt: &str) -> Vec<u8> {
    gen_header_key(name, salt)
}

/// A small deterministic byte generator for test payloads.
fn pseudo_bytes(n: usize, seed: u32) -> Vec<u8> {
    let mut state = seed;
    let mut out = Vec::with_capacity(n);
    for _ in 0..n {
        state = state.wrapping_mul(1664525).wrapping_add(1013904223);
        out.push((state >> 24) as u8);
    }
    out
}

#[test]
fn cipher_roundtrip_padded() {
    let key = key_of("t.it", "abc");
    let plain: Vec<u8> = (0u8..=250).collect();
    let mut enc = Snow2Encoder::new(&key);
    enc.write(&plain);
    let cipher = enc.end_encoding();
    // padded to a word boundary with at most three zero bytes
    assert_eq!(cipher.len(), 252);
    let mut dec = Snow2Decoder::new(&key, &cipher, 0);
    let back = dec.read(plain.len()).unwrap();
    assert_eq!(back, plain);
}

#[test]
fn cipher_output_differs_from_plaintext() {
    let key = key_of("t.it", "abc");
    let plain = vec![0u8; 64];
    let mut enc = Snow2Encoder::new(&key);
    enc.write(&plain);
    let cipher = enc.end_encoding();
    assert_eq!(cipher.len(), 64);
    assert_ne!(cipher, plain);
}

#[test]
fn cipher_sub_word_reads() {
    // an encoder output of 13 bytes plus 3 bytes of trailing zero padding
    let key = key_of("x.it", "k");
    let plain: Vec<u8> = vec![9, 8, 7, 6, 5, 4, 3, 2, 1, 10, 11, 12, 13];
    let mut enc = Snow2Encoder::new(&key);
    enc.write(&plain);
    let cipher = enc.end_encoding();
    assert_eq!(cipher.len(), 16);
    let mut dec = Snow2Decoder::new(&key, &cipher, 0);
    let mut got = Vec::new();
    for _ in 0..13 {
        let b = dec.read(1).unwrap();
        assert_eq!(b.len(), 1);
        got.push(b[0]);
    }
    assert_eq!(got, plain);
    assert_eq!(dec.stream_position(), 13);
}

#[test]
fn cipher_bulk_equals_split_reads() {
    let key = key_of("y.it", "salt");
    let plain = pseudo_bytes(100, 7);
    let mut enc = Snow2Encoder::new(&key);
    enc.write(&plain);
    let cipher = enc.end_encoding();
    let mut d1 = Snow2Decoder::new(&key, &cipher, 0);
    let bulk = d1.read(100).unwrap();
    let mut d2 = Snow2Decoder::new(&key, &cipher, 0);
    let mut split = Vec::new();
    for chunk in [1usize, 2, 3, 5, 9, 30, 50] {
        split.extend(d2.read(chunk).unwrap());
    }
    assert_eq!(split.len(), 100);
    assert_eq!(bulk, plain);
    assert_eq!(split, plain);
}

#[test]
fn decoder_seek_restarts_stream() {
    let key = key_of("z.it", "s");
    let plain = pseudo_bytes(64, 3);
    let mut enc = Snow2Encoder::new(&key);
    enc.write(&plain);
    let cipher = enc.end_encoding();
    let mut dec = Snow2Decoder::new(&key, &cipher, 0);
    let _ = dec.read(40).unwrap();
    let pos = dec.seek(itpack::encryption::SeekFrom::Start(8)).unwrap();
    assert_eq!(pos, 8);
    let got = dec.read(8).unwrap();
    assert_eq!(got, plain[8..16].to_vec());
    // end-relative seeks are not supported on a stream cipher
    assert!(dec.seek(itpack::encryption::SeekFrom::End(0)).is_err());
}

#[test]
fn header_offset_formula() {
    // "t.it" in UTF-16: 116 + 46 + 105 + 116 = 383
    assert_eq!(gen_header_offset("t.it"), 383 % 312 + 30);
    assert_eq!(gen_entries_offset("t.it"), (383 * 3) % 212 + 42);
    // case folding: the offsets ignore ASCII case
    assert_eq!(gen_header_offset("T.IT"), gen_header_offset("t.it"));
}

#[test]
fn header_key_formula() {
    let k = gen_header_key("t.it", "");
    assert_eq!(k.len(), 128);
    // K[i] = low8(W[i mod 4] + i) with W = [116, 46, 105, 116]
    let w = [116u16, 46, 105, 116];
    for i in 0..128 {
        assert_eq!(k[i], (w[i % 4].wrapping_add(i as u16) & 0xFF) as u8);
    }
}

#[test]
fn entries_key_formula() {
    let k = gen_entries_key("t.it", "s");
    assert_eq!(k.len(), 128);
    let w: Vec<u16> = [116u16, 46, 105, 116, 115].to_vec();
    for i in 0..128 {
        let expect = (i + (i % 3 + 2) * w[w.len() - 1 - i % w.len()] as usize) % 256;
        assert_eq!(k[i] as usize, expect);
    }
}

#[test]
fn file_key_formula_len() {
    let key2 = vec![0u8; 16];
    let k = gen_file_key("a.bin", &key2);
    assert_eq!(k.len(), 128);
}

#[test]
fn header_checksum_law() {
    let good = FileHeader { checksum: 2 + 7, version: 2, file_cnt: 7 };
    assert!(validate_header(&good).is_ok());
    let bad = FileHeader { checksum: 10, version: 2, file_cnt: 7 };
    assert_eq!(validate_header(&bad).unwrap_err(), CodecError::HeaderChecksum);
    // wrapping: version + file_cnt wraps in u32
    let wrap = FileHeader { checksum: 1, version: 2, file_cnt: u32::MAX };
    assert!(validate_header(&wrap).is_ok());
}

#[test]
fn entry_checksum_law() {
    let key: Vec<u8> = (1u8..=16).collect();
    let key_sum: u32 = key.iter().map(|b| *b as u32).sum();
    let good = FileEntry {
        name: String::from("a"),
        checksum: 5u32
            .wrapping_add(3)
            .wrapping_add(100)
            .wrapping_add(90)
            .wrapping_add(key_sum),
        flags: 5,
        offset: 3,
        original_size: 100,
        raw_size: 90,
        key: key.clone(),
    };
    assert!(validate_entries(&vec![good.clone()]).is_ok());
    let mut bad = good;
    bad.checksum = bad.checksum.wrapping_add(1);
    assert_eq!(
        validate_entries(&vec![bad]).unwrap_err(),
        CodecError::EntryChecksum
    );
}

#[test]
fn alignment_formula() {
    assert_eq!(payload_region_start(0), 0);
    assert_eq!(payload_region_start(1), 1024);
    assert_eq!(payload_region_start(1023), 1024);
    assert_eq!(payload_region_start(1024), 1024);
    assert_eq!(payload_region_start(1025), 2048);
    // the mask form of the law
    for x in [0u64, 1, 511, 1023, 1024, 1025, 4096, 70000] {
        assert_eq!(payload_region_start(x), (x + 1023) & !1023u64);
    }
}

#[test]
fn minimum_archive() {
    // pack an empty directory with salt "abc" and base name "t.it"
    let files: Vec<PackFile> = Vec::new();
    let exts: Vec<String> = Vec::new();
    let (arch, entries) =
        run_pack(&files, "t.it", "abc", &exts, PackEncryption::Plain).unwrap();
    assert!(entries.is_empty());
    // the header stands at the formula offset; listing yields zero lines
    let listing = run_list(&arch, "t.it", "abc").unwrap();
    assert!(listing.is_empty());
}

#[test]
fn single_plain_file() {
    let files = vec![PackFile { name: String::from("a.bin"), data: vec![0x01, 0x02, 0x03] }];
    let exts: Vec<String> = Vec::new();
    let (arch, entries) =
        run_pack(&files, "t.it", "S", &exts, PackEncryption::Plain).unwrap();
    assert_eq!(entries.len(), 1);
    assert_eq!(entries[0].flags, 0);
    assert_eq!(entries[0].offset, 0);
    assert_eq!(entries[0].original_size, 3);
    assert_eq!(entries[0].raw_size, 3);
    let cli = Some(String::from("S"));
    let salts: Vec<String> = Vec::new();
    let filters: Vec<String> = Vec::new();
    let out = run_extract_with_key_and_offset_search(&arch, "t.it", &cli, &salts, &filters)
        .unwrap();
    assert_eq!(out.len(), 1);
    assert_eq!(out[0].0, "a.bin");
    assert_eq!(out[0].1, vec![0x01, 0x02, 0x03]);
}

#[test]
fn compressed_file() {
    let content: Vec<u8> = b"hello".iter().cloned().cycle().take(5000).collect();
    let files = vec![PackFile { name: String::from("readme.txt"), data: content.clone() }];
    let exts = vec![
        String::from("txt"),
        String::from("xml"),
        String::from("dds"),
        String::from("pmg"),
        String::from("set"),
        String::from("raw"),
    ];
    let (arch, entries) =
        run_pack(&files, "t.it", "S", &exts, PackEncryption::Plain).unwrap();
    assert_eq!(entries.len(), 1);
    assert_eq!(entries[0].flags & 1, 1);
    assert_eq!(entries[0].original_size, 5000);
    assert!(entries[0].raw_size < 5000);
    let cli = Some(String::from("S"));
    let salts: Vec<String> = Vec::new();
    let filters: Vec<String> = Vec::new();
    let out = run_extract_with_key_and_offset_search(&arch, "t.it", &cli, &salts, &filters)
        .unwrap();
    assert_eq!(out.len(), 1);
    assert_eq!(out[0].0, "readme.txt");
    assert_eq!(out[0].1, content);
}

#[test]
fn head_encrypted_mid_size_file() {
    let content = pseudo_bytes(2048, 42);
    let files = vec![PackFile { name: String::from("data.raw"), data: content.clone() }];
    let exts: Vec<String> = Vec::new();
    let (arch, entries) =
        run_pack(&files, "t.it", "S", &exts, PackEncryption::Head).unwrap();
    assert_eq!(entries.len(), 1);
    // head-encrypted only: no compression, no full encryption
    assert_eq!(entries[0].flags, 4);
    assert_eq!(entries[0].raw_size, 2048);
    let cli = Some(String::from("S"));
    let salts: Vec<String> = Vec::new();
    let filters: Vec<String> = Vec::new();
    let out = run_extract_with_key_and_offset_search(&arch, "t.it", &cli, &salts, &filters)
        .unwrap();
    assert_eq!(out.len(), 1);
    assert_eq!(out[0].1, content);
}

#[test]
fn head_encrypted_short_file() {
    // raw_size below 1024: only the stored bytes are re-decrypted
    let content = pseudo_bytes(16, 5);
    let files = vec![PackFile { name: String::from("s.bin"), data: content.clone() }];
    let exts: Vec<String> = Vec::new();
    let (arch, entries) =
        run_pack(&files, "t.it", "S", &exts, PackEncryption::Head).unwrap();
    assert_eq!(entries[0].flags, 4);
    let cli = Some(String::from("S"));
    let salts: Vec<String> = Vec::new();
    let filters: Vec<String> = Vec::new();
    let out = run_extract_with_key_and_offset_search(&arch, "t.it", &cli, &salts, &filters)
        .unwrap();
    assert_eq!(out[0].1, content);
}

#[test]
fn all_encrypted_file() {
    let content = pseudo_bytes(100, 9);
    let files = vec![PackFile { name: String::from("e.bin"), data: content.clone() }];
    let exts: Vec<String> = Vec::new();
    let (arch, entries) =
        run_pack(&files, "t.it", "S", &exts, PackEncryption::All).unwrap();
    assert_eq!(entries[0].flags, 2);
    let cli = Some(String::from("S"));
    let salts: Vec<String> = Vec::new();
    let filters: Vec<String> = Vec::new();
    let out = run_extract_with_key_and_offset_search(&arch, "t.it", &cli, &salts, &filters)
        .unwrap();
    assert_eq!(out[0].1, content);
}

#[test]
fn compressed_empty_file_yields_empty_output() {
    // FLAG_COMPRESSED with raw_size 0 means an empty payload, no inflate
    let files = vec![PackFile { name: String::from("v.bin"), data: Vec::new() }];
    let exts: Vec<String> = Vec::new();
    let (arch, entries) =
        run_pack(&files, "t.it", "S", &exts, PackEncryption::Plain).unwrap();
    assert_eq!(entries[0].raw_size, 0);
    let cli = Some(String::from("S"));
    let salts: Vec<String> = Vec::new();
    let filters: Vec<String> = Vec::new();
    let out = run_extract_with_key_and_offset_search(&arch, "t.it", &cli, &salts, &filters)
        .unwrap();
    assert_eq!(out[0].1, Vec::<u8>::new());
}

#[test]
fn roundtrip_many_files() {
    // pack then extract recovers every (path, bytes) pair
    let mut files = Vec::new();
    for i in 0..5u32 {
        files.push(PackFile {
            name: format!("dir/file{}.bin", i),
            data: pseudo_bytes(300 * (i as usize + 1), i),
        });
    }
    let exts: Vec<String> = Vec::new();
    let (arch, _entries) =
        run_pack(&files, "pack.it", "mysalt", &exts, PackEncryption::All).unwrap();
    let cli = Some(String::from("mysalt"));
    let salts: Vec<String> = Vec::new();
    let filters: Vec<String> = Vec::new();
    let out =
        run_extract_with_key_and_offset_search(&arch, "pack.it", &cli, &salts, &filters).unwrap();
    assert_eq!(out.len(), 5);
    for i in 0..5usize {
        assert_eq!(out[i].0, files[i].name);
        assert_eq!(out[i].1, files[i].data);
    }
}

#[test]
fn salt_search_second_candidate() {
    let files = vec![PackFile { name: String::from("a.bin"), data: vec![7, 7, 7] }];
    let exts: Vec<String> = Vec::new();
    let (arch, _) = run_pack(&files, "t.it", "B", &exts, PackEncryption::Plain).unwrap();
    let cli: Option<String> = None;
    let salts = vec![String::from("A"), String::from("B"), String::from("C")];
    let filters: Vec<String> = Vec::new();
    let out = run_extract_with_key_and_offset_search(&arch, "t.it", &cli, &salts, &filters)
        .unwrap();
    assert_eq!(out.len(), 1);
    assert_eq!(out[0].1, vec![7, 7, 7]);
    // listing search finds it too
    let listing = run_list_with_key_search(&arch, "t.it", &cli, &salts).unwrap();
    assert_eq!(listing, vec![String::from("a.bin")]);
}

#[test]
fn extract_filters_select_entries() {
    let files = vec![
        PackFile { name: String::from("keep.txt"), data: vec![1] },
        PackFile { name: String::from("drop.bin"), data: vec![2] },
    ];
    let exts: Vec<String> = Vec::new();
    let (arch, _) = run_pack(&files, "t.it", "S", &exts, PackEncryption::Plain).unwrap();
    let cli = Some(String::from("S"));
    let salts: Vec<String> = Vec::new();
    let filters = vec![String::from("keep")];
    let out = run_extract_with_key_and_offset_search(&arch, "t.it", &cli, &salts, &filters)
        .unwrap();
    assert_eq!(out.len(), 1);
    assert_eq!(out[0].0, "keep.txt");
}

#[test]
fn error_no_salts() {
    let cli: Option<String> = None;
    let salts: Vec<String> = Vec::new();
    let filters: Vec<String> = Vec::new();
    let data: Vec<u8> = vec![0; 64];
    assert_eq!(
        run_extract_with_key_and_offset_search(&data, "t.it", &cli, &salts, &filters)
            .unwrap_err(),
        CodecError::NoSalts
    );
}

#[test]
fn error_invalid_regex() {
    let cli = Some(String::from("S"));
    let salts: Vec<String> = Vec::new();
    let filters = vec![String::from("(")];
    let data: Vec<u8> = vec![0; 64];
    assert_eq!(
        run_extract_with_key_and_offset_search(&data, "t.it", &cli, &salts, &filters)
            .unwrap_err(),
        CodecError::InvalidRegex
    );
}

#[test]
fn error_parameters_exhausted() {
    let files = vec![PackFile { name: String::from("a.bin"), data: vec![1] }];
    let exts: Vec<String> = Vec::new();
    let (arch, _) = run_pack(&files, "t.it", "right", &exts, PackEncryption::Plain).unwrap();
    let cli = Some(String::from("wrong"));
    let salts: Vec<String> = Vec::new();
    let filters: Vec<String> = Vec::new();
    assert_eq!(
        run_extract_with_key_and_offset_search(&arch, "t.it", &cli, &salts, &filters)
            .unwrap_err(),
        CodecError::ParametersExhausted
    );
}

#[test]
fn error_invalid_path() {
    let data: Vec<u8> = vec![0; 64];
    assert_eq!(
        run_list(&data, "", "S").unwrap_err(),
        CodecError::InvalidPath
    );
    assert_eq!(
        run_list(&data, "dir/", "S").unwrap_err(),
        CodecError::InvalidPath
    );
}

#[test]
fn error_entry_name_too_long() {
    let long: String = std::iter::repeat('x').take(5000).collect();
    let files = vec![PackFile { name: long, data: vec![1] }];
    let exts: Vec<String> = Vec::new();
    assert_eq!(
        run_pack(&files, "t.it", "S", &exts, PackEncryption::Plain).unwrap_err(),
        CodecError::EntryNameLength
    );
}

#[test]
fn list_direct_requires_version_two() {
    let files: Vec<PackFile> = Vec::new();
    let exts: Vec<String> = Vec::new();
    let (arch, _) = run_pack(&files, "t.it", "abc", &exts, PackEncryption::Plain).unwrap();
    // a wrong salt never opens the header
    assert!(run_list(&arch, "t.it", "nope").is_err());
    assert!(run_list(&arch, "t.it", "abc").is_ok());
}

#[test]
fn salt_list_parsing() {
    let text = "alpha\n# comment\n\n  beta  \ngamma\r\n";
    let salts = parse_salts(text);
    assert_eq!(
        salts,
        vec![String::from("alpha"), String::from("beta"), String::from("gamma")]
    );
}

#[test]
fn salt_list_hash_only_after_raw_start() {
    // the '#' gate looks at the raw line, not the trimmed one
    let text = "  #indented\nreal\n";
    let salts = parse_salts(text);
    assert_eq!(salts, vec![String::from("#indented"), String::from("real")]);
}

#[test]
fn unicode_entry_names_survive() {
    let files = vec![PackFile {
        name: String::from("\u{00e9}t\u{00e9}/\u{1F600}.bin"),
        data: vec![5, 6],
    }];
    let exts: Vec<String> = Vec::new();
    let (arch, _) = run_pack(&files, "t.it", "S", &exts, PackEncryption::Plain).unwrap();
    let cli = Some(String::from("S"));
    let salts: Vec<String> = Vec::new();
    let filters: Vec<String> = Vec::new();
    let out = run_extract_with_key_and_offset_search(&arch, "t.it", &cli, &salts, &filters)
        .unwrap();
    assert_eq!(out[0].0, "\u{00e9}t\u{00e9}/\u{1F600}.bin");
    assert_eq!(out[0].1, vec![5, 6]);
}

#[test]
fn compression_extension_is_case_folded() {
    let content: Vec<u8> = b"abcabcabc".iter().cloned().cycle().take(3000).collect();
    let files = vec![PackFile { name: String::from("NOTES.TXT"), data: content.clone() }];
    let exts = vec![String::from("txt")];
    let (arch, entries) =
        run_pack(&files, "t.it", "S", &exts, PackEncryption::Plain).unwrap();
    assert_eq!(entries[0].flags & 1, 1);
    let cli = Some(String::from("S"));
    let salts: Vec<String> = Vec::new();
    let filters: Vec<String> = Vec::new();
    let out = run_extract_with_key_and_offset_search(&arch, "t.it", &cli, &salts, &filters)
        .unwrap();
    assert_eq!(out[0].1, content);
}
