use gba_streamer::runahead_db::{
    cache_measured_runahead, get_cache_file_path, initial_runahead, key_order, lookup_cached,
    lookup_verified_db, parse_cache_text, rom_info_from_header, serialize_cache, unknown_rom_info,
    KeyOrder, RunaheadCache,
};

#[test]
fn test_lookup_cached() {
    let mut cache = RunaheadCache::new();
    cache_measured_runahead(&mut cache, "TEST_GAME_1".to_string(), 0);
    assert_eq!(lookup_cached(&cache, "TEST_GAME_1"), Some(0));
    assert_eq!(lookup_cached(&cache, "NON_EXISTENT_XYZ"), None);
}

#[test]
fn test_persistent_cache_roundtrip() {
    let mut cache = RunaheadCache::new();
    cache_measured_runahead(&mut cache, "TEST_PERSIST_1".to_string(), 2);
    let path = get_cache_file_path(None, Some("/home/player".to_string()));
    assert!(path.contains("remote_retro"));

    let text = serialize_cache(&cache);
    let reloaded = parse_cache_text(&text);
    assert_eq!(lookup_cached(&reloaded, "TEST_PERSIST_1"), Some(2));
}

#[test]
fn cache_file_path_choices() {
    assert_eq!(
        get_cache_file_path(Some("/cfg".to_string()), Some("/home/u".to_string())),
        "/cfg/remote_retro/gba_lag_config.json"
    );
    assert_eq!(
        get_cache_file_path(Some("/cfg/".to_string()), None),
        "/cfg/remote_retro/gba_lag_config.json"
    );
    assert_eq!(
        get_cache_file_path(None, Some("/home/u".to_string())),
        "/home/u/.config/remote_retro/gba_lag_config.json"
    );
    assert_eq!(get_cache_file_path(None, None), "/tmp/remote_retro/gba_lag_config.json");
    assert_eq!(
        get_cache_file_path(Some(String::new()), None),
        "remote_retro/gba_lag_config.json"
    );
}

#[test]
fn later_value_replaces_earlier_and_others_stay() {
    let mut cache = RunaheadCache::new();
    cache_measured_runahead(&mut cache, "AXVE".to_string(), 1);
    cache_measured_runahead(&mut cache, "BPEE".to_string(), 0);
    cache_measured_runahead(&mut cache, "AXVE".to_string(), 2);
    assert_eq!(lookup_cached(&cache, "AXVE"), Some(2));
    assert_eq!(lookup_cached(&cache, "BPEE"), Some(0));
    assert_eq!(cache.len(), 2);
}

#[test]
fn cache_keeps_keys_in_byte_order() {
    let mut cache = RunaheadCache::new();
    for code in ["ZZZZ", "AAAA", "MMMM", "AAAB"] {
        cache_measured_runahead(&mut cache, code.to_string(), 1);
    }
    let keys: Vec<Vec<u8>> = (0..cache.len()).map(|i| cache.entry(i).0.to_vec()).collect();
    assert_eq!(keys, vec![b"AAAA".to_vec(), b"AAAB".to_vec(), b"MMMM".to_vec(), b"ZZZZ".to_vec()]);
}

#[test]
fn serialized_cache_text_is_sorted_json() {
    let mut cache = RunaheadCache::new();
    cache_measured_runahead(&mut cache, "BPEE".to_string(), 2);
    cache_measured_runahead(&mut cache, "AFZE".to_string(), 0);
    let text = String::from_utf8(serialize_cache(&cache)).unwrap();
    assert_eq!(text, "{\n  \"AFZE\": 0,\n  \"BPEE\": 2\n}");
    assert_eq!(String::from_utf8(serialize_cache(&RunaheadCache::new())).unwrap(), "{\n}");
    let mut big = RunaheadCache::new();
    cache_measured_runahead(&mut big, "X".to_string(), 255);
    cache_measured_runahead(&mut big, "Y".to_string(), 42);
    assert_eq!(String::from_utf8(serialize_cache(&big)).unwrap(), "{\n  \"X\": 255,\n  \"Y\": 42\n}");
}

#[test]
fn cache_text_parsing_follows_the_line_rules() {
    let text = b"{\n  \"AAAA\": 1,\n\t\"BBBB\" : +2 ,\r\n  \"CCCC\": 300,\n  \"\": 1,\n  \"DDDD\": x,\n  \"AAAA\": 0\n}";
    let cache = parse_cache_text(text);
    assert_eq!(lookup_cached(&cache, "AAAA"), Some(0));
    assert_eq!(lookup_cached(&cache, "BBBB"), Some(2));
    assert_eq!(lookup_cached(&cache, "CCCC"), None);
    assert_eq!(lookup_cached(&cache, "DDDD"), None);
    assert_eq!(lookup_cached(&cache, ""), None);
    assert_eq!(cache.len(), 2);
    let odd = parse_cache_text("  \u{00a0}\"KEY\":007\u{3000}\n\"a:b\":1\n".as_bytes());
    assert_eq!(lookup_cached(&odd, "KEY"), Some(7));
    assert_eq!(lookup_cached(&odd, "a"), None);
    assert_eq!(parse_cache_text(b"").len(), 0);
}

#[test]
fn verified_titles() {
    assert_eq!(lookup_verified_db("AFZE"), Some(0));
    assert_eq!(lookup_verified_db("ADAE"), Some(0));
    assert_eq!(lookup_verified_db("AXVE"), Some(2));
    assert_eq!(lookup_verified_db("AGSE"), Some(2));
    assert_eq!(lookup_verified_db("BPEE"), None);
    assert_eq!(lookup_verified_db("AFZ"), None);
    assert_eq!(lookup_verified_db(""), None);
}

fn header(title: &[u8], code: &[u8], maker: &[u8], version: u8) -> Vec<u8> {
    let mut h = vec![0u8; 32];
    h[..title.len()].copy_from_slice(title);
    h[12..12 + code.len()].copy_from_slice(code);
    h[16..16 + maker.len()].copy_from_slice(maker);
    h[28] = version;
    h
}

#[test]
fn rom_header_fields_and_runahead() {
    let cache = RunaheadCache::new();
    let info = rom_info_from_header(&header(b"POKEMON RUBY", b"AXVE", b"01", 3), &cache);
    assert_eq!(info.title, "POKEMON RUBY");
    assert_eq!(info.game_code, "AXVE");
    assert_eq!(info.maker_code, "01");
    assert_eq!(info.version, 3);
    assert_eq!(info.recommended_runahead, 2);

    let blank = rom_info_from_header(&header(b"  ", b"", b"", 0), &cache);
    assert_eq!(blank.title, "GBA Game");
    assert_eq!(blank.game_code, "UNKN");
    assert_eq!(blank.maker_code, "");
    assert_eq!(blank.recommended_runahead, 1);

    let padded = rom_info_from_header(&header(b" MY GAME\0", b"BX\0\0", b"8", 1), &cache);
    assert_eq!(padded.title, "MY GAME");
    assert_eq!(padded.game_code, "BX");
    assert_eq!(padded.maker_code, "8");

    let mut cached = RunaheadCache::new();
    cache_measured_runahead(&mut cached, "AXVE".to_string(), 0);
    let info2 = rom_info_from_header(&header(b"POKEMON RUBY", b"AXVE", b"01", 3), &cached);
    assert_eq!(info2.recommended_runahead, 0);
    assert_eq!(initial_runahead(&cached, &info2), 0);
    assert_eq!(initial_runahead(&cache, &info), 2);
}

#[test]
fn unreadable_rom() {
    let info = unknown_rom_info();
    assert_eq!(info.title, "Unknown GBA Game");
    assert_eq!(info.game_code, "UNKN");
    assert_eq!(info.maker_code, "00");
    assert_eq!(info.version, 0);
    assert_eq!(info.recommended_runahead, 1);
    let cache = RunaheadCache::new();
    assert_eq!(initial_runahead(&cache, &info), 1);
}

#[test]
fn byte_order_of_keys() {
    assert_eq!(key_order(b"AB", b"AC"), KeyOrder::Before);
    assert_eq!(key_order(b"AB", b"AB"), KeyOrder::Same);
    assert_eq!(key_order(b"ABC", b"AB"), KeyOrder::After);
    assert_eq!(key_order(b"", b"A"), KeyOrder::Before);
}

#[test]
fn loading_the_file_merges_into_a_cache() {
    let mut saved = RunaheadCache::new();
    cache_measured_runahead(&mut saved, "AXVE".to_string(), 3);
    cache_measured_runahead(&mut saved, "BPEE".to_string(), 1);
    let text = serialize_cache(&saved);
    let mut live = RunaheadCache::new();
    cache_measured_runahead(&mut live, "AXVE".to_string(), 0);
    cache_measured_runahead(&mut live, "ZZZZ".to_string(), 4);
    gba_streamer::runahead_db::parse_cache_into(&mut live, &text);
    assert_eq!(lookup_cached(&live, "AXVE"), Some(3));
    assert_eq!(lookup_cached(&live, "BPEE"), Some(1));
    assert_eq!(lookup_cached(&live, "ZZZZ"), Some(4));
    assert_eq!(live.len(), 3);
}

#[test]
fn later_stores_of_other_codes_keep_a_value() {
    let mut cache = RunaheadCache::new();
    cache_measured_runahead(&mut cache, "AAAA".to_string(), 1);
    cache_measured_runahead(&mut cache, "BBBB".to_string(), 2);
    cache_measured_runahead(&mut cache, "AAAA".to_string(), 3);
    cache_measured_runahead(&mut cache, "CCCC".to_string(), 4);
    assert_eq!(lookup_cached(&cache, "AAAA"), Some(3));
    assert_eq!(lookup_cached(&cache, "BBBB"), Some(2));
    assert_eq!(lookup_cached(&cache, "DDDD"), None);
}

#[test]
fn header_text_is_decoded_then_trimmed() {
    let mut h = [0u8; 32];
    h[0..12].copy_from_slice(b"\0 \0A\0\0\0\0\0\0\0\0");
    h[12..16].copy_from_slice(b"\0\0\0\0");
    h[16..18].copy_from_slice(b"01");
    h[28] = 3;
    let info = rom_info_from_header(&h, &RunaheadCache::new());
    assert_eq!(info.title, "\0A");
    assert_eq!(info.game_code, "UNKN");
    assert_eq!(info.maker_code, "01");
    assert_eq!(info.version, 3);
    let mut g = [0u8; 32];
    g[0..12].copy_from_slice(b"\xc2\xa0POKE\xff\0\0\0\0\0");
    let info = rom_info_from_header(&g, &RunaheadCache::new());
    assert_eq!(info.title, "POKE\u{fffd}");
}
