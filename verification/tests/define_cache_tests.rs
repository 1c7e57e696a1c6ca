use audion::define_cache::{read_adc, write_adc, AdcEntry, DefineCache};

fn entry(name: &str, hash: u64, data: &[u8]) -> AdcEntry {
    AdcEntry { name: name.to_string(), hash, data: data.to_vec() }
}

#[test]
fn adc_layout() {
    let bytes = write_adc(&[entry("ab", 0x0102, &[7, 8])]);
    let mut want = b"ADC1".to_vec();
    want.extend_from_slice(&1u32.to_le_bytes());
    want.extend_from_slice(&2u16.to_le_bytes());
    want.extend_from_slice(b"ab");
    want.extend_from_slice(&0x0102u64.to_le_bytes());
    want.extend_from_slice(&2u32.to_le_bytes());
    want.extend_from_slice(&[7, 8]);
    assert_eq!(bytes, want);
}

#[test]
fn adc_round_trip() {
    let es = vec![entry("bass", 42, &[1, 2, 3]), entry("lead", u64::MAX, &[]), entry("pad é", 7, &[0; 300])];
    let bytes = write_adc(&es);
    let back = read_adc(&bytes).unwrap();
    assert_eq!(back.len(), 3);
    for (a, b) in es.iter().zip(back.iter()) {
        assert_eq!(a.name, b.name);
        assert_eq!(a.hash, b.hash);
        assert_eq!(a.data, b.data);
    }
}

#[test]
fn adc_rejects_malformed_files() {
    assert!(read_adc(b"ADC2\0\0\0\0").is_none());
    assert!(read_adc(b"ADC1").is_none());
    let mut truncated = write_adc(&[entry("bass", 1, &[1, 2, 3])]);
    truncated.pop();
    assert!(read_adc(&truncated).is_none());
    let mut bad_name = write_adc(&[entry("ab", 1, &[])]);
    bad_name[10] = 0xFF;
    assert!(read_adc(&bad_name).is_none());
    assert_eq!(read_adc(&write_adc(&[])).unwrap().len(), 0);
}

#[test]
fn cache_path_replaces_the_extension() {
    assert_eq!(DefineCache::cache_path("songs/track.au"), "songs/track.adc");
    assert_eq!(DefineCache::cache_path("track"), "track.adc");
}

#[test]
fn get_loads_once_and_checks_the_hash() {
    let file = write_adc(&[entry("bass", 42, &[1, 2, 3])]);
    let mut cache = DefineCache::new();
    assert!(!cache.is_loaded("a.au"));
    assert_eq!(cache.get("a.au", "bass", 42, Some(&file)), Some(vec![1, 2, 3]));
    assert!(cache.is_loaded("a.au"));
    assert_eq!(cache.get("a.au", "bass", 41, None), None);
    assert_eq!(cache.get("a.au", "lead", 42, None), None);
    // Once loaded, the file's bytes are not read again.
    assert_eq!(cache.get("a.au", "bass", 42, Some(b"junk")), Some(vec![1, 2, 3]));
    assert_eq!(cache.get("b.au", "bass", 42, Some(b"junk")), None);
}

#[test]
fn put_then_get_and_the_written_file() {
    let mut cache = DefineCache::new();
    let written = cache.put("a.au", "bass", 5, vec![9, 9], None);
    assert_eq!(cache.get("a.au", "bass", 5, None), Some(vec![9, 9]));
    let written2 = cache.put("a.au", "bass", 6, vec![1], None);
    assert_eq!(cache.get("a.au", "bass", 5, None), None);
    assert_eq!(cache.get("a.au", "bass", 6, None), Some(vec![1]));
    let back = read_adc(&written2).unwrap();
    assert_eq!(back.len(), 1);
    assert_eq!(back[0].hash, 6);
    assert_eq!(read_adc(&written).unwrap()[0].data, vec![9, 9]);
    cache.put("a.au", "lead", 7, vec![2], None);
    let mut other = DefineCache::new();
    let file = cache.put("a.au", "pad", 8, vec![3], None);
    assert_eq!(other.get("a.au", "lead", 7, Some(&file)), Some(vec![2]));
    assert_eq!(other.get("a.au", "pad", 8, None), Some(vec![3]));
}

#[test]
fn stored_define_survives_other_calls() {
    let mut c = DefineCache::new();
    c.put("/a/song.au", "bass", 11, vec![1, 2, 3], None);
    c.put("/a/song.au", "lead", 12, vec![4], None);
    c.put("/b/other.au", "bass", 99, vec![9], None);
    assert_eq!(c.get("/b/other.au", "pad", 1, None), None);
    assert_eq!(c.get("/c/new.au", "bass", 11, Some(&write_adc(&[entry("bass", 5, &[5])]))), None);
    assert_eq!(c.get("/a/song.au", "bass", 11, None), Some(vec![1, 2, 3]));
    assert_eq!(c.get("/a/song.au", "bass", 12, None), None);
}
