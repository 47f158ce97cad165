use kokoros::debug::{format_debug_prefix, get_colored_request_id_with_relative, get_request_id_color};
use kokoros::pool::{hex_label_of, WorkerPool};
use kokoros::scheduler::ConfigError;
use kokoros::speech::{
    needs_inference, pad_tokens, parse_style_name, plan_style, should_stream, silence_for_chunk,
    AudioFormat, Encoding, InitConfig, StylePlan, StyleSelection,
};
use kokoros::wav::WavHeader;

#[test]
fn pool_assigns_round_robin_with_hex_labels() {
    let pool = WorkerPool::new(vec!["a", "b", "c"]).ok().unwrap();
    assert_eq!(pool.instance_count(), 3);
    let (inst, label) = pool.get_instance(4);
    assert_eq!(*inst, "b");
    assert_eq!(label, "01");
    let (inst, label) = pool.get_instance(2);
    assert_eq!(*inst, "c");
    assert_eq!(label, "02");
}

#[test]
fn pool_needs_an_instance() {
    assert!(matches!(WorkerPool::<u8>::new(vec![]), Err(ConfigError::NoWorkers)));
}

#[test]
fn hex_labels() {
    assert_eq!(hex_label_of(0), "00");
    assert_eq!(hex_label_of(10), "0a");
    assert_eq!(hex_label_of(31), "1f");
    assert_eq!(hex_label_of(255), "ff");
    assert_eq!(hex_label_of(256), "100");
}

fn color_by_hash(id: &str) -> &'static str {
    let colors = [
        "\x1b[31m", "\x1b[32m", "\x1b[33m", "\x1b[34m", "\x1b[35m", "\x1b[36m", "\x1b[91m",
        "\x1b[92m", "\x1b[93m", "\x1b[94m", "\x1b[95m", "\x1b[96m", "\x1b[37m", "\x1b[90m",
    ];
    let mut h = 0u32;
    for b in id.bytes() {
        h = h.wrapping_mul(31).wrapping_add(b as u32);
    }
    colors[(h as usize) % colors.len()]
}

#[test]
fn request_colors_follow_the_hash() {
    assert_eq!(get_request_id_color(""), "\x1b[31m");
    assert_eq!(get_request_id_color("a"), "\x1b[90m");
    for id in ["abc", "1f2e3d4c", "request-with-a-long-id-that-wraps-the-hash", "\u{e9}t\u{e9}"] {
        assert_eq!(get_request_id_color(id), color_by_hash(id));
    }
}

#[test]
fn debug_prefixes() {
    let c = get_request_id_color("req1");
    assert_eq!(format_debug_prefix(Some("req1"), Some("01")), format!("{}[req1]\x1b[0m[01]", c));
    assert_eq!(format_debug_prefix(Some("req1"), None), format!("{}[req1]\x1b[0m", c));
    assert_eq!(format_debug_prefix(None, Some("0a")), "[0a]");
    assert_eq!(format_debug_prefix(None, None), "");
}

#[test]
fn colored_request_id_with_elapsed_time() {
    let c = get_request_id_color("ab12");
    assert_eq!(
        get_colored_request_id_with_relative("ab12", 0),
        format!("{}[ab12]\x1b[0m \x1b[90m    0\x1b[0m", c)
    );
    assert_eq!(
        get_colored_request_id_with_relative("ab12", 42),
        format!("{}[ab12]\x1b[0m \x1b[90m   42\x1b[0m", c)
    );
    assert_eq!(
        get_colored_request_id_with_relative("ab12", 1234567),
        format!("{}[ab12]\x1b[0m \x1b[90m1234567\x1b[0m", c)
    );
}

#[test]
fn wav_header_bytes() {
    let h = WavHeader::new(1, 24000, 32);
    let mut out = vec![9u8];
    h.write_header(&mut out);
    let mut expected = vec![9u8];
    expected.extend_from_slice(b"RIFF");
    expected.extend_from_slice(&[0xff; 4]);
    expected.extend_from_slice(b"WAVEfmt ");
    expected.extend_from_slice(&16u32.to_le_bytes());
    expected.extend_from_slice(&3u16.to_le_bytes());
    expected.extend_from_slice(&1u16.to_le_bytes());
    expected.extend_from_slice(&24000u32.to_le_bytes());
    expected.extend_from_slice(&96000u32.to_le_bytes());
    expected.extend_from_slice(&4u16.to_le_bytes());
    expected.extend_from_slice(&32u16.to_le_bytes());
    expected.extend_from_slice(b"data");
    expected.extend_from_slice(&[0xff; 4]);
    assert_eq!(out, expected);
    assert_eq!(out.len(), 45);
}

#[test]
fn stereo_wav_header_rates() {
    let h = WavHeader::new(2, 44100, 16);
    let mut out = Vec::new();
    h.write_header(&mut out);
    assert_eq!(&out[28..32], &176400u32.to_le_bytes());
    assert_eq!(&out[32..34], &4u16.to_le_bytes());
}

#[test]
fn tokens_are_framed_with_boundaries_and_silence() {
    assert_eq!(pad_tokens(&vec![5, 6], 0), vec![0, 5, 6, 0]);
    assert_eq!(pad_tokens(&vec![5, 6], 3), vec![0, 30, 30, 30, 5, 6, 0]);
    assert_eq!(pad_tokens(&vec![], 1), vec![0, 30, 0]);
}

#[test]
fn plain_voice_name_selects_one_style() {
    match parse_style_name("af_sky") {
        StyleSelection::Single(n) => assert_eq!(n, "af_sky"),
        _ => panic!("expected a single style"),
    }
    match parse_style_name("af.sky") {
        StyleSelection::Single(n) => assert_eq!(n, "af.sky"),
        _ => panic!("expected a single style"),
    }
}

#[test]
fn blended_voice_name_lists_parts() {
    match parse_style_name("a.5+b.5") {
        StyleSelection::Blend(parts) => {
            let p: Vec<(String, String)> = parts.into_iter().map(|p| (p.name, p.portion)).collect();
            assert_eq!(p, vec![("a".to_string(), "5".to_string()), ("b".to_string(), "5".to_string())]);
        }
        _ => panic!("expected a blend"),
    }
    match parse_style_name("af_sarah.4+nodot+af_nicole.6.1+") {
        StyleSelection::Blend(parts) => {
            let p: Vec<(String, String)> = parts.into_iter().map(|p| (p.name, p.portion)).collect();
            assert_eq!(
                p,
                vec![
                    ("af_sarah".to_string(), "4".to_string()),
                    ("af_nicole".to_string(), "6.1".to_string())
                ]
            );
        }
        _ => panic!("expected a blend"),
    }
}

#[test]
fn formats_and_encodings() {
    assert_eq!(AudioFormat::from_name("wav"), Some(AudioFormat::Wav));
    assert_eq!(AudioFormat::from_name("flac"), Some(AudioFormat::Flac));
    assert_eq!(AudioFormat::from_name("WAV"), None);
    assert_eq!(AudioFormat::default_format(), AudioFormat::Mp3);
    assert_eq!(AudioFormat::Wav.encoding(), Encoding::Wav);
    assert_eq!(AudioFormat::Pcm.encoding(), Encoding::Pcm);
    assert_eq!(AudioFormat::Opus.encoding(), Encoding::Mp3);
    assert_eq!(Encoding::Mp3.content_type(), "audio/mpeg");
    assert_eq!(Encoding::Wav.content_type(), "audio/wav");
    assert_eq!(Encoding::Pcm.content_type(), "audio/pcm");
}

#[test]
fn streaming_is_the_default() {
    assert!(should_stream(None));
    assert!(should_stream(Some(true)));
    assert!(!should_stream(Some(false)));
}

#[test]
fn default_config() {
    let c = InitConfig::default();
    assert_eq!(c.sample_rate, 24000);
    assert!(c.model_url.ends_with("kokoro-v1.0.onnx"));
    assert!(c.voices_url.ends_with("voices-v1.0.bin"));
}

#[test]
fn silence_goes_to_the_first_chunk() {
    assert_eq!(silence_for_chunk(0, Some(4)), Some(4));
    assert_eq!(silence_for_chunk(1, Some(4)), None);
    assert_eq!(silence_for_chunk(0, None), None);
}

#[test]
fn blank_chunks_skip_inference() {
    assert!(!needs_inference(""));
    assert!(!needs_inference(" \t\n"));
    assert!(needs_inference(" a "));
}

#[test]
fn voice_names_resolve_against_the_table() {
    let table = vec!["af_sky".to_string(), "af_nicole".to_string(), "bm_lewis".to_string()];
    assert!(matches!(plan_style("af_sky", &table), StylePlan::Single(n) if n == "af_sky"));
    assert!(matches!(plan_style("af_nobody", &table), StylePlan::Unknown));
    match plan_style("af_sky.4+missing.3+bm_lewis.6+nodot", &table) {
        StylePlan::Blend(parts) => {
            let p: Vec<(String, String)> = parts.into_iter().map(|p| (p.name, p.portion)).collect();
            assert_eq!(
                p,
                vec![("af_sky".to_string(), "4".to_string()), ("bm_lewis".to_string(), "6".to_string())]
            );
        }
        _ => panic!("expected a blend"),
    }
    assert!(matches!(plan_style("x.1+y.2", &table), StylePlan::Blend(p) if p.is_empty()));
}
