use bpe::merge::merge;
use bpe::model::BasicTokenizer;
use bpe::model::ConfigError;
use bpe::model::DecodeError;
use bpe::pairs::frequent_pair;

#[test]
fn train_rejects_small_vocab() {
    let text = String::from("some text");
    assert!(matches!(BasicTokenizer::train(&text, 255), Err(ConfigError)));
    assert!(matches!(BasicTokenizer::train(&text, 0), Err(ConfigError)));
}

#[test]
fn trivial_training_is_identity() {
    let text = String::from("any text at all, regardless");
    let m = BasicTokenizer::train(&text, 256).unwrap();
    assert_eq!(m.num_merges, 0);
    assert_eq!(m.vocab_size, 256);
    assert!(m.merges.is_empty());
    assert_eq!(m.vocab.len(), 256);
    for id in 0..256u32 {
        assert_eq!(m.vocab[id as usize], vec![id as u8]);
    }
}

#[test]
fn merge_consumes_first_pair_without_overlap() {
    let ids: Vec<u32> = vec![5, 5, 5, 9];
    let out = merge(&ids, &(5, 5), &256);
    assert_eq!(out, vec![256, 5, 9]);
    assert_ne!(out, vec![5, 256, 9]);
}

#[test]
fn merge_without_occurrence_copies() {
    let ids: Vec<u32> = vec![1, 2, 3];
    assert_eq!(merge(&ids, &(9, 9), &256), vec![1, 2, 3]);
    let empty: Vec<u32> = Vec::new();
    assert_eq!(merge(&empty, &(1, 2), &256), Vec::<u32>::new());
}

#[test]
fn merge_collapses_every_occurrence() {
    let ids: Vec<u32> = vec![7, 8, 1, 7, 8, 7, 8];
    assert_eq!(merge(&ids, &(7, 8), &300), vec![300, 1, 300, 300]);
}

#[test]
fn frequent_pair_breaks_ties_lexicographically() {
    // (1, 2) and (2, 1) both occur twice; the smaller pair wins.
    let ids: Vec<u32> = vec![1, 2, 1, 2, 1];
    assert_eq!(frequent_pair(&ids), Some((1, 2, 2)));
}

#[test]
fn frequent_pair_counts_overlaps() {
    let ids: Vec<u32> = vec![4, 4, 4];
    assert_eq!(frequent_pair(&ids), Some((4, 4, 2)));
}

#[test]
fn frequent_pair_needs_two_symbols() {
    assert_eq!(frequent_pair(&vec![42u32]), None);
    assert_eq!(frequent_pair(&Vec::<u32>::new()), None);
}

#[test]
fn training_scenario_aaabdaaabac() {
    // "aaabdaaabac": the pair (97, 97) occurs 4 times, more than any
    // other, so the first merge must be (97, 97) -> 256.
    let text = String::from("aaabdaaabac");
    let m = BasicTokenizer::train(&text, 259).unwrap();
    assert_eq!(m.vocab_size, 259);
    assert_eq!(m.num_merges, 3);
    assert_eq!(m.merges[0], (97, 97));
    assert_eq!(m.merges, vec![(97, 97), (97, 98), (256, 257)]);
    assert_eq!(m.vocab[256], b"aa".to_vec());
    assert_eq!(m.vocab[257], b"ab".to_vec());
    assert_eq!(m.vocab[258], b"aaab".to_vec());
}

#[test]
fn encode_decode_round_trip_on_training_text() {
    let text = String::from("aaabdaaabac");
    let m = BasicTokenizer::train(&text, 259).unwrap();
    let ids = m.encode(&text);
    assert_eq!(ids, vec![258, 100, 258, 97, 99]);
    assert_eq!(m.decode(ids), Ok(text));
}

#[test]
fn encode_decode_round_trip_on_fresh_text() {
    let corpus = String::from("the quick brown fox jumps over the lazy dog, the dog sleeps");
    let m = BasicTokenizer::train(&corpus, 280).unwrap();
    for s in ["", "the dog", "completely unrelated words", "xyzzy"] {
        let text = String::from(s);
        let ids = m.encode(&text);
        assert_eq!(m.decode(ids), Ok(text));
    }
}

#[test]
fn encode_decode_round_trip_multibyte() {
    let corpus = String::from("héllo ☃ snowman, héllo again ☃☃");
    let m = BasicTokenizer::train(&corpus, 300).unwrap();
    for s in ["héllo", "☃", "héllo ☃ mixed ascii", "日本語"] {
        let text = String::from(s);
        let ids = m.encode(&text);
        assert_eq!(m.decode(ids), Ok(text));
    }
}

#[test]
fn encode_is_deterministic() {
    let corpus = String::from("abab abab abab");
    let m1 = BasicTokenizer::train(&corpus, 270).unwrap();
    let m2 = BasicTokenizer::train(&corpus, 270).unwrap();
    assert_eq!(m1.merges, m2.merges);
    assert_eq!(m1.vocab, m2.vocab);
    let text = String::from("abab again");
    assert_eq!(m1.encode(&text), m2.encode(&text));
    assert_eq!(m1.encode(&text), m1.encode(&text));
}

#[test]
fn training_stops_early_when_collapsed() {
    // "aa" collapses to one symbol after a single merge; the remaining
    // budget cannot be spent, which is a normal termination.
    let text = String::from("aa");
    let m = BasicTokenizer::train(&text, 300).unwrap();
    assert_eq!(m.num_merges, 1);
    assert_eq!(m.merges, vec![(97, 97)]);
    assert_eq!(m.vocab_size, 300);
    assert_eq!(m.vocab.len(), 257);
}

#[test]
fn decode_unknown_symbol() {
    let text = String::from("some training text");
    let m = BasicTokenizer::train(&text, 256).unwrap();
    assert_eq!(m.decode(vec![99999]), Err(DecodeError::UnknownSymbol(99999)));
    assert_eq!(m.decode(vec![104, 105, 256]), Err(DecodeError::UnknownSymbol(256)));
}

#[test]
fn decode_reports_first_unknown_symbol() {
    let text = String::from("abc");
    let m = BasicTokenizer::train(&text, 256).unwrap();
    assert_eq!(m.decode(vec![97, 700, 800]), Err(DecodeError::UnknownSymbol(700)));
}

#[test]
fn decode_invalid_utf8() {
    let text = String::from("abc");
    let m = BasicTokenizer::train(&text, 256).unwrap();
    // A lone byte above 127 is never valid UTF-8.
    assert_eq!(m.decode(vec![200]), Err(DecodeError::InvalidUtf8));
}

#[test]
fn decode_base_symbols_directly() {
    let text = String::from("irrelevant");
    let m = BasicTokenizer::train(&text, 256).unwrap();
    assert_eq!(m.decode(vec![104, 105]), Ok(String::from("hi")));
    assert_eq!(m.decode(Vec::new()), Ok(String::new()));
}

#[test]
fn encode_leaves_unknown_text_as_bytes() {
    let corpus = String::from("aaaa");
    let m = BasicTokenizer::train(&corpus, 258).unwrap();
    assert_eq!(m.encode(&String::from("zzz")), vec![122, 122, 122]);
}

#[test]
fn check_wf_accepts_trained_and_rejects_broken() {
    let text = String::from("aaabdaaabac");
    let m = BasicTokenizer::train(&text, 259).unwrap();
    assert!(m.check_wf());
    let mut broken = BasicTokenizer::train(&text, 259).unwrap();
    broken.vocab[256] = vec![1, 2, 3];
    assert!(!broken.check_wf());
    let mut wrong_count = BasicTokenizer::train(&text, 259).unwrap();
    wrong_count.num_merges = 7;
    assert!(!wrong_count.check_wf());
}

#[test]
fn usage_strings_describe_the_commands() {
    let u = bpe::usage();
    assert!(u.contains("encode") && u.contains("decode") && u.contains("train"));
    let cu = bpe::cli_usage();
    assert!(cu.contains("encode") && cu.contains("REPL"));
}
