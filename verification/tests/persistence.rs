use bpe::model::BasicTokenizer;
use bpe::persist::ParseError;

#[test]
fn save_load_round_trip() {
    let text = String::from("aaabdaaabac");
    let m = BasicTokenizer::train(&text, 259).unwrap();
    let saved = m.save_str();
    let m2 = BasicTokenizer::load(&saved).unwrap();
    assert_eq!(m2.vocab_size, m.vocab_size);
    assert_eq!(m2.num_merges, m.num_merges);
    assert_eq!(m2.merges, m.merges);
    assert_eq!(m2.vocab, m.vocab);
    assert!(m2.trained);
}

#[test]
fn save_load_round_trip_trivial_model() {
    let text = String::from("anything");
    let m = BasicTokenizer::train(&text, 256).unwrap();
    let m2 = BasicTokenizer::load(&m.save_str()).unwrap();
    assert_eq!(m2.merges, m.merges);
    assert_eq!(m2.vocab, m.vocab);
}

#[test]
fn saved_form_has_four_lines() {
    let text = String::from("aaabdaaabac");
    let m = BasicTokenizer::train(&text, 259).unwrap();
    let saved = m.save_str();
    let lines: Vec<&str> = saved.split('\n').collect();
    assert_eq!(lines.len(), 4);
    assert_eq!(lines[0], "259");
    assert_eq!(lines[1], "3");
    assert_eq!(lines[2], "97,97,256 97,98,257 256,257,258");
    assert!(lines[3].starts_with("0,0 1,1 2,2"));
    assert!(lines[3].ends_with("256,97,97 257,97,98 258,97,97,97,98"));
}

#[test]
fn load_accepts_a_handwritten_model() {
    // The identity model: 256 base entries, no merges.
    let mut text = String::from("256\n0\n\n");
    for id in 0..256u32 {
        if id > 0 {
            text.push(' ');
        }
        text.push_str(&format!("{},{}", id, id));
    }
    let m = BasicTokenizer::load(&text).unwrap();
    assert_eq!(m.vocab_size, 256);
    assert_eq!(m.num_merges, 0);
    assert!(m.merges.is_empty());
    assert_eq!(m.vocab.len(), 256);
    assert_eq!(m.vocab[65], vec![65u8]);
}

#[test]
fn load_rejects_garbage() {
    assert!(matches!(BasicTokenizer::load(&String::from("not a model")), Err(ParseError)));
    assert!(matches!(BasicTokenizer::load(&String::new()), Err(ParseError)));
    assert!(matches!(BasicTokenizer::load(&String::from("1\n2\n3\n4\n5")), Err(ParseError)));
}

#[test]
fn load_rejects_inconsistent_counts() {
    // Claims one merge but lists none.
    let mut text = String::from("257\n1\n\n");
    for id in 0..256u32 {
        if id > 0 {
            text.push(' ');
        }
        text.push_str(&format!("{},{}", id, id));
    }
    assert!(matches!(BasicTokenizer::load(&text), Err(ParseError)));
}

#[test]
fn load_rejects_broken_vocabulary() {
    let text = String::from("aaabdaaabac");
    let m = BasicTokenizer::train(&text, 259).unwrap();
    // Entry 256 must expand to "aa"; corrupt it in the saved text.
    let saved = m.save_str().replace("256,97,97 ", "256,97,98 ");
    assert!(matches!(BasicTokenizer::load(&saved), Err(ParseError)));
}

#[test]
fn load_rejects_small_vocab_size() {
    // A vocabulary size below 256 cannot describe a model.
    let mut text = String::from("100\n0\n\n");
    for id in 0..256u32 {
        if id > 0 {
            text.push(' ');
        }
        text.push_str(&format!("{},{}", id, id));
    }
    assert!(matches!(BasicTokenizer::load(&text), Err(ParseError)));
}

#[test]
fn load_mut_replaces_or_keeps() {
    let text = String::from("aaabdaaabac");
    let trained = BasicTokenizer::train(&text, 259).unwrap();
    let saved = trained.save_str();
    let mut session = BasicTokenizer {
        trained: false,
        vocab_size: 0,
        num_merges: 0,
        merges: Vec::new(),
        vocab: Vec::new(),
    };
    assert_eq!(session.load_mut(&String::from("garbage")), Err(ParseError));
    assert!(!session.trained);
    assert_eq!(session.vocab_size, 0);
    assert_eq!(session.load_mut(&saved), Ok(()));
    assert!(session.trained);
    assert_eq!(session.vocab_size, 259);
    assert_eq!(session.merges, trained.merges);
    assert_eq!(session.vocab, trained.vocab);
}

#[test]
fn loaded_model_encodes_and_decodes() {
    let corpus = String::from("the quick brown fox jumps over the lazy dog");
    let m = BasicTokenizer::train(&corpus, 280).unwrap();
    let m2 = BasicTokenizer::load(&m.save_str()).unwrap();
    let text = String::from("the lazy fox");
    let ids = m2.encode(&text);
    assert_eq!(ids, m.encode(&text));
    assert_eq!(m2.decode(ids), Ok(text));
}
