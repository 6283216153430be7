use ondevice_ai::embed::{embed, DIM};
use ondevice_ai::hash::{absorb_char, hash_bytes, step, FNV_OFFSET, FNV_PRIME};
use ondevice_ai::EmbeddingsService;

fn reference_embed(text: &str) -> Vec<u64> {
    let mut v = vec![0u64; 256];
    for tok in text.split_whitespace() {
        let mut h: u64 = 1469598103934665603;
        for b in tok.as_bytes() {
            h ^= *b as u64;
            h = h.wrapping_mul(1099511628211);
        }
        v[(h as usize) & 255] += 1;
    }
    v
}

fn unit(counts: &[u64]) -> Vec<f32> {
    let v: Vec<f32> = counts.iter().map(|c| *c as f32).collect();
    let norm = v.iter().map(|x| x * x).sum::<f32>().sqrt().max(1e-6);
    v.iter().map(|x| x / norm).collect()
}

#[test]
fn hash_constants_are_the_documented_ones() {
    assert_eq!(FNV_OFFSET, 1469598103934665603);
    assert_eq!(FNV_PRIME, 1099511628211);
}

#[test]
fn hash_of_nothing_is_the_offset() {
    assert_eq!(hash_bytes(b""), 1469598103934665603);
}

#[test]
fn hash_of_known_words() {
    assert_eq!(hash_bytes(b"a"), 4953267810257967366);
    assert_eq!(hash_bytes(b"hello"), 25347132070217633);
    assert_eq!(hash_bytes(b"world"), 14341533079502921577);
    assert_eq!(hash_bytes("naïve".as_bytes()), 12752007731085721689);
    assert_eq!(hash_bytes("日本語".as_bytes()), 14818358885401374573);
    assert_eq!(hash_bytes("😀".as_bytes()), 17944123351983436586);
}

#[test]
fn step_is_xor_then_wrapping_multiply() {
    let h = step(FNV_OFFSET, b'a');
    assert_eq!(h, (FNV_OFFSET ^ 0x61).wrapping_mul(FNV_PRIME));
    assert_eq!(h, 4953267810257967366);
}

#[test]
fn absorb_char_takes_the_utf8_bytes() {
    for c in ['a', 'ï', '日', '😀', '\u{7f}', '\u{80}', '\u{7ff}', '\u{800}', '\u{ffff}', '\u{10000}', '\u{10ffff}'] {
        let mut buf = [0u8; 4];
        let bytes = c.encode_utf8(&mut buf).as_bytes();
        let mut h = FNV_OFFSET;
        for b in bytes {
            h = step(h, *b);
        }
        assert_eq!(absorb_char(FNV_OFFSET, c), h);
    }
}

#[test]
fn absorb_char_agrees_with_std_for_every_char() {
    let mut u: u32 = 0;
    while u <= 0x10FFFF {
        if let Some(c) = char::from_u32(u) {
            let mut buf = [0u8; 4];
            let bytes = c.encode_utf8(&mut buf).as_bytes();
            let mut h: u64 = 7;
            for b in bytes {
                h = (h ^ (*b as u64)).wrapping_mul(1099511628211);
            }
            assert_eq!(absorb_char(7, c), h);
        }
        u += 1;
    }
}

#[test]
fn empty_text_embeds_to_zero_vector() {
    let counts = embed("");
    assert_eq!(counts.len(), 256);
    assert_eq!(DIM, 256);
    assert!(counts.iter().all(|c| *c == 0));
}

#[test]
fn blank_text_embeds_to_zero_vector() {
    let counts = embed(" \t\n\u{a0}\u{3000} ");
    assert!(counts.iter().all(|c| *c == 0));
}

#[test]
fn embed_counts_words_in_their_buckets() {
    let counts = embed("hello world");
    assert_eq!(counts[161], 1);
    assert_eq!(counts[105], 1);
    assert_eq!(counts.iter().sum::<u64>(), 2);
}

#[test]
fn words_that_collide_share_a_bucket() {
    // "a" and "the" both fall into bucket 6
    let counts = embed("a the a");
    assert_eq!(counts[6], 3);
    assert_eq!(counts.iter().sum::<u64>(), 3);
}

#[test]
fn embed_is_deterministic() {
    let text = "the quick brown fox jumps over the lazy dog";
    assert_eq!(embed(text), embed(text));
}

#[test]
fn embed_ignores_word_order() {
    assert_eq!(embed("hello world"), embed("world hello"));
    assert_eq!(embed("a b c d"), embed("d\tc\nb   a"));
}

#[test]
fn embed_takes_tokens_verbatim() {
    assert_ne!(embed("Hello"), embed("hello"));
    assert_ne!(embed("hello,"), embed("hello"));
}

#[test]
fn embed_agrees_with_split_whitespace() {
    let samples = [
        "",
        " ",
        "one",
        " lead",
        "trail ",
        "the cat sat",
        "tabs\tand\nnewlines\r\nmixed",
        "naïve café 日本語 😀",
        "no\u{a0}break and\u{2003}em\u{3000}wide\u{85}nel\u{1680}ogham\u{2028}ls\u{2029}ps\u{202f}nn\u{205f}mm",
        "zero\u{200b}width is no space",
        "\u{b}vt\u{c}ff\u{1c}fs is no space",
        "a a a a b b c",
    ];
    for text in samples {
        assert_eq!(embed(text), reference_embed(text), "text {:?}", text);
    }
}

#[test]
fn unit_vector_of_an_embedding_has_norm_one() {
    for text in ["x", "hello world", "a a a b", "naïve café 日本語"] {
        let v = unit(&embed(text));
        let norm: f32 = v.iter().map(|x| x * x).sum::<f32>().sqrt();
        assert!((norm - 1.0).abs() < 1e-5, "norm {}", norm);
    }
}

#[test]
fn unit_vector_of_the_empty_embedding_is_zero() {
    let v = unit(&embed(""));
    assert_eq!(v.len(), 256);
    assert!(v.iter().all(|x| *x == 0.0));
}

#[test]
fn embeddings_service_embeds_as_the_embedder_does() {
    let service = EmbeddingsService::default();
    assert_eq!(service.embed("the cat sat"), embed("the cat sat"));
}

#[test]
fn embeddings_service_embeds_a_batch_in_order() {
    let service = EmbeddingsService;
    let texts = vec!["one".to_string(), String::new(), "two three".to_string()];
    let items = service.batch_embed(&texts);
    assert_eq!(items.len(), 3);
    assert_eq!(items[0], embed("one"));
    assert_eq!(items[1], embed(""));
    assert_eq!(items[2], embed("two three"));
}

#[test]
fn embeddings_service_embeds_an_empty_batch() {
    let items = EmbeddingsService.batch_embed(&Vec::new());
    assert!(items.is_empty());
}
