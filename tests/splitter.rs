use smart_chunker::hash::{compute_hash, content_id};
use smart_chunker::text::trim_chars;
use smart_chunker::tokens::{count_tokens, split_text_by_token_limit};

fn chars(s: &str) -> Vec<char> {
    s.chars().collect()
}

fn text_of(v: &[char]) -> String {
    v.iter().collect()
}

#[test]
fn text_within_budget_stays_whole() {
    let text = "fn main() {\n    println!(\"hi\");\n}";
    let slices = split_text_by_token_limit(&chars(text), 800).expect("the encoder counts these texts");
    assert_eq!(slices.len(), 1);
    assert_eq!(text_of(&slices[0].text), text);
    assert_eq!(slices[0].token_count, count_tokens(text).unwrap());
    assert_eq!(slices[0].line_offset, 0);
}

#[test]
fn zero_budget_gives_one_slice_per_line() {
    let text = "alpha\nbeta\ngamma";
    let slices = split_text_by_token_limit(&chars(text), 0).expect("the encoder counts these texts");
    assert_eq!(slices.len(), 3);
    let expect = ["alpha", "beta", "gamma"];
    for (k, s) in slices.iter().enumerate() {
        assert_eq!(text_of(&s.text), expect[k]);
        assert_eq!(s.line_offset, k);
        assert_eq!(s.token_count, count_tokens(expect[k]).unwrap());
    }
}

#[test]
fn slices_join_back_to_the_text() {
    let mut text = String::new();
    for i in 0..40 {
        text.push_str(&format!("let value_{} = compute({}, \"text\");\n", i, i * 7));
    }
    text.push_str("done");
    let slices = split_text_by_token_limit(&chars(&text), 30).expect("the encoder counts these texts");
    assert!(slices.len() > 1);
    let joined: Vec<String> = slices.iter().map(|s| text_of(&s.text)).collect();
    assert_eq!(joined.join("\n"), text);
    let mut offset = 0;
    for s in &slices {
        assert_eq!(s.line_offset, offset);
        offset += s.text.iter().filter(|c| **c == '\n').count() + 1;
        assert!(s.token_count <= 30 || !s.text.contains(&'\n'));
        assert_eq!(s.token_count, count_tokens(&text_of(&s.text)).unwrap());
    }
}

#[test]
fn one_long_line_overflows_alone() {
    let long = "word ".repeat(50);
    let text = format!("a\n{}\nb", long);
    let slices = split_text_by_token_limit(&chars(&text), 5).expect("the encoder counts these texts");
    assert_eq!(slices.len(), 3);
    assert_eq!(text_of(&slices[1].text), long);
    assert!(slices[1].token_count > 5);
    assert_eq!(slices[1].token_count, count_tokens(&long).unwrap());
    assert_eq!(slices[1].line_offset, 1);
    assert_eq!(slices[2].line_offset, 2);
}

#[test]
fn empty_text_is_one_empty_slice() {
    let slices = split_text_by_token_limit(&Vec::new(), 10).expect("the encoder counts these texts");
    assert_eq!(slices.len(), 1);
    assert!(slices[0].text.is_empty());
    assert_eq!(slices[0].token_count, 0);
}

#[test]
fn sha256_of_known_inputs() {
    assert_eq!(
        compute_hash(""),
        "e3b0c44298fc1c149afbf4c8996fb92427ae41e4649b934ca495991b7852b855"
    );
    assert_eq!(
        compute_hash("abc"),
        "ba7816bf8f01cfea414140de5dae2223b00361a396177a9cb410ff61f20015ad"
    );
}

#[test]
fn id_covers_text_and_ordinal() {
    let text = chars("fn a() {}");
    assert_eq!(content_id(&text, 0), compute_hash("fn a() {}-0"));
    assert_eq!(content_id(&text, 12), compute_hash("fn a() {}-12"));
    assert_ne!(content_id(&text, 0), content_id(&text, 1));
    assert_ne!(content_id(&text, 0), content_id(&chars("fn b() {}"), 0));
}

#[test]
fn token_counts_of_known_text() {
    assert_eq!(count_tokens(""), Some(0));
    assert_eq!(count_tokens("hello world"), Some(2));
}

#[test]
fn trimming_drops_unicode_white_space() {
    let t: String = trim_chars(&chars("\u{a0} // note \u{3000}\t")).into_iter().collect();
    assert_eq!(t, "// note");
    let kept: String = trim_chars(&chars("x\u{200b}")).into_iter().collect();
    assert_eq!(kept, "x\u{200b}");
}
