use minerva::gateway::get_num_documents;
use minerva::generation::{hex_digit, parse_byte, prompt_window_start, token_text, WINDOW_MARGIN};

#[test]
fn a_prompt_that_fits_is_kept_whole() {
    assert_eq!(WINDOW_MARGIN, 10);
    assert_eq!(prompt_window_start(100, 1199, 4096), 0);
    assert_eq!(prompt_window_start(2887, 1199, 4096), 0);
    assert_eq!(prompt_window_start(0, 0, 10), 0);
    assert_eq!(prompt_window_start(0, 5000, 4096), 0);
}

#[test]
fn of_a_prompt_too_long_as_many_tokens_are_kept_as_are_too_many() {
    // One token too many: the last token is kept.
    assert_eq!(prompt_window_start(2888, 1199, 4096), 2887);
    // A hundred too many: the last hundred are kept.
    assert_eq!(prompt_window_start(2987, 1199, 4096), 2887);
    // More too many than there are: all are kept.
    assert_eq!(prompt_window_start(5, 4096, 4096), 0);
    assert_eq!(prompt_window_start(5, 4090, 4096), 0);
    assert_eq!(prompt_window_start(5, 4089, 4096), 0);
    assert_eq!(prompt_window_start(5, 4085, 4096), 1);
    assert_eq!(prompt_window_start(usize::MAX, usize::MAX, 10), 0);
    assert_eq!(prompt_window_start(usize::MAX, 0, usize::MAX), usize::MAX - 10);
}

#[test]
fn tokens_read_as_text() {
    assert_eq!(token_text("hello").as_deref(), Some("hello"));
    assert_eq!(token_text("\u{2581}the\u{2581}").as_deref(), Some(" the "));
    assert_eq!(token_text("").as_deref(), Some(""));
    assert_eq!(token_text("<0x0A>").as_deref(), Some("\n"));
    assert_eq!(token_text("<0x41>").as_deref(), Some("A"));
    assert_eq!(token_text("<0x7f>").as_deref(), Some("\u{7f}"));
    assert_eq!(token_text("<0x+41>").as_deref(), Some("A"));
    assert_eq!(token_text("<0x0041>").as_deref(), Some("A"));
    assert_eq!(token_text("<0x80>"), None);
    assert_eq!(token_text("<0xFF>"), None);
    assert_eq!(token_text("<0xff>"), None);
}

#[test]
fn what_is_no_byte_token_reads_as_itself() {
    for raw in ["<0x>", "<0x+>", "<0x100>", "<0xG1>", "<0x-1>", "<0x 1>", "<0x41", "0x41>", "<0X41>", "<0x4_1>"] {
        assert_eq!(token_text(raw).as_deref(), Some(raw));
    }
    assert_eq!(token_text("<0x4\u{2581}1>").as_deref(), Some("<0x4 1>"));
}

#[test]
fn bytes_are_parsed_as_the_standard_library_parses_them() {
    let cases = [
        "", "+", "-", "0", "00", "f", "F", "ff", "FF", "fF", "100", "0100", "+ff", "++1", "-1", "1-",
        "g", "0x1", " 1", "1 ", "7f", "80", "000000000000000000000000000000ff", "fff", "１",
    ];
    for case in cases {
        let chars: Vec<char> = case.chars().collect();
        assert_eq!(
            parse_byte(&chars, 0, chars.len()),
            u8::from_str_radix(case, 16).ok(),
            "{:?}",
            case
        );
    }
    let chars: Vec<char> = "xx1fyy".chars().collect();
    assert_eq!(parse_byte(&chars, 2, 4), Some(0x1f));
    assert_eq!(parse_byte(&chars, 2, 2), None);
    assert_eq!(parse_byte(&chars, 1, 4), None);
}

#[test]
fn hexadecimal_digits_have_their_values() {
    for (i, c) in "0123456789abcdef".chars().enumerate() {
        assert_eq!(hex_digit(c), Some(i as u8));
        assert_eq!(hex_digit(c.to_ascii_uppercase()), Some(i as u8));
    }
    for c in ['g', 'G', '/', ':', '@', '`', ' ', '+', 'é'] {
        assert_eq!(hex_digit(c), None);
    }
}

#[test]
fn documents_are_counted_over_the_segments() {
    assert_eq!(get_num_documents(&Vec::new()), 0);
    assert_eq!(get_num_documents(&vec![3, 0, 4]), 7);
    assert_eq!(get_num_documents(&vec![u32::MAX, u32::MAX]), 2 * (u32::MAX as u64));
}
