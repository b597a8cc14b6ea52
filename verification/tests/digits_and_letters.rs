use katas::diamond::get_diamond;
use katas::largest_series_product::{lsp, Error as LspError};
use katas::pangram::is_pangram;
use katas::parallel_letter_frequency::{count, frequency, letters_of, merge};
use katas::run_length_encoding::{decode, encode};
use katas::triangle::Triangle;
use katas::variable_length_quantity::{from_bytes, to_bytes, Error as VlqError};
use std::collections::HashMap;

#[test]
fn diamond_of_a() {
    assert_eq!(get_diamond('A'), vec!["A"]);
}

#[test]
fn diamond_of_b() {
    assert_eq!(get_diamond('B'), vec![" A ", "B B", " A "]);
}

#[test]
fn diamond_of_c() {
    assert_eq!(get_diamond('C'), vec!["  A  ", " B B ", "C   C", " B B ", "  A  "]);
}

#[test]
fn diamond_of_e() {
    assert_eq!(
        get_diamond('E'),
        vec![
            "    A    ",
            "   B B   ",
            "  C   C  ",
            " D     D ",
            "E       E",
            " D     D ",
            "  C   C  ",
            "   B B   ",
            "    A    ",
        ]
    );
}

#[test]
fn diamond_of_z_has_51_rows() {
    let d = get_diamond('Z');
    assert_eq!(d.len(), 51);
    assert_eq!(d[25], format!("Z{}Z", " ".repeat(49)));
    assert_eq!(d[0], format!("{}A{}", " ".repeat(25), " ".repeat(25)));
    assert_eq!(d[50], d[0]);
}

#[test]
fn diamond_beyond_the_alphabet() {
    assert_eq!(get_diamond('['), {
        let d = get_diamond('[');
        assert_eq!(d.len(), 53);
        assert_eq!(d[26].chars().next(), Some('['));
        d
    });
    assert_eq!(get_diamond('\u{c1}'), Vec::<String>::new());
    assert_eq!(get_diamond('\u{141}'), get_diamond('A'));
    assert_eq!(get_diamond('\u{ff}'), Vec::<String>::new());
}

#[test]
fn lsp_of_spans() {
    assert_eq!(Ok(18), lsp("29", 2));
    assert_eq!(Ok(72), lsp("0123456789", 2));
    assert_eq!(Ok(48), lsp("576802143", 2));
    assert_eq!(Ok(504), lsp("0123456789", 3));
    assert_eq!(Ok(270), lsp("1027839564", 3));
    assert_eq!(Ok(15120), lsp("0123456789", 5));
    assert_eq!(Ok(23520), lsp("73167176531330624919225119674426574742355349194934", 6));
    assert_eq!(Ok(9), lsp("19", 1));
}

#[test]
fn lsp_with_zeros() {
    assert_eq!(Ok(0), lsp("0000", 2));
    assert_eq!(Ok(0), lsp("99099", 3));
}

#[test]
fn lsp_of_an_empty_span_is_one() {
    assert_eq!(Ok(1), lsp("", 0));
    assert_eq!(Ok(1), lsp("123", 0));
    assert_eq!(Ok(1), lsp("12a", 0));
}

#[test]
fn lsp_span_too_long() {
    assert_eq!(Err(LspError::SpanTooLong), lsp("123", 4));
    assert_eq!(Err(LspError::SpanTooLong), lsp("", 1));
}

#[test]
fn lsp_invalid_digit() {
    assert_eq!(Err(LspError::InvalidDigit('a')), lsp("1234a5", 2));
    assert_eq!(Err(LspError::InvalidDigit('x')), lsp("12x4y", 9));
    assert_eq!(Err(LspError::InvalidDigit('\u{663}')), lsp("12\u{663}", 1));
}

#[test]
fn lsp_as_large_as_the_result_can_hold() {
    assert_eq!(Ok(12157665459056928801), lsp("99999999999999999999", 20));
}

#[test]
fn pangrams() {
    assert!(is_pangram("the quick brown fox jumps over the lazy dog"));
    assert!(is_pangram("the_quick_brown_fox_jumps_over_the_lazy_dog"));
    assert!(is_pangram("the 1 quick brown fox jumps over the 2 lazy dogs"));
    assert!(is_pangram("\"Five quacking Zephyrs jolt my wax bed.\""));
    assert!(is_pangram("ABCDEFGHIJKLMNOPQRSTUVWXYZ"));
    assert!(is_pangram("Victor jagt zw\u{f6}lf Boxk\u{e4}mpfer quer \u{fc}ber den gro\u{df}en Sylter Deich."));
}

#[test]
fn sentences_that_lack_a_letter() {
    assert!(!is_pangram(""));
    assert!(!is_pangram("a quick movement of the enemy will jeopardize five gunboats"));
    assert!(!is_pangram("the quick brown fish jumps over the lazy dog"));
    assert!(!is_pangram("7h3 qu1ck brown fox jumps ov3r 7h3 lazy dog"));
    assert!(!is_pangram("the quick brown fox jumps over with lazy FX"));
    assert!(!is_pangram("abcdefghijklmnopqrstuvwxy"));
    assert!(!is_pangram("bcdefghijklmnopqrstuvwxyz"));
    assert!(!is_pangram("\u{212a}abcdefghijlmnopqrstuvwxyz"));
}

#[test]
fn vlq_to_bytes_of_small_numbers() {
    assert_eq!(to_bytes(&[0x00]), vec![0x00]);
    assert_eq!(to_bytes(&[0x40]), vec![0x40]);
    assert_eq!(to_bytes(&[0x7f]), vec![0x7f]);
    assert_eq!(to_bytes(&[]), Vec::<u8>::new());
}

#[test]
fn vlq_to_bytes_of_larger_numbers() {
    assert_eq!(to_bytes(&[128]), vec![0x80, 0x01]);
    assert_eq!(to_bytes(&[300]), vec![0xac, 0x02]);
    assert_eq!(to_bytes(&[0x2000]), vec![0x80, 0x40]);
    assert_eq!(to_bytes(&[32767]), vec![0xff, 0xff]);
    assert_eq!(to_bytes(&[70000]), vec![0xf0, 34]);
    assert_eq!(to_bytes(&[u32::MAX]), vec![0xff, 0xff]);
}

#[test]
fn vlq_to_bytes_of_several_numbers() {
    assert_eq!(to_bytes(&[5, 300, 127, 128]), vec![5, 0xac, 0x02, 127, 0x80, 0x01]);
}

#[test]
fn vlq_from_bytes() {
    assert_eq!(from_bytes(&[]), Ok(vec![]));
    assert_eq!(from_bytes(&[0x7f]), Ok(vec![127]));
    assert_eq!(from_bytes(&[0x80, 0x01]), Ok(vec![128]));
    assert_eq!(from_bytes(&[5, 0xac, 0x02, 127, 0x80, 0x01]), Ok(vec![5, 300, 127, 128]));
    assert_eq!(from_bytes(&[0xff, 0xff]), Ok(vec![32767]));
    assert_eq!(from_bytes(&[0x80, 0x80, 0x00]), Ok(vec![16384, 0]));
}

#[test]
fn vlq_incomplete_number() {
    assert_eq!(from_bytes(&[0x80]), Err(VlqError::IncompleteNumber));
    assert_eq!(from_bytes(&[1, 2, 0xff]), Err(VlqError::IncompleteNumber));
    assert_ne!(VlqError::IncompleteNumber, VlqError::Overflow);
}

#[test]
fn vlq_round_trip() {
    let values: Vec<u32> = (0..32768).step_by(7).collect();
    assert_eq!(from_bytes(&to_bytes(&values)), Ok(values));
}

fn tally(entries: &[(char, usize)]) -> HashMap<u32, usize> {
    entries.iter().map(|&(c, n)| (c as u32, n)).collect()
}

#[test]
fn frequency_of_no_texts() {
    assert_eq!(frequency(&[], 4), HashMap::new());
}

#[test]
fn frequency_of_one_letter() {
    assert_eq!(frequency(&["a"], 4), tally(&[('a', 1)]));
}

#[test]
fn frequency_is_case_insensitive() {
    assert_eq!(frequency(&["aA"], 4), tally(&[('a', 2)]));
}

#[test]
fn frequency_of_many_texts() {
    let v = vec!["abc"; 1000];
    assert_eq!(frequency(&v, 4), tally(&[('a', 1000), ('b', 1000), ('c', 1000)]));
}

#[test]
fn frequency_does_not_count_punctuation_whitespace_or_numbers() {
    assert_eq!(frequency(&[".!?;:,'\"()[]{}-  \n\t", "Testing, 1, 2, 3"], 4), tally(&[
        ('t', 2),
        ('e', 1),
        ('s', 1),
        ('i', 1),
        ('n', 1),
        ('g', 1),
    ]));
}

#[test]
fn frequency_counts_letters_of_any_alphabet() {
    assert_eq!(frequency(&["\u{3a3}\u{3c3}", "\u{e9}\u{c9}"], 1), tally(&[('\u{3c3}', 2), ('\u{e9}', 2)]));
}

#[test]
fn frequency_does_not_depend_on_the_number_of_workers() {
    let texts = ["Freude sch\u{f6}ner G\u{f6}tterfunken", "Tochter aus Elysium"];
    assert_eq!(frequency(&texts, 1), frequency(&texts, 16));
    assert_eq!(frequency(&texts, 0), frequency(&texts, 3));
}

#[test]
fn letters_of_a_text() {
    assert_eq!(letters_of("Hi, \u{3a3}!"), vec!['h', 'i', '\u{3c3}']);
    assert_eq!(letters_of("\u{130}"), vec!['i']);
    assert_eq!(letters_of("123"), Vec::<char>::new());
}

#[test]
fn counting_and_merging() {
    let a = count(&vec!['a', 'b', 'a']);
    let b = count(&vec!['b', 'c']);
    assert_eq!(a, tally(&[('a', 2), ('b', 1)]));
    assert_eq!(merge(a.clone(), &b), Some(tally(&[('a', 2), ('b', 2), ('c', 1)])));
    assert_eq!(merge(HashMap::new(), &b), Some(b.clone()));
    assert_eq!(merge(a.clone(), &HashMap::new()), Some(a));
    let mut full = HashMap::new();
    full.insert('b' as u32, usize::MAX);
    assert_eq!(merge(full, &b), None);
}

#[test]
fn encode_texts() {
    assert_eq!(encode(""), "");
    assert_eq!(encode("XYZ"), "XYZ");
    assert_eq!(encode("AABBBCCCC"), "2A3B4C");
    assert_eq!(
        encode("WWWWWWWWWWWWBWWWWWWWWWWWWBBBWWWWWWWWWWWWWWWWWWWWWWWWBWWWWWWWWWWWWWW"),
        "12WB12W3B24WB14W"
    );
    assert_eq!(encode("  hsqq qww  "), "2 hs2q q2w2 ");
    assert_eq!(encode("aabbbcccc"), "2a3b4c");
    assert_eq!(encode("ABA"), "ABA");
}

#[test]
fn decode_texts() {
    assert_eq!(decode(""), "");
    assert_eq!(decode("XYZ"), "XYZ");
    assert_eq!(decode("2A3B4C"), "AABBBCCCC");
    assert_eq!(
        decode("12WB12W3B24WB14W"),
        "WWWWWWWWWWWWBWWWWWWWWWWWWBBBWWWWWWWWWWWWWWWWWWWWWWWWBWWWWWWWWWWWWWW"
    );
    assert_eq!(decode("2 hs2q q2w2 "), "  hsqq qww  ");
    assert_eq!(decode("2a3b4c"), "aabbbcccc");
}

#[test]
fn decode_edge_cases() {
    assert_eq!(decode("AB12"), "AB");
    assert_eq!(decode("0A1B"), "B");
    assert_eq!(decode("\u{b2}A"), "A");
    assert_eq!(decode("003A"), "AAA");
}

#[test]
fn encode_followed_by_decode_gives_the_text_back() {
    assert_eq!(decode(&encode("zzz ZZ  zZ")), "zzz ZZ  zZ");
}

#[test]
fn triangles_of_zero_sides_are_none() {
    assert!(Triangle::build([0, 0, 0]).is_none());
    assert!(Triangle::build([0u64, 0, 0]).is_none());
    assert!(Triangle::build([0.0, 0.0, 0.0]).is_none());
    assert!(Triangle::build([0, 0, 1]).is_some());
    assert!(Triangle::build_from([7, 7, 7], 7).is_none());
    assert!(Triangle::build_from([0, 0, 0], 7).is_some());
}

#[test]
fn equilateral_triangles() {
    assert!(Triangle::build([2, 2, 2]).unwrap().is_equilateral());
    assert!(!Triangle::build([2, 3, 2]).unwrap().is_equilateral());
    assert!(!Triangle::build([5, 4, 6]).unwrap().is_equilateral());
    assert!(Triangle::build([0.5, 0.5, 0.5]).unwrap().is_equilateral());
}

#[test]
fn isosceles_triangles() {
    assert!(Triangle::build([3, 4, 4]).unwrap().is_isosceles());
    assert!(Triangle::build([4, 4, 3]).unwrap().is_isosceles());
    assert!(Triangle::build([4, 3, 4]).unwrap().is_isosceles());
    assert!(!Triangle::build([4, 4, 4]).unwrap().is_isosceles());
    assert!(!Triangle::build([2, 3, 4]).unwrap().is_isosceles());
}

#[test]
fn scalene_triangles_have_growing_sides() {
    assert!(Triangle::build([3, 4, 5]).unwrap().is_scalene());
    assert!(!Triangle::build([5, 4, 3]).unwrap().is_scalene());
    assert!(!Triangle::build([4, 4, 5]).unwrap().is_scalene());
    assert!(Triangle::build([0.4, 0.6, 0.9]).unwrap().is_scalene());
}
