use eldoria_npc::text::{
    chars_of, join_strings, replace_exec, split_ranges, split_whitespace_ranges, str_replace, str_trim,
};

fn pieces(s: &str, ranges: &[(usize, usize)]) -> Vec<String> {
    let cs: Vec<char> = s.chars().collect();
    ranges.iter().map(|&(a, b)| cs[a..b].iter().collect()).collect()
}

#[test]
fn replace_is_left_to_right_without_overlap() {
    assert_eq!(str_replace("aaa", "aa", "b"), "ba");
    assert_eq!(str_replace("npc_old_man.txt", "_", " "), "npc old man.txt");
    assert_eq!(str_replace("abc", "x", "y"), "abc");
    assert_eq!(str_replace("", "x", "y"), "");
    let r = replace_exec(&chars_of("a.b"), &chars_of("."), &chars_of("::"));
    assert_eq!(r.iter().collect::<String>(), "a::b");
}

#[test]
fn split_matches_str_split() {
    for s in ["a\n\nb", "\n\n\nb", "a\n\n", "", "no break", "x\n\n\n\ny"] {
        let cs = chars_of(s);
        let sep = chars_of("\n\n");
        let got = pieces(s, &split_ranges(&cs, &sep));
        let want: Vec<String> = s.split("\n\n").map(|p| p.to_string()).collect();
        assert_eq!(got, want, "splitting {:?}", s);
    }
}

#[test]
fn split_whitespace_matches_str_split_whitespace() {
    for s in ["  a  b\tc\n", "", "   ", "one", "x\u{a0}y"] {
        let cs = chars_of(s);
        let got = pieces(s, &split_whitespace_ranges(&cs));
        let want: Vec<String> = s.split_whitespace().map(|p| p.to_string()).collect();
        assert_eq!(got, want, "splitting {:?}", s);
    }
}

#[test]
fn trim_and_join() {
    assert_eq!(str_trim("  a b \n"), "a b");
    assert_eq!(str_trim("\u{a0}x\u{3000}"), "x");
    assert_eq!(str_trim("   "), "");
    let parts = vec!["a".to_string(), "".to_string(), "c".to_string()];
    assert_eq!(join_strings(&parts, "\n\n"), "a\n\n\n\nc");
    assert_eq!(join_strings(&Vec::new(), "-"), "");
}

#[test]
fn whitespace_matches_std_on_every_char() {
    for u in 0u32..=0x10FFFF {
        if let Some(c) = char::from_u32(u) {
            assert_eq!(eldoria_npc::unicode::char_is_whitespace(c), c.is_whitespace(), "U+{:04X}", u);
        }
    }
}
