use ccusage_adapter_cursor::order::{sort_by_keys, stable_order, text_at_most};
use ccusage_adapter_cursor::text::{decimal_text, split_on, strip_prefix, strip_suffix, trim};

fn pseudo_random(count: usize) -> Vec<i64> {
    let mut state: u64 = 0x1234_5678_9abc_def1;
    (0..count)
        .map(|_| {
            state ^= state << 13;
            state ^= state >> 7;
            state ^= state << 17;
            (state % 17) as i64 - 8
        })
        .collect()
}

#[test]
fn stable_order_agrees_with_the_standard_sort() {
    for count in [0, 1, 2, 3, 7, 64, 1000] {
        let keys = pseudo_random(count);
        let mut ascending: Vec<usize> = (0..count).collect();
        ascending.sort_by(|a, b| keys[*a].cmp(&keys[*b]));
        assert_eq!(stable_order(&keys, false), ascending);
        let mut descending: Vec<usize> = (0..count).collect();
        descending.sort_by(|a, b| keys[*b].cmp(&keys[*a]));
        assert_eq!(stable_order(&keys, true), descending);
    }
}

#[test]
fn items_follow_their_keys() {
    let items = vec!["c", "a", "b", "a2"];
    assert_eq!(
        sort_by_keys(items.clone(), &vec![3i64, 1, 2, 1], false),
        ["a", "a2", "b", "c"]
    );
    assert_eq!(
        sort_by_keys(items, &vec![3i64, 1, 2, 1], true),
        ["c", "b", "a", "a2"]
    );
}

#[test]
fn texts_are_ordered_like_strings() {
    let samples = ["", "a", "aa", "ab", "b", "B", "é", "\u{ffff}", "\u{10000}", "a\0"];
    for a in samples {
        for b in samples {
            assert_eq!(text_at_most(a, b), a <= b, "{a:?} {b:?}");
        }
    }
}

#[test]
fn texts_are_trimmed_and_split_like_strings() {
    for text in [
        "",
        "  ",
        " a b ",
        "\u{3000}x\u{a0}\n",
        "\u{200b}x\u{200b}",
        "a\u{1680}",
        "\u{85}\u{2028}\u{2029}\u{202f}\u{205f}y",
    ] {
        assert_eq!(trim(text), text.trim(), "{text:?}");
    }
    for text in ["", ",", "a", "a,,b", ",é,", "x,y,z"] {
        let expected: Vec<&str> = text.split(',').collect();
        assert_eq!(split_on(text, ','), expected, "{text:?}");
    }
    for (text, part) in [("cursor-x", "cursor-"), ("éa", "é"), ("a", "ab"), ("", ""), ("ab", "b")] {
        assert_eq!(strip_prefix(text, part), text.strip_prefix(part));
        assert_eq!(strip_suffix(text, part), text.strip_suffix(part));
    }
}

#[test]
fn numbers_are_written_in_decimal() {
    for number in [0, 7, 10, 99, 100, 1_234_567_890, u64::MAX] {
        assert_eq!(decimal_text(number), number.to_string());
    }
}
