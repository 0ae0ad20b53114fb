use language_model_edit_prediction::sanitize::{echo_candidates, sanitize};

fn clean(generated: &str, prefix: &str, suffix: &str) -> String {
    let chars: Vec<char> = prefix.chars().collect();
    let from = chars.len().saturating_sub(80);
    let before: String = chars[from..].iter().collect();
    sanitize(generated.to_string(), prefix, suffix, &before)
}

#[test]
fn markers_are_removed() {
    assert_eq!(clean("[PREFIX]a[/PREFIX]b[SUFFIX]c[/SUFFIX]", "", ""), "abc");
    assert_eq!(clean("[PREFIX", "", ""), "[PREFIX");
}

#[test]
fn marker_joined_from_parts_stays() {
    assert_eq!(clean("[PRE[PREFIX]FIX]", "", ""), "[PREFIX]");
    // The parts of an earlier marker joined by a later one stay too, not the other way round.
    assert_eq!(clean("[PRE[SUFFIX]FIX]", "", ""), "[PREFIX]");
    assert_eq!(clean("[SUF[PREFIX]FIX]", "", ""), "");
}

#[test]
fn text_repeated_from_before_the_cursor_is_removed() {
    assert_eq!(clean("let x = 1;", "fn f() { let x", ""), " = 1;");
    assert_eq!(clean("let x = 1;", "nothing alike", ""), "let x = 1;");
    // The longest repetition counts.
    assert_eq!(clean("abab!", "xabab", ""), "!");
    assert_eq!(clean("éa", "é", ""), "a");
}

#[test]
fn repetition_reaches_back_eighty_characters() {
    let tail = "0123456789".repeat(8);
    assert_eq!(clean(&format!("{tail}new"), &tail, ""), "new");
    let longer = format!("#{tail}");
    assert_eq!(
        sanitize(format!("{longer}new"), "", "", &tail),
        format!("{longer}new")
    );
}

#[test]
fn text_anticipated_from_behind_the_cursor_is_removed() {
    assert_eq!(clean(") + 1", "f(x", ")"), " + 1");
    assert_eq!(clean("}\n", "", "}\nfn"), "");
    assert_eq!(clean("a", "", "b"), "a");
}

#[test]
fn echoes_of_long_lines_are_removed() {
    let line = "let the_quick_brown_fox = jumps_over_the_lazy_dog();";
    assert!(line.len() >= 40);
    let prefix = format!("{line}   \r\nshort\nx");
    assert_eq!(clean(&format!("new {line}!"), &prefix, ""), "new !");
    assert_eq!(clean(&format!("new {line}!"), "x", &format!("y\n{line}")), "new !");
    assert_eq!(clean("short", &prefix, ""), "short");
}

#[test]
fn echo_needs_forty_bytes() {
    let forty = "a".repeat(40);
    assert_eq!(echo_candidates(&forty, ""), vec![forty.clone()]);
    let thirty_nine = "a".repeat(39);
    assert!(echo_candidates(&thirty_nine, "").is_empty());
    // Bytes count, not characters.
    let accents = "é".repeat(20);
    assert_eq!(echo_candidates("", &accents), vec![accents.clone()]);
}

#[test]
fn echo_candidates_are_the_edges_and_the_long_lines() {
    let a = "a".repeat(150);
    let b = "b".repeat(150);
    let prefix = format!("{a}\n{b} \n");
    let suffix = format!("\n{b}\n{a}");
    let tail = format!("{}\n{b} \n", "a".repeat(47));
    let head = format!("\n{b}\n{}", "a".repeat(48));
    assert_eq!(echo_candidates(&prefix, &suffix), vec![tail, a, b, head]);
}

#[test]
fn fresh_text_is_left_as_it_is() {
    assert_eq!(clean("foo(bar)", "let y = ", ";"), "foo(bar)");
    assert_eq!(clean("", "let y = ", ";"), "");
}
