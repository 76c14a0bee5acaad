use keyps::editor::{extract_preamble, remove_managed_block, upsert, upsert_keys};
use keyps::text::{join_lines, split_lines};

fn lines(v: &[&str]) -> Vec<String> {
    v.iter().map(|s| s.to_string()).collect()
}

#[test]
fn split_lines_basic() {
    assert_eq!(split_lines("a\nb"), lines(&["a", "b"]));
    assert_eq!(split_lines("a\nb\n"), lines(&["a", "b"]));
    assert_eq!(split_lines("a\n\nb"), lines(&["a", "", "b"]));
    assert_eq!(split_lines(""), lines(&[]));
    assert_eq!(split_lines("a\r\nb"), lines(&["a", "b"]));
    assert_eq!(split_lines("\n"), lines(&[""]));
}

#[test]
fn join_lines_basic() {
    assert_eq!(join_lines(&lines(&["a", "b"])), "a\nb");
    assert_eq!(join_lines(&lines(&[])), "");
    assert_eq!(join_lines(&lines(&["a"])), "a");
    assert_eq!(join_lines(&lines(&["", ""])), "\n");
}

#[test]
fn preamble_without_markers_is_unchanged() {
    let f = lines(&["# a comment", "ssh-rsa AAA user@host", ""]);
    assert_eq!(extract_preamble(&f), f);
}

#[test]
fn preamble_drops_block_and_markers() {
    let f = lines(&["x", "# keyps: START", "k1", "k2", "# keyps: END", "y"]);
    assert_eq!(extract_preamble(&f), lines(&["x", "y"]));
}

#[test]
fn preamble_drops_unterminated_block() {
    // a start marker with no end marker claims everything after it
    let f = lines(&["x", "y", "# keyps: START", "k1", "k2"]);
    assert_eq!(extract_preamble(&f), lines(&["x", "y"]));
}

#[test]
fn preamble_keeps_stray_end_marker() {
    let f = lines(&["x", "# keyps: END", "y"]);
    assert_eq!(extract_preamble(&f), f);
}

#[test]
fn preamble_drops_repeated_blocks() {
    let f = lines(&[
        "a",
        "# keyps: START",
        "k1",
        "# keyps: END",
        "b",
        "# keyps: START",
        "k2",
        "# keyps: END",
        "c",
    ]);
    assert_eq!(extract_preamble(&f), lines(&["a", "b", "c"]));
}

#[test]
fn upsert_appends_markers_and_keys() {
    let out = upsert(lines(&["x"]), &lines(&["k1", "k2"]));
    assert_eq!(out, lines(&["x", "# keyps: START", "k1", "k2", "# keyps: END"]));
}

#[test]
fn upsert_skips_keys_already_in_preamble() {
    // a key a human already added by hand is not duplicated
    let out = upsert(lines(&["x", "k1"]), &lines(&["k1", "k2"]));
    assert_eq!(out, lines(&["x", "k1", "# keyps: START", "k2", "# keyps: END"]));
}

#[test]
fn upsert_keeps_preamble_order() {
    let pre = lines(&["c", "a", "b"]);
    let out = upsert(pre.clone(), &lines(&["k"]));
    assert_eq!(&out[..3], &pre[..]);
}

#[test]
fn upsert_keys_replaces_existing_block() {
    let content = "x\n# keyps: START\nold1\nold2\n# keyps: END\ny";
    let out = upsert_keys(content, &lines(&["new1"]));
    assert_eq!(out, "x\ny\n# keyps: START\nnew1\n# keyps: END");
}

#[test]
fn upsert_keys_twice_is_idempotent() {
    let content = "# humans above\nmanual-key\n";
    let keys = lines(&["manual-key", "k1", "k2"]);
    let once = upsert_keys(content, &keys);
    let twice = upsert_keys(&once, &keys);
    assert_eq!(twice, once);
    assert_eq!(once, "# humans above\nmanual-key\n# keyps: START\nk1\nk2\n# keyps: END");
}

#[test]
fn remove_managed_block_on_shutdown() {
    // an established block with two keys vanishes, everything else stays
    let content = "# one\nmanual\n# keyps: START\nkeyA\nkeyB\n# keyps: END\n# two";
    assert_eq!(remove_managed_block(content), "# one\nmanual\n# two");
}

#[test]
fn remove_managed_block_without_block_is_identity() {
    let content = "# one\nmanual";
    assert_eq!(remove_managed_block(content), content);
}
