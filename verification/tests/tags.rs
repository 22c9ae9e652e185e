use ttb::names::NameMap;
use ttb::tags::{elide, first_leaf, is_expanded, rows, split_segments, Row};

fn tags(list: &[&str]) -> Vec<String> {
    let mut v: Vec<String> = list.iter().map(|s| s.to_string()).collect();
    v.sort();
    v
}

fn in_order(list: &[&str]) -> Vec<String> {
    list.iter().map(|s| s.to_string()).collect()
}

fn labels(rows: &[Row]) -> Vec<String> {
    rows.iter().map(|r| format!("{}{}", "  ".repeat(r.depth), r.label)).collect()
}

fn state(list: &[(&str, bool)]) -> NameMap<bool> {
    let mut m = NameMap::new();
    for (path, open) in list {
        m.put(path, *open);
    }
    m
}

#[test]
fn a_shared_prefix_becomes_one_row() {
    let t = tags(&["train/loss", "train/accuracy", "val/loss"]);
    let list = rows(&t, &state(&[]), false);
    assert_eq!(
        labels(&list),
        // `val` holds one tag, so it folds into a single row by the
        // single-child rule; `train` holds two and stays a group
        ["train", "  accuracy", "  loss", "val/loss"],
        "top level open, leaves under it"
    );
    assert_eq!(list[0].leaves, 2);
    assert!(!list[0].leaf && list[1].leaf);
}

#[test]
fn deeper_groups_start_closed() {
    let t = tags(&[
        "data_profiler/legal_524cb72/mean_loss",
        "data_profiler/legal_524cb72/std_loss",
        "data_profiler/swh_bd912224/mean_loss",
        "data_profiler/swh_bd912224/std_loss",
    ]);
    let list = rows(&t, &state(&[]), false);
    // 40 tags of this shape used to be 40 rows; now the second level is
    // the whole list until something is opened
    assert_eq!(labels(&list), ["data_profiler", "  legal_524cb72", "  swh_bd912224"]);
    assert_eq!(list[1].leaves, 2);

    let open = state(&[("data_profiler/swh_bd912224", true)]);
    let list = rows(&t, &open, false);
    assert_eq!(
        labels(&list),
        ["data_profiler", "  legal_524cb72", "  swh_bd912224", "    mean_loss", "    std_loss"]
    );
}

#[test]
fn closing_the_top_hides_everything_under_it() {
    let t = tags(&["train/loss", "train/acc"]);
    let list = rows(&t, &state(&[("train", false)]), false);
    assert_eq!(labels(&list), ["train"]);
    assert!(!list[0].expanded);
}

#[test]
fn a_single_child_chain_collapses_into_one_row() {
    let t = tags(&["a/b/c/metric", "a/b/c/other"]);
    let list = rows(&t, &state(&[]), false);
    assert_eq!(labels(&list), ["a/b/c", "  metric", "  other"], "no ladder of single children");
    assert_eq!(list[0].path, "a/b/c");
}

#[test]
fn a_lone_tag_is_one_row_not_a_group() {
    let t = tags(&["some/deep/lonely_metric"]);
    let list = rows(&t, &state(&[]), false);
    assert_eq!(labels(&list), ["some/deep/lonely_metric"]);
    assert!(list[0].leaf);
    assert_eq!(list[0].path, "some/deep/lonely_metric");
}

#[test]
fn a_tag_that_is_also_a_group_keeps_its_own_row() {
    let t = tags(&["loss", "loss/train", "loss/val"]);
    let list = rows(&t, &state(&[]), false);
    assert_eq!(labels(&list), ["loss", "  train", "  val"]);
    assert!(!list[0].leaf, "it has children, so it stays a group row");
}

#[test]
fn tags_without_slashes_are_plain_rows() {
    let t = tags(&["loss", "accuracy"]);
    let list = rows(&t, &state(&[]), false);
    assert_eq!(labels(&list), ["accuracy", "loss"]);
    assert!(list.iter().all(|r| r.leaf));
}

#[test]
fn a_filter_opens_everything() {
    let t = tags(&["a/b/x_loss", "a/c/y_loss"]);
    let closed = state(&[("a", false)]);
    let list = rows(&t, &closed, true);
    assert_eq!(labels(&list), ["a", "  b/x_loss", "  c/y_loss"], "a match is never hidden");
}

#[test]
fn a_group_row_points_at_its_first_tag() {
    let t = tags(&["p/g1/a_loss", "p/g1/b_loss", "p/g2/c_loss"]);
    let list = rows(&t, &state(&[]), false);
    let group = list.iter().find(|r| r.path == "p/g1").unwrap();
    assert_eq!(first_leaf(&t, group), Some(0));
    assert_eq!(t[0], "p/g1/a_loss");
    let leafrow = Row { leaf: true, path: "p/g2/c_loss".into(), ..group.clone() };
    assert_eq!(first_leaf(&t, &leafrow), Some(2));
}

#[test]
fn eliding_keeps_both_ends() {
    // the hash at the end is what tells two groups apart
    let out = elide("swh_content-dedup-opc-filtered_bd912224", 20);
    assert_eq!(out, "swh_conten…_bd912224");
    assert_eq!(out.chars().count(), 20);
    assert!(out.ends_with("_bd912224"), "the hash that names the group survives");
    assert_eq!(elide("short", 20), "short");
    assert_eq!(elide("exactly_ten", 11), "exactly_ten");
    assert_eq!(elide("abcdef", 3), "a…f");
}

#[test]
fn eliding_is_never_wider_than_asked() {
    for w in 0..12 {
        let out = elide("a_rather_long_label_here", w);
        assert!(out.chars().count() <= w.max(0), "width {} gave {:?}", w, out);
    }
}

#[test]
fn empty_segments_are_left_out() {
    assert_eq!(split_segments("//a//b/"), ["a", "b"]);
    assert!(split_segments("///").is_empty());
    assert!(split_segments("").is_empty());
    let list = rows(&tags(&["/", "a//b"]), &state(&[]), false);
    assert_eq!(labels(&list), ["a/b"]);
}

#[test]
fn the_state_decides_and_else_the_depth() {
    let s = state(&[("x", false), ("y", true)]);
    assert!(!is_expanded(&s, "x", 0));
    assert!(is_expanded(&s, "y", 3));
    assert!(is_expanded(&s, "z", 0));
    assert!(!is_expanded(&s, "z", 1));
}

#[test]
fn a_group_that_is_a_tag_leads_to_it() {
    let t = tags(&["loss", "loss/train", "loss/val"]);
    let list = rows(&t, &state(&[]), false);
    assert_eq!(first_leaf(&t, &list[0]), Some(0));
    let stray = Row { path: "nothing".into(), ..list[0].clone() };
    assert_eq!(first_leaf(&t, &stray), None);
}

#[test]
fn every_row_counts_and_leads_to_its_tags() {
    let t = tags(&["a/b/c", "a/b/d", "a/x/y/z", "b", "b/c", "q/r/s", "q/r/s/t"]);
    for force in [false, true] {
        for row in rows(&t, &state(&[]), force) {
            let under = format!("{}/", row.path);
            let n = t.iter().filter(|s| **s == row.path || s.starts_with(&under)).count();
            assert_eq!(row.leaves, n, "{}", row.path);
            assert!(first_leaf(&t, &row).is_some());
            if force {
                assert_eq!(row.expanded, !row.leaf);
            }
        }
    }
    let shown: Vec<String> = rows(&t, &state(&[]), true).into_iter().map(|r| r.path).collect();
    for tag in &t {
        assert!(shown.contains(tag), "{} is hidden", tag);
    }
}

#[test]
fn the_path_of_a_leaf_is_its_tag() {
    for tag in ["/loss", "a//b", "a/b/", "//x//y//"] {
        let t = tags(&[tag]);
        let list = rows(&t, &state(&[]), false);
        assert_eq!(list.len(), 1);
        assert!(list[0].leaf);
        assert_eq!(list[0].path, tag);
        assert_eq!(first_leaf(&t, &list[0]), Some(0));
    }
    assert_eq!(rows(&tags(&["/loss"]), &state(&[]), false)[0].label, "loss");
}

#[test]
fn tags_that_differ_in_slashes_share_a_row() {
    for list in [vec!["a//b", "a/b"], vec!["a/b", "a//b"], vec!["/a/b", "a//b", "a/b"]] {
        let t = in_order(&list);
        let list = rows(&t, &state(&[]), false);
        assert_eq!(list.len(), 1);
        assert_eq!(list[0].path, "a/b");
        assert_eq!(list[0].label, "a/b");
        assert_eq!(list[0].leaves, t.len());
        let at = t.iter().position(|s| s == "a/b");
        assert_eq!(first_leaf(&t, &list[0]), at);
    }
    // no tag has single slashes
    let t = in_order(&["a//b", "/a/b"]);
    let list = rows(&t, &state(&[]), false);
    assert_eq!(list.len(), 1);
    assert_eq!(list[0].path, "a//b");
    assert_eq!(first_leaf(&t, &list[0]), Some(0));
}

#[test]
fn the_path_of_a_group_has_single_slashes() {
    let t = tags(&["/a/x", "/a/y", "b"]);
    let list = rows(&t, &state(&[]), false);
    let paths: Vec<&str> = list.iter().map(|r| r.path.as_str()).collect();
    assert_eq!(paths, ["a", "/a/x", "/a/y", "b"]);
    assert_eq!(labels(&list), ["a", "  x", "  y", "b"]);
    assert_eq!(first_leaf(&t, &list[0]), Some(0));
    // and its state is kept under that path
    let closed = rows(&t, &state(&[("a", false)]), false);
    assert_eq!(labels(&closed), ["a", "b"]);
    assert_eq!(first_leaf(&t, &closed[0]), Some(0));
    let other = rows(&t, &state(&[("/a", false)]), false);
    assert_eq!(labels(&other), ["a", "  x", "  y", "b"]);
}

#[test]
fn the_state_of_a_group_survives_a_new_spelling() {
    let closed = state(&[("a", false)]);
    assert_eq!(labels(&rows(&tags(&["a/x", "a/y"]), &closed, false)), ["a"]);
    assert_eq!(labels(&rows(&tags(&["a//x", "a/x", "a/y"]), &closed, false)), ["a"]);
}

#[test]
fn a_group_leads_to_the_first_tag_by_segments() {
    let t = in_order(&["ab/x", "b", "a//x", "a/y"]);
    let list = rows(&t, &state(&[("a", false)]), false);
    let row = list.iter().find(|r| r.path == "a").unwrap();
    assert!(!row.leaf);
    assert_eq!(row.leaves, 2);
    assert_eq!(first_leaf(&t, row), Some(2));
}

#[test]
fn paths_are_made_of_labels() {
    let t = tags(&["/loss", "a//b/c", "a/b/c", "a/b/d", "a/x/y/z", "b", "b/c", "q/r/s/t", "q//r"]);
    for force in [false, true] {
        let list = rows(&t, &state(&[("q/r", true)]), force);
        for (i, r) in list.iter().enumerate() {
            let way = match list[..i].iter().rev().find(|g| g.depth < r.depth) {
                Some(g) => {
                    assert!(!g.leaf && g.depth + 1 == r.depth);
                    format!("{}/{}", g.path, r.label)
                }
                None => r.label.clone(),
            };
            if r.leaf && !t.contains(&way) {
                assert!(t.contains(&r.path));
            } else {
                assert_eq!(r.path, way);
            }
        }
    }
}

#[test]
fn open_groups_show_their_rows_in_order() {
    let t = in_order(&["q/z", "q/b", "a/x/y", "a/x/z", "b", "/a/w", "a/c/d"]);
    let s = state(&[("q", false), ("a/x", true)]);
    for force in [false, true] {
        let list = rows(&t, &s, force);
        for (i, r) in list.iter().enumerate() {
            let open = !r.leaf && (force || is_expanded(&s, &r.path, r.depth));
            assert_eq!(r.expanded, open, "{}", r.path);
            let deeper = i + 1 < list.len() && list[i + 1].depth == r.depth + 1;
            assert_eq!(r.expanded, deeper, "{}", r.path);
        }
    }
    assert_eq!(
        labels(&rows(&t, &s, false)),
        ["a", "  c/d", "  w", "  x", "    y", "    z", "b", "q"]
    );
    assert_eq!(
        labels(&rows(&t, &s, true)),
        ["a", "  c/d", "  w", "  x", "    y", "    z", "b", "q", "  b", "  z"]
    );
}

#[test]
fn forced_open_each_tag_has_one_row_whatever_the_state() {
    let t = tags(&["a/b/c", "a/b/d", "a/x/y/z", "b", "b/c", "q/r/s", "q/r/s/t"]);
    let list = rows(&t, &state(&[]), true);
    assert_eq!(list, rows(&t, &state(&[("a", false), ("a/b", true), ("q/r/s", false)]), true));
    for tag in &t {
        assert_eq!(list.iter().filter(|r| r.path == *tag).count(), 1, "{}", tag);
    }
    for (i, r) in list.iter().enumerate() {
        assert!(list[i + 1..].iter().all(|s| s.path != r.path));
        assert!(!r.leaf || t.contains(&r.path));
    }
}
