use logoscope::drain_adapter::{clusters_merged_by_shape, compute_shape_key, generalize_templates, DrainCluster};

fn c(t: &str, n: usize) -> DrainCluster {
    DrainCluster { template: t.to_string(), size: n }
}

#[test]
fn shape_key_lists_sorted_field_names() {
    assert_eq!(compute_shape_key("msg = <MSG> level = <LEVEL> a = <A>"), "fields:a,level,msg");
    assert_eq!(compute_shape_key("no fields here"), "fields:");
}

#[test]
fn generalize_keeps_shared_words() {
    let t = vec!["user = <USER> logged in".to_string(), "user = <USER> logged out".to_string()];
    assert_eq!(generalize_templates(&t), Some("user = <USER> logged <*>".to_string()));
    assert_eq!(generalize_templates(&vec!["only one".to_string()]), Some("only one".to_string()));
    assert_eq!(generalize_templates(&Vec::new()), None);
}

#[test]
fn clusters_with_same_fields_merge_and_sort_by_size() {
    let clusters = vec![
        c("a = <A> b = <B> x", 2),
        c("plain text <NUM>", 7),
        c("b = <B> a = <A> y", 3),
    ];
    let merged = clusters_merged_by_shape(&clusters);
    assert_eq!(merged.len(), 2);
    assert_eq!(merged[0].template, "plain text <NUM>");
    assert_eq!(merged[0].size, 7);
    assert_eq!(merged[1].size, 5);
    assert_eq!(merged[1].template, "<*> = <*> <*> = <*> <*>");
}

#[test]
fn equal_sizes_keep_first_seen_order() {
    let merged = clusters_merged_by_shape(&vec![c("k = <K>", 1), c("z", 1), c("q = <Q>", 1)]);
    let names: Vec<&str> = merged.iter().map(|m| m.template.as_str()).collect();
    assert_eq!(names, vec!["k = <K>", "z", "q = <Q>"]);
}
