use efflux::gallery::{has_more, page_of, parse_q, parse_tags, similar_limit};
use efflux::labels::{pick_candidates, GroupDef, LabelDef, Labels};
use efflux::map::looks_overseas;

#[test]
fn gallery_queries() {
    assert_eq!(parse_tags(Some(" cat, ,dog ")), Some(vec!["cat".to_string(), "dog".to_string()]));
    assert_eq!(parse_tags(Some(" , ")), None);
    assert_eq!(parse_tags(None), None);
    assert_eq!(parse_q(Some("  海边 ")), Some("海边".to_string()));
    assert_eq!(parse_q(Some("   ")), None);
    assert_eq!(page_of(None, None), (60, 0));
    assert_eq!(page_of(Some(0), Some(-5)), (1, 0));
    assert_eq!(page_of(Some(999), Some(40)), (200, 40));
    assert_eq!(similar_limit(None), 12);
    assert_eq!(similar_limit(Some(100)), 60);
    assert_eq!(similar_limit(Some(-1)), 1);
    assert!(has_more(0, 60, 61));
    assert!(!has_more(60, 1, 61));
}

#[test]
fn overseas_heuristic() {
    assert!(looks_overseas("东京"));
    assert!(looks_overseas("巴黎"));
    assert!(!looks_overseas("仙桃市"));
    assert!(!looks_overseas("陵水黎族自治县"));
}

#[test]
fn more_places_at_home() {
    assert!(!looks_overseas("神农架林区"));
    assert!(!looks_overseas("锡林郭勒盟地区"));
    assert!(!looks_overseas("海淀区"));
    assert!(!looks_overseas("正蓝旗"));
    assert!(looks_overseas("纽约"));
}

fn label(key: &str, group: &str) -> LabelDef {
    LabelDef { key: key.to_string(), name: key.to_uppercase(), group: group.to_string(), prompt: format!("a photo of {key}") }
}

#[test]
fn label_groups() {
    let labels = Labels::new(
        vec![GroupDef { key: "animal".to_string(), name: "动物".to_string() }],
        vec![label("cat", "animal"), label("sea", "scene")],
    )
    .ok()
    .unwrap();
    assert_eq!(labels.len(), 2);
    assert_eq!(labels.group_name("cat"), "动物");
    assert_eq!(labels.group_name("sea"), "scene");
    assert_eq!(labels.group_name("car"), "其他");
    assert!(Labels::new(vec![], vec![]).is_err());
}

#[test]
fn tag_candidates_are_spread_over_groups() {
    use_candidates();
}

fn use_candidates() {
    let groups: Vec<String> = ["scene", "scene", "scene", "animal", "scene", "food"]
        .iter()
        .map(|g| g.to_string())
        .collect();
    assert_eq!(pick_candidates(&groups), vec![0, 1, 3, 5]);
    let many: Vec<String> = (0..40).map(|i| format!("g{}", i % 20)).collect();
    let picked = pick_candidates(&many);
    assert_eq!(picked.len(), 24);
    assert_eq!(picked[..20].to_vec(), (0..20).collect::<Vec<usize>>());
    assert!(pick_candidates(&[]).is_empty());
}
