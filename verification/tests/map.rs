use efflux::map::{light_cities, light_provinces, CityEntry, VisitedCity};

fn visited(city: &str, visits: i64, last: Option<i128>, entry: Option<(&str, u32, u32)>) -> VisitedCity {
    VisitedCity {
        city: city.to_string(),
        visits,
        first_at: Some(1),
        last_at: last,
        entry: entry.map(|(official, adcode, province)| CityEntry {
            official: official.to_string(),
            adcode,
            province,
        }),
    }
}

fn names() -> Vec<(u32, String)> {
    vec![(330000, "浙江省".to_string()), (510000, "四川省".to_string())]
}

#[test]
fn provinces_add_up_their_cities() {
    let rows = vec![
        visited("杭州", 5, Some(100), Some(("杭州市", 330100, 330000))),
        visited("康定", 2, Some(300), Some(("甘孜藏族自治州", 513300, 510000))),
        visited("宁波", 4, None, Some(("宁波市", 330200, 330000))),
        visited("东京", 3, Some(50), None),
        visited("巴黎", 1, Some(60), None),
        visited("仙桃市", 1, Some(70), None),
        visited("拉萨", 9, Some(10), Some(("拉萨市", 540100, 540000))),
    ];
    let map = light_provinces(&rows, &names());
    assert_eq!(map.total_provinces, 3);
    assert_eq!(map.total_cities, 4);
    assert_eq!(map.total_visits, 20);
    assert_eq!(map.elsewhere, 1);
    assert_eq!(map.overseas, vec!["东京".to_string(), "巴黎".to_string()]);
    let shown: Vec<(String, u32, usize, i64, Option<i128>)> = map
        .provinces
        .iter()
        .map(|p| (p.name.clone(), p.adcode, p.cities, p.visits, p.last_at))
        .collect();
    assert_eq!(
        shown,
        vec![
            // as many visits: by name, and digits order before these characters
            ("540000".to_string(), 540000, 1, 9, Some(10)),
            ("浙江省".to_string(), 330000, 2, 9, Some(100)),
            ("四川省".to_string(), 510000, 1, 2, Some(300)),
        ]
    );
    let empty = light_provinces(&[], &names());
    assert_eq!(empty.total_provinces, 0);
    assert!(empty.provinces.is_empty());
}

#[test]
fn cities_of_a_province() {
    let rows = vec![
        visited("宁波", 4, None, Some(("宁波市", 330200, 330000))),
        visited("杭州", 5, Some(100), Some(("杭州市", 330100, 330000))),
        visited("康定", 2, Some(300), Some(("甘孜藏族自治州", 513300, 510000))),
        visited("温州", 4, None, Some(("温州市", 330300, 330000))),
        visited("东京", 3, Some(50), None),
    ];
    let zj = light_cities(330000, &rows, &names());
    assert_eq!(zj.name, "浙江省");
    let listed: Vec<(&str, &str, u32, i64)> = zj
        .cities
        .iter()
        .map(|c| (c.name.as_str(), c.map_name.as_str(), c.adcode, c.visits))
        .collect();
    assert_eq!(
        listed,
        vec![("杭州", "杭州市", 330100, 5), ("宁波", "宁波市", 330200, 4), ("温州", "温州市", 330300, 4)]
    );
    let none = light_cities(110000, &rows, &names());
    assert_eq!(none.name, "110000");
    assert!(none.cities.is_empty());
}
