use dotgrid::counts::final_count;
use dotgrid::data::{filter_legacy_records, JoinField, ShapeKind};
use dotgrid::masking::flatten_water;
use dotgrid::render::partition_by_dataset;
use dotgrid::data::parse_u32;
use dotgrid::geom::{signed_double_area, MultiPolygon, Pt};
use dotgrid::render::{hex_to_rgba, merc_x, tile_center, tile_pixel, Color};

fn square(x0: i64, y0: i64, x1: i64, y1: i64) -> Vec<Vec<Pt>> {
    vec![vec![
        Pt { x: x0, y: y0 },
        Pt { x: x1, y: y0 },
        Pt { x: x1, y: y1 },
        Pt { x: x0, y: y1 },
    ]]
}

#[test]
fn redistribution_exact_values() {
    // 60 and 40 known, 10 not stated: shares 6 and 4.
    assert_eq!(final_count(60, 100, 10), 66);
    assert_eq!(final_count(40, 100, 10), 44);
    // Nothing to redistribute keeps the raw count.
    assert_eq!(final_count(7, 7, 0), 7);
    // A zero known total keeps the known count and drops the rest.
    assert_eq!(final_count(0, 0, 5), 0);
    // Halves round up: 1 of 2 known, 1 not stated gives 1 + round(0.5) = 2.
    assert_eq!(final_count(1, 2, 1), 2);
}

#[test]
fn redistribution_conserves_total() {
    let cases: [(&[u32], u32); 3] = [
        (&[60, 40], 10),
        (&[3, 5, 9], 7),
        (&[1, 1, 1], 100),
    ];
    for (known, ns) in cases {
        let total: u64 = known.iter().map(|&k| k as u64).sum();
        let sum: u64 = known.iter().map(|&k| final_count(k, total, ns)).sum();
        let target = total + ns as u64;
        assert!(sum + known.len() as u64 >= target);
        assert!(sum <= target + known.len() as u64);
    }
}

#[test]
fn parse_u32_as_from_str() {
    assert_eq!(parse_u32("0"), Some(0));
    assert_eq!(parse_u32("+42"), Some(42));
    assert_eq!(parse_u32("4294967295"), Some(u32::MAX));
    assert_eq!(parse_u32("4294967296"), None);
    assert_eq!(parse_u32(""), None);
    assert_eq!(parse_u32("+"), None);
    assert_eq!(parse_u32("1x"), None);
    assert_eq!(parse_u32(" 1"), None);
}

#[test]
fn hex_colors() {
    let c = hex_to_rgba("#ff8000");
    assert_eq!(c, Color { red: 255, green: 128, blue: 0, alpha: 255 });
    let d = hex_to_rgba("##00ff00");
    assert_eq!(d, Color { red: 0, green: 255, blue: 0, alpha: 255 });
    // A malformed pair counts zero.
    let e = hex_to_rgba("zzff00");
    assert_eq!(e, Color { red: 0, green: 255, blue: 0, alpha: 255 });
}

#[test]
fn tile_center_reprojects_into_same_tile() {
    for z in [0u8, 1, 5, 12, 24] {
        let max_t: u32 = if z >= 5 { 17 } else { 1u32 << z };
        for t in 0..max_t {
            let m = tile_center(t, z);
            let (tx, _px) = tile_pixel(m, z);
            assert_eq!(tx, t);
        }
    }
}

#[test]
fn mercator_x_range() {
    assert_eq!(merc_x(-1_800_000_000), 0);
    assert_eq!(merc_x(1_800_000_000), 0x1_0000_0000);
    let mid = merc_x(0);
    assert_eq!(mid, 0x8000_0000);
}

#[test]
fn shoelace_area_of_square() {
    let mp = MultiPolygon { polygons: vec![square(0, 0, 10, 10)] };
    assert_eq!(signed_double_area(&mp), 200);
}

#[test]
fn partition_groups_by_dataset() {
    let mk = |ds: &str, cat: &str, x: i64| dotgrid::types::Dot {
        point: Pt { x, y: 0 },
        dataset: ds.to_string(),
        category: cat.to_string(),
    };
    let dots = vec![mk("a", "c1", 1), mk("b", "c2", 2), mk("a", "c1", 3)];
    let groups = partition_by_dataset(dots);
    assert_eq!(groups.len(), 2);
    assert_eq!(groups[0].0, "a");
    assert_eq!(groups[0].1.len(), 2);
    assert_eq!(groups[0].1[0].point.x, 1);
    assert_eq!(groups[0].1[1].point.x, 3);
    assert_eq!(groups[1].0, "b");
    assert_eq!(groups[1].1.len(), 1);
}

#[test]
fn legacy_record_filtering() {
    let mp = MultiPolygon { polygons: vec![square(0, 0, 1, 1)] };
    let kept = filter_legacy_records(vec![
        (JoinField::Text("A1".to_string()), ShapeKind::PolygonFamily(mp.clone())),
        (JoinField::NullText, ShapeKind::PolygonFamily(mp.clone())),
        (JoinField::Text("A2".to_string()), ShapeKind::Other),
    ])
    .unwrap();
    assert_eq!(kept.len(), 1);
    assert_eq!(kept[0].0, "A1");
    let err = filter_legacy_records(vec![(JoinField::Other, ShapeKind::PolygonFamily(mp))]);
    assert!(err.is_err());
}

#[test]
fn water_flattening_keeps_every_polygon() {
    let f1 = MultiPolygon { polygons: vec![square(0, 0, 1, 1), square(2, 2, 3, 3)] };
    let f2 = MultiPolygon { polygons: vec![square(4, 4, 5, 5)] };
    let polys = flatten_water(vec![f1, f2]);
    assert_eq!(polys.len(), 3);
    assert_eq!(polys[2][0][0], Pt { x: 4, y: 4 });
}
