use hexcam::level::Level;
use hexcam::levels::{insert_level_sorted, levels_or_default, LevelsResource};

#[test]
fn test_levels_resource_current_level() {
    let level1 = Level::new("Level 1".to_string(), 5, 5);
    let level2 = Level::new("Level 2".to_string(), 7, 7);

    let levels_resource = LevelsResource {
        levels: vec![level1, level2],
        current_level_index: 0,
    };

    assert_eq!(levels_resource.current_level().name, "Level 1");
    assert_eq!(levels_resource.level_count(), 2);
}

#[test]
fn empty_load_falls_back_to_single_default_level() {
    let resource = levels_or_default(Vec::new());
    assert_eq!(resource.level_count(), 1);
    assert_eq!(resource.current_level_index, 0);
    let level = resource.current_level();
    assert_eq!(level.name, "Default Level");
    assert_eq!(level.width, 10);
    assert_eq!(level.height, 10);
    assert_eq!(level.heights.len(), 100);
}

#[test]
fn nonempty_load_keeps_levels_and_selects_first() {
    let levels = vec![
        Level::new("A".to_string(), 3, 3),
        Level::new("B".to_string(), 4, 4),
    ];
    let resource = levels_or_default(levels);
    assert_eq!(resource.level_count(), 2);
    assert_eq!(resource.current_level_index, 0);
    assert_eq!(resource.current_level().name, "A");
}

#[test]
fn cycling_wraps_in_both_directions() {
    let levels = vec![
        Level::new("A".to_string(), 3, 3),
        Level::new("B".to_string(), 3, 3),
        Level::new("C".to_string(), 3, 3),
    ];
    let mut resource = LevelsResource::new(levels);
    resource.cycle_next();
    assert_eq!(resource.current_level_index, 1);
    resource.cycle_next();
    assert_eq!(resource.current_level_index, 2);
    resource.cycle_next();
    assert_eq!(resource.current_level_index, 0);
    resource.cycle_previous();
    assert_eq!(resource.current_level_index, 2);
    resource.cycle_previous();
    assert_eq!(resource.current_level_index, 1);
}

#[test]
fn sorted_insert_keeps_levels_in_name_order() {
    let mut levels: Vec<Level> = Vec::new();
    for name in ["Outpost", "Arena", "Zigzag", "Arena 2", "Basin"] {
        insert_level_sorted(&mut levels, Level::new(name.to_string(), 3, 3));
    }
    let names: Vec<&str> = levels.iter().map(|l| l.name.as_str()).collect();
    assert_eq!(names, vec!["Arena", "Arena 2", "Basin", "Outpost", "Zigzag"]);
}

#[test]
fn cycling_with_single_level_stays_put() {
    let mut resource = LevelsResource::with_default();
    resource.cycle_next();
    assert_eq!(resource.current_level_index, 0);
    resource.cycle_previous();
    assert_eq!(resource.current_level_index, 0);
}
