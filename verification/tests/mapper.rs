use tracker_core::{
    devirtualize_led_index, index_of, make_table, virtual_index_of, Coordinate, NUM_LEDS,
    RING_COUNT, STEP_COUNT,
};

#[test]
fn index_of_and_table_are_equivalent() {
    let table = make_table();

    for ring in 0..RING_COUNT {
        for step in 0..STEP_COUNT {
            assert_eq!(
                table[ring][step],
                index_of(Coordinate::new(ring as u8, step as u8))
            );
        }
    }
}

#[test]
fn makes_coordinate() {
    let cases: [(u8, u16, u8, u8); 6] = [
        (0, 0, 0, 0),
        (1, 45, 1, 2),
        (4, 180, 4, 8),
        (4, 179, 4, 8),
        (4, 181, 4, 8),
        (4, 359, 4, 0),
    ];
    for (distance, angle, ring, step) in cases {
        assert_eq!(
            Coordinate::from_world_coordinates(distance, angle),
            Coordinate::new(ring, step)
        );
    }
}

#[test]
fn makes_coordinate_from_out_of_range_world() {
    // Totality: a distance beyond the last ring is clamped, and an angle
    // beyond a full turn is normalized.
    assert_eq!(
        Coordinate::from_world_coordinates(200, 0),
        Coordinate::new(4, 0)
    );
    assert_eq!(
        Coordinate::from_world_coordinates(0, 360),
        Coordinate::new(0, 0)
    );
    assert_eq!(
        Coordinate::from_world_coordinates(0, 405),
        Coordinate::new(0, 2)
    );
    assert_eq!(
        Coordinate::from_world_coordinates(255, 65535),
        Coordinate::from_world_coordinates(4, 65535 % 360)
    );
}

#[test]
fn calculates_virtual_index_of_led() {
    let cases: [(u8, u8, u8); 10] = [
        (0, 0, 79),
        (4, 15, 0),
        (4, 12, 3),
        (4, 0, 15),
        (4, 4, 11),
        (1, 7, 56),
        (1, 8, 55),
        (1, 9, 54),
        (1, 0, 63),
        (1, 1, 62),
    ];
    for (ring, step, expected) in cases {
        assert_eq!(virtual_index_of(Coordinate::new(ring, step)), expected);
    }
}

#[test]
fn devirtualizes_led_index() {
    let cases: [(u8, u8); 11] = [
        (0, 0),
        (4, 4),
        (47, 47),
        (48, 48),
        (49, 48),
        (63, 55),
        (64, 56),
        (72, 56),
        (79, 56),
        (80, 0),
        (160, 0),
    ];
    for (virtual_index, expected) in cases {
        assert_eq!(devirtualize_led_index(virtual_index), expected);
    }
}

#[test]
fn every_index_is_a_physical_element() {
    // Totality over the whole input type: every virtual address maps
    // below the physical element count.
    for v in 0..=255u8 {
        assert!((devirtualize_led_index(v) as usize) < NUM_LEDS);
    }
    for ring in 0..RING_COUNT {
        for step in 0..STEP_COUNT {
            let c = Coordinate::new(ring as u8, step as u8);
            assert!((index_of(c) as usize) < NUM_LEDS);
        }
    }
}

#[test]
fn coordinate_exposes_its_fields() {
    let c = Coordinate::new(3, 11);
    assert_eq!(c.ring(), 3);
    assert_eq!(c.step(), 11);
    let table = make_table();
    for distance in 0..8u8 {
        for angle in (0..720u16).step_by(17) {
            let c = Coordinate::from_world_coordinates(distance, angle);
            assert_eq!(
                table[c.ring() as usize][c.step() as usize],
                index_of(c)
            );
        }
    }
}
