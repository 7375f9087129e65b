//! What a commit report says of each layer.

use drmkit::planes::LayerId;
use drmkit::report::{CommitReport, LayerPlacement, Placement};

/// A report with one layer of each outcome.
fn report() -> CommitReport {
    CommitReport {
        placements: vec![
            LayerPlacement {
                layer: LayerId(1),
                placement: Placement::AssignedToPlane,
                plane_id: Some(31),
                plane_rotation_bits: 0,
            },
            LayerPlacement {
                layer: LayerId(2),
                placement: Placement::Composited,
                plane_id: Some(42),
                plane_rotation_bits: 0,
            },
            LayerPlacement {
                layer: LayerId(3),
                placement: Placement::Unassigned,
                plane_id: None,
                plane_rotation_bits: 0,
            },
        ],
        ..CommitReport::default()
    }
}

#[test]
fn each_outcome_is_found_with_the_plane_it_landed_on() {
    let report = report();

    let assigned = report.placement_of(LayerId(1)).expect("assigned");
    assert_eq!(assigned.placement, Placement::AssignedToPlane);
    assert_eq!(assigned.plane_id, Some(31));

    // A composited layer names the *canvas* plane, not one of its own --
    // a caller reading this as "the layer got plane 42" would think it had
    // a plane it does not have.
    let composited = report.placement_of(LayerId(2)).expect("composited");
    assert_eq!(composited.placement, Placement::Composited);
    assert_eq!(composited.plane_id, Some(42));

    let dropped = report.placement_of(LayerId(3)).expect("unassigned");
    assert_eq!(dropped.placement, Placement::Unassigned);
    assert_eq!(dropped.plane_id, None, "it reached no plane at all");
}

#[test]
fn a_layer_that_was_not_in_the_frame_has_no_placement() {
    assert!(report().placement_of(LayerId(4)).is_none());
    assert!(CommitReport::default().placement_of(LayerId(1)).is_none());
}

#[test]
fn a_recycled_slot_does_not_answer_for_the_layer_that_left_it() {
    // The identity a handle resolves to packs the slot's generation, so
    // the layer that took a freed slot has a different id and a stale
    // handle finds nothing. Without that, a caller holding a handle to a
    // removed layer would read the new occupant's outcome as its own.
    let slot_1_generation_1 = LayerId((1 << 32) | 1);
    let slot_1_generation_2 = LayerId((1 << 32) | 2);
    assert_ne!(slot_1_generation_1, slot_1_generation_2);

    let report = CommitReport {
        placements: vec![LayerPlacement {
            layer: slot_1_generation_2,
            placement: Placement::AssignedToPlane,
            plane_id: Some(31),
            plane_rotation_bits: 0,
        }],
        ..CommitReport::default()
    };
    assert!(report.placement_of(slot_1_generation_2).is_some());
    assert!(report.placement_of(slot_1_generation_1).is_none());
}

#[test]
fn only_a_composited_layer_was_composited() {
    let report = report();
    assert!(!report.was_composited(LayerId(1)), "it got a plane");
    assert!(report.was_composited(LayerId(2)));
    // Dropped is not composited: it never reached the screen, and a
    // caller treating the two alike would stop repainting a layer nobody
    // can see.
    assert!(!report.was_composited(LayerId(3)));
    assert!(!report.was_composited(LayerId(9)), "absent");
}
