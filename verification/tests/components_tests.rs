use velos::components::{CarFollowingModel, GpuAgentState, Route, VehicleType, MAX_YIELD_TICKS};

#[test]
fn car_following_model_discriminants() {
    assert_eq!(CarFollowingModel::Idm as u8, 0);
    assert_eq!(CarFollowingModel::Krauss as u8, 1);
}

#[test]
fn car_following_model_equality() {
    assert_eq!(CarFollowingModel::Idm, CarFollowingModel::Idm);
    assert_ne!(CarFollowingModel::Idm, CarFollowingModel::Krauss);
}

#[test]
fn gpu_tag_matches_discriminant() {
    assert_eq!(CarFollowingModel::Idm.gpu_tag(), CarFollowingModel::Idm as u32);
    assert_eq!(CarFollowingModel::Krauss.gpu_tag(), CarFollowingModel::Krauss as u32);
}

#[test]
fn vehicle_type_gpu_indices_follow_declaration_order() {
    let all = [
        VehicleType::Motorbike,
        VehicleType::Car,
        VehicleType::Bus,
        VehicleType::Bicycle,
        VehicleType::Truck,
        VehicleType::Emergency,
        VehicleType::Pedestrian,
    ];
    for (i, v) in all.iter().enumerate() {
        assert_eq!(v.gpu_index(), i as u32);
    }
}

#[test]
fn route_finished_when_step_past_path() {
    let r = Route { path: vec![3, 4, 5], current_step: 2 };
    assert!(!r.is_finished());
    let r = Route { path: vec![3, 4, 5], current_step: 3 };
    assert!(r.is_finished());
    let r = Route { path: Vec::new(), current_step: 0 };
    assert!(r.is_finished());
}

#[test]
fn max_yield_ticks_value() {
    assert_eq!(MAX_YIELD_TICKS, 100);
}

#[test]
fn gpu_agent_state_is_ten_words() {
    assert_eq!(std::mem::size_of::<GpuAgentState>(), 40);
}
