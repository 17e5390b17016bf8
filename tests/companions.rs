use dsa_visualizer::driver::{step_due, Engine, STEP_INTERVAL_MS};
use dsa_visualizer::euclidean::EuclideanVisualizer;
use dsa_visualizer::gui::Button;
use dsa_visualizer::merkle::{hash_data, MerkleTree};
use dsa_visualizer::todo::TaskStatus;

#[test]
fn step_due_rules() {
    assert!(!step_due(false, None, 10, 2000));
    assert!(step_due(true, None, 0, 2000));
    assert!(!step_due(true, Some(1000), 2999, 2000));
    assert!(step_due(true, Some(1000), 3000, 2000));
    assert!(!step_due(true, Some(5000), 1000, 2000));
}

#[test]
fn engine_tick_paces_steps() {
    let mut e = EuclideanVisualizer::new();
    e.initialize();
    e.toggle_auto_traverse();
    let mut engine = Engine::Euclidean(e);
    assert!(engine.tick(100));
    assert_eq!(engine.last_step_time(), Some(100));
    assert!(!engine.tick(100 + STEP_INTERVAL_MS - 1));
    assert!(engine.tick(100 + STEP_INTERVAL_MS));
    match &engine {
        Engine::Euclidean(e) => assert_eq!(e.current_step(), 2),
        _ => unreachable!(),
    }
}

#[test]
fn hash_data_is_hex_sha256() {
    assert_eq!(
        hash_data("abc"),
        "ba7816bf8f01cfea414140de5dae2223b00361a396177a9cb410ff61f20015ad"
    );
}

#[test]
fn merkle_single_item_pairs_with_itself() {
    let data = vec!["Alice->Bob:50".to_string()];
    let tree = MerkleTree::new(&data);
    let h = hash_data("Alice->Bob:50");
    assert_eq!(tree.leaves, vec![h.clone(), h.clone()]);
    assert_eq!(tree.get_root(), hash_data(&format!("{}{}", h, h)));
}

#[test]
fn merkle_four_items() {
    let data: Vec<String> = vec!["a", "b", "c", "d"].into_iter().map(String::from).collect();
    let tree = MerkleTree::new(&data);
    let l: Vec<String> = data.iter().map(|s| hash_data(s)).collect();
    let ab = hash_data(&format!("{}{}", l[0], l[1]));
    let cd = hash_data(&format!("{}{}", l[2], l[3]));
    assert_eq!(tree.get_root(), hash_data(&format!("{}{}", ab, cd)));
    assert!(tree.leaves.contains(&hash_data("c")));
}

#[test]
fn task_status_round_trip() {
    assert_eq!(TaskStatus::from_string("DONE".to_string()), TaskStatus::DONE);
    assert_eq!(TaskStatus::from_string("PENDING".to_string()), TaskStatus::PENDING);
    assert_eq!(TaskStatus::DONE.as_str(), "DONE");
    assert_eq!(TaskStatus::PENDING.as_str(), "PENDING");
}

#[test]
fn button_new_keeps_fields() {
    let b = Button::new(10, 20, "OK".to_string());
    assert_eq!((b.height, b.width, b.label.as_str()), (10, 20, "OK"));
}
