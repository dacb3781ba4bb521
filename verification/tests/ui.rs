use bevyjam::audio::{AudioChannelPool, ChannelCounter, AudioCommand, PlaybackState};
use bevyjam::hints::Hints;
use bevyjam::hud::{ammo_text, format_clock, remaining_secs};
use bevyjam::inventory::{Inventory, InventoryItemHolder};
use bevyjam::menu::{
    button_sound, exit_label, time_up_result, goto_menu_label, replay_label, tool_button_look, ButtonInteraction, ButtonSound,
    GameMode, GameResult, ToolButtonLook, UsingTool,
};

#[test]
fn clock_faces() {
    assert_eq!(format_clock(125), "02:05");
    assert_eq!(format_clock(0), "00:00");
    assert_eq!(format_clock(59), "00:59");
    assert_eq!(format_clock(600), "10:00");
    assert_eq!(format_clock(6001), "100:01");
    assert_eq!(remaining_secs(120, 45), 75);
}

#[test]
fn ammo_counter_texts() {
    assert_eq!(ammo_text(30, 70), "Ammo: 30 | 70");
    assert_eq!(ammo_text(0, 0), "Ammo: 0 | 0");
    assert_eq!(ammo_text(-5, i32::MIN), "Ammo: -5 | -2147483648");
    assert_eq!(ammo_text(7, 120), format!("Ammo: {} | {}", 7, 120));
}

#[test]
fn hints_are_kept_once() {
    let mut hints = Hints::new();
    hints.push("this is the dev scene".to_string());
    hints.push("reload with R".to_string());
    hints.push("this is the dev scene".to_string());
    assert_eq!(hints.len(), 2);
    assert_eq!(hints.get(0), "this is the dev scene");
    assert_eq!(hints.get(1), "reload with R");
    assert_eq!(hints.iter(), vec!["this is the dev scene", "reload with R"]);
}

#[test]
fn picked_up_items_land_in_the_inventory() {
    let mut inv: Inventory<&str> = Inventory::new();
    inv.insert("key");
    let mut holder = InventoryItemHolder::new("medkit");
    assert!(holder.despawn_on_pickup);
    holder.pick_up(&mut inv);
    assert!(holder.item.is_none());
    holder.pick_up(&mut inv);
    assert_eq!(inv.len(), 2);
    assert_eq!(*inv.get(1), "medkit");
}

#[test]
fn audio_channels_are_reused() {
    let mut counter = ChannelCounter::new();
    let mut pool = AudioChannelPool::new();
    let a = pool.take(10, &mut counter);
    let b = pool.take(11, &mut counter);
    assert_ne!(a, b);
    assert_eq!(pool.give(10), a);
    // the freed channel goes to the next taker
    assert_eq!(pool.take(12, &mut counter), a);
    assert_eq!(pool.give(11), b);
    assert_eq!(pool.give(12), a);
    let c = pool.take(13, &mut counter);
    assert_eq!(c, a);
    assert!(pool.has_channel(13));
    assert!(!pool.has_channel(10));
    assert!(pool.can_supply(&counter));
}

#[test]
fn pools_sharing_a_counter_make_distinct_channels() {
    let mut counter = ChannelCounter::new();
    let mut first = AudioChannelPool::new();
    let mut second = AudioChannelPool::new();
    let a = first.take(1, &mut counter);
    let b = second.take(1, &mut counter);
    let c = first.take(2, &mut counter);
    assert_eq!((a, b, c), (0, 1, 2));
}

#[test]
fn playback_commands() {
    let mut s = PlaybackState::new();
    assert!(s.on_added() == AudioCommand::Play { looped: false });
    assert!(s.on_changed() == AudioCommand::Nothing);
    s.set_looping(true);
    assert!(s.on_changed() == AudioCommand::Play { looped: true });
    s.set_playing(false);
    assert!(s.on_changed() == AudioCommand::Stop);
    assert!(!s.was_playing);
    let mut quiet = PlaybackState::new();
    quiet.set_playing(false);
    assert!(quiet.on_added() == AudioCommand::Nothing);
}

#[test]
fn menu_texts() {
    assert_eq!(GameMode::Scenario1.menu_label(), "Main Scenario");
    assert_eq!(GameMode::DevPlayground.menu_label(), "Dev Playground");
    assert_eq!(GameResult::Win.heading(), "GREAT SUCCESS!");
    assert_eq!(GameResult::LoseTime.heading(), "GAME OVER");
    assert_eq!(GameResult::LoseHealth.message(), "You died. :(");
    assert_eq!(UsingTool::Rotate.label(), "Rotate");
    assert_eq!(UsingTool::all().len(), 3);
    assert_eq!(replay_label(), "Replay Scenario");
    assert_eq!(goto_menu_label(), "Exit to Menu");
    assert_eq!(exit_label(), "Exit Game");
}

#[test]
fn button_looks_and_sounds() {
    assert!(tool_button_look(UsingTool::Move, UsingTool::Move, ButtonInteraction::Clicked) == ToolButtonLook::Active);
    assert!(tool_button_look(UsingTool::Move, UsingTool::Select, ButtonInteraction::Hovered) == ToolButtonLook::Hover);
    assert!(tool_button_look(UsingTool::Move, UsingTool::Select, ButtonInteraction::Idle) == ToolButtonLook::Idle);
    assert!(button_sound(ButtonInteraction::Idle) == ButtonSound::Hover);
    assert!(button_sound(ButtonInteraction::Clicked) == ButtonSound::Off);
}

#[test]
fn timer_decides_a_loss_on_time() {
    assert_eq!(time_up_result(true), Some(GameResult::LoseTime));
    assert_eq!(time_up_result(false), None);
}
