use kvstore::animals::animal_activities;
use kvstore::animals::animal_sound;
use kvstore::animals::create_animal;
use kvstore::animals::pet_info;
use kvstore::animals::Animal;
use kvstore::animals::Cat;
use kvstore::animals::Creature;
use kvstore::animals::Dog;
use kvstore::animals::Pet;

#[test]
fn dog_announcement_uses_says() {
    let rover = Dog { name: String::from("Rover") };
    assert_eq!(rover.name(), "Rover");
    assert_eq!(rover.sound(), "Woof!");
    assert_eq!(rover.make_sound(), "Rover says Woof!");
}

#[test]
fn cat_announcement_purrs_first() {
    let whiskers = Cat { name: String::from("Whiskers") };
    assert_eq!(whiskers.sound(), "Meow!");
    assert_eq!(whiskers.make_sound(), "Whiskers purrs and then says Meow!");
}

#[test]
fn animal_sound_dispatches_statically() {
    let rover = Dog { name: String::from("Rover") };
    let whiskers = Cat { name: String::from("Whiskers") };
    assert_eq!(animal_sound(&rover), "Rover says Woof!");
    assert_eq!(animal_sound(&whiskers), "Whiskers purrs and then says Meow!");
}

#[test]
fn pet_info_reports_friendliness() {
    let rover = Dog { name: String::from("Rover") };
    let whiskers = Cat { name: String::from("Whiskers") };
    assert!(rover.is_friendly());
    assert!(!whiskers.is_friendly());
    let (info, line) = pet_info(&rover);
    assert_eq!(info, "Pet 'Rover' is friendly: true");
    assert_eq!(line, "Rover says Woof!");
    let (info, line) = pet_info(&whiskers);
    assert_eq!(info, "Pet 'Whiskers' is friendly: false");
    assert_eq!(line, "Whiskers purrs and then says Meow!");
}

#[test]
fn animal_activities_reports_activity() {
    let rover = Dog { name: String::from("Rover") };
    let (active, line) = animal_activities(&rover);
    assert_eq!(active, "Rover is active!");
    assert_eq!(line, "Rover says Woof!");
}

#[test]
fn create_animal_builds_the_requested_kind() {
    let buddy = create_animal("dog", "Buddy");
    assert!(matches!(buddy, Creature::Dog(_)));
    assert_eq!(buddy.name(), "Buddy");
    assert_eq!(buddy.make_sound(), "Buddy says Woof!");

    let felix = create_animal("cat", "Felix");
    assert!(matches!(felix, Creature::Cat(_)));
    assert_eq!(felix.name(), "Felix");
    assert_eq!(felix.make_sound(), "Felix purrs and then says Meow!");
}
