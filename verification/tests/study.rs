use rust_study::study::{add, add_two, greeting, rustdemo_reply, Guess};

#[test]
fn lib_it_works() -> Result<(), String> {
    if add(2, 2) == 4 {
        Ok(())
    } else {
        Err(String::from("two plus two does not equal four"))
    }
}

#[test]
fn add_adds() {
    let result = add(2, 2);
    assert_eq!(result, 4);
    assert_eq!(add(10, 32), 42);
    assert_eq!(add(0, usize::MAX), usize::MAX);
}

#[test]
fn add_two_adds_two() {
    assert_eq!(add_two(2), 4);
    assert_eq!(add_two(-2), 0);
    assert_eq!(add_two(i32::MAX - 2), i32::MAX);
}

#[test]
fn greeting_contains_given_name() {
    assert!(greeting("Sunface").contains("Sunface"));
    assert!(greeting("孙飞").contains("孙飞"));
    assert_eq!(greeting("Sunface").find("Sunface"), Some(6));
}

#[test]
fn greeting_says_hello() {
    assert_eq!(greeting("Sunface"), "Hello Sunface!");
    assert_eq!(greeting(""), "Hello !");
    assert!(greeting("孙飞").contains("孙飞"));
}

#[test]
fn guess_accepts_its_range() {
    let _low = Guess::new(1);
    let _high = Guess::new(100);
}

#[test]
fn rustdemo_reply_appends_greeting() {
    assert_eq!(rustdemo_reply("Go"), "Go Rust say: Hello Go ");
    assert_eq!(rustdemo_reply(""), " Rust say: Hello Go ");
}
