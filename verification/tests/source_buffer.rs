use bencode_lib::BufferSource as Buffer;

#[test]
fn create_source_buffer_works() {
    let  source = Buffer::new(String::from("i32e").as_bytes());
    assert_eq!(source.to_string(), "i32e");
}
#[test]
fn read_character_from_source_buffer_works() {
    let  mut source = Buffer::new(String::from("i32e").as_bytes());
    match source.current() { Some('i') => assert!(true), _ => assert!(false)}
}
#[test]
fn move_to_next_character_in_source_buffer_works() {
    let  mut source = Buffer::new(String::from("i32e").as_bytes());
    source.next();
    match source.current() { Some('3') => assert!(true), _ => assert!(false)}
}
#[test]
fn move_to_last_character_in_source_buffer_works() {
    let  mut source = Buffer::new(String::from("i32e").as_bytes());
    while source.more() { source.next()}
    match source.current() { None => assert!(true), _ => assert!(false)}
}
#[test]
fn reset_in_source_buffer_works() {
    let  mut source = Buffer::new(String::from("i32e").as_bytes());
    while source.more() { source.next()}
    source.reset();
    match source.current() { Some('i') => assert!(true), _ => assert!(false)}
}
